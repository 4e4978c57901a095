//! Fixed-point arithmetic: samples are `i64` numbers that count 65536ths.
//! Every result is rounded toward zero and kept within the range of `i64`.

use crate::arith::{zero, Arith};
use crate::cnn::neutral_on;
use crate::decoded::byte_of;
use vstd::arithmetic::div_mod::{
    lemma_fundamental_div_mod, lemma_fundamental_div_mod_converse, lemma_mod_bound,
};
use vstd::prelude::*;

verus! {

/// Fixed-point arithmetic on `i64` samples.
#[derive(Clone, Copy, Debug)]
pub struct Fixed;

/// `n` where an `i64` holds it, and the nearest `i64` where not.
pub open spec fn saturated64(n: int) -> i64 {
    if n < i64::MIN {
        i64::MIN
    } else if n > i64::MAX {
        i64::MAX
    } else {
        n as i64
    }
}

/// The quotient `n / d`, rounded toward zero. Zero where `d` is zero.
pub open spec fn toward_zero(n: int, d: int) -> int {
    if d == 0 {
        0
    } else if (n >= 0) == (d > 0) {
        if n >= 0 {
            n / d
        } else {
            (-n) / (-d)
        }
    } else {
        if n >= 0 {
            -(n / (-d))
        } else {
            -((-n) / d)
        }
    }
}

/// The whole number nearest to the sample `a`; a half is rounded away from
/// zero.
pub open spec fn nearest_whole(a: int) -> int {
    if a >= 0 {
        (a + 32768) / 65536
    } else {
        -((-a + 32768) / 65536)
    }
}

/// `n` kept within the range of `i64`.
fn clamp64(n: i128) -> (r: i64)
    ensures
        r == saturated64(n as int),
{
    if n < i64::MIN as i128 {
        i64::MIN
    } else if n > i64::MAX as i128 {
        i64::MAX
    } else {
        n as i64
    }
}

/// The quotient `n / d`, rounded toward zero.
fn divide(n: i128, d: i128) -> (r: i128)
    requires
        d != 0,
        n > i128::MIN,
        d > i128::MIN,
    ensures
        r == toward_zero(n as int, d as int),
{
    if n >= 0 {
        if d > 0 {
            n / d
        } else {
            let q = n / (-d);
            assert(0 <= (n as int) / (-(d as int)) <= n) by (nonlinear_arith)
                requires
                    n >= 0,
                    -(d as int) >= 1,
            ;
            -q
        }
    } else {
        if d > 0 {
            let q = (-n) / d;
            assert(0 <= (-(n as int)) / (d as int) <= -(n as int)) by (nonlinear_arith)
                requires
                    -(n as int) >= 0,
                    d >= 1,
            ;
            -q
        } else {
            (-n) / (-d)
        }
    }
}

impl Arith<i64> for Fixed {
    open spec fn ratio_spec(&self, num: i32, den: u32) -> i64 {
        saturated64(toward_zero(num * 65536, den as int))
    }

    fn ratio(&self, num: i32, den: u32) -> (r: i64) {
        clamp64(divide((num as i128) * 65536i128, den as i128))
    }

    open spec fn sum_spec(&self, a: i64, b: i64) -> i64 {
        saturated64(a + b)
    }

    fn sum(&self, a: i64, b: i64) -> (r: i64) {
        clamp64((a as i128) + (b as i128))
    }

    open spec fn diff_spec(&self, a: i64, b: i64) -> i64 {
        saturated64(a - b)
    }

    fn diff(&self, a: i64, b: i64) -> (r: i64) {
        clamp64((a as i128) - (b as i128))
    }

    open spec fn product_spec(&self, a: i64, b: i64) -> i64 {
        saturated64(toward_zero(a * b, 65536))
    }

    fn product(&self, a: i64, b: i64) -> (r: i64) {
        assert(-0x4000_0000_0000_0000_0000_0000_0000_0000 <= a * b
            <= 0x4000_0000_0000_0000_0000_0000_0000_0000) by (nonlinear_arith)
            requires
                -0x8000_0000_0000_0000 <= a <= 0x7fff_ffff_ffff_ffff,
                -0x8000_0000_0000_0000 <= b <= 0x7fff_ffff_ffff_ffff,
        ;
        clamp64(divide((a as i128) * (b as i128), 65536i128))
    }

    open spec fn quotient_spec(&self, a: i64, b: i64) -> i64 {
        saturated64(toward_zero(a * 65536, b as int))
    }

    fn quotient(&self, a: i64, b: i64) -> (r: i64) {
        if b == 0 {
            0
        } else {
            clamp64(divide((a as i128) * 65536i128, b as i128))
        }
    }

    open spec fn negative_spec(&self, a: i64) -> bool {
        a < 0
    }

    fn is_negative(&self, a: i64) -> (r: bool) {
        a < 0
    }

    open spec fn nearest_spec(&self, a: i64) -> i32 {
        let n = nearest_whole(a as int);
        if n < i32::MIN {
            i32::MIN
        } else if n > i32::MAX {
            i32::MAX
        } else {
            n as i32
        }
    }

    fn nearest(&self, a: i64) -> (r: i32) {
        let half = 32768i128;
        let n = if a >= 0 {
            ((a as i128) + half) / 65536i128
        } else {
            let q = (-(a as i128) + half) / 65536i128;
            -q
        };
        if n < i32::MIN as i128 {
            i32::MIN
        } else if n > i32::MAX as i128 {
            i32::MAX
        } else {
            n as i32
        }
    }
}

/// In fixed-point arithmetic an 8-bit sample survives the way into a buffer
/// and back unchanged: the 8-bit value of `b / 255` is `b`.
pub proof fn lemma_fixed_byte_round_trip(b: u8)
    ensures
        byte_of(&Fixed, Fixed.ratio_spec(b as i32, 255)) == b,
{
    let n = b * 65536;
    let v = n / 255;
    lemma_fundamental_div_mod(n, 255);
    lemma_mod_bound(n, 255);
    assert(Fixed.ratio_spec(b as i32, 255) == v);
    assert(Fixed.ratio_spec(255, 1) == 255 * 65536);
    let wide = v * (255 * 65536);
    assert(v * (255 * 65536) == (v * 255) * 65536) by (nonlinear_arith);
    lemma_fundamental_div_mod_converse(wide, 65536, v * 255, 0);
    assert(Fixed.product_spec(v as i64, (255 * 65536) as i64) == v * 255);
    let r = n % 255;
    assert(v * 255 + 32768 == b * 65536 + (32768 - r));
    lemma_fundamental_div_mod_converse(v * 255 + 32768, 65536, b as int, 32768 - r);
}

/// In fixed-point arithmetic zero and one are neutral on every sample.
pub proof fn lemma_fixed_is_neutral(c: i64)
    ensures
        neutral_on(&Fixed, c),
{
    assert(zero(&Fixed) == 0);
    assert(Fixed.ratio_spec(1, 1) == 65536);
    if c >= 0 {
        lemma_fundamental_div_mod_converse(c * 65536, 65536, c as int, 0);
    } else {
        lemma_fundamental_div_mod_converse(-(c * 65536), 65536, -(c as int), 0);
    }
}

} // verus!
