//! The arithmetic of a sample type.

use vstd::prelude::*;

verus! {

/// Arithmetic on samples of type `T`.
///
/// Each operation is a function of its operands alone. The spec function
/// beside an operation names the value it returns, and the contracts of the
/// library are stated over those names, so that what is proved holds for
/// every implementation.
///
/// [`crate::fixed::Fixed`] implements the trait for fixed-point samples.
/// Arithmetic that verified code cannot hold, such as floating point, is
/// implemented by the program that uses the library. Such an implementation
/// is not checked: it gives each name the body of its operation, and what the
/// library proves then rests on every operation returning the same result for
/// the same operands.
pub trait Arith<T: Copy> {
    /// The sample that stands for the quotient `num / den`.
    spec fn ratio_spec(&self, num: i32, den: u32) -> T;

    /// The sample that stands for `num / den`.
    fn ratio(&self, num: i32, den: u32) -> (r: T)
        requires
            den > 0,
        ensures
            r == self.ratio_spec(num, den),
    ;

    /// The sum `a + b`.
    spec fn sum_spec(&self, a: T, b: T) -> T;

    /// `a + b`.
    fn sum(&self, a: T, b: T) -> (r: T)
        ensures
            r == self.sum_spec(a, b),
    ;

    /// The difference `a - b`.
    spec fn diff_spec(&self, a: T, b: T) -> T;

    /// `a - b`.
    fn diff(&self, a: T, b: T) -> (r: T)
        ensures
            r == self.diff_spec(a, b),
    ;

    /// The product `a * b`.
    spec fn product_spec(&self, a: T, b: T) -> T;

    /// `a * b`.
    fn product(&self, a: T, b: T) -> (r: T)
        ensures
            r == self.product_spec(a, b),
    ;

    /// The quotient `a / b`.
    spec fn quotient_spec(&self, a: T, b: T) -> T;

    /// `a / b`.
    fn quotient(&self, a: T, b: T) -> (r: T)
        ensures
            r == self.quotient_spec(a, b),
    ;

    /// Whether `a` is below zero.
    spec fn negative_spec(&self, a: T) -> bool;

    /// Whether `a < 0`.
    fn is_negative(&self, a: T) -> (r: bool)
        ensures
            r == self.negative_spec(a),
    ;

    /// The integer nearest to `a`.
    spec fn nearest_spec(&self, a: T) -> i32;

    /// `a` rounded to the nearest integer.
    fn nearest(&self, a: T) -> (r: i32)
        ensures
            r == self.nearest_spec(a),
    ;
}

/// The sample that stands for zero.
pub open spec fn zero<T: Copy, A: Arith<T>>(ops: &A) -> T {
    ops.ratio_spec(0, 1)
}

/// Leaky rectification: `v` where it is not below zero, and a tenth of `v`
/// where it is.
pub open spec fn leaky<T: Copy, A: Arith<T>>(ops: &A, v: T) -> T {
    if ops.negative_spec(v) {
        ops.product_spec(v, ops.ratio_spec(1, 10))
    } else {
        v
    }
}

/// Leaky rectification of `v`, given a tenth.
pub fn leaky_rectify<T: Copy, A: Arith<T>>(ops: &A, v: T, tenth: T) -> (r: T)
    requires
        tenth == ops.ratio_spec(1, 10),
    ensures
        r == leaky(ops, v),
{
    if ops.is_negative(v) {
        ops.product(v, tenth)
    } else {
        v
    }
}

/// The sum of the nine products `v[k] * w[k]`, added from the first to the
/// last.
pub open spec fn dot9<T: Copy, A: Arith<T>>(ops: &A, v: Seq<T>, w: Seq<T>) -> T {
    ops.sum_spec(
        ops.sum_spec(
            ops.sum_spec(
                ops.sum_spec(
                    ops.sum_spec(
                        ops.sum_spec(
                            ops.sum_spec(
                                ops.sum_spec(
                                    ops.product_spec(v[0], w[0]),
                                    ops.product_spec(v[1], w[1]),
                                ),
                                ops.product_spec(v[2], w[2]),
                            ),
                            ops.product_spec(v[3], w[3]),
                        ),
                        ops.product_spec(v[4], w[4]),
                    ),
                    ops.product_spec(v[5], w[5]),
                ),
                ops.product_spec(v[6], w[6]),
            ),
            ops.product_spec(v[7], w[7]),
        ),
        ops.product_spec(v[8], w[8]),
    )
}

/// A vector of `n` copies of `value`.
pub fn filled<T: Copy>(n: usize, value: T) -> (v: Vec<T>)
    ensures
        v@ == Seq::new(n as nat, |i: int| value),
{
    let mut v: Vec<T> = Vec::with_capacity(n);
    let mut i: usize = 0;
    while i < n
        invariant
            i <= n,
            v@ == Seq::new(i as nat, |k: int| value),
        decreases n - i,
    {
        v.push(value);
        i += 1;
        assert(v@ =~= Seq::new(i as nat, |k: int| value));
    }
    v
}

} // verus!
