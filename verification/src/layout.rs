//! Places in buffers that are stored row by row: offsets, alignment and
//! sizes.

use vstd::arithmetic::div_mod::{
    lemma_fundamental_div_mod, lemma_fundamental_div_mod_converse, lemma_mod_bound,
};
use vstd::prelude::*;

verus! {

/// The place of column `x` in row `y` of a buffer stored row by row.
pub open spec fn offset(y: int, stride: int, x: int) -> int {
    y * stride + x
}

/// The sample at row `y` and column `x` of a plane stored row by row.
pub open spec fn plane_at<T>(plane: Seq<T>, stride: int, y: int, x: int) -> T {
    plane[offset(y, stride, x)]
}

/// Row `y + 1` starts one stride after row `y`.
pub proof fn lemma_next_row(y: int, stride: int)
    requires
        0 <= y,
        0 <= stride,
    ensures
        0 <= y * stride,
        (y + 1) * stride == y * stride + stride,
{
    assert(0 <= y * stride) by (nonlinear_arith)
        requires
            0 <= y,
            0 <= stride,
    ;
    assert((y + 1) * stride == y * stride + stride) by (nonlinear_arith);
}

/// Row `y` of a buffer of `rows` rows ends inside the buffer.
pub proof fn lemma_row_within(y: int, stride: int, rows: int)
    requires
        0 <= y < rows,
        0 <= stride,
    ensures
        0 <= y * stride,
        (y + 1) * stride == y * stride + stride,
        (y + 1) * stride <= rows * stride,
{
    lemma_next_row(y, stride);
    assert((y + 1) * stride <= rows * stride) by (nonlinear_arith)
        requires
            y + 1 <= rows,
            0 <= stride,
    ;
}

/// `y * stride + x` lies inside a buffer of `rows` rows of `stride` samples.
pub proof fn lemma_offset_in_rows(y: int, x: int, stride: int, rows: int)
    requires
        0 <= y < rows,
        0 <= x < stride,
    ensures
        0 <= y * stride <= y * stride + x < (y + 1) * stride <= rows * stride,
        (y + 1) * stride == y * stride + stride,
{
    lemma_row_within(y, stride, rows);
}

/// Two places of a buffer stored row by row differ where the rows or the
/// columns differ.
pub proof fn lemma_offset_distinct(y1: int, x1: int, y2: int, x2: int, stride: int)
    requires
        0 <= y1,
        0 <= y2,
        0 <= x1 < stride,
        0 <= x2 < stride,
        y1 != y2 || x1 != x2,
    ensures
        offset(y1, stride, x1) != offset(y2, stride, x2),
{
    if y1 < y2 {
        lemma_offset_in_rows(y1, x1, stride, y2);
        lemma_next_row(y2, stride);
    } else if y2 < y1 {
        lemma_offset_in_rows(y2, x2, stride, y1);
        lemma_next_row(y1, stride);
    }
}

/// A product of smaller factors is smaller.
pub(crate) proof fn lemma_product_shrinks(a: int, b: int, c: int, d: int)
    requires
        0 <= a <= c,
        0 <= b <= d,
    ensures
        0 <= a * b <= c * d,
{
    assert(0 <= a * b <= c * d) by (nonlinear_arith)
        requires
            0 <= a <= c,
            0 <= b <= d,
    ;
}

/// `v` where it lies between `low` and `high`, and the nearer of the two
/// where it does not.
pub open spec fn clamped(v: int, low: int, high: int) -> int {
    if v < low {
        low
    } else if v > high {
        high
    } else {
        v
    }
}

/// The least multiple of `alignment` that is not below `length`.
pub open spec fn aligned(length: int, alignment: int) -> int {
    if length % alignment == 0 {
        length
    } else {
        length + alignment - length % alignment
    }
}

/// `aligned(length, alignment)` is a multiple of the alignment, not below the
/// length and less than one alignment above it.
pub proof fn lemma_aligned(length: int, alignment: int)
    requires
        0 <= length,
        1 <= alignment,
    ensures
        length <= aligned(length, alignment) < length + alignment,
        aligned(length, alignment) % alignment == 0,
{
    lemma_mod_bound(length, alignment);
    lemma_fundamental_div_mod(length, alignment);
    if length % alignment != 0 {
        let q = length / alignment;
        assert(alignment * q + alignment == (q + 1) * alignment) by (nonlinear_arith);
        lemma_fundamental_div_mod_converse(aligned(length, alignment), alignment, q + 1, 0);
    }
}

/// A buffer of this extent, padding and alignment can be laid out: the
/// alignment is at least 1 and no size leaves the range of `usize`.
pub open spec fn layout_fits(width: int, height: int, padding: int, alignment: int) -> bool {
    &&& alignment >= 1
    &&& height + 2 * padding <= usize::MAX
    &&& aligned(width + 2 * padding, alignment) <= usize::MAX
    &&& (height + 2 * padding) * aligned(width + 2 * padding, alignment) <= usize::MAX
}

/// The stride of a plane of this extent, padding and alignment: the padded
/// row length, rounded up to the next multiple of the alignment. `None` where
/// the layout does not fit.
pub fn layout_stride(width: usize, height: usize, padding: usize, alignment: usize) -> (r: Option<
    usize,
>)
    ensures
        match r {
            Some(stride) => layout_fits(
                width as int,
                height as int,
                padding as int,
                alignment as int,
            ) && stride == aligned(width + 2 * padding, alignment as int),
            None => !layout_fits(width as int, height as int, padding as int, alignment as int),
        },
{
    if alignment == 0 {
        return None;
    }
    proof {
        lemma_aligned(width + 2 * padding, alignment as int);
    }
    let twice = match padding.checked_mul(2) {
        Some(n) => n,
        None => {
            return None;
        },
    };
    let full_width = match width.checked_add(twice) {
        Some(n) => n,
        None => {
            return None;
        },
    };
    let full_height = match height.checked_add(twice) {
        Some(n) => n,
        None => {
            return None;
        },
    };
    let rest = full_width % alignment;
    let stride = if rest == 0 {
        full_width
    } else {
        match full_width.checked_add(alignment - rest) {
            Some(n) => n,
            None => {
                return None;
            },
        }
    };
    match full_height.checked_mul(stride) {
        Some(_) => Some(stride),
        None => None,
    }
}

} // verus!
