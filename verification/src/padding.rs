//! Transforms that lay a buffer out anew: filling the padding, adding
//! padding, and enlarging to twice the size.

use crate::arith::{zero, Arith};
use crate::feature_map::Image;
use crate::grid::{doubled, lemma_grids_equal, replicated};
use crate::layout::{
    aligned, clamped, layout_fits, layout_stride, lemma_aligned, lemma_next_row,
    lemma_offset_distinct, lemma_offset_in_rows, offset, plane_at,
};
use vstd::arithmetic::div_mod::{lemma_div_pos_is_pos, lemma_multiply_divide_lt};
use vstd::prelude::*;

verus! {

/// What a plane holds at row `y` and column `x` once its padding is filled:
/// inside the padded rows the nearest sample of the valid region, and beyond
/// them what it held before.
pub open spec fn filled_at<T>(
    before: Seq<T>,
    stride: int,
    width: int,
    height: int,
    padding: int,
    y: int,
    x: int,
) -> T {
    if x < width + 2 * padding {
        plane_at(
            before,
            stride,
            clamped(y, padding, padding + height - 1),
            clamped(x, padding, padding + width - 1),
        )
    } else {
        plane_at(before, stride, y, x)
    }
}

/// Fills the padding of one plane: every sample around the valid region
/// becomes a copy of the nearest sample of the valid region.
fn fill_plane_padding<T: Copy>(
    plane: &mut Vec<T>,
    stride: usize,
    width: usize,
    height: usize,
    padding: usize,
)
    requires
        width >= 1,
        height >= 1,
        width + 2 * padding <= stride,
        height + 2 * padding <= usize::MAX,
        old(plane).len() == (height + 2 * padding) * stride,
    ensures
        final(plane).len() == old(plane).len(),
        forall|y: int, x: int|
            0 <= y < height + 2 * padding && 0 <= x < stride ==> #[trigger] plane_at(
                final(plane)@,
                stride as int,
                y,
                x,
            ) == filled_at(
                old(plane)@,
                stride as int,
                width as int,
                height as int,
                padding as int,
                y,
                x,
            ),
{
    let ghost before = plane@;
    let ghost st = stride as int;
    let ghost w = width as int;
    let ghost h = height as int;
    let ghost pad = padding as int;
    let full_width = width + 2 * padding;
    let full_height = height + 2 * padding;
    let mut y: usize = 0;
    while y < full_height
        invariant
            y <= full_height,
            st == stride,
            w == width,
            h == height,
            pad == padding,
            width >= 1,
            height >= 1,
            full_width == width + 2 * padding,
            full_height == height + 2 * padding,
            full_width <= stride,
            plane.len() == before.len(),
            before.len() == full_height * stride,
            forall|yy: int, xx: int|
                0 <= yy < full_height && 0 <= xx < stride ==> #[trigger] plane_at(
                    plane@,
                    st,
                    yy,
                    xx,
                ) == (if yy < y {
                    filled_at(before, st, w, h, pad, yy, xx)
                } else {
                    plane_at(before, st, yy, xx)
                }),
        decreases full_height - y,
    {
        let inside = padding <= y && y < padding + height;
        let sy = if y < padding {
            padding
        } else if y >= padding + height {
            padding + height - 1
        } else {
            y
        };
        proof {
            lemma_offset_in_rows(y as int, 0, st, full_height as int);
            lemma_offset_in_rows(sy as int, 0, st, full_height as int);
        }
        let dst_row = y * stride;
        let src_row = sy * stride;
        let mut x: usize = 0;
        while x < full_width
            invariant
                x <= full_width,
                y < full_height,
                st == stride,
                w == width,
                h == height,
                pad == padding,
                width >= 1,
                height >= 1,
                full_width == width + 2 * padding,
                full_height == height + 2 * padding,
                full_width <= stride,
                plane.len() == before.len(),
                before.len() == full_height * stride,
                inside == (padding <= y && y < padding + height),
                sy == clamped(y as int, pad, pad + h - 1),
                dst_row == y * stride,
                src_row == sy * stride,
                dst_row + stride <= plane.len(),
                src_row + stride <= plane.len(),
                inside ==> x <= padding || x >= padding + width,
                forall|yy: int, xx: int|
                    0 <= yy < full_height && 0 <= xx < stride ==> #[trigger] plane_at(
                        plane@,
                        st,
                        yy,
                        xx,
                    ) == (if yy < y || (yy == y && xx < x) {
                        filled_at(before, st, w, h, pad, yy, xx)
                    } else {
                        plane_at(before, st, yy, xx)
                    }),
            decreases full_width - x,
        {
            if inside && x == padding {
                x = x + width;
            } else {
                let sx = if x < padding {
                    padding
                } else if x >= padding + width {
                    padding + width - 1
                } else {
                    x
                };
                let ghost prev = plane@;
                let v = plane[src_row + sx];
                plane[dst_row + x] = v;
                proof {
                    assert(plane_at(prev, st, sy as int, sx as int) == plane_at(
                        before,
                        st,
                        sy as int,
                        sx as int,
                    ));
                    assert forall|yy: int, xx: int|
                        0 <= yy < full_height && 0 <= xx < stride implies #[trigger] plane_at(
                        plane@,
                        st,
                        yy,
                        xx,
                    ) == (if yy < y || (yy == y && xx < x + 1) {
                        filled_at(before, st, w, h, pad, yy, xx)
                    } else {
                        plane_at(before, st, yy, xx)
                    }) by {
                        lemma_offset_in_rows(yy, xx, st, full_height as int);
                        if yy != y || xx != x {
                            lemma_offset_distinct(yy, xx, y as int, x as int, st);
                            assert(plane_at(plane@, st, yy, xx) == plane_at(prev, st, yy, xx));
                        }
                    }
                }
                x = x + 1;
            }
        }
        y = y + 1;
    }
}

/// What a plane built around enlarged source samples holds at row `y` and
/// column `x`: inside the valid region the source sample that covers the
/// place, each source sample covering `scale` rows and columns, and `fill`
/// everywhere else.
pub open spec fn enlarged_at<T>(
    src: Seq<T>,
    src_stride: int,
    src_padding: int,
    scale: int,
    width: int,
    height: int,
    padding: int,
    fill: T,
    y: int,
    x: int,
) -> T {
    if padding <= y < padding + height && padding <= x < padding + width {
        plane_at(
            src,
            src_stride,
            (y - padding) / scale + src_padding,
            (x - padding) / scale + src_padding,
        )
    } else {
        fill
    }
}

/// Builds a padded plane around the valid region of a source plane, each
/// source sample repeated over `scale` rows and columns. Everything outside
/// the valid region is `fill`.
fn padded_plane<T: Copy>(
    src: &Vec<T>,
    src_stride: usize,
    src_padding: usize,
    src_width: usize,
    src_height: usize,
    scale: usize,
    width: usize,
    height: usize,
    padding: usize,
    stride: usize,
    fill: T,
) -> (out: Vec<T>)
    requires
        scale >= 1,
        width == scale * src_width,
        height == scale * src_height,
        src_width + 2 * src_padding <= src_stride,
        src.len() == (src_height + 2 * src_padding) * src_stride,
        width + 2 * padding <= stride,
        (height + 2 * padding) * stride <= usize::MAX,
        height + 2 * padding <= usize::MAX,
    ensures
        out.len() == (height + 2 * padding) * stride,
        forall|y: int, x: int|
            0 <= y < height + 2 * padding && 0 <= x < stride ==> #[trigger] plane_at(
                out@,
                stride as int,
                y,
                x,
            ) == enlarged_at(
                src@,
                src_stride as int,
                src_padding as int,
                scale as int,
                width as int,
                height as int,
                padding as int,
                fill,
                y,
                x,
            ),
{
    let ghost st = stride as int;
    let full_height = height + 2 * padding;
    let mut out: Vec<T> = Vec::new();
    let mut y: usize = 0;
    while y < full_height
        invariant
            y <= full_height,
            st == stride,
            scale >= 1,
            width == scale * src_width,
            height == scale * src_height,
            src_width + 2 * src_padding <= src_stride,
            src.len() == (src_height + 2 * src_padding) * src_stride,
            full_height == height + 2 * padding,
            width + 2 * padding <= stride,
            full_height * stride <= usize::MAX,
            out.len() == y * stride,
            forall|yy: int, xx: int|
                0 <= yy < y && 0 <= xx < stride ==> {
                    &&& 0 <= #[trigger] offset(yy, st, xx) < out.len()
                    &&& out[offset(yy, st, xx)] == enlarged_at(
                        src@,
                        src_stride as int,
                        src_padding as int,
                        scale as int,
                        width as int,
                        height as int,
                        padding as int,
                        fill,
                        yy,
                        xx,
                    )
                },
        decreases full_height - y,
    {
        proof {
            lemma_next_row(y as int, st);
            assert((y + 1) * st <= full_height * st) by (nonlinear_arith)
                requires
                    y + 1 <= full_height,
                    0 <= st,
            ;
        }
        let inside_rows = padding <= y && y < padding + height;
        let mut x: usize = 0;
        while x < stride
            invariant
                x <= stride,
                y < full_height,
                st == stride,
                scale >= 1,
                width == scale * src_width,
                height == scale * src_height,
                src_width + 2 * src_padding <= src_stride,
                src.len() == (src_height + 2 * src_padding) * src_stride,
                full_height == height + 2 * padding,
                width + 2 * padding <= stride,
                (y + 1) * st == y * st + st,
                (y + 1) * st <= usize::MAX,
                inside_rows == (padding <= y && y < padding + height),
                out.len() == y * stride + x,
                forall|yy: int, xx: int|
                    0 <= yy < y && 0 <= xx < stride ==> {
                        &&& 0 <= #[trigger] offset(yy, st, xx) < out.len()
                        &&& out[offset(yy, st, xx)] == enlarged_at(
                            src@,
                            src_stride as int,
                            src_padding as int,
                            scale as int,
                            width as int,
                            height as int,
                            padding as int,
                            fill,
                            yy,
                            xx,
                        )
                    },
                forall|xx: int|
                    0 <= xx < x ==> {
                        &&& 0 <= #[trigger] offset(y as int, st, xx) < out.len()
                        &&& out[offset(y as int, st, xx)] == enlarged_at(
                            src@,
                            src_stride as int,
                            src_padding as int,
                            scale as int,
                            width as int,
                            height as int,
                            padding as int,
                            fill,
                            y as int,
                            xx,
                        )
                    },
            decreases stride - x,
        {
            if inside_rows && padding <= x && x < padding + width {
                proof {
                    let sy = (y - padding) / (scale as int);
                    let sx = (x - padding) / (scale as int);
                    lemma_div_pos_is_pos(y - padding, scale as int);
                    lemma_div_pos_is_pos(x - padding, scale as int);
                    lemma_multiply_divide_lt(y - padding, scale as int, src_height as int);
                    lemma_multiply_divide_lt(x - padding, scale as int, src_width as int);
                    lemma_offset_in_rows(
                        sy + src_padding,
                        sx + src_padding,
                        src_stride as int,
                        src_height + 2 * src_padding,
                    );
                    assert(src_height + 2 * src_padding <= (src_height + 2 * src_padding)
                        * src_stride) by (nonlinear_arith)
                        requires
                            src_stride >= 1,
                    ;
                }
                let sy = (y - padding) / scale + src_padding;
                let sx = (x - padding) / scale + src_padding;
                out.push(src[sy * src_stride + sx]);
            } else {
                out.push(fill);
            }
            x += 1;
        }
        y += 1;
    }
    proof {
        assert forall|yy: int, xx: int|
            0 <= yy < height + 2 * padding && 0 <= xx < stride implies #[trigger] plane_at(
            out@,
            st,
            yy,
            xx,
        ) == enlarged_at(
            src@,
            src_stride as int,
            src_padding as int,
            scale as int,
            width as int,
            height as int,
            padding as int,
            fill,
            yy,
            xx,
        ) by {
            assert(out[offset(yy, st, xx)] == enlarged_at(
                src@,
                src_stride as int,
                src_padding as int,
                scale as int,
                width as int,
                height as int,
                padding as int,
                fill,
                yy,
                xx,
            ));
        }
    }
    out
}

impl<T: Copy> Image<T> {
    /// `after` is this buffer with its padding filled: in the padded rows of
    /// every plane, each sample is the nearest sample of the valid region of
    /// this buffer, and what lies beyond the padded rows is as it was. The
    /// layout is the same.
    pub open spec fn is_padding_filled(&self, after: &Image<T>) -> bool {
        &&& after.wf()
        &&& after.same_layout(self)
        &&& forall|p: int, y: int, x: int|
            0 <= p < self.data.len() && 0 <= y < self.full_height() && 0 <= x < self.full_width()
                ==> #[trigger] after.sample(p, y, x) == self.sample(
                p,
                self.nearest_row(y),
                self.nearest_column(x),
            )
        &&& forall|p: int, y: int, x: int|
            0 <= p < self.data.len() && 0 <= y < self.full_height() && self.full_width() <= x
                < self.strides[p] ==> #[trigger] after.sample(p, y, x) == self.sample(p, y, x)
    }

    /// Replicates the border of the valid region outward, on every plane:
    /// a sample above or below the valid region becomes a copy of the first
    /// or last valid sample of its column, one to the left or right a copy of
    /// the first or last valid sample of its row, and one in a corner a copy
    /// of the valid sample in that corner. The valid region and what lies
    /// beyond the padded rows stay as they are.
    pub fn fill_padding_area(&mut self)
        requires
            old(self).wf(),
            old(self).width >= 1,
            old(self).height >= 1,
        ensures
            old(self).is_padding_filled(final(self)),
    {
        let ghost before = *self;
        let planes = self.data.len();
        let mut k: usize = 0;
        while k < planes
            invariant
                k <= planes,
                planes == before.data.len(),
                before.wf(),
                before.width >= 1,
                before.height >= 1,
                self.same_layout(&before),
                forall|p: int|
                    0 <= p < planes ==> (#[trigger] self.data[p]).len() == before.data[p].len(),
                forall|p: int| k <= p < planes ==> #[trigger] self.data[p] == before.data[p],
                forall|p: int, y: int, x: int|
                    0 <= p < k && 0 <= y < before.full_height() && 0 <= x < before.strides[p]
                        ==> #[trigger] plane_at(self.data[p]@, before.strides[p] as int, y, x)
                        == filled_at(
                        before.data[p]@,
                        before.strides[p] as int,
                        before.width as int,
                        before.height as int,
                        before.padding as int,
                        y,
                        x,
                    ),
            decreases planes - k,
        {
            let stride = self.strides[k];
            let width = self.width;
            let height = self.height;
            let padding = self.padding;
            fill_plane_padding(&mut self.data[k], stride, width, height, padding);
            k += 1;
        }
    }

    /// A new buffer of twice the width and height, in which each sample of
    /// the valid region is repeated over a block of two rows and two columns.
    /// The new buffer has the padding and alignment asked for; its padding
    /// and what lies beyond the padded rows hold zero.
    pub fn scale2x<A: Arith<T>>(&self, padding: usize, alignment: usize, ops: &A) -> (out: Image<T>)
        requires
            self.wf(),
            layout_fits(2 * self.width, 2 * self.height, padding as int, alignment as int),
        ensures
            out.wf(),
            out.width == 2 * self.width,
            out.height == 2 * self.height,
            out.padding == padding,
            out.alignment == alignment,
            out.color_space == self.color_space,
            out.data.len() == self.data.len(),
            forall|p: int|
                0 <= p < out.strides.len() ==> #[trigger] out.strides[p] == aligned(
                    out.full_width(),
                    alignment as int,
                ),
            forall|p: int, y: int, x: int|
                0 <= p < out.data.len() && 0 <= y < out.height && 0 <= x < out.width
                    ==> #[trigger] out.pixel(p, y, x) == self.pixel(p, y / 2, x / 2),
            forall|p: int, y: int, x: int|
                0 <= p < out.data.len() && 0 <= y < out.full_height() && 0 <= x < out.strides[p]
                    && !(padding <= y < padding + out.height && padding <= x < padding + out.width)
                    ==> #[trigger] out.sample(p, y, x) == zero(ops),
            out.valid_grid() == doubled(self.valid_grid(), self.height as int, self.width as int),
    {
        proof {
            lemma_aligned(2 * self.width + 2 * padding, alignment as int);
        }
        let width = self.width * 2;
        let height = self.height * 2;
        let stride = match layout_stride(width, height, padding, alignment) {
            Some(s) => s,
            None => unreached(),
        };
        let fill = ops.ratio(0, 1);
        let mut data: Vec<Vec<T>> = Vec::with_capacity(self.data.len());
        let mut strides: Vec<usize> = Vec::with_capacity(self.data.len());
        let mut k: usize = 0;
        while k < self.data.len()
            invariant
                k <= self.data.len(),
                self.wf(),
                width == 2 * self.width,
                height == 2 * self.height,
                layout_fits(width as int, height as int, padding as int, alignment as int),
                stride == aligned(width + 2 * padding, alignment as int),
                width + 2 * padding <= stride,
                fill == zero(ops),
                data.len() == k,
                strides.len() == k,
                forall|p: int| 0 <= p < k ==> #[trigger] strides[p] == stride,
                forall|p: int|
                    0 <= p < k ==> (#[trigger] data[p]).len() == (height + 2 * padding) * stride,
                forall|p: int, y: int, x: int|
                    0 <= p < k && 0 <= y < height + 2 * padding && 0 <= x < stride
                        ==> #[trigger] plane_at(data[p]@, stride as int, y, x) == enlarged_at(
                        self.data[p]@,
                        self.strides[p] as int,
                        self.padding as int,
                        2,
                        width as int,
                        height as int,
                        padding as int,
                        fill,
                        y,
                        x,
                    ),
            decreases self.data.len() - k,
        {
            let plane = padded_plane(
                &self.data[k],
                self.strides[k],
                self.padding,
                self.width,
                self.height,
                2,
                width,
                height,
                padding,
                stride,
                fill,
            );
            data.push(plane);
            strides.push(stride);
            k += 1;
        }
        let out = Image {
            width,
            height,
            color_space: self.color_space,
            data,
            strides,
            padding,
            alignment,
        };
        proof {
            assert forall|p: int, y: int, x: int|
                0 <= p < out.data.len() && 0 <= y < out.height && 0 <= x
                    < out.width implies #[trigger] out.pixel(p, y, x) == self.pixel(
                p,
                y / 2,
                x / 2,
            ) by {
                assert(out.pixel(p, y, x) == plane_at(
                    out.data[p]@,
                    stride as int,
                    y + padding,
                    x + padding,
                ));
            }
            assert forall|p: int, y: int, x: int|
                0 <= p < out.data.len() && 0 <= y < out.full_height() && 0 <= x < out.strides[p]
                    && !(padding <= y < padding + out.height && padding <= x < padding
                    + out.width) implies #[trigger] out.sample(p, y, x) == zero(ops) by {
                assert(out.sample(p, y, x) == plane_at(out.data[p]@, stride as int, y, x));
            }
            let a = out.valid_grid();
            let b = doubled(self.valid_grid(), self.height as int, self.width as int);
            assert forall|p: int, y: int, x: int|
                0 <= p < out.data.len() && 0 <= y < out.height && 0 <= x
                    < out.width implies #[trigger] a[p][y][x] == b[p][y][x] by {
                assert(a[p][y][x] == out.pixel(p, y, x));
                assert(0 <= y / 2 < self.height && 0 <= x / 2 < self.width);
                assert(self.valid_grid()[p][y / 2][x / 2] == self.pixel(p, y / 2, x / 2));
            }
            lemma_grids_equal(a, b, out.data.len() as int, out.height as int, out.width as int);
        }
        out
    }

    /// A new buffer with the same valid region and `padding` samples around
    /// it on every side, without alignment. Every sample of the padding is a
    /// copy of the nearest sample of the valid region.
    pub fn add_padding(&self, padding: usize) -> (out: Image<T>)
        requires
            self.wf(),
            self.width >= 1,
            self.height >= 1,
            layout_fits(self.width as int, self.height as int, padding as int, 1),
        ensures
            out.wf(),
            out.width == self.width,
            out.height == self.height,
            out.padding == padding,
            out.alignment == 1,
            out.color_space == self.color_space,
            out.data.len() == self.data.len(),
            forall|p: int| 0 <= p < out.strides.len() ==> #[trigger] out.strides[p] == out.full_width(),
            forall|p: int, y: int, x: int|
                0 <= p < out.data.len() && 0 <= y < out.full_height() && 0 <= x < out.full_width()
                    ==> #[trigger] out.sample(p, y, x) == self.pixel(
                    p,
                    clamped(y - padding, 0, self.height - 1),
                    clamped(x - padding, 0, self.width - 1),
                ),
            out.grid() == replicated(
                self.valid_grid(),
                self.height as int,
                self.width as int,
                padding as int,
            ),
    {
        let width = self.width;
        let height = self.height;
        let stride = width + 2 * padding;
        let mut data: Vec<Vec<T>> = Vec::with_capacity(self.data.len());
        let mut strides: Vec<usize> = Vec::with_capacity(self.data.len());
        let mut k: usize = 0;
        while k < self.data.len()
            invariant
                k <= self.data.len(),
                self.wf(),
                width == self.width,
                height == self.height,
                width >= 1,
                height >= 1,
                layout_fits(width as int, height as int, padding as int, 1),
                stride == width + 2 * padding,
                data.len() == k,
                strides.len() == k,
                forall|p: int| 0 <= p < k ==> #[trigger] strides[p] == stride,
                forall|p: int|
                    0 <= p < k ==> (#[trigger] data[p]).len() == (height + 2 * padding) * stride,
                forall|p: int, y: int, x: int|
                    0 <= p < k && padding <= y < padding + height && padding <= x < padding
                        + width ==> #[trigger] plane_at(data[p]@, stride as int, y, x)
                        == self.pixel(p, y - padding, x - padding),
            decreases self.data.len() - k,
        {
            proof {
                lemma_offset_in_rows(
                    self.padding as int,
                    self.padding as int,
                    self.strides[k as int] as int,
                    self.full_height(),
                );
            }
            let fill = self.data[k][self.padding * self.strides[k] + self.padding];
            let plane = padded_plane(
                &self.data[k],
                self.strides[k],
                self.padding,
                width,
                height,
                1,
                width,
                height,
                padding,
                stride,
                fill,
            );
            proof {
                assert forall|y: int, x: int|
                    padding <= y < padding + height && padding <= x < padding
                        + width implies #[trigger] plane_at(plane@, stride as int, y, x)
                    == self.pixel(k as int, y - padding, x - padding) by {
                    assert(plane_at(plane@, stride as int, y, x) == enlarged_at(
                        self.data[k as int]@,
                        self.strides[k as int] as int,
                        self.padding as int,
                        1,
                        width as int,
                        height as int,
                        padding as int,
                        fill,
                        y,
                        x,
                    ));
                }
            }
            data.push(plane);
            strides.push(stride);
            k += 1;
        }
        let mut out = Image {
            width,
            height,
            color_space: self.color_space,
            data,
            strides,
            padding,
            alignment: 1,
        };
        let ghost built = out;
        out.fill_padding_area();
        proof {
            assert forall|p: int, y: int, x: int|
                0 <= p < out.data.len() && 0 <= y < out.full_height() && 0 <= x
                    < out.full_width() implies #[trigger] out.sample(p, y, x) == self.pixel(
                p,
                clamped(y - padding, 0, self.height - 1),
                clamped(x - padding, 0, self.width - 1),
            ) by {
                let ny = built.nearest_row(y);
                let nx = built.nearest_column(x);
                assert(out.sample(p, y, x) == built.sample(p, ny, nx));
                assert(built.sample(p, ny, nx) == plane_at(built.data[p]@, stride as int, ny, nx));
            }
            let a = out.grid();
            let b = replicated(
                self.valid_grid(),
                self.height as int,
                self.width as int,
                padding as int,
            );
            assert forall|p: int, y: int, x: int|
                0 <= p < out.data.len() && 0 <= y < out.full_height() && 0 <= x
                    < out.full_width() implies #[trigger] a[p][y][x] == b[p][y][x] by {
                let sy = clamped(y - padding, 0, self.height - 1);
                let sx = clamped(x - padding, 0, self.width - 1);
                assert(a[p][y][x] == out.sample(p, y, x));
                assert(self.valid_grid()[p][sy][sx] == self.pixel(p, sy, sx));
            }
            lemma_grids_equal(a, b, out.data.len() as int, out.full_height(), out.full_width());
        }
        out
    }

    /// The valid region of plane `p` as a plane of its own, stored row by
    /// row without gaps.
    pub fn valid_plane(&self, p: usize) -> (plane: Vec<T>)
        requires
            self.wf(),
            p < self.data.len(),
            self.width >= 1,
            self.height >= 1,
        ensures
            plane.len() == self.height * self.width,
            forall|y: int, x: int|
                0 <= y < self.height && 0 <= x < self.width ==> #[trigger] plane_at(
                    plane@,
                    self.width as int,
                    y,
                    x,
                ) == self.pixel(p as int, y, x),
    {
        proof {
            lemma_offset_in_rows(
                self.padding as int,
                self.padding as int,
                self.strides[p as int] as int,
                self.full_height(),
            );
            assert(self.height * self.width <= self.full_height() * self.strides[p as int])
                by (nonlinear_arith)
                requires
                    0 <= self.height <= self.full_height(),
                    0 <= self.width <= self.strides[p as int],
            ;
        }
        let fill = self.data[p][self.padding * self.strides[p] + self.padding];
        let plane = padded_plane(
            &self.data[p],
            self.strides[p],
            self.padding,
            self.width,
            self.height,
            1,
            self.width,
            self.height,
            0,
            self.width,
            fill,
        );
        proof {
            assert forall|y: int, x: int|
                0 <= y < self.height && 0 <= x < self.width implies #[trigger] plane_at(
                plane@,
                self.width as int,
                y,
                x,
            ) == self.pixel(p as int, y, x) by {
                assert(plane_at(plane@, self.width as int, y, x) == enlarged_at(
                    self.data[p as int]@,
                    self.strides[p as int] as int,
                    self.padding as int,
                    1,
                    self.width as int,
                    self.height as int,
                    0,
                    fill,
                    y,
                    x,
                ));
            }
        }
        plane
    }
}

} // verus!
