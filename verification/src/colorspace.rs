//! Conversion of a buffer between RGB and luma/chroma planes, with the fixed
//! coefficients of ITU-R BT.601.

use crate::arith::{zero, Arith};
use crate::feature_map::{ColorSpace, Image};
use crate::grid::{grid_of, lemma_grids_equal, Grid};
use crate::layout::{
    lemma_next_row, lemma_offset_distinct, lemma_offset_in_rows, lemma_row_within, offset,
    plane_at,
};
use vstd::prelude::*;

verus! {

/// A sample of the range 0 to 1, brought to the range 0 to 255.
pub open spec fn scaled<T: Copy, A: Arith<T>>(ops: &A, v: T) -> T {
    ops.product_spec(v, ops.ratio_spec(255, 1))
}

/// A value of the range 0 to 255, brought back to the range 0 to 1.
pub open spec fn unscaled<T: Copy, A: Arith<T>>(ops: &A, v: T) -> T {
    ops.quotient_spec(v, ops.ratio_spec(255, 1))
}

/// Luma of an RGB pixel: `0.299 R + 0.587 G + 0.114 B`.
pub open spec fn luma<T: Copy, A: Arith<T>>(ops: &A, r: T, g: T, b: T) -> T {
    unscaled(
        ops,
        ops.sum_spec(
            ops.sum_spec(
                ops.sum_spec(zero(ops), ops.product_spec(ops.ratio_spec(299, 1000), scaled(ops, r))),
                ops.product_spec(ops.ratio_spec(587, 1000), scaled(ops, g)),
            ),
            ops.product_spec(ops.ratio_spec(114, 1000), scaled(ops, b)),
        ),
    )
}

/// Blue-difference chroma of an RGB pixel:
/// `128 - 0.168736 R - 0.331264 G + 0.5 B`.
pub open spec fn chroma_blue<T: Copy, A: Arith<T>>(ops: &A, r: T, g: T, b: T) -> T {
    unscaled(
        ops,
        ops.sum_spec(
            ops.diff_spec(
                ops.diff_spec(
                    ops.ratio_spec(128, 1),
                    ops.product_spec(ops.ratio_spec(168736, 1000000), scaled(ops, r)),
                ),
                ops.product_spec(ops.ratio_spec(331264, 1000000), scaled(ops, g)),
            ),
            ops.product_spec(ops.ratio_spec(1, 2), scaled(ops, b)),
        ),
    )
}

/// Red-difference chroma of an RGB pixel:
/// `128 + 0.5 R - 0.418688 G - 0.081312 B`.
pub open spec fn chroma_red<T: Copy, A: Arith<T>>(ops: &A, r: T, g: T, b: T) -> T {
    unscaled(
        ops,
        ops.diff_spec(
            ops.diff_spec(
                ops.sum_spec(
                    ops.ratio_spec(128, 1),
                    ops.product_spec(ops.ratio_spec(1, 2), scaled(ops, r)),
                ),
                ops.product_spec(ops.ratio_spec(418688, 1000000), scaled(ops, g)),
            ),
            ops.product_spec(ops.ratio_spec(81312, 1000000), scaled(ops, b)),
        ),
    )
}

/// Red of a luma/chroma pixel: `Y + 1.402 (Cr - 128)`.
pub open spec fn red<T: Copy, A: Arith<T>>(ops: &A, y: T, cb: T, cr: T) -> T {
    unscaled(
        ops,
        ops.sum_spec(
            scaled(ops, y),
            ops.product_spec(
                ops.ratio_spec(1402, 1000),
                ops.diff_spec(scaled(ops, cr), ops.ratio_spec(128, 1)),
            ),
        ),
    )
}

/// Green of a luma/chroma pixel:
/// `Y - 0.34414 (Cb - 128) - 0.71414 (Cr - 128)`.
pub open spec fn green<T: Copy, A: Arith<T>>(ops: &A, y: T, cb: T, cr: T) -> T {
    unscaled(
        ops,
        ops.diff_spec(
            ops.diff_spec(
                scaled(ops, y),
                ops.product_spec(
                    ops.ratio_spec(34414, 100000),
                    ops.diff_spec(scaled(ops, cb), ops.ratio_spec(128, 1)),
                ),
            ),
            ops.product_spec(
                ops.ratio_spec(71414, 100000),
                ops.diff_spec(scaled(ops, cr), ops.ratio_spec(128, 1)),
            ),
        ),
    )
}

/// Blue of a luma/chroma pixel: `Y + 1.772 (Cb - 128)`.
pub open spec fn blue<T: Copy, A: Arith<T>>(ops: &A, y: T, cb: T, cr: T) -> T {
    unscaled(
        ops,
        ops.sum_spec(
            scaled(ops, y),
            ops.product_spec(
                ops.ratio_spec(1772, 1000),
                ops.diff_spec(scaled(ops, cb), ops.ratio_spec(128, 1)),
            ),
        ),
    )
}

/// Plane `p` of a pixel in the color space `target`, given its three planes
/// `a`, `b` and `c` in the other color space.
pub open spec fn converted<T: Copy, A: Arith<T>>(
    ops: &A,
    target: ColorSpace,
    p: int,
    a: T,
    b: T,
    c: T,
) -> T {
    match target {
        ColorSpace::I444 => if p == 0 {
            luma(ops, a, b, c)
        } else if p == 1 {
            chroma_blue(ops, a, b, c)
        } else {
            chroma_red(ops, a, b, c)
        },
        ColorSpace::RGB => if p == 0 {
            red(ops, a, b, c)
        } else if p == 1 {
            green(ops, a, b, c)
        } else {
            blue(ops, a, b, c)
        },
    }
}

/// A grid of `h` rows of `w` samples whose first three planes are brought to
/// the color space `target`, pixel by pixel.
pub open spec fn recolored<T: Copy, A: Arith<T>>(
    ops: &A,
    target: ColorSpace,
    g: Grid<T>,
    h: int,
    w: int,
) -> Grid<T> {
    grid_of(
        g.len() as int,
        h,
        w,
        |p: int, y: int, x: int|
            if p < 3 {
                converted(ops, target, p, g[0][y][x], g[1][y][x], g[2][y][x])
            } else {
                g[p][y][x]
            },
    )
}

/// The constants of the two conversions.
pub(crate) struct Coefficients<T> {
    zero: T,
    half: T,
    c128: T,
    c255: T,
    y_r: T,
    y_g: T,
    y_b: T,
    cb_r: T,
    cb_g: T,
    cr_g: T,
    cr_b: T,
    r_cr: T,
    g_cb: T,
    g_cr: T,
    b_cb: T,
}

/// The constants are those of the arithmetic `ops`.
pub(crate) closed spec fn holds_constants<T: Copy, A: Arith<T>>(ops: &A, k: &Coefficients<T>) -> bool {
    *k == Coefficients::of(ops)
}

/// The constants of the two conversions in the arithmetic `ops`.
pub(crate) fn conversion_constants<T: Copy, A: Arith<T>>(ops: &A) -> (k: Coefficients<T>)
    ensures
        holds_constants(ops, &k),
{
    Coefficients::new(ops)
}

impl<T: Copy> Coefficients<T> {
    pub(crate) closed spec fn of<A: Arith<T>>(ops: &A) -> Coefficients<T> {
        Coefficients {
            zero: zero(ops),
            half: ops.ratio_spec(1, 2),
            c128: ops.ratio_spec(128, 1),
            c255: ops.ratio_spec(255, 1),
            y_r: ops.ratio_spec(299, 1000),
            y_g: ops.ratio_spec(587, 1000),
            y_b: ops.ratio_spec(114, 1000),
            cb_r: ops.ratio_spec(168736, 1000000),
            cb_g: ops.ratio_spec(331264, 1000000),
            cr_g: ops.ratio_spec(418688, 1000000),
            cr_b: ops.ratio_spec(81312, 1000000),
            r_cr: ops.ratio_spec(1402, 1000),
            g_cb: ops.ratio_spec(34414, 100000),
            g_cr: ops.ratio_spec(71414, 100000),
            b_cb: ops.ratio_spec(1772, 1000),
        }
    }

    fn new<A: Arith<T>>(ops: &A) -> (r: Coefficients<T>)
        ensures
            r == Coefficients::of(ops),
    {
        Coefficients {
            zero: ops.ratio(0, 1),
            half: ops.ratio(1, 2),
            c128: ops.ratio(128, 1),
            c255: ops.ratio(255, 1),
            y_r: ops.ratio(299, 1000),
            y_g: ops.ratio(587, 1000),
            y_b: ops.ratio(114, 1000),
            cb_r: ops.ratio(168736, 1000000),
            cb_g: ops.ratio(331264, 1000000),
            cr_g: ops.ratio(418688, 1000000),
            cr_b: ops.ratio(81312, 1000000),
            r_cr: ops.ratio(1402, 1000),
            g_cb: ops.ratio(34414, 100000),
            g_cr: ops.ratio(71414, 100000),
            b_cb: ops.ratio(1772, 1000),
        }
    }
}

/// The three planes of one pixel in the color space `target`, given its
/// planes in the other color space.
pub(crate) fn convert_pixel<T: Copy, A: Arith<T>>(
    ops: &A,
    k: &Coefficients<T>,
    target: ColorSpace,
    a: T,
    b: T,
    c: T,
) -> (r: (T, T, T))
    requires
        holds_constants(ops, k),
    ensures
        r.0 == converted(ops, target, 0, a, b, c),
        r.1 == converted(ops, target, 1, a, b, c),
        r.2 == converted(ops, target, 2, a, b, c),
{
    let sa = ops.product(a, k.c255);
    let sb = ops.product(b, k.c255);
    let sc = ops.product(c, k.c255);
    match target {
        ColorSpace::I444 => {
            let y = ops.sum(
                ops.sum(ops.sum(k.zero, ops.product(k.y_r, sa)), ops.product(k.y_g, sb)),
                ops.product(k.y_b, sc),
            );
            let cb = ops.sum(
                ops.diff(ops.diff(k.c128, ops.product(k.cb_r, sa)), ops.product(k.cb_g, sb)),
                ops.product(k.half, sc),
            );
            let cr = ops.diff(
                ops.diff(ops.sum(k.c128, ops.product(k.half, sa)), ops.product(k.cr_g, sb)),
                ops.product(k.cr_b, sc),
            );
            (ops.quotient(y, k.c255), ops.quotient(cb, k.c255), ops.quotient(cr, k.c255))
        },
        ColorSpace::RGB => {
            let r = ops.sum(sa, ops.product(k.r_cr, ops.diff(sc, k.c128)));
            let g = ops.diff(
                ops.diff(sa, ops.product(k.g_cb, ops.diff(sb, k.c128))),
                ops.product(k.g_cr, ops.diff(sc, k.c128)),
            );
            let b = ops.sum(sa, ops.product(k.b_cb, ops.diff(sb, k.c128)));
            (ops.quotient(r, k.c255), ops.quotient(g, k.c255), ops.quotient(b, k.c255))
        },
    }
}

/// Writes one sample of a plane stored row by row.
fn store<T: Copy>(plane: &mut Vec<T>, stride: usize, y: usize, x: usize, v: T)
    requires
        x < stride,
        (y + 1) * stride <= old(plane).len(),
    ensures
        final(plane).len() == old(plane).len(),
        forall|yy: int, xx: int|
            0 <= yy && 0 <= xx < stride && offset(yy, stride as int, xx) < old(plane).len()
                ==> #[trigger] plane_at(final(plane)@, stride as int, yy, xx) == (if yy == y && xx
                == x {
                v
            } else {
                plane_at(old(plane)@, stride as int, yy, xx)
            }),
{
    let ghost before = plane@;
    proof {
        lemma_next_row(y as int, stride as int);
    }
    plane[y * stride + x] = v;
    proof {
        assert forall|yy: int, xx: int|
            0 <= yy && 0 <= xx < stride && offset(yy, stride as int, xx)
                < before.len() implies #[trigger] plane_at(plane@, stride as int, yy, xx) == (if yy
            == y && xx == x {
            v
        } else {
            plane_at(before, stride as int, yy, xx)
        }) by {
            lemma_next_row(yy, stride as int);
            if yy != y || xx != x {
                lemma_offset_distinct(yy, xx, y as int, x as int, stride as int);
            }
        }
    }
}

impl<T: Copy> Image<T> {
    /// Plane `p` of the pixel at row `y` and column `x`, counted from the
    /// corner of the padded plane, once the pixel is brought to `target`.
    pub open spec fn converted_sample<A: Arith<T>>(
        &self,
        ops: &A,
        target: ColorSpace,
        p: int,
        y: int,
        x: int,
    ) -> T {
        converted(ops, target, p, self.sample(0, y, x), self.sample(1, y, x), self.sample(2, y, x))
    }

    /// The samples of a row that a conversion reaches: as many as the
    /// shortest of the first three planes has in a row. That is the whole
    /// row, padding and what lies behind it included, where the three planes
    /// have one stride.
    pub open spec fn converted_width(&self) -> int {
        if self.strides[0] <= self.strides[1] && self.strides[0] <= self.strides[2] {
            self.strides[0] as int
        } else if self.strides[1] <= self.strides[2] {
            self.strides[1] as int
        } else {
            self.strides[2] as int
        }
    }

    /// `after` is this buffer brought to the color space `target`: the first
    /// three planes of every pixel that a conversion reaches are converted,
    /// and everything else is as it was.
    pub open spec fn is_converted<A: Arith<T>>(
        &self,
        ops: &A,
        target: ColorSpace,
        after: &Image<T>,
    ) -> bool {
        &&& after.wf()
        &&& after.width == self.width
        &&& after.height == self.height
        &&& after.padding == self.padding
        &&& after.alignment == self.alignment
        &&& after.strides@ == self.strides@
        &&& after.data.len() == self.data.len()
        &&& after.color_space == target
        &&& forall|p: int, y: int, x: int|
            0 <= p < 3 && 0 <= y < self.full_height() && 0 <= x < self.converted_width()
                ==> #[trigger] after.sample(p, y, x) == self.converted_sample(ops, target, p, y, x)
        &&& forall|p: int, y: int, x: int|
            0 <= p < 3 && 0 <= y < self.full_height() && self.converted_width() <= x
                < self.strides[p] ==> #[trigger] after.sample(p, y, x) == self.sample(p, y, x)
        &&& forall|p: int| 3 <= p < self.data.len() ==> #[trigger] after.data[p] == self.data[p]
    }

    /// Converts the first three planes of every pixel that a conversion
    /// reaches to `target`.
    fn convert<A: Arith<T>>(&mut self, target: ColorSpace, ops: &A)
        requires
            old(self).wf(),
            old(self).data.len() >= 3,
        ensures
            old(self).is_converted(ops, target, final(self)),
    {
        let ghost first = *self;
        let k = Coefficients::new(ops);
        let full_height = self.height + 2 * self.padding;
        let s0 = self.strides[0];
        let s1 = self.strides[1];
        let s2 = self.strides[2];
        let reach = if s0 <= s1 && s0 <= s2 {
            s0
        } else if s1 <= s2 {
            s1
        } else {
            s2
        };
        let mut y: usize = 0;
        while y < full_height
            invariant
                y <= full_height,
                first.wf(),
                first.data.len() >= 3,
                k == Coefficients::of(ops),
                reach == first.converted_width(),
                full_height == first.full_height(),
                s0 == first.strides[0],
                s1 == first.strides[1],
                s2 == first.strides[2],
                self.same_layout(&first),
                forall|p: int|
                    0 <= p < self.data.len() ==> (#[trigger] self.data[p]).len()
                        == first.data[p].len(),
                forall|p: int| 3 <= p < self.data.len() ==> #[trigger] self.data[p] == first.data[p],
                forall|p: int, yy: int, xx: int|
                    0 <= p < 3 && 0 <= yy < full_height && 0 <= xx < first.strides[p]
                        ==> #[trigger] self.sample(p, yy, xx) == (if yy < y && xx < reach {
                        first.converted_sample(ops, target, p, yy, xx)
                    } else {
                        first.sample(p, yy, xx)
                    }),
            decreases full_height - y,
        {
            proof {
                lemma_row_within(y as int, s0 as int, full_height as int);
                lemma_row_within(y as int, s1 as int, full_height as int);
                lemma_row_within(y as int, s2 as int, full_height as int);
            }
            let mut x: usize = 0;
            while x < reach
                invariant
                    x <= reach,
                    y < full_height,
                    first.wf(),
                    first.data.len() >= 3,
                    k == Coefficients::of(ops),
                    reach == first.converted_width(),
                    full_height == first.full_height(),
                    s0 == first.strides[0],
                    s1 == first.strides[1],
                    s2 == first.strides[2],
                    (y + 1) * s0 <= first.data[0].len(),
                    (y + 1) * s1 <= first.data[1].len(),
                    (y + 1) * s2 <= first.data[2].len(),
                    self.same_layout(&first),
                    forall|p: int|
                        0 <= p < self.data.len() ==> (#[trigger] self.data[p]).len()
                            == first.data[p].len(),
                    forall|p: int|
                        3 <= p < self.data.len() ==> #[trigger] self.data[p] == first.data[p],
                    forall|p: int, yy: int, xx: int|
                        0 <= p < 3 && 0 <= yy < full_height && 0 <= xx < first.strides[p]
                            ==> #[trigger] self.sample(p, yy, xx) == (if (yy < y || (yy == y && xx
                            < x)) && xx < reach {
                            first.converted_sample(ops, target, p, yy, xx)
                        } else {
                            first.sample(p, yy, xx)
                        }),
                decreases reach - x,
            {
                let ghost prev = *self;
                proof {
                    lemma_next_row(y as int, s0 as int);
                    lemma_next_row(y as int, s1 as int);
                    lemma_next_row(y as int, s2 as int);
                    assert(self.sample(0, y as int, x as int) == first.sample(0, y as int, x as int));
                    assert(self.sample(1, y as int, x as int) == first.sample(1, y as int, x as int));
                    assert(self.sample(2, y as int, x as int) == first.sample(2, y as int, x as int));
                }
                let a = self.data[0][y * s0 + x];
                let b = self.data[1][y * s1 + x];
                let c = self.data[2][y * s2 + x];
                let (na, nb, nc) = convert_pixel(ops, &k, target, a, b, c);
                store(&mut self.data[0], s0, y, x, na);
                store(&mut self.data[1], s1, y, x, nb);
                store(&mut self.data[2], s2, y, x, nc);
                proof {
                    assert forall|p: int, yy: int, xx: int|
                        0 <= p < 3 && 0 <= yy < full_height && 0 <= xx
                            < first.strides[p] implies #[trigger] self.sample(p, yy, xx) == (if (yy
                        < y || (yy == y && xx < x + 1)) && xx < reach {
                        first.converted_sample(ops, target, p, yy, xx)
                    } else {
                        first.sample(p, yy, xx)
                    }) by {
                        lemma_offset_in_rows(yy, xx, first.strides[p] as int, full_height as int);
                        assert(prev.sample(p, yy, xx) == plane_at(
                            prev.data[p]@,
                            first.strides[p] as int,
                            yy,
                            xx,
                        ));
                    }
                }
                x += 1;
            }
            y += 1;
        }
        let ghost done = *self;
        self.color_space = target;
        proof {
            assert forall|p: int, yy: int, xx: int|
                0 <= p < 3 && 0 <= yy < full_height && 0 <= xx
                    < first.strides[p] implies #[trigger] self.sample(p, yy, xx) == done.sample(
                p,
                yy,
                xx,
            ) by {}
        }
    }

    /// Brings the buffer to the color space `color_space`. Nothing changes
    /// where it is in that color space already.
    pub fn change_colorspace<A: Arith<T>>(&mut self, color_space: ColorSpace, ops: &A)
        requires
            old(self).wf(),
            old(self).color_space != color_space ==> old(self).data.len() >= 3,
        ensures
            old(self).color_space == color_space ==> *final(self) == *old(self),
            old(self).color_space != color_space ==> old(self).is_converted(
                ops,
                color_space,
                final(self),
            ),
    {
        if self.color_space == color_space {
            return ;
        }
        match color_space {
            ColorSpace::RGB => self.change_colorspace_rgb(ops),
            ColorSpace::I444 => self.change_colorspace_i444(ops),
        }
    }

    /// Brings the buffer to RGB. Nothing changes where it is RGB already.
    pub fn change_colorspace_rgb<A: Arith<T>>(&mut self, ops: &A)
        requires
            old(self).wf(),
            old(self).color_space != ColorSpace::RGB ==> old(self).data.len() >= 3,
        ensures
            old(self).color_space == ColorSpace::RGB ==> *final(self) == *old(self),
            old(self).color_space != ColorSpace::RGB ==> old(self).is_converted(
                ops,
                ColorSpace::RGB,
                final(self),
            ),
    {
        if self.color_space == ColorSpace::RGB {
            return ;
        }
        self._i444_to_rgb(ops);
    }

    /// Brings the buffer to luma/chroma planes. Nothing changes where it
    /// holds them already.
    pub fn change_colorspace_i444<A: Arith<T>>(&mut self, ops: &A)
        requires
            old(self).wf(),
            old(self).color_space != ColorSpace::I444 ==> old(self).data.len() >= 3,
        ensures
            old(self).color_space == ColorSpace::I444 ==> *final(self) == *old(self),
            old(self).color_space != ColorSpace::I444 ==> old(self).is_converted(
                ops,
                ColorSpace::I444,
                final(self),
            ),
    {
        if self.color_space == ColorSpace::I444 {
            return ;
        }
        self._rgb_to_i444(ops);
    }

    fn _rgb_to_i444<A: Arith<T>>(&mut self, ops: &A)
        requires
            old(self).wf(),
            old(self).data.len() >= 3,
        ensures
            old(self).is_converted(ops, ColorSpace::I444, final(self)),
    {
        self.convert(ColorSpace::I444, ops);
    }

    fn _i444_to_rgb<A: Arith<T>>(&mut self, ops: &A)
        requires
            old(self).wf(),
            old(self).data.len() >= 3,
        ensures
            old(self).is_converted(ops, ColorSpace::RGB, final(self)),
    {
        self.convert(ColorSpace::RGB, ops);
    }
}

/// A converted buffer holds the recolored grid of the buffer it was made of,
/// over the valid region.
pub proof fn lemma_converted_grid<T: Copy, A: Arith<T>>(
    ops: &A,
    target: ColorSpace,
    before: &Image<T>,
    after: &Image<T>,
)
    requires
        before.wf(),
        before.data.len() >= 3,
        before.is_converted(ops, target, after),
    ensures
        after.valid_grid() == recolored(
            ops,
            target,
            before.valid_grid(),
            before.height as int,
            before.width as int,
        ),
{
    let a = after.valid_grid();
    let g = before.valid_grid();
    let b = recolored(ops, target, g, before.height as int, before.width as int);
    let pad = before.padding as int;
    assert forall|p: int, y: int, x: int|
        0 <= p < before.data.len() && 0 <= y < before.height && 0 <= x
            < before.width implies #[trigger] a[p][y][x] == b[p][y][x] by {
        assert(a[p][y][x] == after.sample(p, y + pad, x + pad));
        assert(g[0][y][x] == before.sample(0, y + pad, x + pad));
        assert(g[1][y][x] == before.sample(1, y + pad, x + pad));
        assert(g[2][y][x] == before.sample(2, y + pad, x + pad));
        assert(g[p][y][x] == before.sample(p, y + pad, x + pad));
        if p >= 3 {
            assert(after.data[p] == before.data[p]);
        }
    }
    lemma_grids_equal(
        a,
        b,
        before.data.len() as int,
        before.height as int,
        before.width as int,
    );
}

/// Converting a buffer and converting the result back gives a buffer of the
/// first layout and color space. Each of its pixels is the conversion back of
/// the conversion of the first pixel at that place, and everything else is as
/// it was at first.
pub proof fn lemma_convert_there_and_back<T: Copy, A: Arith<T>>(
    ops: &A,
    target: ColorSpace,
    first: &Image<T>,
    there: &Image<T>,
    back: &Image<T>,
)
    requires
        first.wf(),
        first.data.len() >= 3,
        first.is_converted(ops, target, there),
        there.is_converted(ops, first.color_space, back),
    ensures
        back.wf(),
        back.same_layout(first),
        forall|p: int, y: int, x: int|
            0 <= p < 3 && 0 <= y < first.full_height() && 0 <= x < first.converted_width()
                ==> #[trigger] back.sample(p, y, x) == converted(
                ops,
                first.color_space,
                p,
                first.converted_sample(ops, target, 0, y, x),
                first.converted_sample(ops, target, 1, y, x),
                first.converted_sample(ops, target, 2, y, x),
            ),
        forall|p: int, y: int, x: int|
            0 <= p < 3 && 0 <= y < first.full_height() && first.converted_width() <= x
                < first.strides[p] ==> #[trigger] back.sample(p, y, x) == first.sample(p, y, x),
        forall|p: int| 3 <= p < first.data.len() ==> #[trigger] back.data[p] == first.data[p],
{
    assert forall|p: int, y: int, x: int|
        0 <= p < 3 && 0 <= y < first.full_height() && 0 <= x
            < first.converted_width() implies #[trigger] back.sample(p, y, x) == converted(
        ops,
        first.color_space,
        p,
        first.converted_sample(ops, target, 0, y, x),
        first.converted_sample(ops, target, 1, y, x),
        first.converted_sample(ops, target, 2, y, x),
    ) by {
        assert(there.sample(0, y, x) == first.converted_sample(ops, target, 0, y, x));
        assert(there.sample(1, y, x) == first.converted_sample(ops, target, 1, y, x));
        assert(there.sample(2, y, x) == first.converted_sample(ops, target, 2, y, x));
        assert(back.sample(p, y, x) == there.converted_sample(ops, first.color_space, p, y, x));
    }
    assert forall|p: int, y: int, x: int|
        0 <= p < 3 && 0 <= y < first.full_height() && first.converted_width() <= x
            < first.strides[p] implies #[trigger] back.sample(p, y, x) == first.sample(
        p,
        y,
        x,
    ) by {
        assert(there.sample(p, y, x) == first.sample(p, y, x));
    }
    assert forall|p: int| 3 <= p < first.data.len() implies #[trigger] back.data[p]
        == first.data[p] by {
        assert(there.data[p] == first.data[p]);
    }
}

} // verus!
