//! Decoded images of the `image` crate, as far as the buffer reads and builds
//! them.

use crate::arith::{zero, Arith};
use crate::colorspace::{converted, scaled};
use crate::feature_map::{ColorSpace, Image};
use crate::layout::{
    aligned, clamped, layout_fits, layout_stride, lemma_aligned, lemma_offset_in_rows,
    lemma_row_within, offset,
};
use image::DynamicImage;
use vstd::prelude::*;

verus! {

/// `image::DynamicImage`, a decoded image in any pixel format. Nothing inside
/// it is seen here: it is read and built through the items below.
#[verifier::external_type_specification]
#[verifier::external_body]
pub struct ExDynamicImage(DynamicImage);

/// The width of a decoded image: what `DynamicImage::width` returns.
pub uninterp spec fn decoded_width(img: DynamicImage) -> u32;

/// The height of a decoded image: what `DynamicImage::height` returns.
pub uninterp spec fn decoded_height(img: DynamicImage) -> u32;

/// The samples of a decoded image as 8-bit RGB: the raw buffer of what
/// `DynamicImage::to_rgb8` returns. The three samples of the pixel at column
/// `x` of row `y` start at `(y * width + x) * 3`.
pub uninterp spec fn decoded_rgb8(img: DynamicImage) -> Seq<u8>;

/// Whether a decoded image is stored as 8-bit RGB: whether
/// `DynamicImage::as_rgb8` returns a buffer.
pub uninterp spec fn holds_rgb8(img: DynamicImage) -> bool;

/// `DynamicImage::width`. Trusted: the result is the width by that name.
pub assume_specification[ DynamicImage::width ](img: &DynamicImage) -> (r: u32)
    ensures
        r == decoded_width(*img),
;

/// `DynamicImage::height`. Trusted: the result is the height by that name.
pub assume_specification[ DynamicImage::height ](img: &DynamicImage) -> (r: u32)
    ensures
        r == decoded_height(*img),
;

/// Calls `DynamicImage::to_rgb8` and takes the raw buffer of the copy with
/// `ImageBuffer::into_raw`. Trusted: the result holds the samples named by
/// [`decoded_rgb8`], at least three for every pixel.
#[verifier::external_body]
pub(crate) fn rgb8_bytes(img: &DynamicImage) -> (r: Vec<u8>)
    ensures
        r@ == decoded_rgb8(*img),
        r@.len() >= 3 * decoded_width(*img) * decoded_height(*img),
{
    img.to_rgb8().into_raw()
}

/// Calls `DynamicImage::new_rgb8`, which panics where the buffer would be
/// larger than a vector can be. Trusted: the result is stored as 8-bit RGB,
/// has the size asked for, and all its samples are zero.
#[verifier::external_body]
pub(crate) fn new_rgb8(width: u32, height: u32) -> (r: DynamicImage)
    requires
        3 * width * height <= isize::MAX,
    ensures
        holds_rgb8(r),
        decoded_width(r) == width,
        decoded_height(r) == height,
        decoded_rgb8(r) == Seq::new((3 * width * height) as nat, |i: int| 0u8),
{
    DynamicImage::new_rgb8(width, height)
}

/// Calls `GenericImage::put_pixel` with an RGBA pixel of alpha zero, which
/// panics outside the image. Trusted: on an image stored as 8-bit RGB the
/// three samples of that pixel become `r`, `g` and `b`, and nothing else
/// changes.
#[verifier::external_body]
pub(crate) fn put_pixel(img: &mut DynamicImage, x: u32, y: u32, r: u8, g: u8, b: u8)
    requires
        holds_rgb8(*old(img)),
        x < decoded_width(*old(img)),
        y < decoded_height(*old(img)),
    ensures
        holds_rgb8(*final(img)),
        decoded_width(*final(img)) == decoded_width(*old(img)),
        decoded_height(*final(img)) == decoded_height(*old(img)),
        decoded_rgb8(*final(img)) == decoded_rgb8(*old(img)).update(
            (y * decoded_width(*old(img)) + x) * 3,
            r,
        ).update((y * decoded_width(*old(img)) + x) * 3 + 1, g).update(
            (y * decoded_width(*old(img)) + x) * 3 + 2,
            b,
        ),
{
    image::GenericImage::put_pixel(img, x, y, image::Rgba([r, g, b, 0]))
}

/// The 8-bit value of a sample of the range 0 to 1: the sample times 255,
/// rounded to the nearest integer and kept between 0 and 255.
pub open spec fn byte_of<T: Copy, A: Arith<T>>(ops: &A, v: T) -> u8 {
    clamped(ops.nearest_spec(scaled(ops, v)) as int, 0, 255) as u8
}

/// The 8-bit value of a sample of the range 0 to 1.
fn to_byte<T: Copy, A: Arith<T>>(ops: &A, v: T, c255: T) -> (r: u8)
    requires
        c255 == ops.ratio_spec(255, 1),
    ensures
        r == byte_of(ops, v),
{
    let n = ops.nearest(ops.product(v, c255));
    if n < 0 {
        0
    } else if n > 255 {
        255
    } else {
        n as u8
    }
}

impl<T: Copy> Image<T> {
    /// Plane `c` of the pixel at row `y` and column `x` of the valid region,
    /// as RGB: the sample itself where the buffer is RGB, and what the
    /// conversion to RGB gives where it is not.
    pub open spec fn rgb_pixel<A: Arith<T>>(&self, ops: &A, c: int, y: int, x: int) -> T {
        match self.color_space {
            ColorSpace::RGB => self.pixel(c, y, x),
            ColorSpace::I444 => converted(
                ops,
                ColorSpace::RGB,
                c,
                self.pixel(0, y, x),
                self.pixel(1, y, x),
                self.pixel(2, y, x),
            ),
        }
    }

    /// The three planes of a decoded image, with the padding and alignment
    /// asked for. Each 8-bit sample is divided by 255. The valid region
    /// starts `padding` rows and columns into each plane; the padding and
    /// what lies beyond the padded rows hold zero.
    pub fn from_dynamic_image<A: Arith<T>>(
        img: &DynamicImage,
        padding: usize,
        alignment: usize,
        ops: &A,
    ) -> (out: Image<T>)
        requires
            layout_fits(
                decoded_width(*img) as int,
                decoded_height(*img) as int,
                padding as int,
                alignment as int,
            ),
        ensures
            is_decoded(ops, *img, padding, alignment, &out),
    {
        let src = rgb8_bytes(img);
        let width = img.width() as usize;
        let height = img.height() as usize;
        let stride = match layout_stride(width, height, padding, alignment) {
            Some(s) => s,
            None => unreached(),
        };
        let ghost st = stride as int;
        let ghost w = width as int;
        proof {
            lemma_aligned(width + 2 * padding, alignment as int);
            assert(3 * decoded_width(*img) * decoded_height(*img) == 3 * (height * width))
                by (nonlinear_arith)
                requires
                    decoded_width(*img) == width,
                    decoded_height(*img) == height,
            ;
        }
        let fill = ops.ratio(0, 1);
        let full_height = height + 2 * padding;
        let mut r: Vec<T> = Vec::new();
        let mut g: Vec<T> = Vec::new();
        let mut b: Vec<T> = Vec::new();
        let mut y: usize = 0;
        while y < full_height
            invariant
                y <= full_height,
                st == stride,
                w == width,
                full_height == height + 2 * padding,
                width + 2 * padding <= stride,
                full_height * stride <= usize::MAX,
                src.len() >= 3 * (height * width),
                fill == zero(ops),
                r.len() == y * stride,
                g.len() == y * stride,
                b.len() == y * stride,
                forall|yy: int, xx: int|
                    0 <= yy < y && 0 <= xx < stride ==> {
                        &&& 0 <= #[trigger] offset(yy, st, xx) < r.len()
                        &&& r[offset(yy, st, xx)] == decoded_sample(
                            ops,
                            src@,
                            w,
                            height as int,
                            padding as int,
                            0,
                            yy,
                            xx,
                        )
                        &&& g[offset(yy, st, xx)] == decoded_sample(
                            ops,
                            src@,
                            w,
                            height as int,
                            padding as int,
                            1,
                            yy,
                            xx,
                        )
                        &&& b[offset(yy, st, xx)] == decoded_sample(
                            ops,
                            src@,
                            w,
                            height as int,
                            padding as int,
                            2,
                            yy,
                            xx,
                        )
                    },
            decreases full_height - y,
        {
            proof {
                lemma_row_within(y as int, st, full_height as int);
            }
            let inside_rows = padding <= y && y < padding + height;
            let mut x: usize = 0;
            while x < stride
                invariant
                    x <= stride,
                    y < full_height,
                    st == stride,
                    w == width,
                    full_height == height + 2 * padding,
                    width + 2 * padding <= stride,
                    (y + 1) * st == y * st + st,
                    (y + 1) * st <= usize::MAX,
                    src.len() >= 3 * (height * width),
                    fill == zero(ops),
                    inside_rows == (padding <= y && y < padding + height),
                    r.len() == y * stride + x,
                    g.len() == y * stride + x,
                    b.len() == y * stride + x,
                    forall|yy: int, xx: int|
                        (0 <= yy < y && 0 <= xx < stride) || (yy == y && 0 <= xx < x) ==> {
                            &&& 0 <= #[trigger] offset(yy, st, xx) < r.len()
                            &&& r[offset(yy, st, xx)] == decoded_sample(
                                ops,
                                src@,
                                w,
                                height as int,
                                padding as int,
                                0,
                                yy,
                                xx,
                            )
                            &&& g[offset(yy, st, xx)] == decoded_sample(
                                ops,
                                src@,
                                w,
                                height as int,
                                padding as int,
                                1,
                                yy,
                                xx,
                            )
                            &&& b[offset(yy, st, xx)] == decoded_sample(
                                ops,
                                src@,
                                w,
                                height as int,
                                padding as int,
                                2,
                                yy,
                                xx,
                            )
                        },
                decreases stride - x,
            {
                if inside_rows && padding <= x && x < padding + width {
                    proof {
                        lemma_offset_in_rows(y - padding, x - padding, w, height as int);
                    }
                    let at = ((y - padding) * width + (x - padding)) * 3;
                    r.push(ops.ratio(src[at] as i32, 255));
                    g.push(ops.ratio(src[at + 1] as i32, 255));
                    b.push(ops.ratio(src[at + 2] as i32, 255));
                } else {
                    r.push(fill);
                    g.push(fill);
                    b.push(fill);
                }
                x += 1;
            }
            y += 1;
        }
        let mut data: Vec<Vec<T>> = Vec::with_capacity(3);
        data.push(r);
        data.push(g);
        data.push(b);
        let mut strides: Vec<usize> = Vec::with_capacity(3);
        strides.push(stride);
        strides.push(stride);
        strides.push(stride);
        let out = Image {
            width,
            height,
            color_space: ColorSpace::RGB,
            data,
            strides,
            padding,
            alignment,
        };
        proof {
            assert forall|c: int, yy: int, xx: int|
                0 <= c < 3 && 0 <= yy < out.full_height() && 0 <= xx
                    < out.strides[c] implies #[trigger] out.sample(c, yy, xx) == decoded_sample(
                ops,
                src@,
                w,
                height as int,
                padding as int,
                c,
                yy,
                xx,
            ) by {
                assert(0 <= offset(yy, st, xx) < out.data[0].len());
                assert(out.sample(c, yy, xx) == out.data[c][offset(yy, st, xx)]);
            }
            assert forall|c: int, yy: int, xx: int|
                0 <= c < 3 && 0 <= yy < out.height && 0 <= xx < out.width implies #[trigger] out.pixel(
                c,
                yy,
                xx,
            ) == ops.ratio_spec(decoded_rgb8(*img)[(yy * out.width + xx) * 3 + c] as i32, 255) by {
                assert(out.pixel(c, yy, xx) == out.sample(c, yy + padding, xx + padding));
            }
        }
        out
    }

    /// The buffer as a decoded 8-bit RGB image of the valid region. A buffer
    /// of luma/chroma planes is converted to RGB pixel by pixel; the buffer
    /// itself stays as it is. Each sample is multiplied by 255, rounded to the
    /// nearest integer and kept between 0 and 255.
    pub fn to_dynamic_image<A: Arith<T>>(&self, ops: &A) -> (out: DynamicImage)
        requires
            self.wf(),
            self.data.len() >= 3,
            self.width <= u32::MAX,
            self.height <= u32::MAX,
            3 * (self.height * self.width) <= isize::MAX,
        ensures
            is_encoded(ops, self, out),
    {
        let width = self.width;
        let height = self.height;
        let padding = self.padding;
        let ghost w = width as int;
        proof {
            assert(3 * (width as u32) * (height as u32) == 3 * (height * width))
                by (nonlinear_arith)
                requires
                    width as u32 == width,
                    height as u32 == height,
            ;
        }
        let mut dimg = new_rgb8(width as u32, height as u32);
        let c255 = ops.ratio(255, 1);
        let rgb = match self.color_space {
            ColorSpace::RGB => true,
            ColorSpace::I444 => false,
        };
        let k = crate::colorspace::conversion_constants(ops);
        let s0 = self.strides[0];
        let s1 = self.strides[1];
        let s2 = self.strides[2];
        let ghost mut done: int = 0;
        let mut i: usize = 0;
        while i < height
            invariant
                i <= height,
                self.wf(),
                self.data.len() >= 3,
                width == self.width,
                height == self.height,
                padding == self.padding,
                w == width,
                width <= u32::MAX,
                height <= u32::MAX,
                c255 == ops.ratio_spec(255, 1),
                rgb == (self.color_space == ColorSpace::RGB),
                crate::colorspace::holds_constants(ops, &k),
                s0 == self.strides[0],
                s1 == self.strides[1],
                s2 == self.strides[2],
                holds_rgb8(dimg),
                decoded_width(dimg) == width,
                decoded_height(dimg) == height,
                decoded_rgb8(dimg).len() == 3 * (height * width),
                done == i * w,
                forall|c: int, yy: int, xx: int|
                    0 <= c < 3 && 0 <= yy < i && 0 <= xx < w ==> {
                        &&& 0 <= offset(offset(yy, w, xx), 3, c) < 3 * done
                        &&& decoded_rgb8(dimg)[#[trigger] offset(offset(yy, w, xx), 3, c)]
                            == byte_of(ops, self.rgb_pixel(ops, c, yy, xx))
                    },
            decreases height - i,
        {
            proof {
                lemma_row_within(i as int, w, height as int);
                lemma_row_within(i + padding, s0 as int, self.full_height());
                lemma_row_within(i + padding, s1 as int, self.full_height());
                lemma_row_within(i + padding, s2 as int, self.full_height());
                assert(self.data[0].len() == self.full_height() * s0);
                assert(self.data[1].len() == self.full_height() * s1);
                assert(self.data[2].len() == self.full_height() * s2);
            }
            let off0 = (i + padding) * s0 + padding;
            let off1 = (i + padding) * s1 + padding;
            let off2 = (i + padding) * s2 + padding;
            let mut j: usize = 0;
            while j < width
                invariant
                    j <= width,
                    i < height,
                    self.wf(),
                    self.data.len() >= 3,
                    width == self.width,
                    height == self.height,
                    padding == self.padding,
                    w == width,
                    width <= u32::MAX,
                    height <= u32::MAX,
                    c255 == ops.ratio_spec(255, 1),
                    rgb == (self.color_space == ColorSpace::RGB),
                    crate::colorspace::holds_constants(ops, &k),
                    s0 == self.strides[0],
                    s1 == self.strides[1],
                    s2 == self.strides[2],
                    off0 == (i + padding) * s0 + padding,
                    off1 == (i + padding) * s1 + padding,
                    off2 == (i + padding) * s2 + padding,
                    (i + padding + 1) * s0 <= self.data[0].len(),
                    (i + padding + 1) * s1 <= self.data[1].len(),
                    (i + padding + 1) * s2 <= self.data[2].len(),
                    (i + padding + 1) * s0 == (i + padding) * s0 + s0,
                    (i + padding + 1) * s1 == (i + padding) * s1 + s1,
                    (i + padding + 1) * s2 == (i + padding) * s2 + s2,
                    (i + 1) * w == i * w + w,
                    (i + 1) * w <= height * w,
                    holds_rgb8(dimg),
                    decoded_width(dimg) == width,
                    decoded_height(dimg) == height,
                    decoded_rgb8(dimg).len() == 3 * (height * width),
                    done == i * w + j,
                    forall|c: int, yy: int, xx: int|
                        0 <= c < 3 && ((0 <= yy < i && 0 <= xx < w) || (yy == i && 0 <= xx < j))
                            ==> {
                            &&& 0 <= offset(offset(yy, w, xx), 3, c) < 3 * done
                            &&& decoded_rgb8(dimg)[#[trigger] offset(offset(yy, w, xx), 3, c)]
                                == byte_of(ops, self.rgb_pixel(ops, c, yy, xx))
                        },
                decreases width - j,
            {
                let a = self.data[0][off0 + j];
                let b = self.data[1][off1 + j];
                let c = self.data[2][off2 + j];
                proof {
                    assert(a == self.pixel(0, i as int, j as int));
                    assert(b == self.pixel(1, i as int, j as int));
                    assert(c == self.pixel(2, i as int, j as int));
                }
                let (pr, pg, pb) = if rgb {
                    (a, b, c)
                } else {
                    crate::colorspace::convert_pixel(ops, &k, ColorSpace::RGB, a, b, c)
                };
                let br = to_byte(ops, pr, c255);
                let bg = to_byte(ops, pg, c255);
                let bb = to_byte(ops, pb, c255);
                let ghost prev = decoded_rgb8(dimg);
                put_pixel(&mut dimg, j as u32, i as u32, br, bg, bb);
                proof {
                    let at = offset(i as int, w, j as int);
                    let now = decoded_rgb8(dimg);
                    lemma_offset_in_rows(i as int, j as int, w, height as int);
                    assert(now == prev.update(at * 3, br).update(at * 3 + 1, bg).update(
                        at * 3 + 2,
                        bb,
                    ));
                    assert(pr == self.rgb_pixel(ops, 0, i as int, j as int));
                    assert(pg == self.rgb_pixel(ops, 1, i as int, j as int));
                    assert(pb == self.rgb_pixel(ops, 2, i as int, j as int));
                    assert(at == done);
                    assert forall|c: int, yy: int, xx: int|
                        0 <= c < 3 && ((0 <= yy < i && 0 <= xx < w) || (yy == i && 0 <= xx < j
                            + 1)) implies {
                        &&& 0 <= offset(offset(yy, w, xx), 3, c) < 3 * (done + 1)
                        &&& now[#[trigger] offset(offset(yy, w, xx), 3, c)] == byte_of(
                            ops,
                            self.rgb_pixel(ops, c, yy, xx),
                        )
                    } by {
                        let q = offset(yy, w, xx);
                        if yy == i && xx == j {
                            assert(q == at);
                        } else {
                            assert(prev[offset(q, 3, c)] == byte_of(
                                ops,
                                self.rgb_pixel(ops, c, yy, xx),
                            ));
                            assert(now[offset(q, 3, c)] == prev[offset(q, 3, c)]);
                        }
                    }
                    done = done + 1;
                }
                j += 1;
            }
            i += 1;
        }
        dimg
    }
}

/// `out` is the buffer of a decoded image with this padding and alignment:
/// three RGB planes of the extent of the image, whose strides are the padded
/// row length rounded up to the alignment. Each sample of the valid region is
/// the 8-bit sample of the image divided by 255; the padding and what lies
/// beyond the padded rows hold zero.
pub open spec fn is_decoded<T: Copy, A: Arith<T>>(
    ops: &A,
    img: DynamicImage,
    padding: usize,
    alignment: usize,
    out: &Image<T>,
) -> bool {
    &&& out.wf()
    &&& out.width == decoded_width(img)
    &&& out.height == decoded_height(img)
    &&& out.padding == padding
    &&& out.alignment == alignment
    &&& out.color_space == ColorSpace::RGB
    &&& out.data.len() == 3
    &&& forall|p: int|
        0 <= p < out.strides.len() ==> #[trigger] out.strides[p] == aligned(
            out.full_width(),
            alignment as int,
        )
    &&& forall|c: int, y: int, x: int|
        0 <= c < 3 && 0 <= y < out.height && 0 <= x < out.width ==> #[trigger] out.pixel(c, y, x)
            == ops.ratio_spec(decoded_rgb8(img)[(y * out.width + x) * 3 + c] as i32, 255)
    &&& forall|c: int, y: int, x: int|
        0 <= c < 3 && 0 <= y < out.full_height() && 0 <= x < out.strides[c] && !(padding <= y
            < padding + out.height && padding <= x < padding + out.width) ==> #[trigger] out.sample(
            c,
            y,
            x,
        ) == zero(ops)
}

/// `out` is the 8-bit RGB image of the valid region of a buffer: it has the
/// extent of the valid region, and each of its samples is the 8-bit value of
/// the sample of the buffer at that place, taken as RGB.
pub open spec fn is_encoded<T: Copy, A: Arith<T>>(ops: &A, buffer: &Image<T>, out: DynamicImage) -> bool {
    &&& holds_rgb8(out)
    &&& decoded_width(out) == buffer.width
    &&& decoded_height(out) == buffer.height
    &&& decoded_rgb8(out).len() == 3 * (buffer.height * buffer.width)
    &&& forall|c: int, y: int, x: int|
        0 <= c < 3 && 0 <= y < buffer.height && 0 <= x < buffer.width ==> decoded_rgb8(
            out,
        )[#[trigger] offset(offset(y, buffer.width as int, x), 3, c)] == byte_of(
            ops,
            buffer.rgb_pixel(ops, c, y, x),
        )
}

/// Decoding an image into a buffer and encoding the buffer again gives an
/// image of the same extent in which each sample is the 8-bit value of the
/// sample of the first image divided by 255: every sample is quantised on its
/// own, whatever the padding and the alignment of the buffer.
pub proof fn lemma_decode_encode_samplewise<T: Copy, A: Arith<T>>(
    ops: &A,
    img: DynamicImage,
    padding: usize,
    alignment: usize,
    buffer: &Image<T>,
    back: DynamicImage,
)
    requires
        is_decoded(ops, img, padding, alignment, buffer),
        is_encoded(ops, buffer, back),
    ensures
        holds_rgb8(back),
        decoded_width(back) == decoded_width(img),
        decoded_height(back) == decoded_height(img),
        forall|c: int, y: int, x: int|
            0 <= c < 3 && 0 <= y < decoded_height(img) && 0 <= x < decoded_width(img)
                ==> decoded_rgb8(back)[#[trigger] offset(
                offset(y, decoded_width(img) as int, x),
                3,
                c,
            )] == byte_of(
                ops,
                ops.ratio_spec(
                    decoded_rgb8(img)[offset(offset(y, decoded_width(img) as int, x), 3, c)] as i32,
                    255,
                ),
            ),
{
    assert forall|c: int, y: int, x: int|
        0 <= c < 3 && 0 <= y < decoded_height(img) && 0 <= x < decoded_width(
            img,
        ) implies decoded_rgb8(back)[#[trigger] offset(
        offset(y, decoded_width(img) as int, x),
        3,
        c,
    )] == byte_of(
        ops,
        ops.ratio_spec(
            decoded_rgb8(img)[offset(offset(y, decoded_width(img) as int, x), 3, c)] as i32,
            255,
        ),
    ) by {
        assert(buffer.rgb_pixel(ops, c, y, x) == buffer.pixel(c, y, x));
    }
}

/// What a plane of a decoded image holds at row `y` and column `x`, counted
/// from the corner of the padded plane: inside the valid region the 8-bit
/// sample of plane `c` divided by 255, and zero everywhere else.
pub open spec fn decoded_sample<T: Copy, A: Arith<T>>(
    ops: &A,
    src: Seq<u8>,
    width: int,
    height: int,
    padding: int,
    c: int,
    y: int,
    x: int,
) -> T {
    if padding <= y < padding + height && padding <= x < padding + width {
        ops.ratio_spec(src[((y - padding) * width + (x - padding)) * 3 + c] as i32, 255)
    } else {
        zero(ops)
    }
}

} // verus!
