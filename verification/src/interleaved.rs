//! The interleaved strategy of the convolution engine: all planes share one
//! buffer in which the samples of a pixel lie side by side, and every layer
//! writes its output over its input, row by row.

use crate::arith::{filled, zero, Arith};
use crate::cnn::{
    forward, is_filtered, layer_flops, lemma_layer_flo_nonnegative, model_fits, model_flo,
    saturated, PerfStatus,
};
use crate::feature_map::Image;
use crate::grid::{planar_grid, Grid};
use crate::interleaved_layer::{filter_cpu2_layer, filter_cpu2_layer_32};
use crate::layout::{lemma_next_row, lemma_offset_in_rows, lemma_product_shrinks, offset, plane_at};
use crate::model::{Layer, Model};
use vstd::prelude::*;

verus! {

/// The sample of plane `p` at row `y` and column `x` in an interleaved buffer
/// of `n` planes.
pub open spec fn inter_at<T>(buf: Seq<T>, stride: int, n: int, p: int, y: int, x: int) -> T {
    buf[offset(y, stride, offset(x, n, p))]
}

/// The first `h` rows of `w` pixels of an interleaved buffer of `n` planes,
/// plane by plane.
pub open spec fn interleaved_grid<T>(buf: Seq<T>, stride: int, n: int, w: int, h: int) -> Grid<T> {
    Seq::new(
        n as nat,
        |p: int|
            Seq::new(
                h as nat,
                |y: int| Seq::new(w as nat, |x: int| inter_at(buf, stride, n, p, y, x)),
            ),
    )
}

/// The larger of two numbers.
pub open spec fn larger(a: int, b: int) -> int {
    if a >= b {
        a
    } else {
        b
    }
}

/// The samples that a row of the shared buffer must hold for a model on an
/// input `w` pixels wide: the longest row that any layer reads or writes, and
/// at least one.
pub open spec fn row_samples<T>(layers: Seq<Layer<T>>, w: int) -> int
    decreases layers.len(),
{
    if layers.len() == 0 {
        1
    } else {
        larger(
            row_samples(layers.drop_last(), w),
            larger(
                (w - 2 * (layers.len() - 1)) * layers.last().nInputPlane,
                (w - 2 * layers.len()) * layers.last().nOutputPlane,
            ),
        )
    }
}

/// The most output planes of any layer.
pub open spec fn most_outputs<T>(layers: Seq<Layer<T>>) -> int
    decreases layers.len(),
{
    if layers.len() == 0 {
        0
    } else {
        larger(most_outputs(layers.drop_last()), layers.last().nOutputPlane as int)
    }
}

/// A row of the shared buffer holds at least one sample.
proof fn lemma_row_samples_positive<T>(layers: Seq<Layer<T>>, w: int)
    ensures
        1 <= row_samples(layers, w),
    decreases layers.len(),
{
    if layers.len() > 0 {
        lemma_row_samples_positive(layers.drop_last(), w);
    }
}

/// The first layers of a model need no longer rows than the whole model.
proof fn lemma_row_samples_grows<T>(layers: Seq<Layer<T>>, k: int, w: int)
    requires
        0 <= k <= layers.len(),
    ensures
        1 <= row_samples(layers.take(k), w) <= row_samples(layers, w),
    decreases layers.len() - k,
{
    if k == layers.len() {
        assert(layers.take(k) =~= layers);
        lemma_row_samples_positive(layers, w);
    } else {
        assert(layers.drop_last().take(k) =~= layers.take(k));
        lemma_row_samples_grows(layers.drop_last(), k, w);
    }
}

/// A row of the shared buffer holds the input row and the output row of
/// every layer.
proof fn lemma_row_samples_covers<T>(layers: Seq<Layer<T>>, k: int, w: int)
    requires
        0 <= k < layers.len(),
    ensures
        (w - 2 * k) * layers[k].nInputPlane <= row_samples(layers, w),
        (w - 2 * (k + 1)) * layers[k].nOutputPlane <= row_samples(layers, w),
        layers[k].nOutputPlane <= most_outputs(layers),
    decreases layers.len(),
{
    if k == layers.len() - 1 {
    } else {
        lemma_row_samples_covers(layers.drop_last(), k, w);
    }
}

/// The row length of the shared buffer for a model on an input `width`
/// pixels wide, where a `usize` holds it.
pub fn interleaved_stride<T: Copy>(model: &Model<T>, width: usize) -> (r: Option<usize>)
    requires
        2 * model.len() <= width,
    ensures
        match r {
            Some(s) => s == row_samples(model@, width as int),
            None => row_samples(model@, width as int) > usize::MAX,
        },
{
    let mut max_stride: usize = 1;
    let mut i: usize = 0;
    proof {
        assert(model@.take(0) =~= Seq::<Layer<T>>::empty());
    }
    while i < model.len()
        invariant
            i <= model.len(),
            2 * model.len() <= width,
            max_stride == row_samples(model@.take(i as int), width as int),
        decreases model.len() - i,
    {
        let layer = &model[i];
        let ghost next = model@.take(i + 1);
        proof {
            assert(next.last() == model@[i as int]);
            assert(next.drop_last() =~= model@.take(i as int));
            lemma_row_samples_grows(model@, i + 1, width as int);
        }
        let w_in = width - i * 2;
        let w_out = width - (i + 1) * 2;
        let row_in = match w_in.checked_mul(layer.nInputPlane as usize) {
            Some(n) => n,
            None => {
                return None;
            },
        };
        let row_out = match w_out.checked_mul(layer.nOutputPlane as usize) {
            Some(n) => n,
            None => {
                return None;
            },
        };
        if row_in > max_stride {
            max_stride = row_in;
        }
        if row_out > max_stride {
            max_stride = row_out;
        }
        i += 1;
    }
    proof {
        assert(model@.take(i as int) =~= model@);
    }
    Some(max_stride)
}

/// The most output planes of any layer of a model.
fn most_output_planes<T: Copy>(model: &Model<T>) -> (r: usize)
    ensures
        r == most_outputs(model@),
{
    let mut most: usize = 0;
    let mut i: usize = 0;
    proof {
        assert(model@.take(0) =~= Seq::<Layer<T>>::empty());
    }
    while i < model.len()
        invariant
            i <= model.len(),
            most == most_outputs(model@.take(i as int)),
        decreases model.len() - i,
    {
        let ghost next = model@.take(i + 1);
        proof {
            assert(next.last() == model@[i as int]);
            assert(next.drop_last() =~= model@.take(i as int));
        }
        let n = model[i].nOutputPlane as usize;
        if n > most {
            most = n;
        }
        i += 1;
    }
    proof {
        assert(model@.take(i as int) =~= model@);
    }
    most
}

/// The shared buffer of the interleaved strategy fits the address space for
/// a model on an image: as many rows as the image has with its padding, each
/// as long as the longest row of any layer.
pub open spec fn shared_buffer_fits<T: Copy>(layers: Seq<Layer<T>>, img: &Image<T>) -> bool {
    img.full_height() * row_samples(layers, img.full_width()) <= usize::MAX
}

/// Decides [`shared_buffer_fits`] for a model that can run on the image.
pub fn fits_shared_buffer<T: Copy>(model: &Model<T>, img: &Image<T>) -> (r: bool)
    requires
        model_fits(model@, img),
    ensures
        r == shared_buffer_fits(model@, img),
{
    let full_width = img.width + 2 * img.padding;
    let full_height = img.height + 2 * img.padding;
    match interleaved_stride(model, full_width) {
        Some(stride) => full_height.checked_mul(stride).is_some(),
        None => {
            assert(1 * row_samples(model@, full_width as int) <= full_height * row_samples(
                model@,
                full_width as int,
            )) by (nonlinear_arith)
                requires
                    1 <= full_height,
                    0 <= row_samples(model@, full_width as int),
            ;
            false
        },
    }
}

/// Repacks the planes of an image, padding included, into one buffer in
/// which the samples of a pixel lie side by side and a row takes `stride`
/// samples. What a row does not need is filled with `fill`.
fn pack_planes<T: Copy>(img: &Image<T>, stride: usize, fill: T) -> (buf: Vec<T>)
    requires
        img.wf(),
        img.full_width() * img.data.len() <= stride,
        img.full_height() * stride <= usize::MAX,
    ensures
        buf.len() == img.full_height() * stride,
        interleaved_grid(
            buf@,
            stride as int,
            img.data.len() as int,
            img.full_width(),
            img.full_height(),
        ) == img.grid(),
        forall|y: int, k: int|
            0 <= y < img.full_height() && img.full_width() * img.data.len() <= k < stride
                ==> buf[#[trigger] offset(y, stride as int, k)] == fill,
{
    let cnt = img.data.len();
    let width = img.width + 2 * img.padding;
    let height = img.height + 2 * img.padding;
    let ghost st = stride as int;
    let ghost n = cnt as int;
    let mut buf: Vec<T> = Vec::new();
    let mut y: usize = 0;
    while y < height
        invariant
            y <= height,
            img.wf(),
            cnt == img.data.len(),
            width == img.full_width(),
            height == img.full_height(),
            st == stride,
            n == cnt,
            width * cnt <= stride,
            height * stride <= usize::MAX,
            buf.len() == y * stride,
            forall|p: int, yy: int, xx: int|
                0 <= p < n && 0 <= yy < y && 0 <= xx < width ==> {
                    &&& 0 <= #[trigger] offset(yy, st, offset(xx, n, p)) < buf.len()
                    &&& buf[offset(yy, st, offset(xx, n, p))] == img.sample(p, yy, xx)
                },
            forall|yy: int, k: int|
                0 <= yy < y && width * cnt <= k < st ==> {
                    &&& 0 <= #[trigger] offset(yy, st, k) < buf.len()
                    &&& buf[offset(yy, st, k)] == fill
                },
        decreases height - y,
    {
        proof {
            lemma_next_row(y as int, st);
            lemma_product_shrinks(y + 1, st, height as int, st);
        }
        let mut x: usize = 0;
        while x < width
            invariant
                x <= width,
                y < height,
                img.wf(),
                cnt == img.data.len(),
                width == img.full_width(),
                height == img.full_height(),
                st == stride,
                n == cnt,
                width * cnt <= stride,
                (y + 1) * stride <= usize::MAX,
                (y + 1) * st == y * st + st,
                buf.len() == y * stride + x * cnt,
                forall|p: int, yy: int, xx: int|
                    0 <= p < n && 0 <= yy < y && 0 <= xx < width ==> {
                        &&& 0 <= #[trigger] offset(yy, st, offset(xx, n, p)) < buf.len()
                        &&& buf[offset(yy, st, offset(xx, n, p))] == img.sample(p, yy, xx)
                    },
                forall|p: int, xx: int|
                    0 <= p < n && 0 <= xx < x ==> {
                        &&& 0 <= #[trigger] offset(y as int, st, offset(xx, n, p)) < buf.len()
                        &&& buf[offset(y as int, st, offset(xx, n, p))] == img.sample(
                            p,
                            y as int,
                            xx,
                        )
                    },
                forall|yy: int, k: int|
                    0 <= yy < y && width * cnt <= k < st ==> {
                        &&& 0 <= #[trigger] offset(yy, st, k) < buf.len()
                        &&& buf[offset(yy, st, k)] == fill
                    },
            decreases width - x,
        {
            proof {
                lemma_next_row(x as int, n);
                lemma_product_shrinks(x + 1, n, width as int, n);
            }
            let mut i: usize = 0;
            while i < cnt
                invariant
                    i <= cnt,
                    x < width,
                    y < height,
                    img.wf(),
                    cnt == img.data.len(),
                    width == img.full_width(),
                    height == img.full_height(),
                    st == stride,
                    n == cnt,
                    (x + 1) * cnt <= stride,
                    (x + 1) * n == x * n + n,
                    (y + 1) * stride <= usize::MAX,
                    (y + 1) * st == y * st + st,
                    buf.len() == y * stride + x * cnt + i,
                    forall|p: int, yy: int, xx: int|
                        0 <= p < n && 0 <= yy < y && 0 <= xx < width ==> {
                            &&& 0 <= #[trigger] offset(yy, st, offset(xx, n, p)) < buf.len()
                            &&& buf[offset(yy, st, offset(xx, n, p))] == img.sample(p, yy, xx)
                        },
                    forall|p: int, xx: int|
                        0 <= p < n && 0 <= xx < x ==> {
                            &&& 0 <= #[trigger] offset(y as int, st, offset(xx, n, p)) < buf.len()
                            &&& buf[offset(y as int, st, offset(xx, n, p))] == img.sample(
                                p,
                                y as int,
                                xx,
                            )
                        },
                    forall|p: int|
                        0 <= p < i ==> {
                            &&& 0 <= #[trigger] offset(y as int, st, offset(x as int, n, p))
                                < buf.len()
                            &&& buf[offset(y as int, st, offset(x as int, n, p))] == img.sample(
                                p,
                                y as int,
                                x as int,
                            )
                        },
                    forall|yy: int, k: int|
                        0 <= yy < y && width * cnt <= k < st ==> {
                            &&& 0 <= #[trigger] offset(yy, st, k) < buf.len()
                            &&& buf[offset(yy, st, k)] == fill
                        },
                decreases cnt - i,
            {
                proof {
                    lemma_offset_in_rows(
                        y as int,
                        x as int,
                        img.strides[i as int] as int,
                        height as int,
                    );
                }
                let v = img.data[i][y * img.strides[i] + x];
                buf.push(v);
                i += 1;
            }
            x += 1;
        }
        let mut t: usize = width * cnt;
        while t < stride
            invariant
                t <= stride,
                y < height,
                st == stride,
                n == cnt,
                (y + 1) * stride <= usize::MAX,
                (y + 1) * st == y * st + st,
                buf.len() == y * stride + t,
                forall|p: int, yy: int, xx: int|
                    0 <= p < n && 0 <= yy < y + 1 && 0 <= xx < width ==> {
                        &&& 0 <= #[trigger] offset(yy, st, offset(xx, n, p)) < buf.len()
                        &&& buf[offset(yy, st, offset(xx, n, p))] == img.sample(p, yy, xx)
                    },
                forall|yy: int, k: int|
                    0 <= yy < y && width * cnt <= k < st ==> {
                        &&& 0 <= #[trigger] offset(yy, st, k) < buf.len()
                        &&& buf[offset(yy, st, k)] == fill
                    },
                width * cnt <= t,
                forall|k: int|
                    width * cnt <= k < t ==> {
                        &&& 0 <= #[trigger] offset(y as int, st, k) < buf.len()
                        &&& buf[offset(y as int, st, k)] == fill
                    },
            decreases stride - t,
        {
            buf.push(fill);
            t += 1;
        }
        y += 1;
    }
    proof {
        let a = interleaved_grid(buf@, st, n, width as int, height as int);
        let b = img.grid();
        assert(a.len() == b.len());
        assert forall|p: int| 0 <= p < a.len() implies a[p] == b[p] by {
            assert(a[p].len() == b[p].len());
            assert forall|yy: int| 0 <= yy < a[p].len() implies a[p][yy] == b[p][yy] by {
                assert(a[p][yy].len() == b[p][yy].len());
                assert forall|xx: int| 0 <= xx < a[p][yy].len() implies a[p][yy][xx]
                    == b[p][yy][xx] by {
                    assert(a[p][yy][xx] == inter_at(buf@, st, n, p, yy, xx));
                    assert(b[p][yy][xx] == img.sample(p, yy, xx));
                }
                assert(a[p][yy] =~= b[p][yy]);
            }
            assert(a[p] =~= b[p]);
        }
        assert(a =~= b);
    }
    buf
}

/// Splits the first `height` rows of `width` pixels of an interleaved buffer
/// of `num_out` planes into planes of their own, each stored row by row
/// without gaps.
fn unpack_planes<T: Copy>(
    buf: &Vec<T>,
    stride: usize,
    num_out: usize,
    width: usize,
    height: usize,
) -> (out_maps: Vec<Vec<T>>)
    requires
        width * num_out <= stride,
        height * stride <= buf.len(),
    ensures
        out_maps.len() == num_out,
        forall|p: int| 0 <= p < out_maps.len() ==> (#[trigger] out_maps[p]).len() == height * width,
        forall|p: int, y: int, x: int|
            0 <= p < num_out && 0 <= y < height && 0 <= x < width ==> #[trigger] plane_at(
                out_maps[p]@,
                width as int,
                y,
                x,
            ) == inter_at(buf@, stride as int, num_out as int, p, y, x),
{
    let ghost st = stride as int;
    let ghost n = num_out as int;
    let ghost w = width as int;
    let mut out_maps: Vec<Vec<T>> = Vec::new();
    let mut i: usize = 0;
    while i < num_out
        invariant
            i <= num_out,
            st == stride,
            n == num_out,
            w == width,
            width * num_out <= stride,
            height * stride <= buf.len(),
            out_maps.len() == i,
            forall|p: int|
                0 <= p < out_maps.len() ==> (#[trigger] out_maps[p]).len() == height * width,
            forall|p: int, y: int, x: int|
                0 <= p < i && 0 <= y < height && 0 <= x < width ==> #[trigger] plane_at(
                    out_maps[p]@,
                    w,
                    y,
                    x,
                ) == inter_at(buf@, st, n, p, y, x),
        decreases num_out - i,
    {
        let mut v: Vec<T> = Vec::new();
        let mut y: usize = 0;
        while y < height
            invariant
                y <= height,
                i < num_out,
                st == stride,
                n == num_out,
                w == width,
                width * num_out <= stride,
                height * stride <= buf.len(),
                v.len() == y * width,
                forall|yy: int, xx: int|
                    0 <= yy < y && 0 <= xx < width ==> {
                        &&& 0 <= #[trigger] offset(yy, w, xx) < v.len()
                        &&& v[offset(yy, w, xx)] == inter_at(buf@, st, n, i as int, yy, xx)
                    },
            decreases height - y,
        {
            proof {
                lemma_next_row(y as int, w);
                lemma_next_row(y as int, st);
                lemma_product_shrinks(y + 1, st, height as int, st);
            }
            let src_off = y * stride;
            let mut x: usize = 0;
            while x < width
                invariant
                    x <= width,
                    y < height,
                    i < num_out,
                    st == stride,
                    n == num_out,
                    w == width,
                    width * num_out <= stride,
                    src_off == y * stride,
                    src_off + stride <= buf.len(),
                    (y + 1) * w == y * w + w,
                    v.len() == y * width + x,
                    forall|yy: int, xx: int|
                        0 <= yy < y && 0 <= xx < width ==> {
                            &&& 0 <= #[trigger] offset(yy, w, xx) < v.len()
                            &&& v[offset(yy, w, xx)] == inter_at(buf@, st, n, i as int, yy, xx)
                        },
                    forall|xx: int|
                        0 <= xx < x ==> {
                            &&& 0 <= #[trigger] offset(y as int, w, xx) < v.len()
                            &&& v[offset(y as int, w, xx)] == inter_at(
                                buf@,
                                st,
                                n,
                                i as int,
                                y as int,
                                xx,
                            )
                        },
                decreases width - x,
            {
                proof {
                    lemma_offset_in_rows(x as int, i as int, n, w);
                }
                v.push(buf[src_off + x * num_out + i]);
                x += 1;
            }
            y += 1;
        }
        out_maps.push(v);
        i += 1;
    }
    out_maps
}

/// Planes that hold, sample for sample, what an interleaved buffer holds are
/// the same grid.
proof fn lemma_planes_are_buffer<T>(
    planes: Seq<Vec<T>>,
    strides: Seq<usize>,
    buf: Seq<T>,
    stride: int,
    n: int,
    w: int,
    h: int,
)
    requires
        0 <= w,
        0 <= h,
        0 <= n,
        planes.len() == n,
        strides.len() == n,
        forall|p: int| 0 <= p < strides.len() ==> #[trigger] strides[p] == w,
        forall|p: int, y: int, x: int|
            0 <= p < n && 0 <= y < h && 0 <= x < w ==> #[trigger] plane_at(planes[p]@, w, y, x)
                == inter_at(buf, stride, n, p, y, x),
    ensures
        planar_grid(planes, strides, w, h) == interleaved_grid(buf, stride, n, w, h),
{
    let a = planar_grid(planes, strides, w, h);
    let b = interleaved_grid(buf, stride, n, w, h);
    assert(a.len() == b.len());
    assert forall|p: int| 0 <= p < a.len() implies a[p] == b[p] by {
        assert(a[p].len() == b[p].len());
        assert forall|y: int| 0 <= y < a[p].len() implies a[p][y] == b[p][y] by {
            assert(a[p][y].len() == b[p][y].len());
            assert forall|x: int| 0 <= x < a[p][y].len() implies a[p][y][x] == b[p][y][x] by {
                assert(a[p][y][x] == plane_at(planes[p]@, w, y, x));
            }
            assert(a[p][y] =~= b[p][y]);
        }
        assert(a[p] =~= b[p]);
    }
    assert(a =~= b);
}

/// Strategy B: the planes are repacked once into a shared buffer in which
/// the samples of a pixel lie side by side, every layer runs in place on that
/// buffer, and the planes of the last layer are split off again.
///
/// The input is read with its padding. The result is that of
/// [`crate::planar::filter_cpu1`]. The shared buffer must fit the address space.
pub fn filter_cpu2<T: Copy, A: Arith<T>>(
    in_img: Image<T>,
    model: &Model<T>,
    perf: &mut PerfStatus,
    ops: &A,
) -> (out: Image<T>)
    requires
        model_fits(model@, &in_img),
        shared_buffer_fits(model@, &in_img),
    ensures
        is_filtered(ops, model@, &in_img, &out),
        final(perf).cnn_flo == saturated(
            old(perf).cnn_flo + model_flo(model@, in_img.full_width(), in_img.full_height()),
        ),
{
    let ghost w0 = in_img.full_width();
    let ghost h0 = in_img.full_height();
    let ghost g0 = in_img.grid();
    let ghost flo0 = perf.cnn_flo as int;
    let mut width = in_img.width + 2 * in_img.padding;
    let mut height = in_img.height + 2 * in_img.padding;
    proof {
        lemma_row_samples_positive(model@, w0);
        lemma_product_shrinks(1, row_samples(model@, w0), h0, row_samples(model@, w0));
        lemma_row_samples_covers(model@, 0, w0);
    }
    let stride = match interleaved_stride(model, width) {
        Some(s) => s,
        None => unreached(),
    };
    let ghost st = stride as int;
    let tenth = ops.ratio(1, 10);
    let z = ops.ratio(0, 1);
    let mut buf = pack_planes(&in_img, stride, z);
    let mut temp = filled(most_output_planes(model), z);
    let mut out_line = filled(stride, z);
    let ghost mut planes: int = in_img.data.len() as int;
    proof {
        assert(model@.take(0) =~= Seq::<Layer<T>>::empty());
    }
    let mut k: usize = 0;
    while k < model.len()
        invariant
            k <= model.len(),
            model.len() >= 1,
            2 * model.len() <= w0,
            2 * model.len() <= h0,
            width == w0 - 2 * k,
            height == h0 - 2 * k,
            st == stride,
            stride == row_samples(model@, w0),
            tenth == ops.ratio_spec(1, 10),
            forall|i: int| 0 <= i < model.len() ==> (#[trigger] model@[i]).wf(),
            forall|i: int|
                1 <= i < model.len() ==> (#[trigger] model@[i]).nInputPlane == model@[i
                    - 1].nOutputPlane,
            k == 0 ==> planes == model@[0].nInputPlane,
            k > 0 ==> planes == model@[k - 1].nOutputPlane,
            buf.len() == h0 * st,
            temp.len() == most_outputs(model@),
            forall|j: int| 0 <= j < temp.len() ==> temp[j] == zero(ops),
            out_line.len() == stride,
            interleaved_grid(buf@, st, planes, width as int, height as int) == forward(
                ops,
                model@.take(k as int),
                g0,
                w0,
                h0,
            ),
            perf.cnn_flo == saturated(flo0 + model_flo(model@.take(k as int), w0, h0)),
            flo0 >= 0,
            model_flo(model@.take(k as int), w0, h0) >= 0,
        decreases model.len() - k,
    {
        let layer = &model[k];
        let ghost next = model@.take(k + 1);
        proof {
            assert(next.last() == model@[k as int]);
            assert(next.drop_last() =~= model@.take(k as int));
            lemma_row_samples_covers(model@, k as int, w0);
            lemma_product_shrinks(height as int, st, h0, st);
            lemma_layer_flo_nonnegative(layer, width - 2, height - 2);
        }
        width = width - 2;
        height = height - 2;
        let flops = layer_flops(layer, width, height);
        perf.cnn_flo = perf.cnn_flo.saturating_add(flops);
        let num_in = layer.nInputPlane as usize;
        let num_out = layer.nOutputPlane as usize;
        proof {
            lemma_row_samples_positive(model@, w0);
            lemma_product_shrinks(width + 2, num_in as int, w0 - 2 * k, num_in as int);
            lemma_product_shrinks(width as int, num_out as int, w0 - 2 * (k + 1), num_out as int);
        }
        if layer.nOutputPlane < 32 {
            filter_cpu2_layer(
                ops,
                layer,
                num_in,
                num_out,
                width,
                height,
                stride,
                &mut temp,
                &mut buf,
                &mut out_line,
                tenth,
            );
        } else {
            filter_cpu2_layer_32(
                ops,
                layer,
                num_in,
                num_out,
                width,
                height,
                stride,
                &mut temp,
                &mut buf,
                &mut out_line,
                tenth,
            );
        }
        proof {
            planes = num_out as int;
        }
        k += 1;
    }
    let num_out = model[model.len() - 1].nOutputPlane as usize;
    proof {
        assert(model@.take(k as int) =~= model@);
        lemma_row_samples_covers(model@, model.len() - 1, w0);
        lemma_product_shrinks(height as int, st, h0, st);
    }
    let out_maps = unpack_planes(&buf, stride, num_out, width, height);
    let out_strides = filled(out_maps.len(), width);
    proof {
        lemma_planes_are_buffer(
            out_maps@,
            out_strides@,
            buf@,
            st,
            num_out as int,
            width as int,
            height as int,
        );
    }
    Image {
        width,
        height,
        color_space: in_img.color_space,
        data: out_maps,
        strides: out_strides,
        padding: 0,
        alignment: 1,
    }
}

} // verus!
