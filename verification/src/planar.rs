//! The planar strategy of the convolution engine: every plane is a buffer
//! of its own.

use crate::arith::{dot9, filled, leaky, leaky_rectify, Arith};
use crate::cnn::{
    conv_acc, forward, is_filtered, layer_flops, layer_forward, layer_sample,
    lemma_layer_flo_nonnegative, model_fits, model_flo, saturated, window, PerfStatus,
};
use crate::feature_map::Image;
use crate::grid::{planar_grid, planes_hold, Grid};
use crate::layout::{lemma_offset_in_rows, lemma_product_shrinks, plane_at};
use crate::model::{kernel_ok, kernels_ok, taps, Layer, Model};
use vstd::prelude::*;

verus! {

/// The nine samples at rows `y` to `y + 2` and columns `x` to `x + 2` of a
/// plane stored row by row.
pub open spec fn stencil<T>(plane: Seq<T>, stride: int, y: int, x: int) -> Seq<T> {
    seq![
        plane_at(plane, stride, y, x),
        plane_at(plane, stride, y, x + 1),
        plane_at(plane, stride, y, x + 2),
        plane_at(plane, stride, y + 1, x),
        plane_at(plane, stride, y + 1, x + 1),
        plane_at(plane, stride, y + 1, x + 2),
        plane_at(plane, stride, y + 2, x),
        plane_at(plane, stride, y + 2, x + 1),
        plane_at(plane, stride, y + 2, x + 2),
    ]
}

/// Adds to each sample of `out` the nine-tap sum of the input plane at that
/// place. `out` has `new_height` rows of `new_width` samples, the input plane
/// two more of each.
fn accumulate_plane<T: Copy, A: Arith<T>>(
    ops: &A,
    out: &mut Vec<T>,
    in_map: &Vec<T>,
    stride: usize,
    k: &Vec<Vec<T>>,
    new_width: usize,
    new_height: usize,
)
    requires
        kernel_ok(k@),
        old(out).len() == new_height * new_width,
        new_width + 2 <= stride,
        in_map.len() == (new_height + 2) * stride,
    ensures
        final(out).len() == old(out).len(),
        forall|y: int, x: int|
            0 <= y < new_height && 0 <= x < new_width ==> #[trigger] plane_at(
                final(out)@,
                new_width as int,
                y,
                x,
            ) == ops.sum_spec(
                plane_at(old(out)@, new_width as int, y, x),
                dot9(ops, stencil(in_map@, stride as int, y, x), taps(k@)),
            ),
{
    let w00 = k[0][0];
    let w01 = k[0][1];
    let w02 = k[0][2];
    let w10 = k[1][0];
    let w11 = k[1][1];
    let w12 = k[1][2];
    let w20 = k[2][0];
    let w21 = k[2][1];
    let w22 = k[2][2];
    let ghost before = out@;
    let ghost nw = new_width as int;
    let ghost st = stride as int;
    assert(new_height + 2 <= (new_height + 2) * stride) by (nonlinear_arith)
        requires
            stride >= 1,
    ;
    let mut y: usize = 0;
    while y < new_height
        invariant
            y <= new_height,
            new_height + 2 <= usize::MAX,
            nw == new_width,
            st == stride,
            out.len() == before.len(),
            before.len() == new_height * new_width,
            new_width + 2 <= stride,
            in_map.len() == (new_height + 2) * stride,
            taps(k@) == seq![w00, w01, w02, w10, w11, w12, w20, w21, w22],
            forall|yy: int, xx: int|
                0 <= yy < y && 0 <= xx < nw ==> #[trigger] plane_at(out@, nw, yy, xx)
                    == ops.sum_spec(
                    plane_at(before, nw, yy, xx),
                    dot9(ops, stencil(in_map@, st, yy, xx), taps(k@)),
                ),
            forall|idx: int| y * nw <= idx < out.len() ==> out[idx] == before[idx],
        decreases new_height - y,
    {
        proof {
            lemma_offset_in_rows(y as int, 0, st, new_height + 2);
            lemma_offset_in_rows(y + 1, 0, st, new_height + 2);
            lemma_offset_in_rows(y + 2, 0, st, new_height + 2);
            if nw > 0 {
                lemma_offset_in_rows(y as int, 0, nw, new_height as int);
            }
        }
        let off_src0 = y * stride;
        let off_src1 = (y + 1) * stride;
        let off_src2 = (y + 2) * stride;
        let off_dst = y * new_width;
        let mut x: usize = 0;
        while x < new_width
            invariant
                x <= new_width,
                y < new_height,
                nw == new_width,
                st == stride,
                out.len() == before.len(),
                before.len() == new_height * new_width,
                new_width + 2 <= stride,
                in_map.len() == (new_height + 2) * stride,
                off_src0 == y * stride,
                off_src1 == (y + 1) * stride,
                off_src2 == (y + 2) * stride,
                off_dst == y * new_width,
                off_src1 == off_src0 + stride,
                off_src2 == off_src1 + stride,
                off_src2 + stride <= in_map.len(),
                off_dst + new_width <= out.len(),
                taps(k@) == seq![w00, w01, w02, w10, w11, w12, w20, w21, w22],
                forall|yy: int, xx: int|
                    0 <= yy < y && 0 <= xx < nw ==> #[trigger] plane_at(out@, nw, yy, xx)
                        == ops.sum_spec(
                        plane_at(before, nw, yy, xx),
                        dot9(ops, stencil(in_map@, st, yy, xx), taps(k@)),
                    ),
                forall|xx: int|
                    0 <= xx < x ==> #[trigger] plane_at(out@, nw, y as int, xx) == ops.sum_spec(
                        plane_at(before, nw, y as int, xx),
                        dot9(ops, stencil(in_map@, st, y as int, xx), taps(k@)),
                    ),
                forall|idx: int| off_dst + x <= idx < out.len() ==> out[idx] == before[idx],
            decreases new_width - x,
        {
            let ghost prev = out@;
            let p00 = ops.product(in_map[off_src0 + x], w00);
            let p01 = ops.product(in_map[off_src0 + x + 1], w01);
            let p02 = ops.product(in_map[off_src0 + x + 2], w02);
            let p10 = ops.product(in_map[off_src1 + x], w10);
            let p11 = ops.product(in_map[off_src1 + x + 1], w11);
            let p12 = ops.product(in_map[off_src1 + x + 2], w12);
            let p20 = ops.product(in_map[off_src2 + x], w20);
            let p21 = ops.product(in_map[off_src2 + x + 1], w21);
            let p22 = ops.product(in_map[off_src2 + x + 2], w22);
            let s = ops.sum(
                ops.sum(
                    ops.sum(
                        ops.sum(
                            ops.sum(ops.sum(ops.sum(ops.sum(p00, p01), p02), p10), p11),
                            p12,
                        ),
                        p20,
                    ),
                    p21,
                ),
                p22,
            );
            let acc = out[off_dst + x];
            out[off_dst + x] = ops.sum(acc, s);
            proof {
                assert(s == dot9(ops, stencil(in_map@, st, y as int, x as int), taps(k@)));
                assert forall|yy: int, xx: int| 0 <= yy < y && 0 <= xx < nw implies #[trigger] plane_at(
                    out@,
                    nw,
                    yy,
                    xx,
                ) == ops.sum_spec(
                    plane_at(before, nw, yy, xx),
                    dot9(ops, stencil(in_map@, st, yy, xx), taps(k@)),
                ) by {
                    lemma_offset_in_rows(yy, xx, nw, y as int);
                    assert(plane_at(out@, nw, yy, xx) == plane_at(prev, nw, yy, xx));
                }
                assert forall|xx: int| 0 <= xx < x + 1 implies #[trigger] plane_at(
                    out@,
                    nw,
                    y as int,
                    xx,
                ) == ops.sum_spec(
                    plane_at(before, nw, y as int, xx),
                    dot9(ops, stencil(in_map@, st, y as int, xx), taps(k@)),
                ) by {
                    if xx < x {
                        assert(plane_at(out@, nw, y as int, xx) == plane_at(prev, nw, y as int, xx));
                    }
                }
            }
            x += 1;
        }
        proof {
            assert((y + 1) * nw == y * nw + nw) by (nonlinear_arith);
        }
        y += 1;
    }
}

/// One output plane of a layer over planar input: the kernels of all input
/// planes are accumulated on a zeroed plane, then bias and activation are
/// applied to every sample.
fn planar_output_plane<T: Copy, A: Arith<T>>(
    ops: &A,
    layer: &Layer<T>,
    in_maps: &Vec<Vec<T>>,
    strides: &Vec<usize>,
    width: usize,
    height: usize,
    o: usize,
    tenth: T,
) -> (out: Vec<T>)
    requires
        layer.wf(),
        o < layer.nOutputPlane,
        in_maps.len() == layer.nInputPlane,
        planes_hold(in_maps@, strides@, width as int, height as int),
        width >= 2,
        height >= 2,
        height * width <= usize::MAX,
        tenth == ops.ratio_spec(1, 10),
    ensures
        out.len() == (height - 2) * (width - 2),
        forall|y: int, x: int|
            0 <= y < height - 2 && 0 <= x < width - 2 ==> #[trigger] plane_at(
                out@,
                width - 2,
                y,
                x,
            ) == layer_sample(
                ops,
                layer,
                planar_grid(in_maps@, strides@, width as int, height as int),
                o as int,
                y,
                x,
            ),
{
    let new_width = width - 2;
    let new_height = height - 2;
    let ghost nw = new_width as int;
    let ghost nh = new_height as int;
    let ghost g = planar_grid(in_maps@, strides@, width as int, height as int);
    proof {
        lemma_product_shrinks(nh, nw, height as int, width as int);
    }
    let mut out = filled(new_height * new_width, ops.ratio(0, 1));
    let bias = layer.bias[o];
    let weights = &layer.weight[o];
    assert(kernels_ok(layer.weight[o as int]@, layer.nInputPlane as int));
    assert forall|y: int, x: int| 0 <= y < nh && 0 <= x < nw implies #[trigger] plane_at(
        out@,
        nw,
        y,
        x,
    ) == conv_acc(ops, layer, g, o as int, y, x, 0) by {
        lemma_offset_in_rows(y, x, nw, nh);
    }
    let mut j: usize = 0;
    while j < in_maps.len()
        invariant
            j <= in_maps.len(),
            layer.wf(),
            o < layer.nOutputPlane,
            in_maps.len() == layer.nInputPlane,
            planes_hold(in_maps@, strides@, width as int, height as int),
            width >= 2,
            height >= 2,
            new_width == width - 2,
            new_height == height - 2,
            nw == new_width,
            nh == new_height,
            g == planar_grid(in_maps@, strides@, width as int, height as int),
            weights == &layer.weight[o as int],
            kernels_ok(weights@, layer.nInputPlane as int),
            out.len() == new_height * new_width,
            forall|y: int, x: int|
                0 <= y < nh && 0 <= x < nw ==> #[trigger] plane_at(out@, nw, y, x) == conv_acc(
                    ops,
                    layer,
                    g,
                    o as int,
                    y,
                    x,
                    j as nat,
                ),
        decreases in_maps.len() - j,
    {
        let ghost prev = out@;
        assert(kernel_ok(weights[j as int]@));
        accumulate_plane(ops, &mut out, &in_maps[j], strides[j], &weights[j], new_width, new_height);
        proof {
            assert forall|y: int, x: int| 0 <= y < nh && 0 <= x < nw implies #[trigger] plane_at(
                out@,
                nw,
                y,
                x,
            ) == conv_acc(ops, layer, g, o as int, y, x, (j + 1) as nat) by {
                assert(plane_at(prev, nw, y, x) == conv_acc(ops, layer, g, o as int, y, x, j as nat));
                assert(stencil(in_maps[j as int]@, strides[j as int] as int, y, x) =~= window(
                    g,
                    j as int,
                    y,
                    x,
                ));
                assert(taps(weights[j as int]@) == layer.kernel(o as int, j as int));
            }
        }
        j += 1;
    }
    let ghost acc = out@;
    let mut idx: usize = 0;
    while idx < out.len()
        invariant
            idx <= out.len(),
            out.len() == acc.len(),
            tenth == ops.ratio_spec(1, 10),
            forall|i: int| 0 <= i < idx ==> out[i] == leaky(ops, ops.sum_spec(acc[i], bias)),
            forall|i: int| idx <= i < out.len() ==> out[i] == acc[i],
        decreases out.len() - idx,
    {
        out[idx] = leaky_rectify(ops, ops.sum(out[idx], bias), tenth);
        idx += 1;
    }
    proof {
        assert forall|y: int, x: int| 0 <= y < nh && 0 <= x < nw implies #[trigger] plane_at(
            out@,
            nw,
            y,
            x,
        ) == layer_sample(ops, layer, g, o as int, y, x) by {
            lemma_offset_in_rows(y, x, nw, nh);
            assert(plane_at(acc, nw, y, x) == conv_acc(
                ops,
                layer,
                g,
                o as int,
                y,
                x,
                layer.nInputPlane as nat,
            ));
        }
    }
    out
}

/// One layer over planar input: every output plane in turn.
fn planar_layer<T: Copy, A: Arith<T>>(
    ops: &A,
    layer: &Layer<T>,
    in_maps: &Vec<Vec<T>>,
    strides: &Vec<usize>,
    width: usize,
    height: usize,
    tenth: T,
) -> (out_maps: Vec<Vec<T>>)
    requires
        layer.wf(),
        in_maps.len() == layer.nInputPlane,
        planes_hold(in_maps@, strides@, width as int, height as int),
        width >= 2,
        height >= 2,
        height * width <= usize::MAX,
        tenth == ops.ratio_spec(1, 10),
    ensures
        out_maps.len() == layer.nOutputPlane,
        forall|o: int|
            0 <= o < out_maps.len() ==> (#[trigger] out_maps[o]).len() == (height - 2) * (width
                - 2),
        forall|o: int, y: int, x: int|
            0 <= o < out_maps.len() && 0 <= y < height - 2 && 0 <= x < width - 2
                ==> #[trigger] plane_at(out_maps[o]@, width - 2, y, x) == layer_sample(
                ops,
                layer,
                planar_grid(in_maps@, strides@, width as int, height as int),
                o,
                y,
                x,
            ),
{
    let n_out = layer.nOutputPlane as usize;
    let mut out_maps: Vec<Vec<T>> = Vec::with_capacity(n_out);
    let mut o: usize = 0;
    while o < n_out
        invariant
            o <= n_out,
            n_out == layer.nOutputPlane,
            layer.wf(),
            in_maps.len() == layer.nInputPlane,
            planes_hold(in_maps@, strides@, width as int, height as int),
            width >= 2,
            height >= 2,
            height * width <= usize::MAX,
            tenth == ops.ratio_spec(1, 10),
            out_maps.len() == o,
            forall|p: int|
                0 <= p < out_maps.len() ==> (#[trigger] out_maps[p]).len() == (height - 2) * (
                width - 2),
            forall|p: int, y: int, x: int|
                0 <= p < out_maps.len() && 0 <= y < height - 2 && 0 <= x < width - 2
                    ==> #[trigger] plane_at(out_maps[p]@, width - 2, y, x) == layer_sample(
                    ops,
                    layer,
                    planar_grid(in_maps@, strides@, width as int, height as int),
                    p,
                    y,
                    x,
                ),
        decreases n_out - o,
    {
        let out = planar_output_plane(ops, layer, in_maps, strides, width, height, o, tenth);
        out_maps.push(out);
        o += 1;
    }
    out_maps
}

/// Planes that hold, sample for sample, what a layer gives are the grid that
/// the layer gives.
proof fn lemma_planes_are_layer_output<T: Copy, A: Arith<T>>(
    ops: &A,
    layer: &Layer<T>,
    g: Grid<T>,
    planes: Seq<Vec<T>>,
    strides: Seq<usize>,
    w: int,
    h: int,
)
    requires
        0 <= w,
        0 <= h,
        planes.len() == layer.nOutputPlane,
        strides.len() == planes.len(),
        forall|p: int| 0 <= p < strides.len() ==> #[trigger] strides[p] == w,
        forall|o: int, y: int, x: int|
            0 <= o < planes.len() && 0 <= y < h && 0 <= x < w ==> #[trigger] plane_at(
                planes[o]@,
                w,
                y,
                x,
            ) == layer_sample(ops, layer, g, o, y, x),
    ensures
        planar_grid(planes, strides, w, h) == layer_forward(ops, layer, g, w, h),
{
    let a = planar_grid(planes, strides, w, h);
    let b = layer_forward(ops, layer, g, w, h);
    assert(a.len() == b.len());
    assert forall|o: int| 0 <= o < a.len() implies a[o] == b[o] by {
        assert(a[o].len() == b[o].len());
        assert forall|y: int| 0 <= y < a[o].len() implies a[o][y] == b[o][y] by {
            assert(a[o][y].len() == b[o][y].len());
            assert forall|x: int| 0 <= x < a[o][y].len() implies a[o][y][x] == b[o][y][x] by {
                assert(a[o][y][x] == plane_at(planes[o]@, w, y, x));
            }
            assert(a[o][y] =~= b[o][y]);
        }
        assert(a[o] =~= b[o]);
    }
    assert(a =~= b);
}

/// Strategy A: every plane is a buffer of its own. For each layer and each
/// output plane, the kernels of all input planes are accumulated over the
/// whole plane, then bias and activation are applied.
///
/// The input is read with its padding. The result has no padding and is two
/// rows and two columns smaller for each layer. The operations of every layer
/// are added to `perf.cnn_flo`, which stops at the largest `u64`.
pub fn filter_cpu1<T: Copy, A: Arith<T>>(
    in_img: Image<T>,
    model: &Model<T>,
    perf: &mut PerfStatus,
    ops: &A,
) -> (out: Image<T>)
    requires
        model_fits(model@, &in_img),
    ensures
        is_filtered(ops, model@, &in_img, &out),
        final(perf).cnn_flo == saturated(
            old(perf).cnn_flo + model_flo(model@, in_img.full_width(), in_img.full_height()),
        ),
{
    let ghost input = in_img;
    let ghost w0 = in_img.full_width();
    let ghost h0 = in_img.full_height();
    let ghost g0 = in_img.grid();
    let ghost flo0 = perf.cnn_flo as int;
    let tenth = ops.ratio(1, 10);
    let mut width = in_img.width + 2 * in_img.padding;
    let mut height = in_img.height + 2 * in_img.padding;
    let color_space = in_img.color_space;
    let mut in_maps = in_img.data;
    let mut strides = in_img.strides;
    proof {
        assert(in_maps@[0].len() == h0 * strides@[0]);
        lemma_product_shrinks(h0, w0, h0, strides@[0] as int);
        assert(model@.take(0) =~= Seq::<Layer<T>>::empty());
    }
    let mut k: usize = 0;
    while k < model.len()
        invariant
            k <= model.len(),
            model.len() >= 1,
            2 * model.len() <= w0,
            2 * model.len() <= h0,
            width == w0 - 2 * k,
            height == h0 - 2 * k,
            height * width <= usize::MAX,
            tenth == ops.ratio_spec(1, 10),
            forall|i: int| 0 <= i < model.len() ==> (#[trigger] model@[i]).wf(),
            forall|i: int|
                1 <= i < model.len() ==> (#[trigger] model@[i]).nInputPlane == model@[i
                    - 1].nOutputPlane,
            k == 0 ==> in_maps.len() == model@[0].nInputPlane,
            k > 0 ==> in_maps.len() == model@[k - 1].nOutputPlane,
            planes_hold(in_maps@, strides@, width as int, height as int),
            k > 0 ==> forall|p: int| 0 <= p < strides.len() ==> #[trigger] strides[p] == width,
            planar_grid(in_maps@, strides@, width as int, height as int) == forward(
                ops,
                model@.take(k as int),
                g0,
                w0,
                h0,
            ),
            perf.cnn_flo == saturated(flo0 + model_flo(model@.take(k as int), w0, h0)),
            flo0 >= 0,
            model_flo(model@.take(k as int), w0, h0) >= 0,
        decreases model.len() - k,
    {
        let layer = &model[k];
        let ghost g = planar_grid(in_maps@, strides@, width as int, height as int);
        let ghost prefix = model@.take(k as int);
        let ghost next = model@.take(k + 1);
        let out_maps = planar_layer(ops, layer, &in_maps, &strides, width, height, tenth);
        proof {
            lemma_product_shrinks(height - 2, width - 2, height as int, width as int);
        }
        width = width - 2;
        height = height - 2;
        let flops = layer_flops(layer, width, height);
        perf.cnn_flo = perf.cnn_flo.saturating_add(flops);
        strides = filled(out_maps.len(), width);
        in_maps = out_maps;
        proof {
            assert(next.last() == model@[k as int]);
            assert(next.drop_last() =~= prefix);
            lemma_planes_are_layer_output(
                ops,
                layer,
                g,
                in_maps@,
                strides@,
                width as int,
                height as int,
            );
            lemma_layer_flo_nonnegative(layer, width as int, height as int);
        }
        k += 1;
    }
    proof {
        assert(model@.take(k as int) =~= model@);
    }
    Image { width, height, color_space, data: in_maps, strides, padding: 0, alignment: 1 }
}

} // verus!
