//! One layer of the interleaved strategy, in place on the shared buffer.

use crate::arith::{dot9, leaky, leaky_rectify, zero, Arith};
use crate::cnn::{conv_acc, layer_forward, layer_sample, window};
use crate::grid::Grid;
use crate::interleaved::{inter_at, interleaved_grid};
use crate::layout::{
    lemma_next_row, lemma_offset_in_rows, lemma_product_shrinks, lemma_row_within, offset,
    plane_at,
};
use crate::model::{kernel_ok, kernels_ok, taps, Layer};
use vstd::arithmetic::div_mod::{
    lemma_div_pos_is_pos, lemma_fundamental_div_mod, lemma_mod_bound, lemma_multiply_divide_lt,
};
use vstd::prelude::*;

verus! {

/// The nine taps for output plane `j` in the repacked weights of one input
/// plane.
pub open spec fn kernel_slot<T>(row: Seq<T>, j: int) -> Seq<T> {
    row.subrange(9 * j, 9 * j + 9)
}

/// The weights of a layer, regrouped by input plane: row `i` holds, for each
/// output plane in turn, the nine taps of its kernel for input plane `i`.
fn filter_cpu2_get_weights<T: Copy>(layer: &Layer<T>) -> (w: Vec<Vec<T>>)
    requires
        layer.wf(),
    ensures
        w.len() == layer.nInputPlane,
        forall|i: int| 0 <= i < w.len() ==> (#[trigger] w[i]).len() == 9 * layer.nOutputPlane,
        forall|i: int, j: int|
            0 <= i < layer.nInputPlane && 0 <= j < layer.nOutputPlane ==> #[trigger] kernel_slot(
                w[i]@,
                j,
            ) == layer.kernel(j, i),
{
    let n_in = layer.nInputPlane as usize;
    let n_out = layer.nOutputPlane as usize;
    let mut w: Vec<Vec<T>> = Vec::with_capacity(n_in);
    let mut i: usize = 0;
    while i < n_in
        invariant
            i <= n_in,
            n_in == layer.nInputPlane,
            n_out == layer.nOutputPlane,
            layer.wf(),
            w.len() == i,
            forall|q: int| 0 <= q < w.len() ==> (#[trigger] w[q]).len() == 9 * n_out,
            forall|q: int, j: int|
                0 <= q < i && 0 <= j < n_out ==> #[trigger] kernel_slot(w[q]@, j) == layer.kernel(
                    j,
                    q,
                ),
        decreases n_in - i,
    {
        let mut v: Vec<T> = Vec::new();
        let mut j: usize = 0;
        while j < n_out
            invariant
                j <= n_out,
                i < n_in,
                n_in == layer.nInputPlane,
                n_out == layer.nOutputPlane,
                layer.wf(),
                v.len() == 9 * j,
                forall|q: int|
                    0 <= q < j ==> #[trigger] kernel_slot(v@, q) == layer.kernel(q, i as int),
            decreases n_out - j,
        {
            assert(kernels_ok(layer.weight[j as int]@, layer.nInputPlane as int));
            let k = &layer.weight[j][i];
            assert(kernel_ok(k@));
            let ghost before = v@;
            v.push(k[0][0]);
            v.push(k[0][1]);
            v.push(k[0][2]);
            v.push(k[1][0]);
            v.push(k[1][1]);
            v.push(k[1][2]);
            v.push(k[2][0]);
            v.push(k[2][1]);
            v.push(k[2][2]);
            proof {
                assert(kernel_slot(v@, j as int) =~= taps(k@));
                assert forall|q: int| 0 <= q < j implies #[trigger] kernel_slot(v@, q)
                    == layer.kernel(q, i as int) by {
                    assert(kernel_slot(v@, q) =~= kernel_slot(before, q));
                }
            }
            j += 1;
        }
        w.push(v);
        i += 1;
    }
    w
}

/// The nine-tap sum of a neighbourhood with the taps that start at `off`.
fn convolve3x3<T: Copy, A: Arith<T>>(ops: &A, input: &[T; 9], w: &Vec<T>, off: usize) -> (r: T)
    requires
        off + 9 <= w.len(),
    ensures
        r == dot9(ops, input@, w@.subrange(off as int, off + 9)),
{
    ops.sum(
        ops.sum(
            ops.sum(
                ops.sum(
                    ops.sum(
                        ops.sum(
                            ops.sum(
                                ops.sum(
                                    ops.product(input[0], w[off]),
                                    ops.product(input[1], w[off + 1]),
                                ),
                                ops.product(input[2], w[off + 2]),
                            ),
                            ops.product(input[3], w[off + 3]),
                        ),
                        ops.product(input[4], w[off + 4]),
                    ),
                    ops.product(input[5], w[off + 5]),
                ),
                ops.product(input[6], w[off + 6]),
            ),
            ops.product(input[7], w[off + 7]),
        ),
        ops.product(input[8], w[off + 8]),
    )
}

/// Adds to the accumulator of each output plane the nine-tap sum of one
/// neighbourhood with that plane's taps.
fn accumulate_taps<T: Copy, A: Arith<T>>(
    ops: &A,
    input: &[T; 9],
    w: &Vec<T>,
    num_out: usize,
    temp: &mut Vec<T>,
)
    requires
        w.len() == 9 * num_out,
        old(temp).len() >= num_out,
    ensures
        final(temp).len() == old(temp).len(),
        forall|j: int|
            0 <= j < num_out ==> #[trigger] final(temp)[j] == ops.sum_spec(
                old(temp)[j],
                dot9(ops, input@, kernel_slot(w@, j)),
            ),
        forall|j: int| num_out <= j < old(temp).len() ==> final(temp)[j] == old(temp)[j],
{
    let ghost before = temp@;
    let mut j: usize = 0;
    while j < num_out
        invariant
            j <= num_out,
            w.len() == 9 * num_out,
            temp.len() == before.len(),
            before.len() >= num_out,
            forall|q: int|
                0 <= q < j ==> #[trigger] temp[q] == ops.sum_spec(
                    before[q],
                    dot9(ops, input@, kernel_slot(w@, q)),
                ),
            forall|q: int| j <= q < temp.len() ==> temp[q] == before[q],
        decreases num_out - j,
    {
        let s = convolve3x3(ops, input, w, j * 9);
        temp[j] = ops.sum(temp[j], s);
        j += 1;
    }
}

/// As [`accumulate_taps`], eight output planes at a time, then those that are
/// left one by one.
fn accumulate_taps_by8<T: Copy, A: Arith<T>>(
    ops: &A,
    input: &[T; 9],
    w: &Vec<T>,
    num_out: usize,
    temp: &mut Vec<T>,
)
    requires
        w.len() == 9 * num_out,
        old(temp).len() >= num_out,
    ensures
        final(temp).len() == old(temp).len(),
        forall|j: int|
            0 <= j < num_out ==> #[trigger] final(temp)[j] == ops.sum_spec(
                old(temp)[j],
                dot9(ops, input@, kernel_slot(w@, j)),
            ),
        forall|j: int| num_out <= j < old(temp).len() ==> final(temp)[j] == old(temp)[j],
{
    let ghost before = temp@;
    let mut j: usize = 0;
    while j + 8 <= num_out
        invariant
            j <= num_out,
            w.len() == 9 * num_out,
            temp.len() == before.len(),
            before.len() >= num_out,
            forall|q: int|
                0 <= q < j ==> #[trigger] temp[q] == ops.sum_spec(
                    before[q],
                    dot9(ops, input@, kernel_slot(w@, q)),
                ),
            forall|q: int| j <= q < temp.len() ==> temp[q] == before[q],
        decreases num_out - j,
    {
        let wi = j * 9;
        let s0 = convolve3x3(ops, input, w, wi);
        let s1 = convolve3x3(ops, input, w, wi + 9);
        let s2 = convolve3x3(ops, input, w, wi + 18);
        let s3 = convolve3x3(ops, input, w, wi + 27);
        let s4 = convolve3x3(ops, input, w, wi + 36);
        let s5 = convolve3x3(ops, input, w, wi + 45);
        let s6 = convolve3x3(ops, input, w, wi + 54);
        let s7 = convolve3x3(ops, input, w, wi + 63);
        temp[j] = ops.sum(temp[j], s0);
        temp[j + 1] = ops.sum(temp[j + 1], s1);
        temp[j + 2] = ops.sum(temp[j + 2], s2);
        temp[j + 3] = ops.sum(temp[j + 3], s3);
        temp[j + 4] = ops.sum(temp[j + 4], s4);
        temp[j + 5] = ops.sum(temp[j + 5], s5);
        temp[j + 6] = ops.sum(temp[j + 6], s6);
        temp[j + 7] = ops.sum(temp[j + 7], s7);
        j += 8;
    }
    while j < num_out
        invariant
            j <= num_out,
            w.len() == 9 * num_out,
            temp.len() == before.len(),
            before.len() >= num_out,
            forall|q: int|
                0 <= q < j ==> #[trigger] temp[q] == ops.sum_spec(
                    before[q],
                    dot9(ops, input@, kernel_slot(w@, q)),
                ),
            forall|q: int| j <= q < temp.len() ==> temp[q] == before[q],
        decreases num_out - j,
    {
        let s = convolve3x3(ops, input, w, j * 9);
        temp[j] = ops.sum(temp[j], s);
        j += 1;
    }
}

/// The 3x3 neighbourhood of plane `i` in an interleaved buffer of `n` planes,
/// where `base` is the place of the first plane's sample at the upper left
/// corner.
pub open spec fn flat_window<T>(buf: Seq<T>, base: int, stride: int, n: int, i: int) -> Seq<T> {
    seq![
        buf[base + i],
        buf[base + n + i],
        buf[base + n * 2 + i],
        buf[base + stride + i],
        buf[base + stride + n + i],
        buf[base + stride + n * 2 + i],
        buf[base + stride * 2 + i],
        buf[base + stride * 2 + n + i],
        buf[base + stride * 2 + n * 2 + i],
    ]
}

/// Accumulates, for one output pixel, the cross-correlation over all input
/// planes into the accumulators of the output planes, which start from zero.
/// The other accumulators stay as they are.
fn accumulate_pixel<T: Copy, A: Arith<T>>(
    ops: &A,
    layer: &Layer<T>,
    weights: &Vec<Vec<T>>,
    buf: &Vec<T>,
    base: usize,
    stride: usize,
    temp: &mut Vec<T>,
    by8: bool,
    Ghost(g): Ghost<Grid<T>>,
    Ghost(y): Ghost<int>,
    Ghost(x): Ghost<int>,
)
    requires
        layer.wf(),
        weights.len() == layer.nInputPlane,
        forall|i: int|
            0 <= i < weights.len() ==> (#[trigger] weights[i]).len() == 9 * layer.nOutputPlane,
        forall|i: int, j: int|
            0 <= i < layer.nInputPlane && 0 <= j < layer.nOutputPlane ==> #[trigger] kernel_slot(
                weights[i]@,
                j,
            ) == layer.kernel(j, i),
        base + stride * 2 + layer.nInputPlane * 3 <= buf.len(),
        old(temp).len() >= layer.nOutputPlane,
        forall|j: int| 0 <= j < layer.nOutputPlane ==> old(temp)[j] == zero(ops),
        forall|i: int|
            0 <= i < layer.nInputPlane ==> #[trigger] flat_window(
                buf@,
                base as int,
                stride as int,
                layer.nInputPlane as int,
                i,
            ) == window(g, i, y, x),
    ensures
        final(temp).len() == old(temp).len(),
        forall|j: int|
            0 <= j < layer.nOutputPlane ==> #[trigger] final(temp)[j] == conv_acc(
                ops,
                layer,
                g,
                j,
                y,
                x,
                layer.nInputPlane as nat,
            ),
        forall|j: int| layer.nOutputPlane <= j < old(temp).len() ==> final(temp)[j] == old(temp)[j],
{
    let num_in = layer.nInputPlane as usize;
    let num_out = layer.nOutputPlane as usize;
    let in_off00 = base;
    let in_off01 = in_off00 + num_in;
    let in_off02 = in_off00 + num_in * 2;
    let in_off10 = in_off00 + stride;
    let in_off11 = in_off10 + num_in;
    let in_off12 = in_off10 + num_in * 2;
    let in_off20 = in_off00 + stride * 2;
    let in_off21 = in_off20 + num_in;
    let in_off22 = in_off20 + num_in * 2;
    let mut i: usize = 0;
    while i < num_in
        invariant
            i <= num_in,
            num_in == layer.nInputPlane,
            num_out == layer.nOutputPlane,
            layer.wf(),
            weights.len() == num_in,
            forall|q: int| 0 <= q < weights.len() ==> (#[trigger] weights[q]).len() == 9 * num_out,
            forall|q: int, j: int|
                0 <= q < num_in && 0 <= j < num_out ==> #[trigger] kernel_slot(weights[q]@, j)
                    == layer.kernel(j, q),
            in_off00 == base,
            in_off01 == base + num_in,
            in_off02 == base + num_in * 2,
            in_off10 == base + stride,
            in_off11 == base + stride + num_in,
            in_off12 == base + stride + num_in * 2,
            in_off20 == base + stride * 2,
            in_off21 == base + stride * 2 + num_in,
            in_off22 == base + stride * 2 + num_in * 2,
            base + stride * 2 + num_in * 3 <= buf.len(),
            temp.len() == old(temp).len(),
            temp.len() >= num_out,
            forall|q: int|
                0 <= q < num_in ==> #[trigger] flat_window(
                    buf@,
                    base as int,
                    stride as int,
                    num_in as int,
                    q,
                ) == window(g, q, y, x),
            forall|j: int|
                0 <= j < num_out ==> #[trigger] temp[j] == conv_acc(
                    ops,
                    layer,
                    g,
                    j,
                    y,
                    x,
                    i as nat,
                ),
            forall|j: int| num_out <= j < temp.len() ==> temp[j] == old(temp)[j],
        decreases num_in - i,
    {
        let w = &weights[i];
        let input: [T; 9] = [
            buf[in_off00 + i],
            buf[in_off01 + i],
            buf[in_off02 + i],
            buf[in_off10 + i],
            buf[in_off11 + i],
            buf[in_off12 + i],
            buf[in_off20 + i],
            buf[in_off21 + i],
            buf[in_off22 + i],
        ];
        let ghost before = temp@;
        if by8 {
            accumulate_taps_by8(ops, &input, w, num_out, temp);
        } else {
            accumulate_taps(ops, &input, w, num_out, temp);
        }
        proof {
            assert(input@ =~= flat_window(
                buf@,
                base as int,
                stride as int,
                num_in as int,
                i as int,
            ));
            assert forall|j: int| 0 <= j < num_out implies #[trigger] temp[j] == conv_acc(
                ops,
                layer,
                g,
                j,
                y,
                x,
                (i + 1) as nat,
            ) by {
                assert(before[j] == conv_acc(ops, layer, g, j, y, x, i as nat));
                assert(kernel_slot(w@, j) == layer.kernel(j, i as int));
            }
        }
        i += 1;
    }
}

/// Adds the bias to the accumulator of each output plane, rectifies the sum,
/// writes it to pixel `x` of the output row and zeroes the accumulator.
fn filter_cpu2_layer_bias_relu<T: Copy, A: Arith<T>>(
    ops: &A,
    layer: &Layer<T>,
    num_out: usize,
    x: usize,
    temp: &mut Vec<T>,
    out_line: &mut Vec<T>,
    tenth: T,
)
    requires
        layer.bias.len() >= num_out,
        old(temp).len() >= num_out,
        (x + 1) * num_out <= old(out_line).len(),
        tenth == ops.ratio_spec(1, 10),
    ensures
        final(temp).len() == old(temp).len(),
        final(out_line).len() == old(out_line).len(),
        forall|i: int| 0 <= i < num_out ==> #[trigger] final(temp)[i] == zero(ops),
        forall|i: int| num_out <= i < old(temp).len() ==> final(temp)[i] == old(temp)[i],
        forall|i: int|
            0 <= i < num_out ==> #[trigger] plane_at(final(out_line)@, num_out as int, x as int, i)
                == leaky(ops, ops.sum_spec(old(temp)[i], layer.bias[i])),
        forall|idx: int|
            0 <= idx < x * num_out ==> #[trigger] final(out_line)[idx] == old(out_line)[idx],
        forall|idx: int|
            (x + 1) * num_out <= idx < old(out_line).len() ==> #[trigger] final(out_line)[idx]
                == old(out_line)[idx],
{
    let ghost temp0 = temp@;
    let ghost line0 = out_line@;
    let z = ops.ratio(0, 1);
    proof {
        lemma_next_row(x as int, num_out as int);
    }
    let off = x * num_out;
    let mut i: usize = 0;
    while i < num_out
        invariant
            i <= num_out,
            layer.bias.len() >= num_out,
            temp.len() == temp0.len(),
            temp.len() >= num_out,
            out_line.len() == line0.len(),
            off == x * num_out,
            off + num_out <= out_line.len(),
            tenth == ops.ratio_spec(1, 10),
            z == zero(ops),
            forall|q: int| 0 <= q < i ==> #[trigger] temp[q] == zero(ops),
            forall|q: int| i <= q < temp.len() ==> temp[q] == temp0[q],
            forall|q: int|
                0 <= q < i ==> #[trigger] out_line[off + q] == leaky(
                    ops,
                    ops.sum_spec(temp0[q], layer.bias[q]),
                ),
            forall|idx: int| 0 <= idx < off ==> #[trigger] out_line[idx] == line0[idx],
            forall|idx: int|
                off + i <= idx < out_line.len() ==> #[trigger] out_line[idx] == line0[idx],
        decreases num_out - i,
    {
        out_line[off + i] = leaky_rectify(ops, ops.sum(temp[i], layer.bias[i]), tenth);
        temp[i] = z;
        i += 1;
    }
    proof {
        assert forall|q: int| 0 <= q < num_out implies #[trigger] plane_at(
            out_line@,
            num_out as int,
            x as int,
            q,
        ) == leaky(ops, ops.sum_spec(temp0[q], layer.bias[q])) by {
            assert(out_line[off + q] == leaky(ops, ops.sum_spec(temp0[q], layer.bias[q])));
        }
    }
}

/// Copies the first `width * num_out` samples of the output row to the start
/// of row `y` of the buffer.
fn filter_cpu2_layer_writeback_line<T: Copy>(
    num_out: usize,
    width: usize,
    y: usize,
    stride: usize,
    buf: &mut Vec<T>,
    out_line: &Vec<T>,
)
    requires
        width * num_out <= out_line.len(),
        y * stride + width * num_out <= old(buf).len(),
    ensures
        final(buf).len() == old(buf).len(),
        forall|i: int|
            0 <= i < width * num_out ==> final(buf)[y * stride + i] == #[trigger] out_line[i],
        forall|idx: int| 0 <= idx < y * stride ==> #[trigger] final(buf)[idx] == old(buf)[idx],
        forall|idx: int|
            y * stride + width * num_out <= idx < old(buf).len() ==> #[trigger] final(buf)[idx]
                == old(buf)[idx],
{
    let ghost before = buf@;
    proof {
        lemma_next_row(y as int, stride as int);
    }
    let out_off = y * stride;
    let n = width * num_out;
    let mut i: usize = 0;
    while i < n
        invariant
            i <= n,
            n == width * num_out,
            n <= out_line.len(),
            out_off == y * stride,
            out_off + n <= buf.len(),
            buf.len() == before.len(),
            forall|q: int| 0 <= q < i ==> buf[out_off + q] == #[trigger] out_line[q],
            forall|idx: int| 0 <= idx < out_off ==> #[trigger] buf[idx] == before[idx],
            forall|idx: int| out_off + i <= idx < buf.len() ==> #[trigger] buf[idx] == before[idx],
        decreases n - i,
    {
        buf[out_off + i] = out_line[i];
        i += 1;
    }
}

/// Where a buffer still holds the rows from `y` on of what it held at first,
/// the neighbourhoods that start in row `y` are those of the first grid.
proof fn lemma_window_in_buffer<T>(
    buf: Seq<T>,
    buf0: Seq<T>,
    stride: int,
    n: int,
    w: int,
    h: int,
    y: int,
    x: int,
    i: int,
)
    requires
        0 <= y,
        y + 2 < h,
        0 <= x,
        x + 2 < w,
        0 <= i < n,
        w * n <= stride,
        h * stride <= buf0.len(),
        buf.len() == buf0.len(),
        forall|idx: int| y * stride <= idx < buf.len() ==> buf[idx] == buf0[idx],
    ensures
        0 <= y * stride + x * n,
        y * stride + x * n + stride * 2 + n * 3 <= buf.len(),
        flat_window(buf, y * stride + x * n, stride, n, i) == window(
            interleaved_grid(buf0, stride, n, w, h),
            i,
            y,
            x,
        ),
{
    let g = interleaved_grid(buf0, stride, n, w, h);
    let base = y * stride + x * n;
    lemma_next_row(y, stride);
    lemma_next_row(y + 1, stride);
    lemma_next_row(y + 2, stride);
    lemma_next_row(x, n);
    lemma_next_row(x + 1, n);
    lemma_next_row(x + 2, n);
    lemma_offset_in_rows(x, i, n, w);
    lemma_offset_in_rows(x + 1, i, n, w);
    lemma_offset_in_rows(x + 2, i, n, w);
    lemma_offset_in_rows(y, x * n + i, stride, h);
    lemma_offset_in_rows(y, (x + 1) * n + i, stride, h);
    lemma_offset_in_rows(y, (x + 2) * n + i, stride, h);
    lemma_offset_in_rows(y + 1, x * n + i, stride, h);
    lemma_offset_in_rows(y + 1, (x + 1) * n + i, stride, h);
    lemma_offset_in_rows(y + 1, (x + 2) * n + i, stride, h);
    lemma_offset_in_rows(y + 2, x * n + i, stride, h);
    lemma_offset_in_rows(y + 2, (x + 1) * n + i, stride, h);
    lemma_offset_in_rows(y + 2, (x + 2) * n + i, stride, h);
    assert(g[i][y][x] == inter_at(buf0, stride, n, i, y, x));
    assert(g[i][y][x + 1] == inter_at(buf0, stride, n, i, y, x + 1));
    assert(g[i][y][x + 2] == inter_at(buf0, stride, n, i, y, x + 2));
    assert(g[i][y + 1][x] == inter_at(buf0, stride, n, i, y + 1, x));
    assert(g[i][y + 1][x + 1] == inter_at(buf0, stride, n, i, y + 1, x + 1));
    assert(g[i][y + 1][x + 2] == inter_at(buf0, stride, n, i, y + 1, x + 2));
    assert(g[i][y + 2][x] == inter_at(buf0, stride, n, i, y + 2, x));
    assert(g[i][y + 2][x + 1] == inter_at(buf0, stride, n, i, y + 2, x + 1));
    assert(g[i][y + 2][x + 2] == inter_at(buf0, stride, n, i, y + 2, x + 2));
    assert(flat_window(buf, base, stride, n, i) =~= window(g, i, y, x));
}

/// A buffer that holds, sample for sample, what a layer gives is the grid that
/// the layer gives.
proof fn lemma_buffer_is_layer_output<T: Copy, A: Arith<T>>(
    ops: &A,
    layer: &Layer<T>,
    g: Grid<T>,
    buf: Seq<T>,
    stride: int,
    w: int,
    h: int,
)
    requires
        0 <= w,
        0 <= h,
        forall|o: int, y: int, x: int|
            0 <= o < layer.nOutputPlane && 0 <= y < h && 0 <= x < w ==> #[trigger] inter_at(
                buf,
                stride,
                layer.nOutputPlane as int,
                o,
                y,
                x,
            ) == layer_sample(ops, layer, g, o, y, x),
    ensures
        interleaved_grid(buf, stride, layer.nOutputPlane as int, w, h) == layer_forward(
            ops,
            layer,
            g,
            w,
            h,
        ),
{
    let a = interleaved_grid(buf, stride, layer.nOutputPlane as int, w, h);
    let b = layer_forward(ops, layer, g, w, h);
    assert(a.len() == b.len());
    assert forall|o: int| 0 <= o < a.len() implies a[o] == b[o] by {
        assert(a[o].len() == b[o].len());
        assert forall|y: int| 0 <= y < a[o].len() implies a[o][y] == b[o][y] by {
            assert(a[o][y].len() == b[o][y].len());
            assert forall|x: int| 0 <= x < a[o][y].len() implies a[o][y][x] == b[o][y][x] by {
                assert(a[o][y][x] == inter_at(buf, stride, layer.nOutputPlane as int, o, y, x));
            }
            assert(a[o][y] =~= b[o][y]);
        }
        assert(a[o] =~= b[o]);
    }
    assert(a =~= b);
}

/// The sizes that one layer over an interleaved buffer needs: the plane
/// counts are those of the layer, which is well formed, and a row of the
/// buffer holds a row of the input, two pixels wider than the output, and a
/// row of the output.
pub open spec fn layer_step_fits<T: Copy>(
    layer: &Layer<T>,
    num_in: usize,
    num_out: usize,
    width: usize,
    height: usize,
    stride: usize,
) -> bool {
    &&& layer.wf()
    &&& num_in == layer.nInputPlane
    &&& num_out == layer.nOutputPlane
    &&& (width + 2) * num_in <= stride
    &&& width * num_out <= stride
}

/// `buf` and `line` are what one layer leaves of the shared buffer `buf0` and
/// the scratch row `line0`, where the output has `height` rows of `width`
/// pixels. The first `height` rows of the buffer start with the output of the
/// layer on what the buffer held; behind the output of each of these rows,
/// and from row `height` on, the buffer is as it was. The scratch row starts
/// with the last row of the output, where there is one, and is as it was
/// behind it.
pub open spec fn is_layer_step<T: Copy, A: Arith<T>>(
    ops: &A,
    layer: &Layer<T>,
    width: int,
    height: int,
    stride: int,
    buf0: Seq<T>,
    line0: Seq<T>,
    buf: Seq<T>,
    line: Seq<T>,
) -> bool {
    let num_in = layer.nInputPlane as int;
    let num_out = layer.nOutputPlane as int;
    let g = interleaved_grid(buf0, stride, num_in, width + 2, height + 2);
    &&& buf.len() == buf0.len()
    &&& line.len() == line0.len()
    &&& interleaved_grid(buf, stride, num_out, width, height) == layer_forward(
        ops,
        layer,
        g,
        width,
        height,
    )
    &&& forall|y: int, k: int|
        0 <= y < height && width * num_out <= k < stride ==> buf[#[trigger] offset(y, stride, k)]
            == buf0[offset(y, stride, k)]
    &&& forall|j: int| height * stride <= j < buf0.len() ==> #[trigger] buf[j] == buf0[j]
    &&& forall|k: int| width * num_out <= k < line0.len() ==> #[trigger] line[k] == line0[k]
    &&& height == 0 ==> line == line0
    &&& height > 0 ==> forall|x: int, o: int|
        0 <= x < width && 0 <= o < num_out ==> #[trigger] plane_at(line, num_out, x, o)
            == layer_sample(ops, layer, g, o, height - 1, x)
}

/// A place below `rows * stride` is a column of a row: it is
/// `offset(y, stride, k)` for the row `y` and the column `k` that division
/// by the stride gives.
proof fn lemma_place_in_rows(idx: int, stride: int, rows: int)
    requires
        0 <= idx < rows * stride,
        0 <= stride,
    ensures
        0 < stride,
        0 <= idx / stride < rows,
        0 <= idx % stride < stride,
        idx == offset(idx / stride, stride, idx % stride),
{
    assert(stride > 0) by (nonlinear_arith)
        requires
            0 <= idx < rows * stride,
            0 <= stride,
    ;
    lemma_fundamental_div_mod(idx, stride);
    lemma_mod_bound(idx, stride);
    lemma_div_pos_is_pos(idx, stride);
    assert(stride * rows == rows * stride) by (nonlinear_arith);
    lemma_multiply_divide_lt(idx, stride, rows);
    assert(stride * (idx / stride) == (idx / stride) * stride) by (nonlinear_arith);
}

/// One layer leaves the shared buffer and the scratch row in one state only:
/// two states that are both what the layer leaves are equal, sample for
/// sample. So the layer leaves the same state whether its output planes are
/// accumulated one by one or eight at a time.
pub proof fn lemma_layer_step_is_determined<T: Copy, A: Arith<T>>(
    ops: &A,
    layer: &Layer<T>,
    width: int,
    height: int,
    stride: int,
    buf0: Seq<T>,
    line0: Seq<T>,
    buf_a: Seq<T>,
    line_a: Seq<T>,
    buf_b: Seq<T>,
    line_b: Seq<T>,
)
    requires
        0 <= width,
        0 <= height,
        width * layer.nOutputPlane <= stride,
        height * stride <= buf0.len(),
        width * layer.nOutputPlane <= line0.len(),
        is_layer_step(ops, layer, width, height, stride, buf0, line0, buf_a, line_a),
        is_layer_step(ops, layer, width, height, stride, buf0, line0, buf_b, line_b),
    ensures
        buf_a == buf_b,
        line_a == line_b,
{
    let n = layer.nOutputPlane as int;
    let ga = interleaved_grid(buf_a, stride, n, width, height);
    let gb = interleaved_grid(buf_b, stride, n, width, height);
    assert forall|idx: int| 0 <= idx < buf_a.len() implies buf_a[idx] == buf_b[idx] by {
        if idx < height * stride {
            lemma_place_in_rows(idx, stride, height);
            let y = idx / stride;
            let k = idx % stride;
            if k < width * n {
                lemma_place_in_rows(k, n, width);
                let x = k / n;
                let o = k % n;
                assert(ga[o][y][x] == inter_at(buf_a, stride, n, o, y, x));
                assert(gb[o][y][x] == inter_at(buf_b, stride, n, o, y, x));
            } else {
                assert(buf_a[offset(y, stride, k)] == buf0[offset(y, stride, k)]);
                assert(buf_b[offset(y, stride, k)] == buf0[offset(y, stride, k)]);
            }
        }
    }
    assert(buf_a =~= buf_b);
    assert forall|idx: int| 0 <= idx < line_a.len() implies line_a[idx] == line_b[idx] by {
        if idx < width * n && height > 0 {
            lemma_place_in_rows(idx, n, width);
            let x = idx / n;
            let o = idx % n;
            assert(line_a[idx] == plane_at(line_a, n, x, o));
            assert(line_b[idx] == plane_at(line_b, n, x, o));
        }
    }
    assert(line_a =~= line_b);
}

/// One layer over an interleaved buffer, in place. For each output row, every
/// pixel is accumulated over all input planes, biased and rectified into
/// `out_line`; the finished row is then copied over row `y` of the buffer,
/// which no later row reads.
fn interleaved_rows<T: Copy, A: Arith<T>>(
    ops: &A,
    layer: &Layer<T>,
    num_in: usize,
    num_out: usize,
    width: usize,
    height: usize,
    stride: usize,
    temp: &mut Vec<T>,
    buf: &mut Vec<T>,
    out_line: &mut Vec<T>,
    tenth: T,
    by8: bool,
)
    requires
        layer_step_fits(layer, num_in, num_out, width, height, stride),
        (height + 2) * stride <= old(buf).len(),
        old(temp).len() >= num_out,
        forall|j: int| 0 <= j < num_out ==> old(temp)[j] == zero(ops),
        old(out_line).len() >= width * num_out,
        tenth == ops.ratio_spec(1, 10),
    ensures
        final(temp)@ == old(temp)@,
        is_layer_step(
            ops,
            layer,
            width as int,
            height as int,
            stride as int,
            old(buf)@,
            old(out_line)@,
            final(buf)@,
            final(out_line)@,
        ),
{
    let weights = filter_cpu2_get_weights(layer);
    let ghost buf0 = buf@;
    let ghost line0 = out_line@;
    let ghost st = stride as int;
    let ghost g = interleaved_grid(buf0, st, num_in as int, width + 2, height + 2);
    let mut y: usize = 0;
    while y < height
        invariant
            y <= height,
            st == stride,
            layer_step_fits(layer, num_in, num_out, width, height, stride),
            (height + 2) * st <= buf0.len(),
            buf.len() == buf0.len(),
            temp.len() == old(temp).len(),
            temp.len() >= num_out,
            out_line.len() == old(out_line).len(),
            out_line.len() >= width * num_out,
            tenth == ops.ratio_spec(1, 10),
            g == interleaved_grid(buf0, st, num_in as int, width + 2, height + 2),
            weights.len() == layer.nInputPlane,
            forall|i: int|
                0 <= i < weights.len() ==> (#[trigger] weights[i]).len() == 9
                    * layer.nOutputPlane,
            forall|i: int, j: int|
                0 <= i < layer.nInputPlane && 0 <= j < layer.nOutputPlane
                    ==> #[trigger] kernel_slot(weights[i]@, j) == layer.kernel(j, i),
            temp@ == old(temp)@,
            forall|j: int| 0 <= j < num_out ==> old(temp)[j] == zero(ops),
            forall|idx: int| y * st <= idx < buf.len() ==> buf[idx] == buf0[idx],
            forall|o: int, r: int, x: int|
                0 <= o < num_out && 0 <= r < y && 0 <= x < width ==> #[trigger] inter_at(
                    buf@,
                    st,
                    num_out as int,
                    o,
                    r,
                    x,
                ) == layer_sample(ops, layer, g, o, r, x),
            forall|r: int, k: int|
                0 <= r < y && width * num_out <= k < st ==> buf[#[trigger] offset(r, st, k)]
                    == buf0[offset(r, st, k)],
            out_line.len() == line0.len(),
            forall|k: int| width * num_out <= k < line0.len() ==> #[trigger] out_line[k] == line0[k],
            y == 0 ==> out_line@ == line0,
            y > 0 ==> forall|x: int, o: int|
                0 <= x < width && 0 <= o < num_out ==> #[trigger] plane_at(
                    out_line@,
                    num_out as int,
                    x,
                    o,
                ) == layer_sample(ops, layer, g, o, y - 1, x),
        decreases height - y,
    {
        proof {
            lemma_next_row(y as int, st);
            lemma_row_within(y as int, st, height + 2);
        }
        let row = y * stride;
        let mut x: usize = 0;
        while x < width
            invariant
                x <= width,
                y < height,
                st == stride,
                row == y * stride,
                layer_step_fits(layer, num_in, num_out, width, height, stride),
                (height + 2) * st <= buf0.len(),
                buf.len() == buf0.len(),
                temp.len() == old(temp).len(),
                temp.len() >= num_out,
                out_line.len() == old(out_line).len(),
                out_line.len() >= width * num_out,
                tenth == ops.ratio_spec(1, 10),
                g == interleaved_grid(buf0, st, num_in as int, width + 2, height + 2),
                weights.len() == layer.nInputPlane,
                forall|i: int|
                    0 <= i < weights.len() ==> (#[trigger] weights[i]).len() == 9
                        * layer.nOutputPlane,
                forall|i: int, j: int|
                    0 <= i < layer.nInputPlane && 0 <= j < layer.nOutputPlane
                        ==> #[trigger] kernel_slot(weights[i]@, j) == layer.kernel(j, i),
                temp@ == old(temp)@,
                forall|j: int| 0 <= j < num_out ==> old(temp)[j] == zero(ops),
            forall|j: int| 0 <= j < num_out ==> old(temp)[j] == zero(ops),
                forall|idx: int| y * st <= idx < buf.len() ==> buf[idx] == buf0[idx],
                forall|o: int, xx: int|
                    0 <= o < num_out && 0 <= xx < x ==> #[trigger] plane_at(
                        out_line@,
                        num_out as int,
                        xx,
                        o,
                    ) == layer_sample(ops, layer, g, o, y as int, xx),
                out_line.len() == line0.len(),
                forall|k: int|
                    width * num_out <= k < line0.len() ==> #[trigger] out_line[k] == line0[k],
            decreases width - x,
        {
            proof {
                lemma_next_row(x as int, num_in as int);
                lemma_product_shrinks(x as int, num_in as int, width + 2, num_in as int);
                lemma_product_shrinks(x + 3, num_in as int, width + 2, num_in as int);
                lemma_next_row(x + 1, num_in as int);
                lemma_next_row(x + 2, num_in as int);
                lemma_row_within(y + 2, st, height + 2);
                lemma_next_row(y as int, st);
                lemma_next_row(y + 1, st);
                if num_in > 0 {
                    lemma_window_in_buffer(
                        buf@,
                        buf0,
                        st,
                        num_in as int,
                        width + 2,
                        height + 2,
                        y as int,
                        x as int,
                        0,
                    );
                }
                assert forall|i: int| 0 <= i < num_in implies #[trigger] flat_window(
                    buf@,
                    y * st + x * num_in,
                    st,
                    num_in as int,
                    i,
                ) == window(g, i, y as int, x as int) by {
                    lemma_window_in_buffer(
                        buf@,
                        buf0,
                        st,
                        num_in as int,
                        width + 2,
                        height + 2,
                        y as int,
                        x as int,
                        i,
                    );
                }
            }
            let base = row + x * num_in;
            accumulate_pixel(
                ops,
                layer,
                &weights,
                buf,
                base,
                stride,
                temp,
                by8,
                Ghost(g),
                Ghost(y as int),
                Ghost(x as int),
            );
            let ghost acc = temp@;
            let ghost line = out_line@;
            proof {
                lemma_next_row(x as int, num_out as int);
                lemma_product_shrinks(x + 1, num_out as int, width as int, num_out as int);
            }
            filter_cpu2_layer_bias_relu(ops, layer, num_out, x, temp, out_line, tenth);
            proof {
                assert(temp@ =~= old(temp)@);
                assert forall|o: int, xx: int| 0 <= o < num_out && 0 <= xx < x + 1 implies #[trigger] plane_at(
                    out_line@,
                    num_out as int,
                    xx,
                    o,
                ) == layer_sample(ops, layer, g, o, y as int, xx) by {
                    if xx < x {
                        lemma_offset_in_rows(xx, o, num_out as int, x as int);
                        assert(plane_at(out_line@, num_out as int, xx, o) == plane_at(
                            line,
                            num_out as int,
                            xx,
                            o,
                        ));
                    } else {
                        assert(acc[o] == conv_acc(
                            ops,
                            layer,
                            g,
                            o,
                            y as int,
                            x as int,
                            layer.nInputPlane as nat,
                        ));
                    }
                }
            }
            x += 1;
        }
        let ghost prev = buf@;
        proof {
            lemma_row_within(y as int, st, height + 2);
            lemma_product_shrinks(y + 1, st, height + 2, st);
        }
        filter_cpu2_layer_writeback_line(num_out, width, y, stride, buf, out_line);
        proof {
            assert forall|o: int, r: int, xx: int|
                0 <= o < num_out && 0 <= r < y + 1 && 0 <= xx < width implies #[trigger] inter_at(
                buf@,
                st,
                num_out as int,
                o,
                r,
                xx,
            ) == layer_sample(ops, layer, g, o, r, xx) by {
                lemma_offset_in_rows(xx, o, num_out as int, width as int);
                if r < y {
                    lemma_offset_in_rows(r, xx * num_out + o, st, y as int);
                    assert(inter_at(buf@, st, num_out as int, o, r, xx) == inter_at(
                        prev,
                        st,
                        num_out as int,
                        o,
                        r,
                        xx,
                    ));
                } else {
                    assert(plane_at(out_line@, num_out as int, xx, o) == layer_sample(
                        ops,
                        layer,
                        g,
                        o,
                        y as int,
                        xx,
                    ));
                    assert(out_line[xx * num_out + o] == buf[y * st + (xx * num_out + o)]);
                }
            }
            assert forall|r: int, k: int|
                0 <= r < y + 1 && width * num_out <= k < st implies buf[#[trigger] offset(r, st, k)]
                == buf0[offset(r, st, k)] by {
                if r < y {
                    lemma_offset_in_rows(r, k, st, y as int);
                } else {
                    lemma_offset_in_rows(r, k, st, height + 2);
                }
                assert(buf@[offset(r, st, k)] == prev[offset(r, st, k)]);
            }
        }
        y += 1;
    }
    proof {
        lemma_buffer_is_layer_output(ops, layer, g, buf@, st, width as int, height as int);
    }
}

/// One layer over an interleaved buffer, in place, where `width` and
/// `height` are those of the output. Each output plane is accumulated on its
/// own. The accumulators of the output planes are zero before and after, and all
/// accumulators are left as they were; what the layer leaves of
/// the buffer and of the scratch row is told by [`is_layer_step`], sample for
/// sample.
pub fn filter_cpu2_layer<T: Copy, A: Arith<T>>(
    ops: &A,
    layer: &Layer<T>,
    num_in: usize,
    num_out: usize,
    width: usize,
    height: usize,
    stride: usize,
    temp: &mut Vec<T>,
    buf: &mut Vec<T>,
    out_line: &mut Vec<T>,
    tenth: T,
)
    requires
        layer_step_fits(layer, num_in, num_out, width, height, stride),
        (height + 2) * stride <= old(buf).len(),
        old(temp).len() >= num_out,
        forall|j: int| 0 <= j < num_out ==> old(temp)[j] == zero(ops),
        old(out_line).len() >= width * num_out,
        tenth == ops.ratio_spec(1, 10),
    ensures
        final(temp)@ == old(temp)@,
        is_layer_step(
            ops,
            layer,
            width as int,
            height as int,
            stride as int,
            old(buf)@,
            old(out_line)@,
            final(buf)@,
            final(out_line)@,
        ),
{
    interleaved_rows(
        ops,
        layer,
        num_in,
        num_out,
        width,
        height,
        stride,
        temp,
        buf,
        out_line,
        tenth,
        false,
    );
}

/// As [`filter_cpu2_layer`], for layers with many output planes: they are
/// accumulated eight at a time, and those that are left one by one. It leaves
/// the state that [`filter_cpu2_layer`] leaves.
pub fn filter_cpu2_layer_32<T: Copy, A: Arith<T>>(
    ops: &A,
    layer: &Layer<T>,
    num_in: usize,
    num_out: usize,
    width: usize,
    height: usize,
    stride: usize,
    temp: &mut Vec<T>,
    buf: &mut Vec<T>,
    out_line: &mut Vec<T>,
    tenth: T,
)
    requires
        layer_step_fits(layer, num_in, num_out, width, height, stride),
        (height + 2) * stride <= old(buf).len(),
        old(temp).len() >= num_out,
        forall|j: int| 0 <= j < num_out ==> old(temp)[j] == zero(ops),
        old(out_line).len() >= width * num_out,
        tenth == ops.ratio_spec(1, 10),
    ensures
        final(temp)@ == old(temp)@,
        is_layer_step(
            ops,
            layer,
            width as int,
            height as int,
            stride as int,
            old(buf)@,
            old(out_line)@,
            final(buf)@,
            final(out_line)@,
        ),
{
    interleaved_rows(
        ops,
        layer,
        num_in,
        num_out,
        width,
        height,
        stride,
        temp,
        buf,
        out_line,
        tenth,
        true,
    );
}

} // verus!
