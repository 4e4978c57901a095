//! The convolution engine: what a layer and a model compute, how many
//! operations that takes, and what holds of every strategy.

use crate::arith::{dot9, leaky, zero, Arith};
use crate::feature_map::Image;
use crate::grid::{has_shape, Grid};
use crate::layout::plane_at;
use crate::model::{chained, is_chained, Layer, Model};
use vstd::arithmetic::div_mod::{
    lemma_div_pos_is_pos, lemma_fundamental_div_mod, lemma_mod_bound, lemma_multiply_divide_lt,
};
use vstd::prelude::*;

verus! {

/// Counters of the work done by the engine.
#[derive(Clone, Copy, Debug)]
pub struct PerfStatus {
    /// Floating-point operations spent on convolution, bias and activation.
    pub cnn_flo: u64,
}

/// The 3x3 neighbourhood of plane `i` whose upper left corner is at row `y`
/// and column `x`, row by row.
pub open spec fn window<T>(g: Grid<T>, i: int, y: int, x: int) -> Seq<T> {
    seq![
        g[i][y][x],
        g[i][y][x + 1],
        g[i][y][x + 2],
        g[i][y + 1][x],
        g[i][y + 1][x + 1],
        g[i][y + 1][x + 2],
        g[i][y + 2][x],
        g[i][y + 2][x + 1],
        g[i][y + 2][x + 2],
    ]
}

/// The cross-correlation of the first `n` input planes with their kernels for
/// output plane `o`, at row `y` and column `x` of the output: starting from
/// zero, the nine-tap sum of each plane is added in turn.
pub open spec fn conv_acc<T: Copy, A: Arith<T>>(
    ops: &A,
    layer: &Layer<T>,
    g: Grid<T>,
    o: int,
    y: int,
    x: int,
    n: nat,
) -> T
    decreases n,
{
    if n == 0 {
        zero(ops)
    } else {
        ops.sum_spec(
            conv_acc(ops, layer, g, o, y, x, (n - 1) as nat),
            dot9(ops, window(g, n - 1, y, x), layer.kernel(o, n - 1)),
        )
    }
}

/// The sample of output plane `o` at row `y` and column `x`: the
/// cross-correlation over all input planes, plus the bias, rectified.
pub open spec fn layer_sample<T: Copy, A: Arith<T>>(
    ops: &A,
    layer: &Layer<T>,
    g: Grid<T>,
    o: int,
    y: int,
    x: int,
) -> T {
    leaky(
        ops,
        ops.sum_spec(conv_acc(ops, layer, g, o, y, x, layer.nInputPlane as nat), layer.bias[o]),
    )
}

/// The output of a layer on the input `g`, as `h` rows of `w` samples for each
/// output plane.
pub open spec fn layer_forward<T: Copy, A: Arith<T>>(
    ops: &A,
    layer: &Layer<T>,
    g: Grid<T>,
    w: int,
    h: int,
) -> Grid<T> {
    Seq::new(
        layer.nOutputPlane as nat,
        |o: int|
            Seq::new(
                h as nat,
                |y: int| Seq::new(w as nat, |x: int| layer_sample(ops, layer, g, o, y, x)),
            ),
    )
}

/// The output of the layers applied in order to an input of `h` rows of `w`
/// samples. Each layer takes two rows and two columns off.
pub open spec fn forward<T: Copy, A: Arith<T>>(
    ops: &A,
    layers: Seq<Layer<T>>,
    g: Grid<T>,
    w: int,
    h: int,
) -> Grid<T>
    decreases layers.len(),
{
    if layers.len() == 0 {
        g
    } else {
        layer_forward(
            ops,
            &layers.last(),
            forward(ops, layers.drop_last(), g, w, h),
            w - 2 * layers.len(),
            h - 2 * layers.len(),
        )
    }
}

/// Running a model is running its first `k` layers and then the rest on what
/// they give.
pub proof fn lemma_forward_in_two<T: Copy, A: Arith<T>>(
    ops: &A,
    layers: Seq<Layer<T>>,
    k: int,
    g: Grid<T>,
    w: int,
    h: int,
)
    requires
        0 <= k <= layers.len(),
    ensures
        forward(ops, layers, g, w, h) == forward(
            ops,
            layers.subrange(k, layers.len() as int),
            forward(ops, layers.take(k), g, w, h),
            w - 2 * k,
            h - 2 * k,
        ),
    decreases layers.len(),
{
    let rest = layers.subrange(k, layers.len() as int);
    if k == layers.len() {
        assert(layers.take(k) =~= layers);
        assert(rest =~= Seq::<Layer<T>>::empty());
    } else {
        let shorter = layers.drop_last();
        lemma_forward_in_two(ops, shorter, k, g, w, h);
        assert(shorter.take(k) =~= layers.take(k));
        assert(rest.drop_last() =~= shorter.subrange(k, shorter.len() as int));
        assert(rest.last() == layers.last());
    }
}

/// The operations of one layer that writes `w` by `h` samples per output
/// plane: two for each tap of each kernel, and one for bias and activation.
pub open spec fn layer_flo<T>(layer: &Layer<T>, w: int, h: int) -> int {
    2 * layer.nInputPlane * layer.nOutputPlane * layer.kW * layer.kH * w * h + layer.nOutputPlane
        * w * h
}

/// The operations of all layers on an input of `h` rows of `w` samples.
pub open spec fn model_flo<T>(layers: Seq<Layer<T>>, w: int, h: int) -> int
    decreases layers.len(),
{
    if layers.len() == 0 {
        0
    } else {
        model_flo(layers.drop_last(), w, h) + layer_flo(
            &layers.last(),
            w - 2 * layers.len(),
            h - 2 * layers.len(),
        )
    }
}

/// `n` where a `u64` holds it, and the largest `u64` where not.
pub open spec fn saturated(n: int) -> u64 {
    if n > u64::MAX {
        u64::MAX
    } else {
        n as u64
    }
}

/// A model can run on an image: the image and every layer are well formed,
/// there is at least one layer and one plane, each layer takes the planes
/// that the one before it gives, the first those of the image, and the image,
/// padding included, is large enough for every layer to take two rows and two
/// columns off.
pub open spec fn model_fits<T: Copy>(layers: Seq<Layer<T>>, img: &Image<T>) -> bool {
    &&& img.wf()
    &&& chained(layers)
    &&& img.data.len() >= 1
    &&& layers[0].nInputPlane == img.data.len()
    &&& 2 * layers.len() <= img.full_width()
    &&& 2 * layers.len() <= img.full_height()
}

/// Decides [`model_fits`].
pub fn fits<T: Copy>(model: &Model<T>, img: &Image<T>) -> (r: bool)
    ensures
        r == model_fits(model@, img),
{
    if !img.is_well_formed() || !is_chained(model) || img.data.len() == 0 {
        return false;
    }
    if model[0].nInputPlane as usize != img.data.len() {
        return false;
    }
    let full_width = img.width + 2 * img.padding;
    let full_height = img.height + 2 * img.padding;
    model.len() <= full_width / 2 && model.len() <= full_height / 2
}

/// `out` is what the layers make of `input`: an unpadded buffer without
/// alignment, two rows and two columns smaller for each layer, with one plane
/// for each output plane of the last layer, that holds the samples which
/// [`forward`] gives.
pub open spec fn is_filtered<T: Copy, A: Arith<T>>(
    ops: &A,
    layers: Seq<Layer<T>>,
    input: &Image<T>,
    out: &Image<T>,
) -> bool {
    &&& out.wf()
    &&& out.width == input.full_width() - 2 * layers.len()
    &&& out.height == input.full_height() - 2 * layers.len()
    &&& out.padding == 0
    &&& out.alignment == 1
    &&& out.color_space == input.color_space
    &&& out.data.len() == layers.last().nOutputPlane
    &&& forall|p: int| 0 <= p < out.strides.len() ==> #[trigger] out.strides[p] == out.width
    &&& out.grid() == forward(
        ops,
        layers,
        input.grid(),
        input.full_width(),
        input.full_height(),
    )
}

/// A layer never spends a negative number of operations.
pub(crate) proof fn lemma_layer_flo_nonnegative<T>(layer: &Layer<T>, w: int, h: int)
    requires
        0 <= w,
        0 <= h,
    ensures
        layer_flo(layer, w, h) >= 0,
{
    let taps1 = 2 * layer.nInputPlane;
    let taps2 = taps1 * layer.nOutputPlane;
    let taps3 = taps2 * layer.kW;
    let taps4 = taps3 * layer.kH;
    let taps5 = taps4 * w;
    lemma_saturated_product(taps1, layer.nOutputPlane as int);
    lemma_saturated_product(taps2, layer.kW as int);
    lemma_saturated_product(taps3, layer.kH as int);
    lemma_saturated_product(taps4, w);
    lemma_saturated_product(taps5, h);
    let outs = layer.nOutputPlane * w;
    lemma_saturated_product(layer.nOutputPlane as int, w);
    lemma_saturated_product(outs, h);
    assert(layer_flo(layer, w, h) == taps5 * h + outs * h);
}

/// A model never spends a negative number of operations on an input that is
/// large enough for it.
pub proof fn lemma_model_flo_nonnegative<T>(layers: Seq<Layer<T>>, w: int, h: int)
    requires
        2 * layers.len() <= w,
        2 * layers.len() <= h,
    ensures
        model_flo(layers, w, h) >= 0,
    decreases layers.len(),
{
    if layers.len() > 0 {
        lemma_model_flo_nonnegative(layers.drop_last(), w, h);
        lemma_layer_flo_nonnegative(&layers.last(), w - 2 * layers.len(), h - 2 * layers.len());
    }
}

/// Multiplying a saturated number saturates the product.
proof fn lemma_saturated_product(p: int, q: int)
    requires
        0 <= p,
        0 <= q,
    ensures
        0 <= p * q,
        saturated(saturated(p) * q) == saturated(p * q),
{
    assert(0 <= p * q) by (nonlinear_arith)
        requires
            0 <= p,
            0 <= q,
    ;
    if p > u64::MAX {
        if q == 0 {
            assert(p * q == 0);
            assert(saturated(p) * q == 0);
        } else {
            assert(p * q >= p) by (nonlinear_arith)
                requires
                    0 <= p,
                    1 <= q,
            ;
            assert(u64::MAX * q >= u64::MAX) by (nonlinear_arith)
                requires
                    1 <= q,
            ;
        }
    }
}

/// The product of two numbers, or the largest `u64` where it is too large.
fn saturating_product(a: u64, b: u64) -> (r: u64)
    ensures
        r == saturated(a * b),
{
    match a.checked_mul(b) {
        Some(p) => p,
        None => u64::MAX,
    }
}

/// The operations of one layer that writes `w` by `h` samples per plane.
pub(crate) fn layer_flops<T>(layer: &Layer<T>, w: usize, h: usize) -> (r: u64)
    ensures
        r == saturated(layer_flo(layer, w as int, h as int)),
{
    let n_in = layer.nInputPlane as u64;
    let n_out = layer.nOutputPlane as u64;
    let a1 = saturating_product(2, n_in);
    let a2 = saturating_product(a1, n_out);
    let a3 = saturating_product(a2, layer.kW as u64);
    let a4 = saturating_product(a3, layer.kH as u64);
    let a5 = saturating_product(a4, w as u64);
    let a6 = saturating_product(a5, h as u64);
    let b1 = saturating_product(n_out, w as u64);
    let b2 = saturating_product(b1, h as u64);
    proof {
        let taps1 = 2 * layer.nInputPlane;
        let taps2 = taps1 * layer.nOutputPlane;
        let taps3 = taps2 * layer.kW;
        let taps4 = taps3 * layer.kH;
        let taps5 = taps4 * w;
        let taps6 = taps5 * h;
        lemma_saturated_product(taps1, layer.nOutputPlane as int);
        lemma_saturated_product(taps2, layer.kW as int);
        lemma_saturated_product(taps3, layer.kH as int);
        lemma_saturated_product(taps4, w as int);
        lemma_saturated_product(taps5, h as int);
        assert(a6 == saturated(taps6));
        let outs = layer.nOutputPlane * w;
        lemma_saturated_product(layer.nOutputPlane as int, w as int);
        lemma_saturated_product(outs, h as int);
        assert(b2 == saturated(outs * h));
        assert(layer_flo(layer, w as int, h as int) == taps6 + outs * h);
    }
    a6.saturating_add(b2)
}

/// The two strategies agree: buffers that are both what the layers make of
/// one input have the same layout and hold the same samples, whichever
/// strategy made them.
pub proof fn lemma_strategies_agree<T: Copy, A: Arith<T>>(
    ops: &A,
    layers: Seq<Layer<T>>,
    input: &Image<T>,
    a: &Image<T>,
    b: &Image<T>,
)
    requires
        is_filtered(ops, layers, input, a),
        is_filtered(ops, layers, input, b),
    ensures
        a.width == b.width,
        a.height == b.height,
        a.padding == b.padding,
        a.alignment == b.alignment,
        a.color_space == b.color_space,
        a.strides@ == b.strides@,
        a.data.len() == b.data.len(),
        forall|p: int| 0 <= p < a.data.len() ==> #[trigger] a.data[p]@ == b.data[p]@,
{
    let w = a.width as int;
    let h = a.height as int;
    assert(a.strides@ =~= b.strides@);
    assert forall|p: int| 0 <= p < a.data.len() implies #[trigger] a.data[p]@ == b.data[p]@ by {
        let u = a.data[p]@;
        let v = b.data[p]@;
        assert(a.strides[p] == w && b.strides[p] == w);
        assert(u.len() == h * w && v.len() == h * w);
        assert forall|idx: int| 0 <= idx < u.len() implies u[idx] == v[idx] by {
            assert(w > 0) by (nonlinear_arith)
                requires
                    0 <= idx < h * w,
                    0 <= w,
            ;
            let y = idx / w;
            let x = idx % w;
            lemma_fundamental_div_mod(idx, w);
            lemma_mod_bound(idx, w);
            lemma_div_pos_is_pos(idx, w);
            assert(w * h == h * w) by (nonlinear_arith);
            lemma_multiply_divide_lt(idx, w, h);
            assert(w * y == y * w) by (nonlinear_arith);
            assert(u[idx] == plane_at(u, w, y, x));
            assert(v[idx] == plane_at(v, w, y, x));
            assert(a.grid()[p][y][x] == plane_at(u, w, y, x));
            assert(b.grid()[p][y][x] == plane_at(v, w, y, x));
        }
        assert(u =~= v);
    }
}

/// In the arithmetic `ops`, zero and one behave on the sample `c` as they do
/// on numbers: `c` times zero is zero, `c` times one is `c`, and adding zero
/// changes neither zero nor `c`.
pub open spec fn neutral_on<T: Copy, A: Arith<T>>(ops: &A, c: T) -> bool {
    &&& ops.product_spec(c, zero(ops)) == zero(ops)
    &&& ops.product_spec(c, ops.ratio_spec(1, 1)) == c
    &&& ops.sum_spec(zero(ops), zero(ops)) == zero(ops)
    &&& ops.sum_spec(zero(ops), c) == c
    &&& ops.sum_spec(c, zero(ops)) == c
}

/// The layer takes one plane and gives one, its kernel is zero but for a one
/// in the centre, and its bias is zero.
pub open spec fn is_identity_layer<T: Copy, A: Arith<T>>(ops: &A, layer: &Layer<T>) -> bool {
    &&& layer.wf()
    &&& layer.nInputPlane == 1
    &&& layer.nOutputPlane == 1
    &&& layer.bias[0] == zero(ops)
    &&& layer.kernel(0, 0) == seq![
        zero(ops),
        zero(ops),
        zero(ops),
        zero(ops),
        ops.ratio_spec(1, 1),
        zero(ops),
        zero(ops),
        zero(ops),
        zero(ops),
    ]
}

/// An identity layer passes a constant image through: where every sample of
/// the input is `c`, which is not below zero, every sample of the output is
/// `c`, in any arithmetic in which zero and one are neutral on `c`.
pub proof fn lemma_identity_layer_passes_constant<T: Copy, A: Arith<T>>(
    ops: &A,
    layer: &Layer<T>,
    input: &Image<T>,
    out: &Image<T>,
    c: T,
)
    requires
        is_identity_layer(ops, layer),
        model_fits(seq![*layer], input),
        is_filtered(ops, seq![*layer], input, out),
        neutral_on(ops, c),
        !ops.negative_spec(c),
        forall|y: int, x: int|
            0 <= y < input.full_height() && 0 <= x < input.full_width() ==> #[trigger] input.sample(
                0,
                y,
                x,
            ) == c,
    ensures
        out.width == input.full_width() - 2,
        out.height == input.full_height() - 2,
        out.data.len() == 1,
        forall|y: int, x: int|
            0 <= y < out.height && 0 <= x < out.width ==> #[trigger] out.pixel(0, y, x) == c,
{
    let layers = seq![*layer];
    let g = input.grid();
    let w = input.full_width();
    let h = input.full_height();
    assert(layers.last() == *layer);
    assert(layers.drop_last() =~= Seq::<Layer<T>>::empty());
    assert(forward(ops, layers.drop_last(), g, w, h) == g);
    assert(forward(ops, layers, g, w, h) == layer_forward(ops, layer, g, w - 2, h - 2));
    assert forall|y: int, x: int| 0 <= y < out.height && 0 <= x < out.width implies #[trigger] out.pixel(
        0,
        y,
        x,
    ) == c by {
        assert(out.pixel(0, y, x) == out.sample(0, y, x));
        assert(out.grid()[0][y][x] == out.sample(0, y, x));
        assert(out.grid()[0][y][x] == layer_sample(ops, layer, g, 0, y, x));
        assert(g[0][y][x] == input.sample(0, y, x));
        assert(g[0][y][x + 1] == input.sample(0, y, x + 1));
        assert(g[0][y][x + 2] == input.sample(0, y, x + 2));
        assert(g[0][y + 1][x] == input.sample(0, y + 1, x));
        assert(g[0][y + 1][x + 1] == input.sample(0, y + 1, x + 1));
        assert(g[0][y + 1][x + 2] == input.sample(0, y + 1, x + 2));
        assert(g[0][y + 2][x] == input.sample(0, y + 2, x));
        assert(g[0][y + 2][x + 1] == input.sample(0, y + 2, x + 1));
        assert(g[0][y + 2][x + 2] == input.sample(0, y + 2, x + 2));
        assert(window(g, 0, y, x) =~= seq![c, c, c, c, c, c, c, c, c]);
        assert(conv_acc(ops, layer, g, 0, y, x, 0) == zero(ops));
        assert(conv_acc(ops, layer, g, 0, y, x, 1) == ops.sum_spec(
            zero(ops),
            dot9(ops, window(g, 0, y, x), layer.kernel(0, 0)),
        ));
    }
}

/// The kernel that is zero but for a one in the centre.
pub open spec fn centre_kernel<T: Copy, A: Arith<T>>(ops: &A) -> Seq<T> {
    seq![
        zero(ops),
        zero(ops),
        zero(ops),
        zero(ops),
        ops.ratio_spec(1, 1),
        zero(ops),
        zero(ops),
        zero(ops),
        zero(ops),
    ]
}

/// The kernel of nine zeros.
pub open spec fn zero_kernel<T: Copy, A: Arith<T>>(ops: &A) -> Seq<T> {
    seq![
        zero(ops),
        zero(ops),
        zero(ops),
        zero(ops),
        zero(ops),
        zero(ops),
        zero(ops),
        zero(ops),
        zero(ops),
    ]
}

/// Output plane `o` of the layer passes input plane `i` through: its bias is
/// zero, its kernel for plane `i` is zero but for a one in the centre, and
/// its kernels for all other planes are zero.
pub open spec fn passes_plane<T: Copy, A: Arith<T>>(
    ops: &A,
    layer: &Layer<T>,
    o: int,
    i: int,
) -> bool {
    &&& 0 <= i < layer.nInputPlane
    &&& layer.bias[o] == zero(ops)
    &&& forall|j: int|
        0 <= j < layer.nInputPlane ==> #[trigger] layer.kernel(o, j) == (if j == i {
            centre_kernel(ops)
        } else {
            zero_kernel(ops)
        })
}

/// Output plane `o` of the layer passes one of the input planes through.
pub open spec fn passes_some_plane<T: Copy, A: Arith<T>>(ops: &A, layer: &Layer<T>, o: int) -> bool {
    exists|i: int| passes_plane(ops, layer, o, i)
}

/// Every output plane of the layer passes one input plane through.
pub open spec fn is_selecting_layer<T: Copy, A: Arith<T>>(ops: &A, layer: &Layer<T>) -> bool {
    &&& layer.wf()
    &&& forall|o: int|
        0 <= o < layer.nOutputPlane ==> #[trigger] passes_some_plane(ops, layer, o)
}

/// Nine times the sample `c`.
pub open spec fn constant_window<T>(c: T) -> Seq<T> {
    seq![c, c, c, c, c, c, c, c, c]
}

/// Every sample of a grid of `planes` planes of `h` rows of `w` samples is
/// `c`.
pub open spec fn is_constant_grid<T>(g: Grid<T>, planes: int, h: int, w: int, c: T) -> bool {
    &&& has_shape(g, planes, h, w)
    &&& forall|p: int, y: int, x: int|
        0 <= p < planes && 0 <= y < h && 0 <= x < w ==> #[trigger] g[p][y][x] == c
}

/// Over neighbourhoods that hold `c` alone, an output plane that passes
/// plane `i` through has accumulated zero before plane `i` and `c` from
/// plane `i` on.
proof fn lemma_passed_plane_accumulates<T: Copy, A: Arith<T>>(
    ops: &A,
    layer: &Layer<T>,
    g: Grid<T>,
    o: int,
    i: int,
    y: int,
    x: int,
    c: T,
    n: nat,
)
    requires
        passes_plane(ops, layer, o, i),
        neutral_on(ops, c),
        n <= layer.nInputPlane,
        forall|j: int|
            0 <= j < layer.nInputPlane ==> #[trigger] window(g, j, y, x) == constant_window(c),
    ensures
        conv_acc(ops, layer, g, o, y, x, n) == (if i < n {
            c
        } else {
            zero(ops)
        }),
    decreases n,
{
    if n > 0 {
        let j = n - 1;
        lemma_passed_plane_accumulates(ops, layer, g, o, i, y, x, c, j as nat);
        assert(window(g, j, y, x) == constant_window(c));
        if j == i {
            assert(layer.kernel(o, j) == centre_kernel(ops));
            assert(dot9(ops, constant_window(c), centre_kernel(ops)) == c);
        } else {
            assert(layer.kernel(o, j) == zero_kernel(ops));
            assert(dot9(ops, constant_window(c), zero_kernel(ops)) == zero(ops));
        }
    }
}

/// A selecting layer gives a grid that holds `c` alone where it is given
/// one, in any arithmetic in which zero and one are neutral on `c`, for `c`
/// not below zero.
proof fn lemma_selecting_layer_keeps_constant<T: Copy, A: Arith<T>>(
    ops: &A,
    layer: &Layer<T>,
    g: Grid<T>,
    w: int,
    h: int,
    c: T,
)
    requires
        is_selecting_layer(ops, layer),
        neutral_on(ops, c),
        !ops.negative_spec(c),
        0 <= w,
        0 <= h,
        is_constant_grid(g, layer.nInputPlane as int, h + 2, w + 2, c),
    ensures
        is_constant_grid(
            layer_forward(ops, layer, g, w, h),
            layer.nOutputPlane as int,
            h,
            w,
            c,
        ),
{
    let out = layer_forward(ops, layer, g, w, h);
    assert forall|o: int, y: int, x: int|
        0 <= o < layer.nOutputPlane && 0 <= y < h && 0 <= x < w implies #[trigger] out[o][y][x]
        == c by {
        assert(out[o][y][x] == layer_sample(ops, layer, g, o, y, x));
        assert(passes_some_plane(ops, layer, o));
        let i = choose|i: int| passes_plane(ops, layer, o, i);
        assert forall|j: int| 0 <= j < layer.nInputPlane implies #[trigger] window(g, j, y, x)
            == constant_window(c) by {
            assert(g[j][y][x] == c);
            assert(g[j][y][x + 1] == c);
            assert(g[j][y][x + 2] == c);
            assert(g[j][y + 1][x] == c);
            assert(g[j][y + 1][x + 1] == c);
            assert(g[j][y + 1][x + 2] == c);
            assert(g[j][y + 2][x] == c);
            assert(g[j][y + 2][x + 1] == c);
            assert(g[j][y + 2][x + 2] == c);
            assert(window(g, j, y, x) =~= constant_window(c));
        }
        lemma_passed_plane_accumulates(
            ops,
            layer,
            g,
            o,
            i,
            y,
            x,
            c,
            layer.nInputPlane as nat,
        );
    }
}

/// The first `k` of a chain of selecting layers give a grid that holds `c`
/// alone where they are given one.
proof fn lemma_selecting_layers_keep_constant<T: Copy, A: Arith<T>>(
    ops: &A,
    layers: Seq<Layer<T>>,
    k: int,
    g: Grid<T>,
    w: int,
    h: int,
    c: T,
)
    requires
        chained(layers),
        forall|i: int| 0 <= i < layers.len() ==> is_selecting_layer(ops, &#[trigger] layers[i]),
        neutral_on(ops, c),
        !ops.negative_spec(c),
        1 <= k <= layers.len(),
        2 * layers.len() <= w,
        2 * layers.len() <= h,
        is_constant_grid(g, layers[0].nInputPlane as int, h, w, c),
    ensures
        is_constant_grid(
            forward(ops, layers.take(k), g, w, h),
            layers[k - 1].nOutputPlane as int,
            h - 2 * k,
            w - 2 * k,
            c,
        ),
    decreases k,
{
    let first = layers.take(k);
    assert(first.last() == layers[k - 1]);
    assert(first.drop_last() =~= layers.take(k - 1));
    if k == 1 {
        assert(forward(ops, layers.take(0), g, w, h) == g);
    } else {
        lemma_selecting_layers_keep_constant(ops, layers, k - 1, g, w, h, c);
        assert(layers[k - 1].nInputPlane == layers[k - 2].nOutputPlane);
    }
    lemma_selecting_layer_keeps_constant(
        ops,
        &layers[k - 1],
        forward(ops, layers.take(k - 1), g, w, h),
        w - 2 * k,
        h - 2 * k,
        c,
    );
}

/// A model of selecting layers passes a constant image through: where every
/// sample of the input is `c`, which is not below zero, every sample of
/// every plane of the output is `c`, in any arithmetic in which zero and one
/// are neutral on `c`.
pub proof fn lemma_selecting_layers_pass_constant<T: Copy, A: Arith<T>>(
    ops: &A,
    layers: Seq<Layer<T>>,
    input: &Image<T>,
    out: &Image<T>,
    c: T,
)
    requires
        model_fits(layers, input),
        is_filtered(ops, layers, input, out),
        forall|i: int| 0 <= i < layers.len() ==> is_selecting_layer(ops, &#[trigger] layers[i]),
        neutral_on(ops, c),
        !ops.negative_spec(c),
        forall|p: int, y: int, x: int|
            0 <= p < input.data.len() && 0 <= y < input.full_height() && 0 <= x
                < input.full_width() ==> #[trigger] input.sample(p, y, x) == c,
    ensures
        out.width == input.full_width() - 2 * layers.len(),
        out.height == input.full_height() - 2 * layers.len(),
        out.data.len() == layers.last().nOutputPlane,
        forall|p: int, y: int, x: int|
            0 <= p < out.data.len() && 0 <= y < out.height && 0 <= x < out.width
                ==> #[trigger] out.pixel(p, y, x) == c,
{
    let g = input.grid();
    let w = input.full_width();
    let h = input.full_height();
    input.lemma_grid_shape();
    out.lemma_grid_shape();
    assert(layers.take(layers.len() as int) =~= layers);
    lemma_selecting_layers_keep_constant(ops, layers, layers.len() as int, g, w, h, c);
    assert forall|p: int, y: int, x: int|
        0 <= p < out.data.len() && 0 <= y < out.height && 0 <= x
            < out.width implies #[trigger] out.pixel(p, y, x) == c by {
        assert(out.grid()[p][y][x] == out.sample(p, y, x));
    }
}

} // verus!
