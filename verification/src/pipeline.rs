//! The pipeline around the engine: preparing an image for a model, running
//! the model, and putting the planes of the result together.

use crate::arith::Arith;
use crate::cnn::{forward, model_fits, model_flo, saturated, PerfStatus};
use crate::colorspace::{lemma_converted_grid, recolored};
use crate::feature_map::{ColorSpace, Image};
use crate::format::str_eq;
use crate::grid::{doubled, has_shape, lemma_grids_equal, replicated, Grid};
use crate::interleaved::{filter_cpu2, interleaved_stride, row_samples, shared_buffer_fits};
use crate::layout::{layout_fits, layout_stride, lemma_aligned};
use crate::model::{chained, is_chained, Layer, Model};
use vstd::prelude::*;

verus! {

/// Why a model cannot run on an image.
#[derive(Clone, Copy, Debug, PartialEq, Eq, Structural)]
pub enum FilterError {
    /// The image is empty or has not three planes, the model has no layer, a
    /// layer is malformed, or the planes that a layer takes are not those
    /// that it is given.
    DimensionMismatch,
    /// A buffer would be larger than the address space.
    TooLarge,
}

/// The model and an image of three planes of this extent go together: the
/// layers form a model that takes one plane or three, and the image is not
/// empty.
pub open spec fn dimensions_match<T: Copy>(layers: Seq<Layer<T>>, width: int, height: int) -> bool {
    &&& chained(layers)
    &&& width >= 1
    &&& height >= 1
    &&& (layers[0].nInputPlane == 1 || layers[0].nInputPlane == 3)
}

/// The buffers that the pipeline builds for an image of this extent fit the
/// address space: the image padded by one sample per layer, and the shared
/// buffer of the engine.
pub open spec fn buffers_fit<T: Copy>(layers: Seq<Layer<T>>, width: int, height: int) -> bool {
    &&& layout_fits(width, height, layers.len() as int, 1)
    &&& (height + 2 * layers.len()) * row_samples(layers, width + 2 * layers.len())
        <= usize::MAX
}

/// The pipeline can run the model on an image of three planes of this
/// extent.
pub open spec fn pipeline_fits<T: Copy>(layers: Seq<Layer<T>>, width: int, height: int) -> bool {
    dimensions_match(layers, width, height) && buffers_fit(layers, width, height)
}

/// Decides whether a model and an image of `planes` planes of this extent go
/// together.
fn dimensions_ok<T: Copy>(model: &Model<T>, planes: usize, width: usize, height: usize) -> (r: bool)
    ensures
        r == (planes == 3 && dimensions_match(model@, width as int, height as int)),
{
    if planes != 3 || width == 0 || height == 0 || !is_chained(model) {
        return false;
    }
    model[0].nInputPlane == 1 || model[0].nInputPlane == 3
}

/// Decides [`buffers_fit`].
fn buffers_ok<T: Copy>(model: &Model<T>, width: usize, height: usize) -> (r: bool)
    ensures
        r == buffers_fit(model@, width as int, height as int),
{
    let depth = model.len();
    if layout_stride(width, height, depth, 1).is_none() {
        return false;
    }
    proof {
        lemma_aligned(width + 2 * depth, 1);
    }
    let full_width = width + 2 * depth;
    let full_height = height + 2 * depth;
    match interleaved_stride(model, full_width) {
        Some(stride) => full_height.checked_mul(stride).is_some(),
        None => {
            if full_height == 0 {
                true
            } else {
                assert(1 * row_samples(model@, full_width as int) <= full_height * row_samples(
                    model@,
                    full_width as int,
                )) by (nonlinear_arith)
                    requires
                        1 <= full_height,
                        0 <= row_samples(model@, full_width as int),
                ;
                false
            }
        },
    }
}

/// Decides whether the buffers fit that the pipeline builds for an image of
/// this extent once it is enlarged.
fn enlarged_buffers_ok<T: Copy>(model: &Model<T>, width: usize, height: usize) -> (r: bool)
    ensures
        r == (layout_fits(2 * width, 2 * height, 0, 1) && buffers_fit(
            model@,
            2 * width,
            2 * height,
        )),
{
    let twice_width = match width.checked_mul(2) {
        Some(n) => n,
        None => {
            proof {
                lemma_aligned(2 * width, 1);
            }
            return false;
        },
    };
    let twice_height = match height.checked_mul(2) {
        Some(n) => n,
        None => {
            return false;
        },
    };
    layout_stride(twice_width, twice_height, 0, 1).is_some() && buffers_ok(
        model,
        twice_width,
        twice_height,
    )
}

/// Whether the pipeline can run a model on an image of `planes` planes of
/// this extent, and why not where it cannot: the dimensions are looked at
/// first, the sizes of the buffers after them.
pub fn check_pipeline<T: Copy>(model: &Model<T>, planes: usize, width: usize, height: usize) -> (r:
    Result<(), FilterError>)
    ensures
        r is Ok <==> planes == 3 && pipeline_fits(model@, width as int, height as int),
        r == Err::<(), FilterError>(FilterError::DimensionMismatch) <==> !(planes == 3
            && dimensions_match(model@, width as int, height as int)),
        r == Err::<(), FilterError>(FilterError::TooLarge) <==> planes == 3 && dimensions_match(
            model@,
            width as int,
            height as int,
        ) && !buffers_fit(model@, width as int, height as int),
{
    if !dimensions_ok(model, planes, width, height) {
        Err(FilterError::DimensionMismatch)
    } else if !buffers_ok(model, width, height) {
        Err(FilterError::TooLarge)
    } else {
        Ok(())
    }
}

/// The planes of an image as the model wants them: luma and chroma where the
/// model takes the luma plane alone, and as they are where it takes all
/// three.
pub open spec fn prepared<T: Copy, A: Arith<T>>(
    ops: &A,
    layers: Seq<Layer<T>>,
    g: Grid<T>,
    color_space: ColorSpace,
    h: int,
    w: int,
) -> Grid<T> {
    if layers[0].nInputPlane == 1 && color_space != ColorSpace::I444 {
        recolored(ops, ColorSpace::I444, g, h, w)
    } else {
        g
    }
}

/// The color space of what the pipeline returns.
pub open spec fn filtered_color_space<T: Copy>(
    layers: Seq<Layer<T>>,
    color_space: ColorSpace,
) -> ColorSpace {
    if layers[0].nInputPlane == 1 {
        ColorSpace::I444
    } else {
        color_space
    }
}

/// What the pipeline makes of an image of three planes of `h` rows of `w`
/// samples. The planes that the model takes are padded by one sample per
/// layer, each a copy of the nearest sample of the image, and the model is
/// run on them. Where the model gives a single plane, the two chroma planes
/// of the prepared image follow it untouched.
pub open spec fn filter_result<T: Copy, A: Arith<T>>(
    ops: &A,
    layers: Seq<Layer<T>>,
    g: Grid<T>,
    color_space: ColorSpace,
    h: int,
    w: int,
) -> Grid<T> {
    let ready = prepared(ops, layers, g, color_space, h, w);
    let taken = if layers[0].nInputPlane == 1 {
        ready.take(1)
    } else {
        ready
    };
    let depth = layers.len() as int;
    let result = forward(
        ops,
        layers,
        replicated(taken, h, w, depth),
        w + 2 * depth,
        h + 2 * depth,
    );
    if layers.last().nOutputPlane == 1 {
        result + ready.subrange(1, 3)
    } else {
        result
    }
}

/// The planes of what the pipeline returns: three where the model gives one,
/// and as many as the model gives where it gives more.
pub open spec fn filtered_planes<T: Copy>(layers: Seq<Layer<T>>) -> int {
    if layers.last().nOutputPlane == 1 {
        3
    } else {
        layers.last().nOutputPlane as int
    }
}

/// Puts the second and third plane of `source` behind the single plane of
/// `output`, cut to the valid region.
fn attach_chroma<T: Copy>(output: &mut Image<T>, source: &Image<T>)
    requires
        old(output).wf(),
        old(output).data.len() == 1,
        old(output).padding == 0,
        old(output).alignment == 1,
        old(output).strides[0] == old(output).width,
        source.wf(),
        source.data.len() == 3,
        source.width == old(output).width,
        source.height == old(output).height,
        source.width >= 1,
        source.height >= 1,
    ensures
        final(output).wf(),
        final(output).width == old(output).width,
        final(output).height == old(output).height,
        final(output).padding == 0,
        final(output).alignment == 1,
        final(output).color_space == old(output).color_space,
        final(output).data.len() == 3,
        forall|p: int|
            0 <= p < final(output).strides.len() ==> #[trigger] final(output).strides[p]
                == old(output).width,
        final(output).valid_grid() == old(output).valid_grid() + source.valid_grid().subrange(1, 3),
{
    let ghost before = *output;
    let cb = source.valid_plane(1);
    let cr = source.valid_plane(2);
    output.data.push(cb);
    output.data.push(cr);
    output.strides.push(output.width);
    output.strides.push(output.width);
    proof {
        let a = output.valid_grid();
        let b = before.valid_grid() + source.valid_grid().subrange(1, 3);
        assert forall|p: int, y: int, x: int|
            0 <= p < 3 && 0 <= y < output.height && 0 <= x < output.width implies #[trigger] a[p][y][x]
            == b[p][y][x] by {
            assert(a[p][y][x] == output.pixel(p, y, x));
            if p == 0 {
                assert(b[p] == before.valid_grid()[0]);
                assert(before.valid_grid()[0][y][x] == before.pixel(0, y, x));
                assert(output.data[0] == before.data[0]);
            } else {
                assert(b[p] == source.valid_grid()[p]);
                assert(source.valid_grid()[p][y][x] == source.pixel(p, y, x));
            }
        }
        assert(has_shape(b, 3, output.height as int, output.width as int)) by {
            assert forall|p: int| 0 <= p < b.len() implies (#[trigger] b[p]).len()
                == output.height by {
                if p == 0 {
                    assert(b[p] == before.valid_grid()[0]);
                } else {
                    assert(b[p] == source.valid_grid()[p]);
                }
            }
            assert forall|p: int, y: int| 0 <= p < b.len() && 0 <= y < b[p].len() implies (
            #[trigger] b[p][y]).len() == output.width by {
                if p == 0 {
                    assert(b[p] == before.valid_grid()[0]);
                } else {
                    assert(b[p] == source.valid_grid()[p]);
                }
            }
        }
        lemma_grids_equal(a, b, 3, output.height as int, output.width as int);
    }
}

/// `ready` and `padded` are an image made ready for a model. `ready` is the
/// image itself, brought to luma and chroma planes where the model takes the
/// luma plane alone and the image does not hold them yet. `padded` holds the
/// planes of `ready` that the model takes, one or all three, without
/// alignment and padded by one sample per layer, each a copy of the nearest
/// sample of the valid region.
pub open spec fn is_prepared<T: Copy, A: Arith<T>>(
    ops: &A,
    layers: Seq<Layer<T>>,
    img: &Image<T>,
    ready: &Image<T>,
    padded: &Image<T>,
) -> bool {
    let luma_only = layers[0].nInputPlane == 1;
    &&& if luma_only && img.color_space != ColorSpace::I444 {
        img.is_converted(ops, ColorSpace::I444, ready)
    } else {
        *ready == *img
    }
    &&& padded.wf()
    &&& padded.width == img.width
    &&& padded.height == img.height
    &&& padded.padding == layers.len()
    &&& padded.alignment == 1
    &&& padded.color_space == ready.color_space
    &&& padded.data.len() == layers[0].nInputPlane
    &&& forall|p: int|
        0 <= p < padded.strides.len() ==> #[trigger] padded.strides[p] == padded.full_width()
    &&& padded.grid() == replicated(
        if luma_only {
            ready.valid_grid().take(1)
        } else {
            ready.valid_grid()
        },
        img.height as int,
        img.width as int,
        layers.len() as int,
    )
}

/// Makes an image of three planes ready for a model: see [`is_prepared`].
/// The model can then run on the padded buffer with either strategy.
pub fn prepare<T: Copy, A: Arith<T>>(img: Image<T>, model: &Model<T>, ops: &A) -> (r: (
    Image<T>,
    Image<T>,
))
    requires
        img.wf(),
        img.data.len() == 3,
        pipeline_fits(model@, img.width as int, img.height as int),
    ensures
        is_prepared(ops, model@, &img, &r.0, &r.1),
        r.0.wf(),
        r.0.data.len() == 3,
        r.0.width == img.width,
        r.0.height == img.height,
        r.0.color_space == filtered_color_space(model@, img.color_space),
        r.0.valid_grid() == prepared(
            ops,
            model@,
            img.valid_grid(),
            img.color_space,
            img.height as int,
            img.width as int,
        ),
        model_fits(model@, &r.1),
        shared_buffer_fits(model@, &r.1),
{
    let ghost given = img;
    let ghost h = img.height as int;
    let ghost w = img.width as int;
    let mut img = img;
    let luma_only = model[0].nInputPlane == 1;
    if luma_only && img.color_space != ColorSpace::I444 {
        img.change_colorspace(ColorSpace::I444, ops);
        proof {
            lemma_converted_grid(ops, ColorSpace::I444, &given, &img);
        }
    }
    let ghost ready = img.valid_grid();
    let depth = model.len();
    let mut padded = img.add_padding(depth);
    if luma_only {
        let ghost whole = padded;
        padded.data.truncate(1);
        padded.strides.truncate(1);
        proof {
            whole.lemma_grid_shape();
            let a = padded.grid();
            let b = replicated(ready.take(1), h, w, depth as int);
            assert forall|p: int, y: int, x: int|
                0 <= p < 1 && 0 <= y < h + 2 * depth && 0 <= x < w + 2 * depth implies #[trigger] a[p][y][x]
                == b[p][y][x] by {
                assert(a[p][y][x] == padded.sample(p, y, x));
                assert(whole.grid()[p][y][x] == whole.sample(p, y, x));
            }
            lemma_grids_equal(a, b, 1, h + 2 * depth, w + 2 * depth);
        }
    }
    (img, padded)
}

/// What the engine gave can be put together with the image that was made
/// ready for it: both are well formed and of one extent, which is not empty,
/// the image has three planes, and the result of the engine has neither
/// padding nor alignment nor gaps behind its rows.
pub open spec fn finish_fits<T: Copy>(output: &Image<T>, ready: &Image<T>) -> bool {
    &&& output.wf()
    &&& ready.wf()
    &&& ready.data.len() == 3
    &&& ready.width == output.width
    &&& ready.height == output.height
    &&& output.width >= 1
    &&& output.height >= 1
    &&& output.padding == 0
    &&& output.alignment == 1
    &&& forall|p: int| 0 <= p < output.strides.len() ==> #[trigger] output.strides[p] == output.width
}

/// Decides [`finish_fits`].
pub fn can_finish<T: Copy>(output: &Image<T>, ready: &Image<T>) -> (r: bool)
    ensures
        r == finish_fits(output, ready),
{
    if !output.is_well_formed() || !ready.is_well_formed() || ready.data.len() != 3 {
        return false;
    }
    if ready.width != output.width || ready.height != output.height || output.width == 0
        || output.height == 0 || output.padding != 0 || output.alignment != 1 {
        return false;
    }
    let mut p: usize = 0;
    while p < output.strides.len()
        invariant
            p <= output.strides.len(),
            forall|q: int| 0 <= q < p ==> #[trigger] output.strides[q] == output.width,
        decreases output.strides.len() - p,
    {
        if output.strides[p] != output.width {
            return false;
        }
        p += 1;
    }
    true
}

/// Puts the result of the engine together: where the engine gave a single
/// plane, the second and third plane of the image that was made ready for it
/// follow that plane, cut to the valid region. Else the result is what the
/// engine gave.
pub fn finish<T: Copy>(output: Image<T>, ready: &Image<T>) -> (out: Image<T>)
    requires
        finish_fits(&output, ready),
    ensures
        out.wf(),
        out.width == output.width,
        out.height == output.height,
        out.padding == 0,
        out.alignment == 1,
        out.color_space == output.color_space,
        out.data.len() == (if output.data.len() == 1 {
            3
        } else {
            output.data.len() as int
        }),
        forall|p: int| 0 <= p < out.strides.len() ==> #[trigger] out.strides[p] == out.width,
        out.valid_grid() == (if output.data.len() == 1 {
            output.valid_grid() + ready.valid_grid().subrange(1, 3)
        } else {
            output.valid_grid()
        }),
        output.data.len() != 1 ==> out == output,
{
    let mut output = output;
    if output.data.len() == 1 {
        attach_chroma(&mut output, ready);
    }
    output
}

/// Runs a model on an image of three planes. Where the model takes a single
/// plane, the image is brought to luma and chroma planes and the model runs
/// on the luma plane; the chroma planes are put behind the plane it gives.
/// The image is padded by one sample per layer, so that the result has the
/// extent of the image.
pub fn filter<T: Copy, A: Arith<T>>(
    img: Image<T>,
    model: &Model<T>,
    perf: &mut PerfStatus,
    ops: &A,
) -> (out: Image<T>)
    requires
        img.wf(),
        img.data.len() == 3,
        pipeline_fits(model@, img.width as int, img.height as int),
    ensures
        out.wf(),
        out.width == img.width,
        out.height == img.height,
        out.padding == 0,
        out.alignment == 1,
        out.color_space == filtered_color_space(model@, img.color_space),
        out.data.len() == filtered_planes(model@),
        forall|p: int| 0 <= p < out.strides.len() ==> #[trigger] out.strides[p] == out.width,
        out.valid_grid() == filter_result(
            ops,
            model@,
            img.valid_grid(),
            img.color_space,
            img.height as int,
            img.width as int,
        ),
        final(perf).cnn_flo == saturated(
            old(perf).cnn_flo + model_flo(
                model@,
                img.width + 2 * model.len(),
                img.height + 2 * model.len(),
            ),
        ),
{
    let (ready, padded) = prepare(img, model, ops);
    let output = filter_cpu2(padded, model, perf, ops);
    proof {
        output.lemma_grid_shape();
    }
    finish(output, &ready)
}

/// Enlarges an image of three planes to twice its width and height, each
/// sample repeated over two rows and two columns, and runs a model on the
/// enlarged image as [`filter`] does.
pub fn scale2<T: Copy, A: Arith<T>>(
    img: Image<T>,
    model: &Model<T>,
    perf: &mut PerfStatus,
    ops: &A,
) -> (out: Image<T>)
    requires
        img.wf(),
        img.data.len() == 3,
        layout_fits(2 * img.width, 2 * img.height, 0, 1),
        pipeline_fits(model@, 2 * img.width, 2 * img.height),
    ensures
        out.wf(),
        out.width == 2 * img.width,
        out.height == 2 * img.height,
        out.padding == 0,
        out.alignment == 1,
        out.color_space == filtered_color_space(model@, img.color_space),
        out.data.len() == filtered_planes(model@),
        forall|p: int| 0 <= p < out.strides.len() ==> #[trigger] out.strides[p] == out.width,
        out.valid_grid() == filter_result(
            ops,
            model@,
            doubled(img.valid_grid(), img.height as int, img.width as int),
            img.color_space,
            2 * img.height,
            2 * img.width,
        ),
        final(perf).cnn_flo == saturated(
            old(perf).cnn_flo + model_flo(
                model@,
                2 * img.width + 2 * model.len(),
                2 * img.height + 2 * model.len(),
            ),
        ),
{
    let tmp = img.scale2x(0, 1, ops);
    filter(tmp, model, perf, ops)
}

/// What is done to an image.
#[derive(Clone, Copy, Debug, PartialEq, Eq, Structural)]
pub enum Method {
    /// The noise model is run on the image.
    Noise,
    /// The image is enlarged and the scale model is run on it.
    Scale,
    /// The noise model is run on the image, then the result is enlarged and
    /// the scale model is run on it.
    NoiseScale,
}

/// The method of a name: `noise`, `scale` or `noise_scale`.
pub open spec fn method_of(name: Seq<char>) -> Option<Method> {
    if name == "noise"@ {
        Some(Method::Noise)
    } else if name == "scale"@ {
        Some(Method::Scale)
    } else if name == "noise_scale"@ {
        Some(Method::NoiseScale)
    } else {
        None
    }
}

/// The method of a name, and `None` for any other name.
pub fn method_from_name(name: &str) -> (r: Option<Method>)
    ensures
        r == method_of(name@),
{
    if str_eq(name, "noise") {
        Some(Method::Noise)
    } else if str_eq(name, "scale") {
        Some(Method::Scale)
    } else if str_eq(name, "noise_scale") {
        Some(Method::NoiseScale)
    } else {
        None
    }
}

/// A method, two models and an image of three planes of this extent go
/// together: each model that the method uses goes with what it is given, and
/// where both run, the noise model gives an image of three planes.
pub open spec fn method_dimensions_match<T: Copy>(
    method: Method,
    noise: Seq<Layer<T>>,
    scale: Seq<Layer<T>>,
    width: int,
    height: int,
) -> bool {
    match method {
        Method::Noise => dimensions_match(noise, width, height),
        Method::Scale => dimensions_match(scale, 2 * width, 2 * height),
        Method::NoiseScale => dimensions_match(noise, width, height) && filtered_planes(noise)
            == 3 && dimensions_match(scale, 2 * width, 2 * height),
    }
}

/// The buffers that a method builds for an image of this extent fit the
/// address space.
pub open spec fn method_buffers_fit<T: Copy>(
    method: Method,
    noise: Seq<Layer<T>>,
    scale: Seq<Layer<T>>,
    width: int,
    height: int,
) -> bool {
    match method {
        Method::Noise => buffers_fit(noise, width, height),
        Method::Scale => layout_fits(2 * width, 2 * height, 0, 1) && buffers_fit(
            scale,
            2 * width,
            2 * height,
        ),
        Method::NoiseScale => buffers_fit(noise, width, height) && layout_fits(
            2 * width,
            2 * height,
            0,
            1,
        ) && buffers_fit(scale, 2 * width, 2 * height),
    }
}

/// A method can be applied to an image of three planes of this extent with
/// these two models.
pub open spec fn method_fits<T: Copy>(
    method: Method,
    noise: Seq<Layer<T>>,
    scale: Seq<Layer<T>>,
    width: int,
    height: int,
) -> bool {
    method_dimensions_match(method, noise, scale, width, height) && method_buffers_fit(
        method,
        noise,
        scale,
        width,
        height,
    )
}

/// What a method makes of an image of three planes of `h` rows of `w`
/// samples.
pub open spec fn method_result<T: Copy, A: Arith<T>>(
    ops: &A,
    method: Method,
    noise: Seq<Layer<T>>,
    scale: Seq<Layer<T>>,
    g: Grid<T>,
    color_space: ColorSpace,
    h: int,
    w: int,
) -> Grid<T> {
    match method {
        Method::Noise => filter_result(ops, noise, g, color_space, h, w),
        Method::Scale => filter_result(ops, scale, doubled(g, h, w), color_space, 2 * h, 2 * w),
        Method::NoiseScale => filter_result(
            ops,
            scale,
            doubled(filter_result(ops, noise, g, color_space, h, w), h, w),
            filtered_color_space(noise, color_space),
            2 * h,
            2 * w,
        ),
    }
}

/// The color space of what a method returns: that of the image after each
/// model that the method runs.
pub open spec fn method_color_space<T: Copy>(
    method: Method,
    noise: Seq<Layer<T>>,
    scale: Seq<Layer<T>>,
    color_space: ColorSpace,
) -> ColorSpace {
    match method {
        Method::Noise => filtered_color_space(noise, color_space),
        Method::Scale => filtered_color_space(scale, color_space),
        Method::NoiseScale => filtered_color_space(scale, filtered_color_space(noise, color_space)),
    }
}

/// The planes of what a method returns: those of the model that runs last.
pub open spec fn method_planes<T: Copy>(
    method: Method,
    noise: Seq<Layer<T>>,
    scale: Seq<Layer<T>>,
) -> int {
    match method {
        Method::Noise => filtered_planes(noise),
        _ => filtered_planes(scale),
    }
}

/// The operations that a method spends on an image of this extent.
pub open spec fn method_flo<T: Copy>(
    method: Method,
    noise: Seq<Layer<T>>,
    scale: Seq<Layer<T>>,
    width: int,
    height: int,
) -> int {
    let denoise = model_flo(noise, width + 2 * noise.len(), height + 2 * noise.len());
    let enlarge = model_flo(scale, 2 * width + 2 * scale.len(), 2 * height + 2 * scale.len());
    match method {
        Method::Noise => denoise,
        Method::Scale => enlarge,
        Method::NoiseScale => denoise + enlarge,
    }
}

/// Whether a method can be applied to an image of `planes` planes of this
/// extent with these two models, and why not where it cannot: the dimensions
/// are looked at first, the sizes of the buffers after them.
pub fn check_method<T: Copy>(
    method: Method,
    noise_model: &Model<T>,
    scale_model: &Model<T>,
    planes: usize,
    width: usize,
    height: usize,
) -> (r: Result<(), FilterError>)
    ensures
        r is Ok <==> planes == 3 && method_fits(
            method,
            noise_model@,
            scale_model@,
            width as int,
            height as int,
        ),
        r == Err::<(), FilterError>(FilterError::DimensionMismatch) <==> !(planes == 3
            && method_dimensions_match(
            method,
            noise_model@,
            scale_model@,
            width as int,
            height as int,
        )),
        r == Err::<(), FilterError>(FilterError::TooLarge) <==> planes == 3
            && method_dimensions_match(
            method,
            noise_model@,
            scale_model@,
            width as int,
            height as int,
        ) && !method_buffers_fit(
            method,
            noise_model@,
            scale_model@,
            width as int,
            height as int,
        ),
{
    let denoises = match method {
        Method::Scale => false,
        _ => true,
    };
    let enlarges = match method {
        Method::Noise => false,
        _ => true,
    };
    if denoises && !dimensions_ok(noise_model, planes, width, height) {
        return Err(FilterError::DimensionMismatch);
    }
    if enlarges && !dimensions_ok(scale_model, planes, width, height) {
        return Err(FilterError::DimensionMismatch);
    }
    if denoises && enlarges {
        let given = noise_model[noise_model.len() - 1].nOutputPlane;
        if given != 1 && given != 3 {
            return Err(FilterError::DimensionMismatch);
        }
    }
    if denoises && !buffers_ok(noise_model, width, height) {
        return Err(FilterError::TooLarge);
    }
    if enlarges && !enlarged_buffers_ok(scale_model, width, height) {
        return Err(FilterError::TooLarge);
    }
    Ok(())
}

/// Applies a method to an image of three planes.
pub fn run<T: Copy, A: Arith<T>>(
    method: Method,
    img: Image<T>,
    noise_model: &Model<T>,
    scale_model: &Model<T>,
    perf: &mut PerfStatus,
    ops: &A,
) -> (out: Image<T>)
    requires
        img.wf(),
        img.data.len() == 3,
        method_fits(method, noise_model@, scale_model@, img.width as int, img.height as int),
    ensures
        out.wf(),
        out.padding == 0,
        out.alignment == 1,
        out.width == (if method == Method::Noise {
            img.width as int
        } else {
            2 * img.width
        }),
        out.height == (if method == Method::Noise {
            img.height as int
        } else {
            2 * img.height
        }),
        out.color_space == method_color_space(
            method,
            noise_model@,
            scale_model@,
            img.color_space,
        ),
        out.data.len() == method_planes(method, noise_model@, scale_model@),
        forall|p: int| 0 <= p < out.strides.len() ==> #[trigger] out.strides[p] == out.width,
        out.valid_grid() == method_result(
            ops,
            method,
            noise_model@,
            scale_model@,
            img.valid_grid(),
            img.color_space,
            img.height as int,
            img.width as int,
        ),
        final(perf).cnn_flo == saturated(
            old(perf).cnn_flo + method_flo(
                method,
                noise_model@,
                scale_model@,
                img.width as int,
                img.height as int,
            ),
        ),
{
    match method {
        Method::Noise => filter(img, noise_model, perf, ops),
        Method::Scale => scale2(img, scale_model, perf, ops),
        Method::NoiseScale => {
            proof {
                crate::cnn::lemma_model_flo_nonnegative(
                    noise_model@,
                    img.width + 2 * noise_model.len(),
                    img.height + 2 * noise_model.len(),
                );
                crate::cnn::lemma_model_flo_nonnegative(
                    scale_model@,
                    2 * img.width + 2 * scale_model.len(),
                    2 * img.height + 2 * scale_model.len(),
                );
            }
            let tmp = filter(img, noise_model, perf, ops);
            scale2(tmp, scale_model, perf, ops)
        },
    }
}

} // verus!
