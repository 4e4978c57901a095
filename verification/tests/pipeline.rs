use waifu2x::cnn::{fits, PerfStatus};
use waifu2x::feature_map::{ColorSpace, Image};
use waifu2x::fixed::Fixed;
use waifu2x::model::{is_chained, Layer};
use waifu2x::interleaved::{filter_cpu2, fits_shared_buffer};
use waifu2x::pipeline::{
    can_finish, check_method, check_pipeline, filter, finish, method_from_name, prepare, run,
    scale2, FilterError, Method,
};
use waifu2x::planar::filter_cpu1;

const ONE: i64 = 65536;

fn tap(at: usize) -> Vec<Vec<i64>> {
    let mut rows = vec![vec![0i64; 3]; 3];
    rows[at / 3][at % 3] = ONE;
    rows
}

fn none() -> Vec<Vec<i64>> {
    vec![vec![0i64; 3]; 3]
}

fn layer(n_in: u32, n_out: u32, weight: Vec<Vec<Vec<Vec<i64>>>>) -> Layer<i64> {
    Layer {
        nInputPlane: n_in,
        nOutputPlane: n_out,
        kW: 3,
        kH: 3,
        bias: vec![0; n_out as usize],
        weight,
    }
}

fn plane_to_plane(planes: usize, at: usize) -> Layer<i64> {
    let mut weight = Vec::new();
    for o in 0..planes {
        let mut per_out = Vec::new();
        for i in 0..planes {
            per_out.push(if i == o { tap(at) } else { none() });
        }
        weight.push(per_out);
    }
    layer(planes as u32, planes as u32, weight)
}

fn image(color_space: ColorSpace, planes: Vec<Vec<i64>>, width: usize, height: usize) -> Image<i64> {
    let count = planes.len();
    Image {
        width,
        height,
        color_space,
        data: planes,
        strides: vec![width; count],
        padding: 0,
        alignment: 1,
    }
}

fn three_planes() -> Image<i64> {
    image(
        ColorSpace::RGB,
        vec![
            (1..=12).map(|n| n * 1000).collect(),
            (1..=12).map(|n| n * 2000).collect(),
            (1..=12).map(|n| n * 3000).collect(),
        ],
        4,
        3,
    )
}

#[test]
fn methods_are_found_by_their_names() {
    assert_eq!(method_from_name("noise"), Some(Method::Noise));
    assert_eq!(method_from_name("scale"), Some(Method::Scale));
    assert_eq!(method_from_name("noise_scale"), Some(Method::NoiseScale));
    assert_eq!(method_from_name("Noise"), None);
    assert_eq!(method_from_name("scale_noise"), None);
    assert_eq!(method_from_name(""), None);
}

#[test]
fn layers_that_follow_each_other_form_a_model() {
    assert!(is_chained(&vec![plane_to_plane(3, 4)]));
    assert!(is_chained(&vec![
        layer(1, 2, vec![vec![tap(4)], vec![tap(4)]]),
        layer(2, 1, vec![vec![tap(4), none()]]),
    ]));
    assert!(!is_chained(&Vec::<Layer<i64>>::new()));
    assert!(!is_chained(&vec![plane_to_plane(3, 4), plane_to_plane(1, 4)]));
    let mut malformed = plane_to_plane(3, 4);
    malformed.bias.pop();
    assert!(!is_chained(&vec![plane_to_plane(3, 4), malformed]));
}

#[test]
fn model_and_image_that_go_together_are_accepted() {
    assert_eq!(check_pipeline(&vec![plane_to_plane(3, 4)], 3, 4, 3), Ok(()));
    assert_eq!(check_pipeline(&vec![plane_to_plane(1, 4)], 3, 1, 1), Ok(()));
}

#[test]
fn mismatch_of_dimensions_is_reported() {
    let model = vec![plane_to_plane(3, 4)];
    let mismatch = Err(FilterError::DimensionMismatch);
    assert_eq!(check_pipeline(&model, 1, 4, 3), mismatch);
    assert_eq!(check_pipeline(&model, 4, 4, 3), mismatch);
    assert_eq!(check_pipeline(&model, 3, 0, 3), mismatch);
    assert_eq!(check_pipeline(&model, 3, 4, 0), mismatch);
    assert_eq!(check_pipeline(&Vec::<Layer<i64>>::new(), 3, 4, 3), mismatch);
    assert_eq!(check_pipeline(&vec![plane_to_plane(2, 4)], 3, 4, 3), mismatch);
    assert_eq!(check_pipeline(&vec![plane_to_plane(3, 4), plane_to_plane(2, 4)], 3, 4, 3), mismatch);
    let mut malformed = plane_to_plane(3, 4);
    malformed.weight[1][2][0].pop();
    assert_eq!(check_pipeline(&vec![malformed], 3, 4, 3), mismatch);
    let mut wide = plane_to_plane(3, 4);
    wide.kW = 5;
    assert_eq!(check_pipeline(&vec![wide], 3, 4, 3), mismatch);
}

#[test]
fn buffers_beyond_the_address_space_are_reported() {
    let model = vec![plane_to_plane(3, 4)];
    let too_large = Err(FilterError::TooLarge);
    assert_eq!(check_pipeline(&model, 3, usize::MAX, 1), too_large);
    assert_eq!(check_pipeline(&model, 3, 1, usize::MAX), too_large);
    assert_eq!(check_pipeline(&model, 3, usize::MAX / 2, 4), too_large);
    assert_eq!(check_pipeline(&model, 3, usize::MAX / 3, 1), too_large);
    assert_eq!(check_method(Method::Scale, &model, &model, 3, usize::MAX / 2 + 1, 1), too_large);
    assert_eq!(check_method(Method::Scale, &model, &model, 3, 1, usize::MAX / 2 + 1), too_large);
}

#[test]
fn each_method_is_checked_against_the_models_it_uses() {
    let rgb = vec![plane_to_plane(3, 4)];
    let bad = vec![plane_to_plane(2, 4)];
    let five = vec![layer(3, 5, vec![vec![tap(4), none(), none()]; 5])];
    let mismatch = Err(FilterError::DimensionMismatch);
    assert_eq!(check_method(Method::Noise, &rgb, &bad, 3, 4, 3), Ok(()));
    assert_eq!(check_method(Method::Noise, &bad, &rgb, 3, 4, 3), mismatch);
    assert_eq!(check_method(Method::Scale, &bad, &rgb, 3, 4, 3), Ok(()));
    assert_eq!(check_method(Method::Scale, &rgb, &bad, 3, 4, 3), mismatch);
    assert_eq!(check_method(Method::NoiseScale, &rgb, &rgb, 3, 4, 3), Ok(()));
    assert_eq!(check_method(Method::NoiseScale, &rgb, &bad, 3, 4, 3), mismatch);
    assert_eq!(check_method(Method::NoiseScale, &bad, &rgb, 3, 4, 3), mismatch);
    assert_eq!(check_method(Method::NoiseScale, &five, &rgb, 3, 4, 3), mismatch);
    assert_eq!(check_method(Method::Noise, &five, &rgb, 3, 4, 3), Ok(()));
    assert_eq!(check_method(Method::NoiseScale, &rgb, &rgb, 2, 4, 3), mismatch);
}

#[test]
fn model_of_three_planes_runs_on_the_padded_image() {
    let model = vec![plane_to_plane(3, 4)];
    let input = three_planes();
    let mut perf = PerfStatus { cnn_flo: 0 };
    let out = filter(input.clone(), &model, &mut perf, &Fixed);
    assert_eq!(out.width, 4);
    assert_eq!(out.height, 3);
    assert_eq!(out.padding, 0);
    assert_eq!(out.alignment, 1);
    assert_eq!(out.strides, vec![4, 4, 4]);
    assert_eq!(out.color_space, ColorSpace::RGB);
    assert_eq!(out.data, input.data);
    assert_eq!(perf.cnn_flo, 2 * 3 * 3 * 9 * 4 * 3 + 3 * 4 * 3);
}

#[test]
fn padding_repeats_the_border_of_the_image() {
    let left = vec![plane_to_plane(3, 3)];
    let mut perf = PerfStatus { cnn_flo: 0 };
    let out = filter(three_planes(), &left, &mut perf, &Fixed);
    assert_eq!(
        out.data[0],
        vec![
            1000, 1000, 2000, 3000, //
            5000, 5000, 6000, 7000, //
            9000, 9000, 10000, 11000,
        ]
    );
    let below_right = vec![plane_to_plane(3, 8)];
    let out = filter(three_planes(), &below_right, &mut perf, &Fixed);
    assert_eq!(
        out.data[1],
        vec![
            12000, 14000, 16000, 16000, //
            20000, 22000, 24000, 24000, //
            20000, 22000, 24000, 24000,
        ]
    );
    let far = vec![plane_to_plane(3, 0), plane_to_plane(3, 0)];
    let out = filter(three_planes(), &far, &mut perf, &Fixed);
    assert_eq!(
        out.data[2],
        vec![
            3000, 3000, 3000, 6000, //
            3000, 3000, 3000, 6000, //
            3000, 3000, 3000, 6000,
        ]
    );
}

#[test]
fn model_of_one_plane_runs_on_the_luma_and_keeps_the_chroma() {
    let model = vec![plane_to_plane(1, 4)];
    let input = three_planes();
    let mut expected = input.clone();
    expected.change_colorspace(ColorSpace::I444, &Fixed);
    let mut perf = PerfStatus { cnn_flo: 0 };
    let out = filter(input, &model, &mut perf, &Fixed);
    assert_eq!(out.color_space, ColorSpace::I444);
    assert_eq!(out.width, 4);
    assert_eq!(out.height, 3);
    assert_eq!(out.strides, vec![4, 4, 4]);
    assert_eq!(out.data, expected.data);
    assert_ne!(out.data[1], three_planes().data[1]);
    assert_eq!(perf.cnn_flo, 2 * 9 * 4 * 3 + 4 * 3);
    let half = vec![layer(1, 1, vec![vec![vec![vec![0; 3], vec![0, ONE / 2, 0], vec![0; 3]]]])];
    let already = image(ColorSpace::I444, three_planes().data, 4, 3);
    let out = filter(already, &half, &mut perf, &Fixed);
    assert_eq!(out.data[0], (1..=12).map(|n| n * 500).collect::<Vec<i64>>());
    assert_eq!(out.data[1], three_planes().data[1]);
    assert_eq!(out.data[2], three_planes().data[2]);
    assert_eq!(out.color_space, ColorSpace::I444);
}

#[test]
fn chroma_is_cut_to_the_valid_region_of_a_padded_image() {
    let model = vec![plane_to_plane(1, 4)];
    let mut padded = three_planes().add_padding(2);
    padded.color_space = ColorSpace::I444;
    let mut perf = PerfStatus { cnn_flo: 0 };
    let out = filter(padded, &model, &mut perf, &Fixed);
    assert_eq!(out.strides, vec![4, 4, 4]);
    assert_eq!(out.data, three_planes().data);
}

#[test]
fn model_that_gives_more_planes_returns_them_all() {
    let model = vec![layer(3, 5, vec![vec![none(), tap(4), none()]; 5])];
    let mut perf = PerfStatus { cnn_flo: 0 };
    let out = filter(three_planes(), &model, &mut perf, &Fixed);
    assert_eq!(out.data.len(), 5);
    assert_eq!(out.strides, vec![4; 5]);
    assert_eq!(out.data[4], three_planes().data[1]);
}

#[test]
fn image_is_enlarged_before_the_scale_model_runs() {
    let model = vec![plane_to_plane(3, 4)];
    let input = image(ColorSpace::RGB, vec![vec![1, 2], vec![3, 4], vec![5, 6]], 2, 1);
    let mut perf = PerfStatus { cnn_flo: 0 };
    let out = scale2(input, &model, &mut perf, &Fixed);
    assert_eq!(out.width, 4);
    assert_eq!(out.height, 2);
    assert_eq!(out.strides, vec![4, 4, 4]);
    assert_eq!(
        out.data,
        vec![
            vec![1i64, 1, 2, 2, 1, 1, 2, 2],
            vec![3, 3, 4, 4, 3, 3, 4, 4],
            vec![5, 5, 6, 6, 5, 5, 6, 6],
        ]
    );
    assert_eq!(perf.cnn_flo, 2 * 3 * 3 * 9 * 4 * 2 + 3 * 4 * 2);
}

#[test]
fn each_method_runs_the_models_it_names() {
    let keep = vec![plane_to_plane(3, 4)];
    let left = vec![plane_to_plane(3, 3)];
    let input = image(ColorSpace::RGB, vec![vec![1, 2], vec![3, 4], vec![5, 6]], 2, 1);
    let mut perf = PerfStatus { cnn_flo: 0 };
    let out = run(Method::Noise, input.clone(), &left, &keep, &mut perf, &Fixed);
    assert_eq!(out.width, 2);
    assert_eq!(out.data, vec![vec![1i64, 1], vec![3, 3], vec![5, 5]]);
    assert_eq!(perf.cnn_flo, 2 * 3 * 3 * 9 * 2 + 3 * 2);
    let mut perf = PerfStatus { cnn_flo: 0 };
    let out = run(Method::Scale, input.clone(), &left, &keep, &mut perf, &Fixed);
    assert_eq!(out.width, 4);
    assert_eq!(out.height, 2);
    assert_eq!(out.data[0], vec![1i64, 1, 2, 2, 1, 1, 2, 2]);
    assert_eq!(perf.cnn_flo, 2 * 3 * 3 * 9 * 8 + 3 * 8);
    let mut perf = PerfStatus { cnn_flo: 0 };
    let out = run(Method::NoiseScale, input, &left, &keep, &mut perf, &Fixed);
    assert_eq!(out.width, 4);
    assert_eq!(out.height, 2);
    assert_eq!(out.data[0], vec![1i64, 1, 1, 1, 1, 1, 1, 1]);
    assert_eq!(out.data[2], vec![5i64, 5, 5, 5, 5, 5, 5, 5]);
    assert_eq!(perf.cnn_flo, 2 * 3 * 3 * 9 * 2 + 3 * 2 + 2 * 3 * 3 * 9 * 8 + 3 * 8);
}

#[test]
fn dimensions_are_looked_at_before_sizes() {
    let good = vec![plane_to_plane(3, 4)];
    let bad = vec![plane_to_plane(2, 4)];
    let mismatch = Err(FilterError::DimensionMismatch);
    assert_eq!(check_pipeline(&bad, 3, usize::MAX, 1), mismatch);
    assert_eq!(check_pipeline(&good, 2, usize::MAX, usize::MAX), mismatch);
    assert_eq!(check_method(Method::Scale, &good, &bad, 3, usize::MAX, 1), mismatch);
    assert_eq!(check_method(Method::NoiseScale, &good, &bad, 3, usize::MAX, 1), mismatch);
    assert_eq!(
        check_method(Method::NoiseScale, &good, &good, 3, usize::MAX, 1),
        Err(FilterError::TooLarge)
    );
    assert_eq!(
        check_method(Method::NoiseScale, &good, &good, 3, usize::MAX / 8, 1),
        Err(FilterError::TooLarge)
    );
}

#[test]
fn result_of_a_method_has_the_color_space_of_the_models_that_ran() {
    let rgb = vec![plane_to_plane(3, 4)];
    let luma = vec![plane_to_plane(1, 4)];
    let input = image(ColorSpace::RGB, vec![vec![1000, 2000], vec![3000, 4000], vec![5000, 6000]], 2, 1);
    let mut perf = PerfStatus { cnn_flo: 0 };
    let out = run(Method::Noise, input.clone(), &rgb, &luma, &mut perf, &Fixed);
    assert_eq!(out.color_space, ColorSpace::RGB);
    assert_eq!(out.data.len(), 3);
    let out = run(Method::Noise, input.clone(), &luma, &rgb, &mut perf, &Fixed);
    assert_eq!(out.color_space, ColorSpace::I444);
    let out = run(Method::Scale, input.clone(), &rgb, &luma, &mut perf, &Fixed);
    assert_eq!(out.color_space, ColorSpace::I444);
    assert_eq!(out.data.len(), 3);
    let out = run(Method::NoiseScale, input.clone(), &luma, &rgb, &mut perf, &Fixed);
    assert_eq!(out.color_space, ColorSpace::I444);
    let out = run(Method::NoiseScale, input.clone(), &rgb, &luma, &mut perf, &Fixed);
    assert_eq!(out.color_space, ColorSpace::I444);
    let out = run(Method::NoiseScale, input, &rgb, &rgb, &mut perf, &Fixed);
    assert_eq!(out.color_space, ColorSpace::RGB);
    assert_eq!(out.data.len(), 3);
}

#[test]
fn image_is_made_ready_for_a_model_of_three_planes() {
    let model = vec![plane_to_plane(3, 4), plane_to_plane(3, 4)];
    let input = three_planes();
    let (ready, padded) = prepare(input.clone(), &model, &Fixed);
    assert_eq!(ready.data, input.data);
    assert_eq!(ready.color_space, ColorSpace::RGB);
    assert_eq!(ready.strides, input.strides);
    assert_eq!(ready.padding, 0);
    assert_eq!(padded.width, 4);
    assert_eq!(padded.height, 3);
    assert_eq!(padded.padding, 2);
    assert_eq!(padded.alignment, 1);
    assert_eq!(padded.strides, vec![8, 8, 8]);
    assert_eq!(padded.color_space, ColorSpace::RGB);
    assert_eq!(padded.data, input.add_padding(2).data);
    assert!(fits(&model, &padded));
    assert!(fits_shared_buffer(&model, &padded));
}

#[test]
fn image_is_made_ready_for_a_model_of_one_plane() {
    let model = vec![plane_to_plane(1, 4)];
    let input = three_planes();
    let mut converted = input.clone();
    converted.change_colorspace(ColorSpace::I444, &Fixed);
    let (ready, padded) = prepare(input, &model, &Fixed);
    assert_eq!(ready.color_space, ColorSpace::I444);
    assert_eq!(ready.data, converted.data);
    assert_eq!(padded.color_space, ColorSpace::I444);
    assert_eq!(padded.data.len(), 1);
    assert_eq!(padded.strides, vec![6]);
    assert_eq!(padded.padding, 1);
    assert_eq!(padded.data[0], converted.add_padding(1).data[0]);
    assert!(fits(&model, &padded));
    let already = image(ColorSpace::I444, three_planes().data, 4, 3);
    let (ready, padded) = prepare(already, &model, &Fixed);
    assert_eq!(ready.data, three_planes().data);
    assert_eq!(padded.data.len(), 1);
    assert_eq!(padded.data[0], three_planes().add_padding(1).data[0]);
}

#[test]
fn stages_of_the_pipeline_give_what_the_pipeline_gives() {
    for model in [vec![plane_to_plane(1, 3)], vec![plane_to_plane(3, 5), plane_to_plane(3, 1)]] {
        let mut whole = PerfStatus { cnn_flo: 0 };
        let expected = filter(three_planes(), &model, &mut whole, &Fixed);
        for planar in [false, true] {
            let mut perf = PerfStatus { cnn_flo: 0 };
            let (ready, padded) = prepare(three_planes(), &model, &Fixed);
            let output = if planar {
                filter_cpu1(padded, &model, &mut perf, &Fixed)
            } else {
                filter_cpu2(padded, &model, &mut perf, &Fixed)
            };
            assert!(can_finish(&output, &ready));
            let out = finish(output, &ready);
            assert_eq!(out.data, expected.data);
            assert_eq!(out.strides, expected.strides);
            assert_eq!(out.color_space, expected.color_space);
            assert_eq!(perf.cnn_flo, whole.cnn_flo);
        }
    }
}

#[test]
fn result_of_the_engine_is_put_together_with_the_chroma_planes() {
    let ready = image(ColorSpace::I444, three_planes().data, 4, 3).add_padding(1);
    let single = image(ColorSpace::I444, vec![vec![7; 12]], 4, 3);
    assert!(can_finish(&single, &ready));
    let out = finish(single, &ready);
    assert_eq!(out.data, vec![vec![7; 12], three_planes().data[1].clone(), three_planes().data[2].clone()]);
    assert_eq!(out.strides, vec![4, 4, 4]);
    assert_eq!(out.color_space, ColorSpace::I444);
    let two = image(ColorSpace::RGB, vec![vec![7; 12], vec![8; 12]], 4, 3);
    assert!(can_finish(&two, &ready));
    let out = finish(two.clone(), &ready);
    assert_eq!(out.data, two.data);
    assert_eq!(out.strides, vec![4, 4]);
    assert_eq!(out.color_space, ColorSpace::RGB);
}

#[test]
fn what_cannot_be_put_together_is_told() {
    let ready = three_planes();
    let good = image(ColorSpace::I444, vec![vec![7; 12]], 4, 3);
    assert!(can_finish(&good, &ready));
    assert!(!can_finish(&image(ColorSpace::I444, vec![vec![7; 9]], 3, 3), &ready));
    assert!(!can_finish(&image(ColorSpace::I444, vec![vec![7; 8]], 4, 2), &ready));
    assert!(!can_finish(&good.add_padding(1), &ready));
    assert!(!can_finish(&good, &image(ColorSpace::RGB, vec![vec![1; 12], vec![2; 12]], 4, 3)));
    let mut aligned = good.clone();
    aligned.alignment = 2;
    assert!(!can_finish(&aligned, &ready));
    let mut wide = good.clone();
    wide.strides = vec![5];
    wide.data = vec![vec![7; 15]];
    assert!(wide.is_well_formed());
    assert!(!can_finish(&wide, &ready));
    let mut broken = good.clone();
    broken.data[0].pop();
    assert!(!can_finish(&broken, &ready));
    let mut malformed = three_planes();
    malformed.strides.pop();
    assert!(!can_finish(&good, &malformed));
    let empty = image(ColorSpace::RGB, vec![vec![]; 3], 0, 3);
    assert!(!can_finish(&image(ColorSpace::RGB, vec![vec![]], 0, 3), &empty));
}
