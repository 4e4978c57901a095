use waifu2x::arith::{leaky_rectify, Arith};
use waifu2x::cnn::{fits, PerfStatus};
use waifu2x::feature_map::{ColorSpace, Image};
use waifu2x::fixed::Fixed;
use waifu2x::interleaved::{filter_cpu2, fits_shared_buffer, interleaved_stride};
use waifu2x::interleaved_layer::{filter_cpu2_layer, filter_cpu2_layer_32};
use waifu2x::model::Layer;
use waifu2x::planar::filter_cpu1;

struct Floats;

impl Arith<f32> for Floats {
    fn ratio_spec(&self, num: i32, den: u32) -> f32 {
        (num as f32) / (den as f32)
    }

    fn ratio(&self, num: i32, den: u32) -> f32 {
        (num as f32) / (den as f32)
    }

    fn sum_spec(&self, a: f32, b: f32) -> f32 {
        a + b
    }

    fn sum(&self, a: f32, b: f32) -> f32 {
        a + b
    }

    fn diff_spec(&self, a: f32, b: f32) -> f32 {
        a - b
    }

    fn diff(&self, a: f32, b: f32) -> f32 {
        a - b
    }

    fn product_spec(&self, a: f32, b: f32) -> f32 {
        a * b
    }

    fn product(&self, a: f32, b: f32) -> f32 {
        a * b
    }

    fn quotient_spec(&self, a: f32, b: f32) -> f32 {
        a / b
    }

    fn quotient(&self, a: f32, b: f32) -> f32 {
        a / b
    }

    fn negative_spec(&self, a: f32) -> bool {
        a < 0.0
    }

    fn is_negative(&self, a: f32) -> bool {
        a < 0.0
    }

    fn nearest_spec(&self, a: f32) -> i32 {
        a.round() as i32
    }

    fn nearest(&self, a: f32) -> i32 {
        a.round() as i32
    }
}

fn kernel(taps: [f32; 9]) -> Vec<Vec<f32>> {
    vec![
        vec![taps[0], taps[1], taps[2]],
        vec![taps[3], taps[4], taps[5]],
        vec![taps[6], taps[7], taps[8]],
    ]
}

fn center(value: f32) -> Vec<Vec<f32>> {
    kernel([0.0, 0.0, 0.0, 0.0, value, 0.0, 0.0, 0.0, 0.0])
}

fn layer(n_in: u32, n_out: u32, bias: Vec<f32>, weight: Vec<Vec<Vec<Vec<f32>>>>) -> Layer<f32> {
    Layer { nInputPlane: n_in, nOutputPlane: n_out, kW: 3, kH: 3, bias, weight }
}

fn image(planes: Vec<Vec<f32>>, width: usize, height: usize) -> Image<f32> {
    let count = planes.len();
    Image {
        width,
        height,
        color_space: ColorSpace::RGB,
        data: planes,
        strides: vec![width; count],
        padding: 0,
        alignment: 1,
    }
}

fn constant_image(planes: usize, width: usize, height: usize, value: f32) -> Image<f32> {
    image(vec![vec![value; width * height]; planes], width, height)
}

fn both(input: &Image<f32>, model: &Vec<Layer<f32>>) -> (Image<f32>, Image<f32>, u64, u64) {
    let mut perf1 = PerfStatus { cnn_flo: 0 };
    let mut perf2 = PerfStatus { cnn_flo: 0 };
    let a = filter_cpu1(input.clone(), model, &mut perf1, &Floats);
    let b = filter_cpu2(input.clone(), model, &mut perf2, &Floats);
    (a, b, perf1.cnn_flo, perf2.cnn_flo)
}

struct Noise(u32);

impl Noise {
    fn next(&mut self) -> f32 {
        self.0 = self.0.wrapping_mul(1664525).wrapping_add(1013904223);
        ((self.0 >> 8) as f32) / 16777216.0 - 0.5
    }
}

fn noisy_layer(noise: &mut Noise, n_in: u32, n_out: u32) -> Layer<f32> {
    let mut weight = Vec::new();
    let mut bias = Vec::new();
    for _ in 0..n_out {
        let mut per_out = Vec::new();
        for _ in 0..n_in {
            let mut taps = [0.0f32; 9];
            for tap in taps.iter_mut() {
                *tap = noise.next();
            }
            per_out.push(kernel(taps));
        }
        weight.push(per_out);
        bias.push(noise.next());
    }
    layer(n_in, n_out, bias, weight)
}

fn noisy_image(noise: &mut Noise, planes: usize, width: usize, height: usize) -> Image<f32> {
    let mut data = Vec::new();
    for _ in 0..planes {
        let mut plane = Vec::new();
        for _ in 0..width * height {
            plane.push(noise.next() + 0.5);
        }
        data.push(plane);
    }
    image(data, width, height)
}

#[test]
fn identity_layer_passes_a_constant_image_through() {
    let model = vec![layer(1, 1, vec![0.0], vec![vec![center(1.0)]])];
    let (a, b, _, _) = both(&constant_image(1, 6, 5, 0.75), &model);
    assert_eq!(a.width, 4);
    assert_eq!(a.height, 3);
    assert_eq!(a.padding, 0);
    assert_eq!(a.alignment, 1);
    assert_eq!(a.strides, vec![4]);
    assert_eq!(a.data, vec![vec![0.75f32; 12]]);
    assert_eq!(b.width, 4);
    assert_eq!(b.height, 3);
    assert_eq!(b.strides, vec![4]);
    assert_eq!(b.data, vec![vec![0.75f32; 12]]);
}

#[test]
fn kernel_is_applied_tap_by_tap_without_flipping() {
    let taps = kernel([1.0, 2.0, 3.0, 4.0, 5.0, 6.0, 7.0, 8.0, 9.0]);
    let model = vec![layer(1, 1, vec![0.5], vec![vec![taps]])];
    let input = image(vec![vec![1.0, 0.0, 0.0, 0.0, 0.0, 0.0, 0.0, 0.0, 2.0]], 3, 3);
    let (a, b, _, _) = both(&input, &model);
    assert_eq!(a.width, 1);
    assert_eq!(a.height, 1);
    assert_eq!(a.data, vec![vec![19.5f32]]);
    assert_eq!(b.data, vec![vec![19.5f32]]);
}

#[test]
fn window_moves_with_the_output_sample() {
    let taps = kernel([0.0, 0.0, 0.0, 0.0, 0.0, 1.0, 0.0, 2.0, 0.0]);
    let model = vec![layer(1, 1, vec![0.0], vec![vec![taps]])];
    let input = image(
        vec![vec![
            1.0, 2.0, 3.0, 4.0, //
            5.0, 6.0, 7.0, 8.0, //
            9.0, 10.0, 11.0, 12.0, //
            13.0, 14.0, 15.0, 16.0,
        ]],
        4,
        4,
    );
    let (a, b, _, _) = both(&input, &model);
    assert_eq!(a.data, vec![vec![27.0f32, 30.0, 39.0, 42.0]]);
    assert_eq!(b.data, vec![vec![27.0f32, 30.0, 39.0, 42.0]]);
}

#[test]
fn input_planes_are_summed_for_each_output_plane() {
    let model = vec![layer(
        2,
        2,
        vec![1.0, -100.0],
        vec![vec![center(1.0), center(10.0)], vec![center(2.0), center(20.0)]],
    )];
    let input = image(vec![vec![1.0; 9], vec![3.0; 9]], 3, 3);
    let (a, b, _, _) = both(&input, &model);
    assert_eq!(a.data, vec![vec![32.0f32], vec![-3.8f32]]);
    assert_eq!(b.data, a.data);
}

#[test]
fn leaky_rectification_at_the_boundary() {
    for (bias, expected) in [(0.0f32, 0.0f32), (-10.0, -1.0), (10.0, 10.0)] {
        let model = vec![layer(1, 1, vec![bias], vec![vec![center(0.0)]])];
        let (a, b, _, _) = both(&constant_image(1, 3, 3, 0.25), &model);
        assert_eq!(a.data, vec![vec![expected]]);
        assert_eq!(b.data, vec![vec![expected]]);
    }
}

#[test]
fn both_strategies_give_the_same_samples() {
    let mut noise = Noise(7);
    let model = vec![noisy_layer(&mut noise, 3, 8), noisy_layer(&mut noise, 8, 3)];
    let input = noisy_image(&mut noise, 3, 9, 8);
    let (a, b, flo_a, flo_b) = both(&input, &model);
    assert_eq!(a.width, 5);
    assert_eq!(a.height, 4);
    assert_eq!(a.data.len(), 3);
    assert_eq!(a.data[0].len(), 20);
    assert_eq!(a.data, b.data);
    assert_eq!(a.strides, b.strides);
    assert_eq!(flo_a, flo_b);
    assert!(a.data[0].iter().any(|v| *v != a.data[0][0]));
}

#[test]
fn both_strategies_agree_on_wide_layers() {
    let mut noise = Noise(11);
    let model = vec![
        noisy_layer(&mut noise, 2, 35),
        noisy_layer(&mut noise, 35, 32),
        noisy_layer(&mut noise, 32, 2),
    ];
    let input = noisy_image(&mut noise, 2, 8, 7);
    let (a, b, _, _) = both(&input, &model);
    assert_eq!(a.width, 2);
    assert_eq!(a.height, 1);
    assert_eq!(a.data.len(), 2);
    assert_eq!(a.data, b.data);
}

#[test]
fn both_strategies_read_the_padding_and_the_stride_of_the_input() {
    let mut noise = Noise(3);
    let model = vec![noisy_layer(&mut noise, 1, 1)];
    let tight = noisy_image(&mut noise, 1, 5, 5);
    let mut wide = Vec::new();
    for y in 0..5 {
        for x in 0..8 {
            wide.push(if x < 5 { tight.data[0][y * 5 + x] } else { 99.0 });
        }
    }
    let padded = Image {
        width: 3,
        height: 3,
        color_space: ColorSpace::I444,
        data: vec![wide],
        strides: vec![8],
        padding: 1,
        alignment: 4,
    };
    let (expected, _, _, _) = both(&tight, &model);
    let (a, b, _, _) = both(&padded, &model);
    assert_eq!(a.width, 3);
    assert_eq!(a.height, 3);
    assert_eq!(a.color_space, ColorSpace::I444);
    assert_eq!(a.data, expected.data);
    assert_eq!(b.data, expected.data);
    assert_eq!(b.color_space, ColorSpace::I444);
}

#[test]
fn operations_of_one_layer_are_counted() {
    let mut noise = Noise(5);
    let model = vec![noisy_layer(&mut noise, 3, 16)];
    let input = constant_image(3, 66, 66, 0.5);
    let (a, _, flo_a, flo_b) = both(&input, &model);
    assert_eq!(a.width, 64);
    assert_eq!(a.height, 64);
    assert_eq!(flo_a, 2 * 3 * 16 * 3 * 3 * 64 * 64 + 16 * 64 * 64);
    assert_eq!(flo_a, 3604480);
    assert_eq!(flo_b, 3604480);
}

#[test]
fn operations_of_all_layers_are_added_to_the_counter() {
    let model = vec![
        layer(1, 2, vec![0.0; 2], vec![vec![center(1.0)], vec![center(1.0)]]),
        layer(2, 1, vec![0.0], vec![vec![center(1.0), center(1.0)]]),
    ];
    let mut perf = PerfStatus { cnn_flo: 1000 };
    let out = filter_cpu1(constant_image(1, 7, 6, 0.5), &model, &mut perf, &Floats);
    assert_eq!(out.width, 3);
    let first = 2 * 1 * 2 * 9 * 5 * 4 + 2 * 5 * 4;
    let second = 2 * 2 * 1 * 9 * 3 * 2 + 1 * 3 * 2;
    assert_eq!(perf.cnn_flo, 1000 + first + second);
    let mut perf = PerfStatus { cnn_flo: 1000 };
    filter_cpu2(constant_image(1, 7, 6, 0.5), &model, &mut perf, &Floats);
    assert_eq!(perf.cnn_flo, 1000 + first + second);
}

#[test]
fn counter_of_operations_stops_at_the_largest_value() {
    let model = vec![layer(1, 1, vec![0.0], vec![vec![center(1.0)]])];
    let mut perf = PerfStatus { cnn_flo: u64::MAX - 5 };
    filter_cpu1(constant_image(1, 4, 4, 0.5), &model, &mut perf, &Floats);
    assert_eq!(perf.cnn_flo, u64::MAX);
    let mut perf = PerfStatus { cnn_flo: u64::MAX - 5 };
    filter_cpu2(constant_image(1, 4, 4, 0.5), &model, &mut perf, &Floats);
    assert_eq!(perf.cnn_flo, u64::MAX);
}

#[test]
fn two_layers_keep_a_solid_gray_image() {
    let mut first = Vec::new();
    for o in 0..8 {
        let mut per_out = Vec::new();
        for i in 0..3 {
            per_out.push(center(if o % 3 == i { 1.0 } else { 0.0 }));
        }
        first.push(per_out);
    }
    let mut second = Vec::new();
    for o in 0..3 {
        let mut per_out = Vec::new();
        for i in 0..8 {
            per_out.push(center(if o == i { 1.0 } else { 0.0 }));
        }
        second.push(per_out);
    }
    let model = vec![layer(3, 8, vec![0.0; 8], first), layer(8, 3, vec![0.0; 3], second)];
    let padded = constant_image(3, 4, 5, 0.5).add_padding(2);
    assert_eq!(padded.data[0].len(), 8 * 9);
    let (a, b, _, _) = both(&padded, &model);
    assert_eq!(a.width, 4);
    assert_eq!(a.height, 5);
    assert_eq!(a.data, vec![vec![0.5f32; 20]; 3]);
    assert_eq!(b.data, vec![vec![0.5f32; 20]; 3]);
}

#[test]
fn image_of_the_least_size_gives_an_empty_result() {
    let model = vec![layer(1, 1, vec![0.0], vec![vec![center(1.0)]])];
    let (a, b, flo, _) = both(&constant_image(1, 2, 5, 0.5), &model);
    assert_eq!(a.width, 0);
    assert_eq!(a.height, 3);
    assert_eq!(a.data, vec![Vec::<f32>::new()]);
    assert_eq!(b.data, vec![Vec::<f32>::new()]);
    assert_eq!(flo, 0);
}

#[test]
fn shared_buffer_holds_the_longest_row_of_any_layer() {
    let mut noise = Noise(1);
    let model = vec![noisy_layer(&mut noise, 3, 8), noisy_layer(&mut noise, 8, 3)];
    assert_eq!(interleaved_stride(&model, 10), Some(64));
    assert_eq!(interleaved_stride(&model, 4), Some(16));
    let none: Vec<Layer<f32>> = Vec::new();
    assert_eq!(interleaved_stride(&none, 4), Some(1));
    let huge = vec![Layer::<f32> {
        nInputPlane: u32::MAX,
        nOutputPlane: 1,
        kW: 3,
        kH: 3,
        bias: vec![],
        weight: vec![],
    }];
    assert_eq!(interleaved_stride(&huge, usize::MAX), None);
}

#[test]
fn fixed_point_engine_passes_a_constant_image_through() {
    let one = 65536i64;
    let taps = vec![vec![0, 0, 0], vec![0, one, 0], vec![0, 0, 0]];
    let model = vec![Layer {
        nInputPlane: 1,
        nOutputPlane: 1,
        kW: 3,
        kH: 3,
        bias: vec![0i64],
        weight: vec![vec![taps]],
    }];
    let input = Image {
        width: 4,
        height: 4,
        color_space: ColorSpace::RGB,
        data: vec![vec![12345i64; 16]],
        strides: vec![4],
        padding: 0,
        alignment: 1,
    };
    let mut perf = PerfStatus { cnn_flo: 0 };
    let a = filter_cpu1(input.clone(), &model, &mut perf, &Fixed);
    let b = filter_cpu2(input, &model, &mut perf, &Fixed);
    assert_eq!(a.data, vec![vec![12345i64; 4]]);
    assert_eq!(b.data, vec![vec![12345i64; 4]]);
}

#[test]
fn model_must_fit_the_image() {
    let one = vec![layer(1, 1, vec![0.0], vec![vec![center(1.0)]])];
    let two = vec![one[0].clone(), one[0].clone()];
    assert!(fits(&one, &constant_image(1, 2, 2, 0.5)));
    assert!(fits(&one, &constant_image(1, 9, 2, 0.5)));
    assert!(!fits(&one, &constant_image(1, 1, 2, 0.5)));
    assert!(!fits(&one, &constant_image(1, 2, 1, 0.5)));
    assert!(fits(&two, &constant_image(1, 4, 4, 0.5)));
    assert!(fits(&two, &constant_image(1, 5, 4, 0.5)));
    assert!(!fits(&two, &constant_image(1, 3, 4, 0.5)));
    assert!(!fits(&two, &constant_image(1, 4, 3, 0.5)));
    assert!(fits(&two, &constant_image(1, 2, 2, 0.5).add_padding(1)));
    assert!(!fits(&one, &constant_image(3, 5, 5, 0.5)));
    assert!(!fits(&one, &constant_image(0, 5, 5, 0.5)));
    assert!(!fits(&Vec::new(), &constant_image(1, 5, 5, 0.5)));
    let mut malformed = constant_image(1, 5, 5, 0.5);
    malformed.data[0].pop();
    assert!(!fits(&one, &malformed));
    let mut broken = one.clone();
    broken[0].bias.clear();
    assert!(!fits(&broken, &constant_image(1, 5, 5, 0.5)));
    let unchained = vec![one[0].clone(), layer(2, 1, vec![0.0], vec![vec![center(1.0); 2]])];
    assert!(!fits(&unchained, &constant_image(1, 5, 5, 0.5)));
}

#[test]
fn shared_buffer_must_fit_the_address_space() {
    let one = vec![layer(1, 1, vec![0.0], vec![vec![center(1.0)]])];
    assert!(fits_shared_buffer(&one, &constant_image(1, 5, 5, 0.5)));
    let many = vec![Layer::<f32> {
        nInputPlane: 1,
        nOutputPlane: u32::MAX,
        kW: 3,
        kH: 3,
        bias: vec![],
        weight: vec![],
    }];
    let empty_rows = Image {
        width: usize::MAX / 2,
        height: 4,
        color_space: ColorSpace::RGB,
        data: vec![Vec::<f32>::new()],
        strides: vec![usize::MAX / 2],
        padding: 0,
        alignment: 1,
    };
    assert!(!empty_rows.is_well_formed());
    assert!(!fits(&many, &empty_rows));
}

#[test]
fn rectification_keeps_what_is_not_below_zero_and_takes_a_tenth_of_the_rest() {
    let tenth = Floats.ratio(1, 10);
    assert_eq!(tenth, 0.1f32);
    assert_eq!(leaky_rectify(&Floats, 0.0f32, tenth), 0.0);
    assert_eq!(leaky_rectify(&Floats, -10.0f32, tenth), -1.0);
    assert_eq!(leaky_rectify(&Floats, 10.0f32, tenth), 10.0);
    assert_eq!(leaky_rectify(&Floats, -0.5f32, tenth), -0.05);
    let tenth = Fixed.ratio(1, 10);
    assert_eq!(leaky_rectify(&Fixed, 0i64, tenth), 0);
    assert_eq!(leaky_rectify(&Fixed, -655360i64, tenth), -65530);
    assert_eq!(leaky_rectify(&Fixed, 655360i64, tenth), 655360);
}

fn corner(value: f32) -> Vec<Vec<f32>> {
    kernel([value, 0.0, 0.0, 0.0, 0.0, 0.0, 0.0, 0.0, 0.0])
}

#[test]
fn layer_in_place_reads_the_row_as_it_was_and_leaves_the_rows_below() {
    let step = layer(1, 3, vec![0.0; 3], vec![vec![corner(1.0)]; 3]);
    let mut temp = vec![0.0f32; 128];
    let mut buf = vec![
        1.0f32, 2.0, 3.0, 4.0, 0.0, 0.0, //
        5.0, 6.0, 7.0, 8.0, 0.0, 0.0, //
        9.0, 10.0, 11.0, 12.0, 0.0, 0.0,
    ];
    let mut out_line = vec![0.0f32; 6];
    let tenth = Floats.ratio(1, 10);
    filter_cpu2_layer(&Floats, &step, 1, 3, 2, 1, 6, &mut temp, &mut buf, &mut out_line, tenth);
    assert_eq!(
        buf,
        vec![
            1.0f32, 1.0, 1.0, 2.0, 2.0, 2.0, //
            5.0, 6.0, 7.0, 8.0, 0.0, 0.0, //
            9.0, 10.0, 11.0, 12.0, 0.0, 0.0,
        ]
    );
    assert_eq!(temp, vec![0.0f32; 128]);
    assert_eq!(out_line, vec![1.0f32, 1.0, 1.0, 2.0, 2.0, 2.0]);
}

#[test]
fn layer_in_place_leaves_what_lies_behind_its_output() {
    let step = layer(2, 1, vec![0.5], vec![vec![corner(1.0), center(2.0)]]);
    let mut buf = Vec::new();
    for y in 0..5 {
        for k in 0..10 {
            buf.push(if k < 8 { (y * 10 + k) as f32 } else { -7.0 });
        }
    }
    buf.push(-9.0);
    let before = buf.clone();
    let mut temp = vec![0.0f32, 9.0, 8.0];
    let mut out_line = vec![-3.0f32; 5];
    let tenth = Floats.ratio(1, 10);
    filter_cpu2_layer(&Floats, &step, 2, 1, 2, 2, 10, &mut temp, &mut buf, &mut out_line, tenth);
    let sample = |y: usize, x: usize| {
        before[y * 10 + x * 2] + 2.0 * before[(y + 1) * 10 + (x + 1) * 2 + 1] + 0.5
    };
    assert_eq!(&buf[0..2], &[sample(0, 0), sample(0, 1)]);
    assert_eq!(&buf[2..10], &before[2..10]);
    assert_eq!(&buf[10..12], &[sample(1, 0), sample(1, 1)]);
    assert_eq!(&buf[12..], &before[12..]);
    assert_eq!(temp, vec![0.0f32, 9.0, 8.0]);
    assert_eq!(out_line, vec![sample(1, 0), sample(1, 1), -3.0, -3.0, -3.0]);
}

#[test]
fn layer_in_place_without_rows_changes_nothing() {
    let step = layer(1, 1, vec![0.5], vec![vec![center(1.0)]]);
    let mut buf = vec![1.0f32, 2.0, 3.0, 4.0, 5.0, 6.0];
    let mut temp = vec![0.0f32; 1];
    let mut out_line = vec![-3.0f32; 2];
    let tenth = Floats.ratio(1, 10);
    filter_cpu2_layer(&Floats, &step, 1, 1, 1, 0, 3, &mut temp, &mut buf, &mut out_line, tenth);
    assert_eq!(buf, vec![1.0f32, 2.0, 3.0, 4.0, 5.0, 6.0]);
    assert_eq!(out_line, vec![-3.0f32; 2]);
    filter_cpu2_layer_32(&Floats, &step, 1, 1, 1, 0, 3, &mut temp, &mut buf, &mut out_line, tenth);
    assert_eq!(buf, vec![1.0f32, 2.0, 3.0, 4.0, 5.0, 6.0]);
    assert_eq!(out_line, vec![-3.0f32; 2]);
    assert_eq!(temp, vec![0.0f32]);
}

#[test]
fn eight_planes_at_a_time_leave_the_same_state() {
    for num_out in [1usize, 7, 8, 32, 35, 64] {
        let mut noise = Noise(num_out as u32);
        let step = noisy_layer(&mut noise, 3, num_out as u32);
        let width = 3;
        let height = 2;
        let stride = (width + 2) * 3.max(num_out) + 4;
        let mut buf = Vec::new();
        for _ in 0..(height + 3) * stride {
            buf.push(noise.next());
        }
        let mut one_by_one = (buf.clone(), vec![0.0f32; 128], vec![-3.0f32; stride]);
        let mut by_eight = (buf, vec![0.0f32; 128], vec![-3.0f32; stride]);
        let tenth = Floats.ratio(1, 10);
        filter_cpu2_layer(
            &Floats,
            &step,
            3,
            num_out,
            width,
            height,
            stride,
            &mut one_by_one.1,
            &mut one_by_one.0,
            &mut one_by_one.2,
            tenth,
        );
        filter_cpu2_layer_32(
            &Floats,
            &step,
            3,
            num_out,
            width,
            height,
            stride,
            &mut by_eight.1,
            &mut by_eight.0,
            &mut by_eight.2,
            tenth,
        );
        assert_eq!(one_by_one.0, by_eight.0);
        assert_eq!(one_by_one.1, by_eight.1);
        assert_eq!(one_by_one.2, by_eight.2);
        assert_eq!(one_by_one.1, vec![0.0f32; 128]);
        assert_ne!(one_by_one.0[0], one_by_one.0[1]);
    }
}
