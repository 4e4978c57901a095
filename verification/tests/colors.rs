use waifu2x::arith::Arith;
use waifu2x::feature_map::{ColorSpace, Image};
use waifu2x::fixed::Fixed;

struct Floats;

impl Arith<f32> for Floats {
    fn ratio_spec(&self, num: i32, den: u32) -> f32 {
        (num as f32) / (den as f32)
    }

    fn ratio(&self, num: i32, den: u32) -> f32 {
        (num as f32) / (den as f32)
    }

    fn sum_spec(&self, a: f32, b: f32) -> f32 {
        a + b
    }

    fn sum(&self, a: f32, b: f32) -> f32 {
        a + b
    }

    fn diff_spec(&self, a: f32, b: f32) -> f32 {
        a - b
    }

    fn diff(&self, a: f32, b: f32) -> f32 {
        a - b
    }

    fn product_spec(&self, a: f32, b: f32) -> f32 {
        a * b
    }

    fn product(&self, a: f32, b: f32) -> f32 {
        a * b
    }

    fn quotient_spec(&self, a: f32, b: f32) -> f32 {
        a / b
    }

    fn quotient(&self, a: f32, b: f32) -> f32 {
        a / b
    }

    fn negative_spec(&self, a: f32) -> bool {
        a < 0.0
    }

    fn is_negative(&self, a: f32) -> bool {
        a < 0.0
    }

    fn nearest_spec(&self, a: f32) -> i32 {
        a.round() as i32
    }

    fn nearest(&self, a: f32) -> i32 {
        a.round() as i32
    }
}

fn pixels(color_space: ColorSpace, a: Vec<f32>, b: Vec<f32>, c: Vec<f32>) -> Image<f32> {
    let width = a.len();
    Image {
        width,
        height: 1,
        color_space,
        data: vec![a, b, c],
        strides: vec![width; 3],
        padding: 0,
        alignment: 1,
    }
}

fn luma_chroma(r: f32, g: f32, b: f32) -> (f32, f32, f32) {
    let r = r * 255.0;
    let g = g * 255.0;
    let b = b * 255.0;
    (
        (0.0 + (0.299 * r) + (0.587 * g) + (0.114 * b)) / 255.0,
        (128.0 - (0.168736 * r) - (0.331264 * g) + (0.5 * b)) / 255.0,
        (128.0 + (0.5 * r) - (0.418688 * g) - (0.081312 * b)) / 255.0,
    )
}

fn red_green_blue(y: f32, u: f32, v: f32) -> (f32, f32, f32) {
    let y = y * 255.0;
    let u = u * 255.0;
    let v = v * 255.0;
    (
        (y + 1.402 * (v - 128.0)) / 255.0,
        (y - 0.34414 * (u - 128.0) - 0.71414 * (v - 128.0)) / 255.0,
        (y + 1.772 * (u - 128.0)) / 255.0,
    )
}

fn samples() -> Vec<(f32, f32, f32)> {
    let levels = [0.0f32, 0.1, 0.25, 0.5, 0.75, 1.0, 17.0 / 255.0, 200.0 / 255.0];
    let mut all = Vec::new();
    for r in levels {
        for g in levels {
            for b in levels {
                all.push((r, g, b));
            }
        }
    }
    all
}

fn image_of(color_space: ColorSpace, all: &[(f32, f32, f32)]) -> Image<f32> {
    pixels(
        color_space,
        all.iter().map(|p| p.0).collect(),
        all.iter().map(|p| p.1).collect(),
        all.iter().map(|p| p.2).collect(),
    )
}

#[test]
fn luma_and_chroma_follow_the_coefficients_to_the_bit() {
    let all = samples();
    let mut img = image_of(ColorSpace::RGB, &all);
    img.change_colorspace(ColorSpace::I444, &Floats);
    assert_eq!(img.color_space, ColorSpace::I444);
    for (i, (r, g, b)) in all.iter().enumerate() {
        let (y, u, v) = luma_chroma(*r, *g, *b);
        assert_eq!(img.data[0][i].to_bits(), y.to_bits());
        assert_eq!(img.data[1][i].to_bits(), u.to_bits());
        assert_eq!(img.data[2][i].to_bits(), v.to_bits());
    }
}

#[test]
fn red_green_and_blue_follow_the_coefficients_to_the_bit() {
    let all = samples();
    let mut img = image_of(ColorSpace::I444, &all);
    img.change_colorspace(ColorSpace::RGB, &Floats);
    assert_eq!(img.color_space, ColorSpace::RGB);
    for (i, (y, u, v)) in all.iter().enumerate() {
        let (r, g, b) = red_green_blue(*y, *u, *v);
        assert_eq!(img.data[0][i].to_bits(), r.to_bits());
        assert_eq!(img.data[1][i].to_bits(), g.to_bits());
        assert_eq!(img.data[2][i].to_bits(), b.to_bits());
    }
}

#[test]
fn white_black_and_gray_have_neutral_chroma() {
    let mut img = pixels(
        ColorSpace::RGB,
        vec![1.0, 0.0, 0.5],
        vec![1.0, 0.0, 0.5],
        vec![1.0, 0.0, 0.5],
    );
    img.change_colorspace_i444(&Floats);
    let neutral = 128.0f32 / 255.0;
    for (i, luma) in [1.0f32, 0.0, 0.5].iter().enumerate() {
        assert!((img.data[0][i] - luma).abs() < 1e-6);
        assert!((img.data[1][i] - neutral).abs() < 1e-6);
        assert!((img.data[2][i] - neutral).abs() < 1e-6);
    }
    let mut red = pixels(ColorSpace::RGB, vec![1.0], vec![0.0], vec![0.0]);
    red.change_colorspace_i444(&Floats);
    assert!((red.data[0][0] - 0.299).abs() < 1e-6);
    assert!((red.data[1][0] - (128.0 - 0.168736 * 255.0) / 255.0).abs() < 1e-6);
    assert!((red.data[2][0] - (128.0 + 0.5 * 255.0) / 255.0).abs() < 1e-6);
}

#[test]
fn conversion_there_and_back_stays_within_tolerance() {
    let all = samples();
    let mut img = image_of(ColorSpace::RGB, &all);
    img.change_colorspace(ColorSpace::I444, &Floats);
    img.change_colorspace(ColorSpace::RGB, &Floats);
    assert_eq!(img.color_space, ColorSpace::RGB);
    for (i, (r, g, b)) in all.iter().enumerate() {
        assert!((img.data[0][i] - r).abs() < 1e-4);
        assert!((img.data[1][i] - g).abs() < 1e-4);
        assert!((img.data[2][i] - b).abs() < 1e-4);
    }
    let mut other = image_of(ColorSpace::I444, &[(0.5, 0.4, 0.6), (0.2, 0.5, 0.5)]);
    other.change_colorspace(ColorSpace::RGB, &Floats);
    other.change_colorspace(ColorSpace::I444, &Floats);
    assert!((other.data[0][0] - 0.5).abs() < 1e-4);
    assert!((other.data[1][0] - 0.4).abs() < 1e-4);
    assert!((other.data[2][0] - 0.6).abs() < 1e-4);
    assert!((other.data[0][1] - 0.2).abs() < 1e-4);
}

#[test]
fn buffer_in_the_color_space_asked_for_stays_as_it_is() {
    let all = samples();
    let mut img = image_of(ColorSpace::RGB, &all);
    let before = img.data.clone();
    img.change_colorspace(ColorSpace::RGB, &Floats);
    assert_eq!(img.data, before);
    assert_eq!(img.color_space, ColorSpace::RGB);
    img.change_colorspace_rgb(&Floats);
    assert_eq!(img.data, before);
    let mut other = image_of(ColorSpace::I444, &all);
    other.change_colorspace(ColorSpace::I444, &Floats);
    assert_eq!(other.data, before);
    other.change_colorspace_i444(&Floats);
    assert_eq!(other.data, before);
    assert_eq!(other.color_space, ColorSpace::I444);
    let mut single = Image {
        width: 1,
        height: 1,
        color_space: ColorSpace::I444,
        data: vec![vec![0.5f32]],
        strides: vec![1],
        padding: 0,
        alignment: 1,
    };
    single.change_colorspace(ColorSpace::I444, &Floats);
    assert_eq!(single.data, vec![vec![0.5f32]]);
}

#[test]
fn conversion_covers_the_padding_and_leaves_the_rest() {
    let one = 65536i64;
    let mut img = Image {
        width: 1,
        height: 1,
        color_space: ColorSpace::RGB,
        data: vec![
            vec![one, one, one, -7, one, one, one, -7, one, one, one, -7],
            vec![one; 9],
            vec![one; 9],
            vec![5, 6, 7, 8, 9, 10, 11, 12, 13],
        ],
        strides: vec![4, 3, 3, 3],
        padding: 1,
        alignment: 1,
    };
    img.change_colorspace(ColorSpace::I444, &Fixed);
    assert_eq!(img.color_space, ColorSpace::I444);
    assert_eq!(img.strides, vec![4, 3, 3, 3]);
    assert_eq!(img.padding, 1);
    let luma = img.data[0][0];
    let blue = img.data[1][0];
    let red = img.data[2][0];
    assert!((luma - one).abs() < 64);
    assert!((blue - 128 * one / 255).abs() < 64);
    assert!((red - 128 * one / 255).abs() < 64);
    assert_eq!(
        img.data[0],
        vec![luma, luma, luma, -7, luma, luma, luma, -7, luma, luma, luma, -7]
    );
    assert_eq!(img.data[1], vec![blue; 9]);
    assert_eq!(img.data[2], vec![red; 9]);
    assert_eq!(img.data[3], vec![5i64, 6, 7, 8, 9, 10, 11, 12, 13]);
}

#[test]
fn conversion_reaches_whole_rows_of_planes_of_one_stride() {
    let one = 65536i64;
    let mut img = Image {
        width: 1,
        height: 2,
        color_space: ColorSpace::RGB,
        data: vec![vec![one, one / 2, one, one / 2]; 3],
        strides: vec![2, 2, 2],
        padding: 0,
        alignment: 2,
    };
    let mut narrow = Image {
        width: 2,
        height: 2,
        color_space: ColorSpace::RGB,
        data: vec![vec![one, one / 2, one, one / 2]; 3],
        strides: vec![2, 2, 2],
        padding: 0,
        alignment: 1,
    };
    img.change_colorspace(ColorSpace::I444, &Fixed);
    narrow.change_colorspace(ColorSpace::I444, &Fixed);
    assert_eq!(img.data, narrow.data);
    assert_ne!(img.data[1][1], one / 2);
    assert_eq!(img.data[0][1], img.data[0][3]);
    assert_eq!(img.strides, vec![2, 2, 2]);
    assert_eq!(img.alignment, 2);
    let mut uneven = Image {
        width: 1,
        height: 1,
        color_space: ColorSpace::RGB,
        data: vec![vec![one, one, 5], vec![one, one], vec![one, one, 6, 7]],
        strides: vec![3, 2, 4],
        padding: 0,
        alignment: 1,
    };
    uneven.change_colorspace(ColorSpace::I444, &Fixed);
    assert_eq!(uneven.data[0][0], uneven.data[0][1]);
    assert_eq!(uneven.data[0][2], 5);
    assert_eq!(uneven.data[1][0], uneven.data[1][1]);
    assert_eq!(uneven.data[2][0], uneven.data[2][1]);
    assert_eq!(&uneven.data[2][2..], &[6, 7]);
    assert_ne!(uneven.data[1][0], one);
}
