use image::{DynamicImage, GenericImage, GenericImageView, Rgba};
use waifu2x::arith::Arith;
use waifu2x::feature_map::{ColorSpace, Image};
use waifu2x::fixed::Fixed;

struct Floats;

impl Arith<f32> for Floats {
    fn ratio_spec(&self, num: i32, den: u32) -> f32 {
        (num as f32) / (den as f32)
    }

    fn ratio(&self, num: i32, den: u32) -> f32 {
        (num as f32) / (den as f32)
    }

    fn sum_spec(&self, a: f32, b: f32) -> f32 {
        a + b
    }

    fn sum(&self, a: f32, b: f32) -> f32 {
        a + b
    }

    fn diff_spec(&self, a: f32, b: f32) -> f32 {
        a - b
    }

    fn diff(&self, a: f32, b: f32) -> f32 {
        a - b
    }

    fn product_spec(&self, a: f32, b: f32) -> f32 {
        a * b
    }

    fn product(&self, a: f32, b: f32) -> f32 {
        a * b
    }

    fn quotient_spec(&self, a: f32, b: f32) -> f32 {
        a / b
    }

    fn quotient(&self, a: f32, b: f32) -> f32 {
        a / b
    }

    fn negative_spec(&self, a: f32) -> bool {
        a < 0.0
    }

    fn is_negative(&self, a: f32) -> bool {
        a < 0.0
    }

    fn nearest_spec(&self, a: f32) -> i32 {
        a.round() as i32
    }

    fn nearest(&self, a: f32) -> i32 {
        a.round() as i32
    }
}

fn picture() -> DynamicImage {
    let mut img = DynamicImage::new_rgb8(3, 2);
    let mut n = 0u8;
    for y in 0..2 {
        for x in 0..3 {
            img.put_pixel(x, y, Rgba([n, n + 100, 255 - n, 255]));
            n += 17;
        }
    }
    img
}

fn rgb(img: &DynamicImage, x: u32, y: u32) -> [u8; 3] {
    let p = img.get_pixel(x, y);
    [p.0[0], p.0[1], p.0[2]]
}

#[test]
fn decoded_image_becomes_three_planes_of_samples_divided_by_255() {
    let out: Image<f32> = Image::from_dynamic_image(&picture(), 0, 1, &Floats);
    assert_eq!(out.width, 3);
    assert_eq!(out.height, 2);
    assert_eq!(out.padding, 0);
    assert_eq!(out.alignment, 1);
    assert_eq!(out.color_space, ColorSpace::RGB);
    assert_eq!(out.strides, vec![3, 3, 3]);
    let red: Vec<f32> = [0u8, 17, 34, 51, 68, 85].iter().map(|b| *b as f32 / 255.0).collect();
    let green: Vec<f32> =
        [100u8, 117, 134, 151, 168, 185].iter().map(|b| *b as f32 / 255.0).collect();
    let blue: Vec<f32> =
        [255u8, 238, 221, 204, 187, 170].iter().map(|b| *b as f32 / 255.0).collect();
    assert_eq!(out.data, vec![red, green, blue]);
    assert_eq!(out.data[2][0], 1.0);
    assert_eq!(out.data[0][0], 0.0);
}

#[test]
fn decoded_image_is_placed_inside_the_padding_with_aligned_rows() {
    let out: Image<i64> = Image::from_dynamic_image(&picture(), 1, 4, &Fixed);
    assert_eq!(out.width, 3);
    assert_eq!(out.height, 2);
    assert_eq!(out.padding, 1);
    assert_eq!(out.alignment, 4);
    assert_eq!(out.strides, vec![8, 8, 8]);
    assert!(out.is_well_formed());
    let s = |b: i64| b * 65536 / 255;
    assert_eq!(
        out.data[0],
        vec![
            0, 0, 0, 0, 0, 0, 0, 0, //
            0, s(0), s(17), s(34), 0, 0, 0, 0, //
            0, s(51), s(68), s(85), 0, 0, 0, 0, //
            0, 0, 0, 0, 0, 0, 0, 0,
        ]
    );
    assert_eq!(out.data[1][9], s(100));
    assert_eq!(out.data[2][19], s(170));
}

#[test]
fn image_of_another_pixel_format_is_read_as_rgb() {
    let mut img = DynamicImage::new_rgba8(2, 1);
    img.put_pixel(0, 0, Rgba([10, 20, 30, 40]));
    img.put_pixel(1, 0, Rgba([50, 60, 70, 80]));
    let out: Image<i64> = Image::from_dynamic_image(&img, 0, 1, &Fixed);
    let s = |b: i64| b * 65536 / 255;
    assert_eq!(out.data, vec![vec![s(10), s(50)], vec![s(20), s(60)], vec![s(30), s(70)]]);
    let gray = DynamicImage::new_luma8(1, 1);
    let out: Image<i64> = Image::from_dynamic_image(&gray, 0, 1, &Fixed);
    assert_eq!(out.data.len(), 3);
    assert_eq!(out.data, vec![vec![0i64], vec![0], vec![0]]);
}

#[test]
fn empty_image_becomes_empty_planes() {
    let out: Image<f32> = Image::from_dynamic_image(&DynamicImage::new_rgb8(0, 0), 0, 1, &Floats);
    assert_eq!(out.width, 0);
    assert_eq!(out.height, 0);
    assert_eq!(out.data, vec![Vec::<f32>::new(); 3]);
    let back = out.to_dynamic_image(&Floats);
    assert_eq!(back.width(), 0);
    assert_eq!(back.height(), 0);
}

#[test]
fn samples_are_scaled_rounded_and_kept_in_range() {
    let img = Image {
        width: 4,
        height: 1,
        color_space: ColorSpace::RGB,
        data: vec![
            vec![0.0f32, 0.5, 1.0, 0.25],
            vec![-0.2f32, 1.7, 0.998, 0.002],
            vec![0.1f32, 0.9, 127.4 / 255.0, 127.6 / 255.0],
        ],
        strides: vec![4, 4, 4],
        padding: 0,
        alignment: 1,
    };
    let out = img.to_dynamic_image(&Floats);
    assert_eq!(out.width(), 4);
    assert_eq!(out.height(), 1);
    assert!(out.as_rgb8().is_some());
    assert_eq!(rgb(&out, 0, 0), [0, 0, 26]);
    assert_eq!(rgb(&out, 1, 0), [128, 255, 230]);
    assert_eq!(rgb(&out, 2, 0), [255, 254, 127]);
    assert_eq!(rgb(&out, 3, 0), [64, 1, 128]);
}

#[test]
fn encoded_image_holds_the_valid_region_row_by_row() {
    let one = 65536i64;
    let s = |b: i64| b * one / 255;
    let img = Image {
        width: 2,
        height: 2,
        color_space: ColorSpace::RGB,
        data: vec![
            vec![
                9, 9, 9, 9, 9, //
                9, s(1), s(2), 9, 9, //
                9, s(3), s(4), 9, 9, //
                9, 9, 9, 9, 9,
            ],
            vec![
                9, 9, 9, 9, //
                9, s(11), s(12), 9, //
                9, s(13), s(14), 9, //
                9, 9, 9, 9,
            ],
            vec![
                9, 9, 9, 9, //
                9, s(21), s(22), 9, //
                9, s(23), s(24), 9, //
                9, 9, 9, 9,
            ],
            vec![0; 16],
        ],
        strides: vec![5, 4, 4, 4],
        padding: 1,
        alignment: 1,
    };
    let out = img.to_dynamic_image(&Fixed);
    assert_eq!(out.width(), 2);
    assert_eq!(out.height(), 2);
    assert_eq!(rgb(&out, 0, 0), [1, 11, 21]);
    assert_eq!(rgb(&out, 1, 0), [2, 12, 22]);
    assert_eq!(rgb(&out, 0, 1), [3, 13, 23]);
    assert_eq!(rgb(&out, 1, 1), [4, 14, 24]);
    assert_eq!(out.to_rgb8().into_raw(), vec![1, 11, 21, 2, 12, 22, 3, 13, 23, 4, 14, 24]);
}

#[test]
fn buffer_of_luma_and_chroma_is_encoded_as_rgb_and_stays_as_it_is() {
    let neutral = 128.0f32 / 255.0;
    let img = Image {
        width: 3,
        height: 1,
        color_space: ColorSpace::I444,
        data: vec![vec![0.0f32, 0.5, 1.0], vec![neutral; 3], vec![neutral; 3]],
        strides: vec![3, 3, 3],
        padding: 0,
        alignment: 1,
    };
    let out = img.to_dynamic_image(&Floats);
    assert_eq!(rgb(&out, 0, 0), [0, 0, 0]);
    assert_eq!(rgb(&out, 1, 0), [128, 128, 128]);
    assert_eq!(rgb(&out, 2, 0), [255, 255, 255]);
    assert_eq!(img.color_space, ColorSpace::I444);
    assert_eq!(img.data[0], vec![0.0f32, 0.5, 1.0]);
    let mut red = Image {
        width: 1,
        height: 1,
        color_space: ColorSpace::RGB,
        data: vec![vec![1.0f32], vec![0.0], vec![0.0]],
        strides: vec![1, 1, 1],
        padding: 0,
        alignment: 1,
    };
    red.change_colorspace(ColorSpace::I444, &Floats);
    assert_eq!(rgb(&red.to_dynamic_image(&Floats), 0, 0), [255, 0, 0]);
}

fn all_levels() -> DynamicImage {
    let mut img = DynamicImage::new_rgb8(16, 16);
    for y in 0..16u32 {
        for x in 0..16u32 {
            let n = (y * 16 + x) as u8;
            img.put_pixel(x, y, Rgba([n, 255 - n, n.wrapping_mul(7), 255]));
        }
    }
    img
}

#[test]
fn every_level_survives_the_way_into_a_buffer_and_back() {
    let img = all_levels();
    let buffer: Image<f32> = Image::from_dynamic_image(&img, 0, 1, &Floats);
    let back = buffer.to_dynamic_image(&Floats);
    assert_eq!(back.width(), 16);
    assert_eq!(back.height(), 16);
    assert_eq!(back.to_rgb8().into_raw(), img.to_rgb8().into_raw());
    let fixed: Image<i64> = Image::from_dynamic_image(&img, 0, 1, &Fixed);
    assert_eq!(fixed.to_dynamic_image(&Fixed).to_rgb8().into_raw(), img.to_rgb8().into_raw());
}

#[test]
fn padding_and_alignment_leave_no_trace_on_the_way_back() {
    let img = all_levels();
    let buffer: Image<f32> = Image::from_dynamic_image(&img, 3, 16, &Floats);
    assert_eq!(buffer.strides, vec![32, 32, 32]);
    assert_eq!(buffer.data[0].len(), 32 * 22);
    let back = buffer.to_dynamic_image(&Floats);
    assert_eq!(back.to_rgb8().into_raw(), img.to_rgb8().into_raw());
}
