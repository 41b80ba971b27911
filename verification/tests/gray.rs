use vc::error::ImageError;
use vc::gray::{pixel_luma, vc_convert_to_grayscale};
use vc::image::IVC;

fn rounded(r: u8, g: u8, b: u8) -> u8 {
    let gray = (r as f64 * 0.299) + (g as f64 * 0.587) + (b as f64 * 0.114);
    gray.round() as u8
}

fn colour(width: i32, height: i32, data: Vec<u8>) -> IVC {
    IVC { data, width, height, channels: 3, levels: 256, bytesperline: width * 3 }
}

#[test]
fn one_pixel_converts_by_the_weights() {
    let src = colour(1, 1, vec![10, 20, 30]);
    let dst = vc_convert_to_grayscale(&src).unwrap();
    assert_eq!(dst.data, vec![18]);
    assert_eq!(dst.width, 1);
    assert_eq!(dst.height, 1);
    assert_eq!(dst.channels, 1);
    assert_eq!(dst.levels, 256);
    assert_eq!(dst.bytesperline, 1);
}

#[test]
fn pure_colours_and_grays() {
    assert_eq!(pixel_luma(0, 0, 0), 0);
    assert_eq!(pixel_luma(255, 255, 255), 255);
    assert_eq!(pixel_luma(255, 0, 0), 76);
    assert_eq!(pixel_luma(0, 255, 0), 150);
    assert_eq!(pixel_luma(0, 0, 255), 29);
    assert_eq!(pixel_luma(128, 128, 128), 128);
    assert_eq!(pixel_luma(200, 100, 50), 124);
}

#[test]
fn halfway_sums_follow_the_rounded_arithmetic() {
    // The exact means are 22.5, 59.5 and 23.5; the rounded products sum to
    // just below.
    assert_eq!(pixel_luma(0, 36, 12), 22);
    assert_eq!(pixel_luma(0, 80, 110), 59);
    assert_eq!(pixel_luma(1, 37, 13), 23);
    // Here the sum is 28.5 exactly.
    assert_eq!(pixel_luma(0, 0, 250), 29);
    assert_eq!(pixel_luma(0, 4, 168), 22);
}

#[test]
fn luma_agrees_with_double_precision() {
    for r in (0..=255u8).step_by(5) {
        for g in 0..=255u8 {
            for b in 0..=255u8 {
                assert_eq!(pixel_luma(r, g, b), rounded(r, g, b), "{} {} {}", r, g, b);
            }
        }
    }
}

#[test]
fn luma_is_the_nearest_integer_to_the_mean() {
    for r in (0..=255u32).step_by(17) {
        for g in (0..=255u32).step_by(3) {
            for b in 0..=255u32 {
                let sum = 299 * r + 587 * g + 114 * b;
                let gray = pixel_luma(r as u8, g as u8, b as u8) as u32;
                if sum % 1000 != 500 {
                    assert_eq!(gray, (sum + 500) / 1000);
                } else {
                    assert!(gray == (sum + 500) / 1000 || gray + 1 == (sum + 500) / 1000);
                }
            }
        }
    }
}

#[test]
fn image_converts_pixel_by_pixel() {
    let data: Vec<u8> = (0..3 * 4 * 3).map(|i| (i * 37 % 256) as u8).collect();
    let src = colour(4, 3, data.clone());
    let dst = vc_convert_to_grayscale(&src).unwrap();
    assert_eq!(dst.width, 4);
    assert_eq!(dst.height, 3);
    assert_eq!(dst.bytesperline, 4);
    let expected: Vec<u8> =
        data.chunks(3).map(|p| rounded(p[0], p[1], p[2])).collect();
    assert_eq!(dst.data, expected);
}

#[test]
fn levels_carry_over() {
    let mut src = colour(1, 2, vec![1, 2, 3, 4, 5, 6]);
    src.levels = 2;
    let dst = vc_convert_to_grayscale(&src).unwrap();
    assert_eq!(dst.levels, 2);
    assert_eq!(dst.data, vec![2, 5]);
}

#[test]
fn samples_beyond_the_image_are_left_aside() {
    let src = colour(1, 1, vec![10, 20, 30, 40, 50, 60]);
    assert_eq!(vc_convert_to_grayscale(&src).unwrap().data, vec![18]);
}

#[test]
fn gray_source_is_refused() {
    let src = IVC::new(2, 2, 1, 256);
    assert_eq!(vc_convert_to_grayscale(&src), Err(ImageError::Precondition));
}

#[test]
fn short_buffer_is_an_underrun() {
    let src = colour(2, 2, vec![0; 11]);
    assert_eq!(vc_convert_to_grayscale(&src), Err(ImageError::BufferUnderrun));
    let src = colour(2, 2, vec![0; 12]);
    assert!(vc_convert_to_grayscale(&src).is_ok());
}

#[test]
fn inconsistent_header_is_refused() {
    let mut src = colour(2, 2, vec![0; 12]);
    src.bytesperline = 8;
    assert_eq!(vc_convert_to_grayscale(&src), Err(ImageError::Precondition));
    let src = colour(0, 2, vec![]);
    assert_eq!(vc_convert_to_grayscale(&src), Err(ImageError::Precondition));
    let src = colour(2, -1, vec![0; 12]);
    assert_eq!(vc_convert_to_grayscale(&src), Err(ImageError::Precondition));
    let mut src = colour(2, 2, vec![0; 12]);
    src.levels = 16;
    assert_eq!(vc_convert_to_grayscale(&src), Err(ImageError::Precondition));
    let src = colour(40000, 40000, vec![0; 12]);
    assert_eq!(vc_convert_to_grayscale(&src), Err(ImageError::Precondition));
}
