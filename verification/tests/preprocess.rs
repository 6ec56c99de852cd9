use monocr::tensor::{pad_to_tensor, TARGET_HEIGHT, TARGET_WIDTH};
use monocr::MonOcr;
use monocr::GrayImage;

fn recogniser() -> MonOcr {
    MonOcr::new("abc", 10, 3).unwrap()
}

fn uniform(width: u32, height: u32, value: u8) -> GrayImage {
    GrayImage::new(width, height, vec![value; (width * height) as usize]).unwrap()
}

/// The number that a sample stands for in the model's input.
fn normalised(sample: u8) -> f32 {
    sample as f32 / 127.5 - 1.0
}

#[test]
fn full_size_line_is_taken_as_it_is() {
    let ocr = recogniser();
    let white = ocr.preprocess(&uniform(1024, 64, 255)).unwrap();
    assert_eq!(white.samples.len(), 64 * 1024);
    assert!(white.samples.iter().all(|&v| v == 255));
    assert!((normalised(white.sample(0, 0)) - 1.0).abs() < 1e-6);

    let black = ocr.preprocess(&uniform(1024, 64, 0)).unwrap();
    assert_eq!(black.samples.len(), 64 * 1024);
    // no padding column: the last column is the line's own
    assert!(black.samples.iter().all(|&v| v == 0));
    assert!((normalised(black.sample(63, 1023)) + 1.0).abs() < 1e-6);

    // a line of the model's size is not resampled at all
    let mut pixels = Vec::new();
    for i in 0..(64 * 1024) {
        pixels.push((i % 251) as u8);
    }
    let line = GrayImage::new(1024, 64, pixels.clone()).unwrap();
    assert_eq!(ocr.preprocess(&line).unwrap().samples, pixels);
}

#[test]
fn narrow_line_is_padded_with_white() {
    let ocr = recogniser();
    let tensor = ocr.preprocess(&uniform(512, 64, 0)).unwrap();
    for r in [0u32, 31, 63] {
        assert_eq!(tensor.sample(r, 0), 0);
        assert_eq!(tensor.sample(r, 511), 0);
        assert_eq!(tensor.sample(r, 512), 255);
        assert_eq!(tensor.sample(r, 1023), 255);
    }
}

#[test]
fn width_follows_the_height() {
    let ocr = recogniser();
    // 10 columns at twice the target height become 5
    let tensor = ocr.preprocess(&uniform(10, 128, 0)).unwrap();
    assert_eq!(tensor.sample(0, 4), 0);
    assert_eq!(tensor.sample(0, 5), 255);
    // 10 columns at half the target height become 20
    let tensor = ocr.preprocess(&uniform(10, 32, 0)).unwrap();
    assert_eq!(tensor.sample(63, 19), 0);
    assert_eq!(tensor.sample(63, 20), 255);
    // 3 columns at twice the target height are 1.5 columns, rounded up to 2
    let tensor = ocr.preprocess(&uniform(3, 128, 0)).unwrap();
    assert_eq!(tensor.sample(0, 1), 0);
    assert_eq!(tensor.sample(0, 2), 255);
    // 1 column of 200 rows is 0.32 columns, rounded down to none
    let tensor = ocr.preprocess(&uniform(1, 200, 0)).unwrap();
    assert!(tensor.samples.iter().all(|&v| v == 255));
}

#[test]
fn long_line_is_squeezed_into_the_target_width() {
    let ocr = recogniser();
    let tensor = ocr.preprocess(&uniform(3000, 8, 0)).unwrap();
    assert_eq!(tensor.samples.len(), (TARGET_HEIGHT * TARGET_WIDTH) as usize);
    assert!(tensor.samples.iter().all(|&v| v == 0));
}

#[test]
fn line_is_resampled_not_copied() {
    let ocr = recogniser();
    // the upper half black, the lower half at 200: 8 by 128 becomes 4 by 64
    let mut pixels = vec![0u8; 8 * 64];
    pixels.extend(vec![200u8; 8 * 64]);
    let line = GrayImage::new(8, 128, pixels).unwrap();
    let tensor = ocr.preprocess(&line).unwrap();
    for c in 0..4 {
        assert_eq!(tensor.sample(10, c), 0);
        assert_eq!(tensor.sample(25, c), 0);
        assert_eq!(tensor.sample(40, c), 200);
        assert_eq!(tensor.sample(50, c), 200);
    }
    assert_eq!(tensor.sample(10, 4), 255);
    assert_eq!(tensor.sample(50, 4), 255);
}

#[test]
fn empty_line_gives_a_white_tensor() {
    let ocr = recogniser();
    let tensor = ocr.preprocess(&GrayImage::new(0, 0, Vec::new()).unwrap()).unwrap();
    assert_eq!(tensor.samples.len(), 64 * 1024);
    assert!(tensor.samples.iter().all(|&v| v == 255));
}

#[test]
fn padding_lays_rows_side_by_side_with_white() {
    let mut resized = Vec::new();
    for r in 0..64u32 {
        resized.push(r as u8);
        resized.push(100 + r as u8);
    }
    let tensor = pad_to_tensor(&resized, 2);
    assert_eq!(tensor.samples.len(), 64 * 1024);
    for r in 0..64u32 {
        assert_eq!(tensor.sample(r, 0), r as u8);
        assert_eq!(tensor.sample(r, 1), 100 + r as u8);
        assert_eq!(tensor.sample(r, 2), 255);
        assert_eq!(tensor.sample(r, 1023), 255);
    }
    let white = pad_to_tensor(&Vec::new(), 0);
    assert!(white.samples.iter().all(|&v| v == 255));
}

#[test]
fn samples_span_minus_one_to_one() {
    assert_eq!(normalised(255), 1.0);
    assert_eq!(normalised(0), -1.0);
}
