use gamereader::capture::Frame;
use gamereader::ocr::{ImageBuffer, OcrError};
use gamereader::preprocessing::Preprocessor;

#[test]
fn test_image_buffer_new() {
    let width = 10;
    let height = 5;
    let data = vec![0u8; (width * height * 3) as usize];
    let buffer = ImageBuffer::new(width, height, data.clone());

    assert_eq!(buffer.width, width);
    assert_eq!(buffer.height, height);
    assert_eq!(buffer.data.len(), (width * height * 3) as usize);
}

#[test]
fn test_image_buffer_expected_len() {
    assert_eq!(ImageBuffer::expected_len(10, 5), 150);
    assert_eq!(ImageBuffer::expected_len(640, 480), 921600);
}

#[test]
fn test_ocr_error_display() {
    let err = OcrError::ModelNotFound("test.mnn".to_string());
    assert_eq!(err.to_string(), "Model file not found: test.mnn");

    let err = OcrError::InvalidImageBuffer("empty data".to_string());
    assert_eq!(err.to_string(), "Invalid image buffer: empty data");
}

#[test]
fn ocr_error_messages_of_every_variant() {
    assert_eq!(OcrError::InitializationFailed("x".to_string()).to_string(), "Failed to initialize OCR engine: x");
    assert_eq!(OcrError::InferenceFailed("y".to_string()).to_string(), "OCR inference failed: y");
    assert_eq!(OcrError::IoError("z".to_string()).to_string(), "I/O error: z");
    assert_eq!(OcrError::Other("w".to_string()).to_string(), "OCR error: w");
}

#[test]
fn test_extract_max_channel() {
    let prep = Preprocessor::new();

    let bgra = vec![
        100, 50, 200, 255,
        50, 150, 50, 255,
        200, 100, 100, 255,
    ];

    let max_ch = prep.extract_max_channel(&bgra, 3, 1);

    assert_eq!(max_ch[0], 200);
    assert_eq!(max_ch[1], 150);
    assert_eq!(max_ch[2], 200);
}

#[test]
fn test_apply_erosion() {
    let prep = Preprocessor::new();

    let mut img = vec![0u8; 25];
    img[12] = 255;

    let eroded = prep.apply_erosion(&img, 5, 5);

    assert!(eroded[12] < 255);
}

#[test]
fn test_apply_sharpening() {
    let prep = Preprocessor::new();

    let mut img = vec![0u8; 25];
    for i in 0..25 {
        img[i] = (i * 10) as u8;
    }

    let sharpened = prep.apply_sharpening(&img, 5, 5);

    assert_eq!(sharpened.len(), 25);

    assert_eq!(sharpened[0], img[0]);
    assert_eq!(sharpened[4], img[4]);
    assert_eq!(sharpened[20], img[20]);
    assert_eq!(sharpened[24], img[24]);
}

#[test]
fn erosion_takes_cross_minimum_and_keeps_border() {
    let prep = Preprocessor::new();
    // 3x3 with distinct values; only the center is inner.
    let img = vec![9, 4, 9, 3, 7, 6, 9, 5, 9];
    let out = prep.apply_erosion(&img, 3, 3);
    assert_eq!(out, vec![9, 4, 9, 3, 3, 6, 9, 5, 9]);
}

#[test]
fn sharpening_clamps_to_byte_range() {
    let prep = Preprocessor::new();
    // Center 100 with neighbours 0 -> 500 clamps to 255.
    let img = vec![0, 0, 0, 0, 100, 0, 0, 0, 0];
    assert_eq!(prep.apply_sharpening(&img, 3, 3)[4], 255);
    // Center 0 with neighbours 50 -> -200 clamps to 0.
    let img = vec![50, 50, 50, 50, 0, 50, 50, 50, 50];
    assert_eq!(prep.apply_sharpening(&img, 3, 3)[4], 0);
    // Center 60, neighbours 10, 20, 30, 40 -> 300 - 100 = 200.
    let img = vec![0, 10, 0, 20, 60, 30, 0, 40, 0];
    assert_eq!(prep.apply_sharpening(&img, 3, 3)[4], 200);
}

#[test]
fn outline_mode_switch() {
    assert!(Preprocessor::new().outline_mode());
    assert!(!Preprocessor::new().with_outline_mode(false).outline_mode());
    assert!(Preprocessor::new().with_outline_mode(false).with_outline_mode(true).outline_mode());
}

#[test]
fn frame_to_bgr_drops_alpha_and_padding() {
    // 2x2 frame with a stride of 12 (4 bytes of padding per row).
    let data = vec![
        1, 2, 3, 4, 5, 6, 7, 8, 0, 0, 0, 0,
        9, 10, 11, 12, 13, 14, 15, 16, 0, 0, 0, 0,
    ];
    let frame = Frame::from_data(2, 2, 12, data).unwrap();
    let prep = Preprocessor::new().with_outline_mode(false);
    let img = prep.frame_to_bgr(&frame);
    assert_eq!(img.width, 2);
    assert_eq!(img.height, 2);
    assert_eq!(img.data, vec![1, 2, 3, 5, 6, 7, 9, 10, 11, 13, 14, 15]);
}

#[test]
fn frame_to_bgr_keeps_full_size() {
    let frame = Frame::new(100, 100, 400);
    let img = Preprocessor::new().frame_to_bgr(&frame);
    assert_eq!(img.width, 100);
    assert_eq!(img.height, 100);
    assert_eq!(img.data.len(), 100 * 100 * 3);
}
