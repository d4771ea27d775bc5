use gamereader::capture::{resample_nearest, stack_frames, CaptureError, CaptureRegion, Frame};

#[test]
fn test_capture_region_new() {
    let region = CaptureRegion::new(100, 200, 800, 600);
    assert_eq!(region.left, 100);
    assert_eq!(region.top, 200);
    assert_eq!(region.width, 800);
    assert_eq!(region.height, 600);
}

#[test]
fn test_capture_region_is_valid() {
    assert!(CaptureRegion::new(0, 0, 100, 100).is_valid());
    assert!(CaptureRegion::new(100, 100, 1, 1).is_valid());
    assert!(!CaptureRegion::new(0, 0, 0, 100).is_valid());
    assert!(!CaptureRegion::new(0, 0, 100, 0).is_valid());
    assert!(!CaptureRegion::new(0, 0, 0, 0).is_valid());
}

#[test]
fn test_capture_region_area() {
    assert_eq!(CaptureRegion::new(0, 0, 10, 10).area(), 100);
    assert_eq!(CaptureRegion::new(50, 50, 100, 200).area(), 20000);
    assert_eq!(CaptureRegion::new(0, 0, 0, 0).area(), 0);
}

#[test]
fn test_frame_new() {
    let frame = Frame::new(100, 100, 400);
    assert_eq!(frame.width, 100);
    assert_eq!(frame.height, 100);
    assert_eq!(frame.stride, 400);
    assert_eq!(frame.bgra.len(), 40000);
}

#[test]
fn test_frame_from_data_valid() {
    let width: u32 = 10;
    let height: u32 = 10;
    let stride: usize = 40;
    let data = vec![0u8; stride * height as usize];

    let frame = Frame::from_data(width, height, stride, data).unwrap();
    assert_eq!(frame.width, width);
    assert_eq!(frame.height, height);
    assert_eq!(frame.stride, stride);
    assert_eq!(frame.bgra.len(), stride * height as usize);
}

#[test]
fn test_frame_from_data_invalid_size() {
    let width = 10;
    let height = 10;
    let stride = 40;
    let data = vec![0u8; 100];

    let result = Frame::from_data(width, height, stride, data);
    assert!(matches!(result, Err(CaptureError::InvalidFrameSize { .. })));
}

#[test]
fn test_frame_validate_correct() {
    let frame = Frame::new(100, 100, 400);
    assert!(frame.validate().is_ok());
}

#[test]
fn test_frame_validate_invalid_stride() {
    let mut frame = Frame::new(100, 100, 400);
    frame.stride = 300;

    let result = frame.validate();
    assert!(matches!(result, Err(CaptureError::InvalidStride { .. })));
}

#[test]
fn test_frame_validate_invalid_buffer_size() {
    let mut frame = Frame::new(100, 100, 400);
    frame.bgra.truncate(1000);

    let result = frame.validate();
    assert!(matches!(result, Err(CaptureError::InvalidFrameSize { .. })));
}

#[test]
fn test_frame_row() {
    let width: u32 = 2;
    let height: u32 = 3;
    let stride: usize = 8;
    let mut data = vec![0u8; stride * height as usize];

    data[0] = 0;
    data[1] = 0;
    data[2] = 255;
    data[3] = 255;

    data[8] = 0;
    data[9] = 255;
    data[10] = 0;
    data[11] = 255;

    let frame = Frame::from_data(width, height, stride, data).unwrap();

    let row0 = frame.row(0);
    assert_eq!(row0.len(), 8);
    assert_eq!(row0[0..4], [0, 0, 255, 255]);

    let row1 = frame.row(1);
    assert_eq!(row1[0..4], [0, 255, 0, 255]);
}

#[test]
fn test_frame_pixel_count() {
    let frame = Frame::new(100, 50, 400);
    assert_eq!(frame.pixel_count(), 5000);
}

#[test]
fn test_property_frame_buffer_size_invariant() {
    let test_cases = vec![
        (10, 10, 40),
        (100, 100, 400),
        (1920, 1080, 7680),
        (640, 480, 2560),
        (1, 1, 4),
    ];

    for (width, height, stride) in test_cases {
        let frame = Frame::new(width, height, stride);
        assert_eq!(
            frame.bgra.len(),
            stride * height as usize,
            "Frame buffer size must equal stride * height for {}x{} stride {}",
            width,
            height,
            stride
        );
        assert!(frame.validate().is_ok());
    }
}

#[test]
fn frame_validate_reports_expected_sizes() {
    let mut frame = Frame::new(2, 2, 8);
    frame.bgra.truncate(5);
    match frame.validate() {
        Err(CaptureError::InvalidFrameSize { expected, actual }) => {
            assert_eq!(expected, 16);
            assert_eq!(actual, 5);
        }
        other => panic!("unexpected {:?}", other),
    }
    let mut frame = Frame::new(3, 1, 12);
    frame.stride = 11;
    match frame.validate() {
        Err(CaptureError::InvalidStride { width, stride, min_stride }) => {
            assert_eq!((width, stride, min_stride), (3, 11, 12));
        }
        other => panic!("unexpected {:?}", other),
    }
}

fn solid(width: u32, height: u32, px: [u8; 4]) -> Frame {
    let stride = width as usize * 4;
    let mut data = Vec::new();
    for _ in 0..(width * height) {
        data.extend_from_slice(&px);
    }
    Frame::from_data(width, height, stride, data).unwrap()
}

#[test]
fn stack_frames_places_both_regions_with_black_gap() {
    let top = solid(2, 1, [1, 2, 3, 4]);
    let bottom = solid(3, 2, [9, 8, 7, 6]);
    let stacked = stack_frames(&top, &bottom, 2);
    assert_eq!(stacked.width, 3);
    assert_eq!(stacked.height, 5);
    assert_eq!(stacked.stride, 12);
    assert_eq!(stacked.bgra.len(), 60);
    // Row 0: two top pixels, then a black pixel.
    assert_eq!(&stacked.bgra[0..8], &[1, 2, 3, 4, 1, 2, 3, 4]);
    assert_eq!(&stacked.bgra[8..12], &[0, 0, 0, 0]);
    // Rows 1 and 2: the gap.
    assert!(stacked.bgra[12..36].iter().all(|&b| b == 0));
    // Rows 3 and 4: the bottom frame.
    assert_eq!(&stacked.bgra[36..48], &[9, 8, 7, 6, 9, 8, 7, 6, 9, 8, 7, 6]);
    assert_eq!(&stacked.bgra[48..60], &[9, 8, 7, 6, 9, 8, 7, 6, 9, 8, 7, 6]);
    assert!(stacked.validate().is_ok());
}

#[test]
fn resample_nearest_scales_up_and_sets_alpha() {
    // 2x1 source: pixel A then pixel B.
    let src = vec![10, 20, 30, 0, 40, 50, 60, 0];
    let out = resample_nearest(&src, 2, 0, 0, 2, 1, 4, 2);
    assert_eq!(out.len(), 4 * 4 * 2);
    let a = [10, 20, 30, 255];
    let b = [40, 50, 60, 255];
    for row in 0..2 {
        let base = row * 16;
        assert_eq!(&out[base..base + 4], &a);
        assert_eq!(&out[base + 4..base + 8], &a);
        assert_eq!(&out[base + 8..base + 12], &b);
        assert_eq!(&out[base + 12..base + 16], &b);
    }
}

#[test]
fn resample_nearest_reads_the_crop_offset() {
    // 3x2 source, crop the single pixel at (2, 1).
    let mut src = vec![0u8; 3 * 4 * 2];
    let o = 1 * 12 + 2 * 4;
    src[o] = 7;
    src[o + 1] = 8;
    src[o + 2] = 9;
    let out = resample_nearest(&src, 3, 2, 1, 1, 1, 1, 1);
    assert_eq!(out, vec![7, 8, 9, 255]);
}

fn geometry(enabled: bool) -> gamereader::region::CaptureGeometry {
    gamereader::region::CaptureGeometry {
        monitor: gamereader::region::MonitorRect { top: 900, left: 375, width: 1170, height: 120 },
        monitor2_enabled: enabled,
        monitor2_top: 100,
        monitor2_left: -5,
        monitor2_width: 300,
        monitor2_height: 50,
    }
}

#[test]
fn capture_plan_reads_both_regions_when_the_second_is_on() {
    let active = gamereader::region::MonitorRect { top: 1, left: 2, width: 3, height: 4 };
    let both = gamereader::capture::capture_regions(&geometry(true), &active);
    assert_eq!(both, vec![CaptureRegion::new(375, 900, 1170, 120), CaptureRegion::new(-5i32 as u32, 100, 300, 50)]);
    let one = gamereader::capture::capture_regions(&geometry(false), &active);
    assert_eq!(one, vec![CaptureRegion::new(2, 1, 3, 4)]);
}

#[test]
fn combined_grab_stacks_with_a_tall_gap_or_falls_back() {
    let f1 = Frame::from_data(1, 2, 4, vec![1; 8]).unwrap();
    let f2 = Frame::from_data(2, 1, 8, vec![2; 8]).unwrap();
    let (stacked, region) = gamereader::capture::combine_grabs(f1.clone(), CaptureRegion::new(5, 6, 1, 2), Ok(f2));
    // gap = max(2, 1, 40) = 40 rows
    assert_eq!((stacked.width, stacked.height, stacked.stride), (2, 43, 8));
    assert_eq!(region, CaptureRegion::new(0, 0, 2, 43));
    assert_eq!(&stacked.bgra[0..8], &[1, 1, 1, 1, 0, 0, 0, 0]);
    assert!(stacked.bgra[16..42 * 8].iter().all(|&b| b == 0));
    assert_eq!(&stacked.bgra[42 * 8..43 * 8], &[2; 8]);

    let (alone, region1) =
        gamereader::capture::combine_grabs(f1, CaptureRegion::new(5, 6, 1, 2), Err(CaptureError::DeviceLost));
    assert_eq!((alone.width, alone.height, alone.bgra.clone()), (1, 2, vec![1; 8]));
    assert_eq!(region1, CaptureRegion::new(5, 6, 1, 2));
}
