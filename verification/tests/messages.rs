use subtitle_fast::detector::{LumaBandConfig, LumaBandDetector, SubtitleDetectionConfig, SubtitleDetectionError};
use subtitle_fast::dump::{encode_annotated_frame, encode_luma_frame, WriteFrameError};
use subtitle_fast::frame::{DecoderError, VideoFrame};
use subtitle_fast::grid::RoiRect;
use subtitle_fast::gui::repack_packed_422;
use subtitle_fast::sink::{ImageOutputFormat, SubtitleDetectionError as SinkDetectionError};

#[test]
fn decoder_error_messages() {
    assert_eq!(DecoderError::unsupported("ffmpeg").message(), "backend ffmpeg is not supported in this build");
    assert_eq!(DecoderError::backend_failure("mft", "boom".to_string()).message(), "mft backend failed: boom");
    assert_eq!(DecoderError::configuration("bad".to_string()).message(), "configuration error: bad");
    assert_eq!(DecoderError::Io("disk full".to_string()).message(), "I/O error: disk full");
}

#[test]
fn short_planes_are_described() {
    match VideoFrame::from_nv12_owned(4, 2, 4, 4, None, vec![0u8; 3], vec![0u8; 4]) {
        Err(e) => {
            assert!(matches!(e, DecoderError::InvalidFrame { .. }));
            assert_eq!(e.message(), "invalid frame: insufficient NV12 Y plane bytes: got 3 expected at least 8");
        }
        Ok(_) => panic!("short plane accepted"),
    }
    match VideoFrame::from_nv12_owned(4, 3, 4, 4, None, vec![0u8; 12], vec![0u8; 7]) {
        Err(DecoderError::InvalidFrame { reason }) => {
            assert_eq!(reason, "insufficient NV12 UV plane bytes: got 7 expected at least 8")
        }
        _ => panic!("short plane accepted"),
    }
}

#[test]
fn narrow_strides_are_described() {
    match repack_packed_422(4, 1, 4, &[0u8; 8], "YUYV") {
        Err(e) => assert_eq!(e.0, "YUYV stride 4 is smaller than packed width 8"),
        Ok(_) => panic!("narrow stride accepted"),
    }
}

#[test]
fn detection_error_messages() {
    let e = SubtitleDetectionError::InsufficientData { data_len: 100, required: 230400 };
    assert_eq!(e.message(), "provided plane data length 100 is smaller than stride * height (230400)");
    assert_eq!(SubtitleDetectionError::EmptyRoi.message(), "region of interest height is zero");
    assert_eq!(
        SubtitleDetectionError::Unsupported { backend: "macos-vision" }.message(),
        "macos-vision detector is not supported on this platform"
    );
    assert_eq!(
        SubtitleDetectionError::RoiTooLarge { width: 20, height: 3 }.message(),
        "region of interest 20x3 is too large for the detector"
    );
    assert_eq!(SinkDetectionError::InvalidOutputShape.message(), "unexpected model output shape");
    assert_eq!(SinkDetectionError::ModelNotFound { path: "m.onnx".to_string() }.message(), "model file not found: m.onnx");
}

#[test]
fn frame_accessors() {
    let frame = VideoFrame::from_nv12_owned(2, 2, 2, 2, None, vec![1u8, 2, 3, 4], vec![5u8, 6]).expect("frame");
    assert_eq!(frame.y_plane(), &[1, 2, 3, 4]);
    assert_eq!(frame.uv_plane(), &[5, 6]);
    assert_eq!((frame.y_stride(), frame.uv_stride()), (2, 2));
    let frame = frame.with_frame_index(Some(9));
    assert_eq!(frame.frame_index(), Some(9));
}

#[test]
fn encoders_succeed_within_their_sizes() {
    let plane = vec![100u8; 4];
    for format in [ImageOutputFormat::Png, ImageOutputFormat::Jpeg { quality: 80 }, ImageOutputFormat::Webp] {
        assert!(matches!(encode_luma_frame(&plane, 2, 2, 2, format), Ok(Some(_))));
        assert!(matches!(encode_annotated_frame(&plane, 2, 2, 2, &[(0, 0, 1, 1)], format), Ok(Some(_))));
    }
    let wide = vec![0u8; 16385];
    assert!(matches!(encode_luma_frame(&wide, 16385, 1, 16385, ImageOutputFormat::Webp), Err(WriteFrameError::Encode(_))));
    assert!(matches!(encode_luma_frame(&wide, 16385, 1, 16385, ImageOutputFormat::Png), Ok(Some(_))));
    let wider = vec![0u8; 70000];
    assert!(matches!(encode_luma_frame(&wider, 70000, 1, 70000, ImageOutputFormat::Jpeg { quality: 50 }), Err(WriteFrameError::Encode(_))));
}

#[test]
fn narrow_strides_need_the_last_row() {
    // Rows 2 bytes apart but 4 pixels wide: the last row ends at byte 6.
    let short = [1u8, 2, 3, 4];
    match encode_luma_frame(&short, 4, 2, 2, ImageOutputFormat::Yuv) {
        Err(WriteFrameError::PlaneBounds { stride, width, height }) => assert_eq!((stride, width, height), (2, 4, 2)),
        _ => panic!("short plane accepted"),
    }
    let enough = [1u8, 2, 3, 4, 5, 6];
    match encode_luma_frame(&enough, 4, 2, 2, ImageOutputFormat::Yuv) {
        Ok(Some(f)) => assert_eq!(f.bytes, vec![1, 2, 3, 4, 3, 4, 5, 6]),
        _ => panic!("frame refused"),
    }
    assert!(matches!(encode_luma_frame(&[], 4, 0, 2, ImageOutputFormat::Png), Ok(None)));
}

fn config(frame_width: usize, frame_height: usize, stride: usize, roi: RoiRect) -> SubtitleDetectionConfig {
    SubtitleDetectionConfig { frame_width, frame_height, stride, roi, luma_band: LumaBandConfig { target_luma: 230, delta: 12 } }
}

#[test]
fn detector_cuts_its_region_to_the_frame() {
    let detector = LumaBandDetector::new(config(8, 4, 8, RoiRect { x: 4, y: 2, width: 100, height: 100 })).expect("detector");
    assert!(detector.detect(&[0u8; 32]).expect("detection").is_empty());
    assert!(matches!(
        LumaBandDetector::new(config(8, 4, 8, RoiRect { x: 9, y: 0, width: 5, height: 2 })),
        Err(SubtitleDetectionError::EmptyRoi)
    ));
}

#[test]
fn detector_accepts_every_region_inside_the_frame() {
    let wide = config(16_843_010, 1, 16_843_010, RoiRect { x: 0, y: 0, width: 16_843_010, height: 1 });
    let detector = LumaBandDetector::new(wide).expect("wide region");
    assert!(detector.detect(&vec![0u8; 16_843_010]).expect("detection").is_empty());
    let huge = config(70_000, 70_000, 70_000, RoiRect { x: 0, y: 0, width: 70_000, height: 70_000 });
    assert!(LumaBandDetector::new(huge).is_ok());
}

#[test]
fn detector_with_a_narrow_stride_needs_the_last_row() {
    let detector = LumaBandDetector::new(config(8, 2, 4, RoiRect { x: 0, y: 0, width: 8, height: 2 })).expect("detector");
    match detector.detect(&[0u8; 8]) {
        Err(SubtitleDetectionError::InsufficientData { data_len, required }) => assert_eq!((data_len, required), (8, 12)),
        _ => panic!("short plane accepted"),
    }
    assert!(detector.detect(&[0u8; 12]).is_ok());
}
