use subtitle_fast::cli::{parse_positive_u32, parse_u8_byte, CliSources};
use subtitle_fast::frame::{duration_millis, nv12_uv_rows, DecoderError, FrameTime, VideoFrame};
use subtitle_fast::gui::{
    blur_chroma, blur_luma, blur_nv12_plane, AnimatedPanelState, packed_422_width, repack_packed_422, tint_nv12_plane, DetectionRunState, Nv12FrameInfo,
};
use subtitle_fast::sink::{
    preflight_detection, FrameDumpConfig, FrameSinkConfig, ImageOutputFormat, SubtitleDetectionError,
    SubtitleDetectorKind,
};

#[test]
fn nv12_frames_are_cut_to_their_geometry() {
    let frame = VideoFrame::from_nv12_owned(4, 3, 4, 4, None, vec![7u8; 20], vec![9u8; 9]).expect("frame");
    assert_eq!(frame.data().len(), 12);
    assert_eq!(frame.nv12().uv_plane().len(), 8);
    assert_eq!(frame.nv12().y_stride(), 4);
    assert_eq!(frame.nv12().uv_stride(), 4);
    assert_eq!(frame.stride(), 4);
    assert_eq!((frame.width(), frame.height()), (4, 3));
    assert_eq!(frame.frame_index(), None);
}

#[test]
fn nv12_frames_need_enough_bytes() {
    let short_y = VideoFrame::from_nv12_owned(4, 3, 4, 4, None, vec![0u8; 11], vec![0u8; 8]);
    assert!(matches!(short_y, Err(DecoderError::InvalidFrame { .. })));
    let short_uv = VideoFrame::from_nv12_owned(4, 3, 4, 4, None, vec![0u8; 12], vec![0u8; 7]);
    assert!(matches!(short_uv, Err(DecoderError::InvalidFrame { .. })));
    let overflow = VideoFrame::from_nv12_owned(4, 3, usize::MAX, 4, None, vec![], vec![]);
    match overflow {
        Err(DecoderError::InvalidFrame { reason }) => {
            assert_eq!(reason, "calculated NV12 Y plane length overflowed")
        }
        other => panic!("unexpected {:?}", other.is_ok()),
    }
}

#[test]
fn frame_index_can_be_set() {
    let time = FrameTime { secs: 2, nanos: 500_000_000 };
    let mut frame = VideoFrame::from_nv12_owned(2, 2, 2, 2, Some(time), vec![0u8; 4], vec![0u8; 2]).expect("frame");
    frame.set_frame_index(Some(41));
    assert_eq!(frame.frame_index(), Some(41));
    assert_eq!(frame.timestamp(), Some(time));
}

#[test]
fn chroma_rows_round_up() {
    assert_eq!(nv12_uv_rows(0), 0);
    assert_eq!(nv12_uv_rows(1), 1);
    assert_eq!(nv12_uv_rows(1080), 540);
    assert_eq!(nv12_uv_rows(1081), 541);
    assert_eq!(nv12_uv_rows(u32::MAX), 2_147_483_648);
}

#[test]
fn millis_saturate() {
    assert_eq!(duration_millis(FrameTime { secs: 3, nanos: 250_999_999 }), 3250);
    assert_eq!(duration_millis(FrameTime { secs: u64::MAX, nanos: 0 }), u64::MAX);
}

#[test]
fn decoder_error_constructors() {
    assert!(matches!(DecoderError::unsupported("ffmpeg"), DecoderError::Unsupported { backend: "ffmpeg" }));
    match DecoderError::backend_failure("mft", "boom".to_string()) {
        DecoderError::BackendFailure { backend, message } => {
            assert_eq!(backend, "mft");
            assert_eq!(message, "boom");
        }
        _ => panic!("wrong variant"),
    }
    assert!(matches!(DecoderError::configuration("bad".to_string()), DecoderError::Configuration { .. }));
}

#[test]
fn sink_settings() {
    let dump = FrameDumpConfig::new("out".to_string(), ImageOutputFormat::Png, 0);
    assert_eq!(dump.samples_per_second, 1);
    let config = FrameSinkConfig::from_outputs(Some("frames".to_string()), ImageOutputFormat::Jpeg { quality: 90 }, 0);
    assert_eq!(config.detection.samples_per_second, 1);
    assert_eq!(config.channel_capacity, 64);
    assert_eq!(config.max_concurrency, 16);
    let dump = config.dump.expect("dump settings");
    assert_eq!(dump.directory, "frames");
    assert_eq!(dump.format, ImageOutputFormat::Jpeg { quality: 90 });
    let plain = FrameSinkConfig::from_outputs(None, ImageOutputFormat::Yuv, 12);
    assert!(plain.dump.is_none());
    assert_eq!(plain.detection.samples_per_second, 12);
    assert!(plain.detection.enabled);
}

#[test]
fn sink_detectors_are_not_built_in() {
    assert_eq!(SubtitleDetectorKind::OnnxPpocr.as_str(), "onnx-ppocr");
    match preflight_detection(SubtitleDetectorKind::Auto, None) {
        Err(SubtitleDetectionError::Unsupported { backend }) => assert_eq!(backend, "onnx-ppocr"),
        _ => panic!("expected unsupported"),
    }
    match preflight_detection(SubtitleDetectorKind::MacVision, Some("model.onnx")) {
        Err(SubtitleDetectionError::Unsupported { backend }) => assert_eq!(backend, "macos-vision"),
        _ => panic!("expected unsupported"),
    }
}

#[test]
fn byte_values_parse() {
    assert_eq!(parse_u8_byte("0"), Ok(0));
    assert_eq!(parse_u8_byte("+255"), Ok(255));
    assert_eq!(parse_u8_byte("256"), Err("'256' is not a valid 0-255 value".to_string()));
    assert_eq!(parse_u8_byte(""), Err("'' is not a valid 0-255 value".to_string()));
    assert_eq!(parse_u8_byte("-1"), Err("'-1' is not a valid 0-255 value".to_string()));
    assert_eq!(parse_u8_byte("+"), Err("'+' is not a valid 0-255 value".to_string()));
    assert_eq!(parse_u8_byte(" 1"), Err("' 1' is not a valid 0-255 value".to_string()));
}

#[test]
fn positive_counts_parse() {
    assert_eq!(parse_positive_u32("7"), Ok(7));
    assert_eq!(parse_positive_u32("4294967295"), Ok(u32::MAX));
    assert_eq!(parse_positive_u32("0"), Err("value must be at least 1".to_string()));
    assert_eq!(parse_positive_u32("4294967296"), Err("'4294967296' is not a valid number".to_string()));
    assert_eq!(parse_positive_u32("x"), Err("'x' is not a valid number".to_string()));
    let sources = CliSources::default();
    assert!(!sources.detection_sps_from_cli);
}

#[test]
fn run_states() {
    assert!(!DetectionRunState::Idle.is_running());
    assert!(DetectionRunState::Running.is_running());
    assert!(DetectionRunState::Paused.is_running());
    assert!(DetectionRunState::Paused.is_paused());
    assert!(!DetectionRunState::Running.is_paused());
}

#[test]
fn luma_blur_averages_neighbourhoods() {
    let info = Nv12FrameInfo { width: 3, height: 3, y_stride: 4, uv_stride: 4 };
    let mut plane = vec![90u8, 0, 0, 200, 0, 0, 0, 200, 0, 0, 0, 200];
    blur_luma(&mut plane, info);
    // Clamped edges count the corner sample several times; the padding
    // column past the width is left alone.
    assert_eq!(plane, vec![40, 20, 0, 200, 20, 10, 0, 200, 0, 0, 0, 200]);
}

#[test]
fn frame_blur_repeats_passes() {
    let info = Nv12FrameInfo { width: 3, height: 3, y_stride: 4, uv_stride: 4 };
    let mut y = vec![90u8, 0, 0, 200, 0, 0, 0, 200, 0, 0, 0, 200];
    let mut uv = vec![100u8, 50, 100, 50, 7];
    blur_nv12_plane(&mut y, &mut uv, info, 2);
    assert_eq!(y, vec![27, 16, 5, 200, 16, 10, 3, 200, 5, 3, 1, 200]);
    assert_eq!(uv, vec![100, 50, 100, 50, 7]);
    let mut once = vec![90u8, 0, 0, 200, 0, 0, 0, 200, 0, 0, 0, 200];
    let mut uv_once = vec![1u8, 2, 3, 4];
    blur_nv12_plane(&mut once, &mut uv_once, info, 0);
    assert_eq!(once, vec![90, 0, 0, 200, 0, 0, 0, 200, 0, 0, 0, 200]);
    assert_eq!(uv_once, vec![1, 2, 3, 4]);
}

#[test]
fn blur_skips_short_planes() {
    let info = Nv12FrameInfo { width: 3, height: 3, y_stride: 4, uv_stride: 4 };
    let mut plane = vec![9u8; 10];
    blur_luma(&mut plane, info);
    assert_eq!(plane, vec![9u8; 10]);
}

#[test]
fn chroma_blur_keeps_uniform_planes() {
    let info = Nv12FrameInfo { width: 4, height: 2, y_stride: 4, uv_stride: 4 };
    let mut plane = vec![100u8, 50, 100, 50, 7];
    blur_chroma(&mut plane, info);
    assert_eq!(plane, vec![100, 50, 100, 50, 7]);
}

#[test]
fn tint_darkens_and_neutralises() {
    let mut y = vec![255u8, 0, 100];
    let mut uv = vec![128u8, 128, 255, 0, 77];
    tint_nv12_plane(&mut y, &mut uv);
    assert_eq!(y, vec![165, 0, 64]);
    assert_eq!(uv, vec![134, 122, 235, 20, 77]);
}

#[test]
fn packed_rows() {
    assert_eq!(packed_422_width(3, "YUYV").ok(), Some(8));
    match packed_422_width(usize::MAX, "UYVY") {
        Err(e) => assert_eq!(e.0, "UYVY width overflow"),
        Ok(_) => panic!("expected overflow"),
    }
    let data: Vec<u8> = (0u8..24).collect();
    let (packed, stride) = repack_packed_422(2, 3, 8, &data, "YUYV").ok().expect("packed");
    assert_eq!(stride, 4);
    assert_eq!(packed, vec![0, 1, 2, 3, 8, 9, 10, 11, 16, 17, 18, 19]);
    match repack_packed_422(2, 4, 8, &data, "YUYV") {
        Err(e) => assert_eq!(e.0, "YUYV buffer too small"),
        Ok(_) => panic!("expected a short buffer"),
    }
    assert!(repack_packed_422(4, 1, 4, &data, "YUYV").is_err());
}

#[test]
fn side_panel_changes_are_counted() {
    let mut panel = AnimatedPanelState::new();
    assert!(panel.is_expanded());
    assert_eq!(panel.animation_id("left"), "left-false-0");
    panel.open();
    assert_eq!(panel.toggle_count, 0);
    panel.close();
    assert!(panel.is_collapsed());
    assert_eq!(panel.animation_id("left"), "left-true-1");
    panel.set_collapsed(true);
    assert_eq!(panel.toggle_count, 1);
    panel.toggle();
    panel.toggle();
    assert!(panel.is_collapsed());
    assert_eq!(panel.toggle_count, 3);
    let mut wrapped = AnimatedPanelState { is_collapsed: false, toggle_count: u32::MAX };
    wrapped.toggle();
    assert_eq!(wrapped, AnimatedPanelState { is_collapsed: true, toggle_count: 0 });
    assert_eq!(AnimatedPanelState::collapsed().animation_id(""), "-true-0");
}
