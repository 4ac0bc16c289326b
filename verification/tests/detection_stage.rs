use subtitle_fast::detection::{InitReport, SubtitleDetectionOptions, SubtitleDetectionState};
use subtitle_fast::detector::{LumaBandOptions, SubtitleDetectionError, SubtitleDetectorKind};
use subtitle_fast::frame::{frame_identifier, FrameTime, VideoFrame};
use subtitle_fast::grid::RoiRect;

fn frame_with_band() -> VideoFrame {
    let mut y = vec![16u8; 640 * 360];
    for row in 280..300 {
        for x in 200..400 {
            y[row * 640 + x] = 230;
        }
    }
    VideoFrame::from_nv12_owned(640, 360, 640, 640, None, y, vec![128u8; 640 * 180]).expect("frame")
}

fn options(kind: SubtitleDetectorKind, enabled: bool) -> SubtitleDetectionOptions {
    SubtitleDetectionOptions { enabled, detector: kind, luma_band: LumaBandOptions { target: 230, delta: 12 } }
}

const ROI: RoiRect = RoiRect { x: 32, y: 234, width: 576, height: 126 };

#[test]
fn stage_detects_and_keeps_its_detector() {
    let mut stage = SubtitleDetectionState::new(options(SubtitleDetectorKind::LumaBand, true));
    let frame = frame_with_band();
    let (first, report) = stage.process_frame(&frame, ROI);
    let regions = first.expect("detection");
    assert_eq!(report, InitReport::NoFailure);
    assert_eq!(regions.len(), 1);
    assert_eq!((regions[0].x, regions[0].y, regions[0].width, regions[0].height), (200, 280, 200, 20));
    let (second, report) = stage.process_frame(&frame, ROI);
    assert_eq!(report, InitReport::NoFailure);
    assert_eq!(second.expect("detection").len(), 1);
    // A new region of interest that misses the band rebuilds the detector.
    let (third, _) = stage.process_frame(&frame, RoiRect { x: 0, y: 0, width: 100, height: 100 });
    assert!(third.expect("detection").is_empty());
    stage.finalize();
}

#[test]
fn stage_reports_a_failed_build_once() {
    let mut stage = SubtitleDetectionState::new(options(SubtitleDetectorKind::MacVision, true));
    let frame = frame_with_band();
    let (first, report) = stage.process_frame(&frame, ROI);
    assert!(matches!(first, Err(SubtitleDetectionError::Unsupported { backend: "macos-vision" })));
    assert_eq!(report, InitReport::FirstFailure);
    let (second, report) = stage.process_frame(&frame, ROI);
    assert!(matches!(second, Err(SubtitleDetectionError::Unsupported { .. })));
    assert_eq!(report, InitReport::RepeatedFailure);
}

#[test]
fn stage_rejects_an_empty_region_then_recovers() {
    let mut stage = SubtitleDetectionState::new(options(SubtitleDetectorKind::Auto, true));
    let frame = frame_with_band();
    let (first, report) = stage.process_frame(&frame, RoiRect { x: 10, y: 10, width: 0, height: 5 });
    assert!(matches!(first, Err(SubtitleDetectionError::EmptyRoi)));
    assert_eq!(report, InitReport::FirstFailure);
    let (second, report) = stage.process_frame(&frame, ROI);
    assert_eq!(second.expect("detection").len(), 1);
    assert_eq!(report, InitReport::NoFailure);
    let (third, report) = stage.process_frame(&frame, RoiRect { x: 10, y: 10, width: 0, height: 5 });
    assert!(third.is_err());
    assert_eq!(report, InitReport::FirstFailure);
}

#[test]
fn disabled_stage_finds_nothing() {
    let mut stage = SubtitleDetectionState::new(options(SubtitleDetectorKind::LumaBand, false));
    let (result, report) = stage.process_frame(&frame_with_band(), ROI);
    assert!(result.expect("empty").is_empty());
    assert_eq!(report, InitReport::NoFailure);
}

#[test]
fn stage_on_a_dark_frame_finds_nothing() {
    let mut stage = SubtitleDetectionState::new(options(SubtitleDetectorKind::LumaBand, true));
    let frame = VideoFrame::from_nv12_owned(8, 4, 8, 8, None, vec![0u8; 32], vec![0u8; 16]).expect("frame");
    let (result, _) = stage.process_frame(&frame, RoiRect { x: 0, y: 0, width: 8, height: 4 });
    assert!(result.expect("detection").is_empty());
}

#[test]
fn frames_are_named_by_index_then_time() {
    let mut frame = VideoFrame::from_nv12_owned(2, 2, 2, 2, Some(FrameTime { secs: 3, nanos: 250_000_000 }), vec![0u8; 4], vec![0u8; 2])
        .expect("frame");
    assert_eq!(frame_identifier(&frame), 3250);
    frame.set_frame_index(Some(42));
    assert_eq!(frame_identifier(&frame), 42);
    let untimed = VideoFrame::from_nv12_owned(2, 2, 2, 2, None, vec![0u8; 4], vec![0u8; 2]).expect("frame");
    assert_eq!(frame_identifier(&untimed), 0);
}
