use subtitle_fast::gui::DetectionRunState;
use subtitle_fast::gui_text::{
    format_clock, format_time, format_time_range, format_timestamp, is_supported_video_path, supported_video_extensions_detail,
    task_status_text,
};

#[test]
fn play_times() {
    assert_eq!(format_time(0), "0:00");
    assert_eq!(format_time(65), "1:05");
    assert_eq!(format_time(3600), "60:00");
    assert_eq!(format_clock(65), "01:05");
    assert_eq!(format_clock(6000), "100:00");
}

#[test]
fn subtitle_time_stamps() {
    assert_eq!(format_timestamp(0), "0:00.000");
    assert_eq!(format_timestamp(123_004), "2:03.004");
    assert_eq!(format_timestamp(3_723_004), "1:02:03.004");
    assert_eq!(format_timestamp(36_000_000), "10:00:00.000");
}

#[test]
fn subtitle_time_ranges() {
    assert_eq!(format_time_range(1000, 2500), "00:00:01.000 - 00:00:02.500");
    assert_eq!(format_time_range(3_723_004, 3_725_999), "01:02:03.004 - 01:02:05.999");
}

#[test]
fn task_status() {
    assert_eq!(task_status_text(DetectionRunState::Idle, false), "Idle");
    assert_eq!(task_status_text(DetectionRunState::Running, false), "Processing");
    assert_eq!(task_status_text(DetectionRunState::Paused, false), "Paused");
    assert_eq!(task_status_text(DetectionRunState::Paused, true), "Done");
}

#[test]
fn video_extensions() {
    assert!(is_supported_video_path(Some("mp4")));
    assert!(is_supported_video_path(Some("MKV")));
    assert!(is_supported_video_path(Some("MpEg")));
    assert!(!is_supported_video_path(Some("txt")));
    assert!(!is_supported_video_path(Some("mp")));
    assert!(!is_supported_video_path(Some("")));
    assert!(!is_supported_video_path(None));
    assert_eq!(
        supported_video_extensions_detail(),
        "Supported formats: .mp4, .mov, .mkv, .webm, .avi, .m4v, .mpg, .mpeg, .ts"
    );
}
