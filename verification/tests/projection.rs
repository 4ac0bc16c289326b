use subtitle_fast::detector::{LumaBandConfig, SubtitleDetectionConfig, SubtitleDetectionError};
use subtitle_fast::grid::RoiRect;
use subtitle_fast::projection::{analyze_band, count_ones_row, find_candidates, ProjectionBandDetector, ProjectionCandidate};

fn band_mask() -> Vec<u8> {
    let mut mask = vec![0u8; 60 * 20];
    for y in 5..15 {
        for x in 10..50 {
            mask[y * 60 + x] = 1;
        }
    }
    mask
}

fn expected() -> ProjectionCandidate {
    ProjectionCandidate { x: 10, y: 5, width: 40, height: 10, ones: 800 }
}

#[test]
fn ones_are_counted_bit_by_bit() {
    assert_eq!(count_ones_row(&[1, 0, 3, 255]), 3);
    let mut row = vec![3u8; 16];
    row.push(3);
    assert_eq!(count_ones_row(&row), 33);
    assert_eq!(count_ones_row(&[]), 0);
}

#[test]
fn a_filled_band_is_one_candidate() {
    let mask = band_mask();
    let cands = analyze_band(&mask, 60, 20, 5, 15, 4, 4);
    assert_eq!(cands, vec![expected()]);
    assert!(analyze_band(&mask, 60, 20, 5, 7, 4, 4).is_empty());
    assert!(analyze_band(&mask, 60, 20, 0, 4, 4, 4).is_empty());
}

#[test]
fn dense_rows_form_bands() {
    let mask = band_mask();
    assert_eq!(find_candidates(&mask, 60, 20, 4, 4), vec![expected()]);
    assert!(find_candidates(&vec![0u8; 60 * 20], 60, 20, 4, 4).is_empty());
}

#[test]
fn projection_detector_reports_frame_candidates() {
    let config = SubtitleDetectionConfig {
        frame_width: 60,
        frame_height: 20,
        stride: 60,
        roi: RoiRect { x: 0, y: 0, width: 60, height: 20 },
        luma_band: LumaBandConfig { target_luma: 230, delta: 12 },
    };
    let detector = ProjectionBandDetector::new(config, 4, 4).expect("detector");
    let plane: Vec<u8> = band_mask().iter().map(|&v| if v == 1 { 235 } else { 0 }).collect();
    assert_eq!(detector.detect(&plane).expect("detect"), vec![expected()]);
    match detector.detect(&plane[..100]) {
        Err(SubtitleDetectionError::InsufficientData { data_len, required }) => assert_eq!((data_len, required), (100, 1200)),
        other => panic!("unexpected {other:?}"),
    }
    let empty = SubtitleDetectionConfig { roi: RoiRect { x: 0, y: 0, width: 0, height: 20 }, ..config };
    assert!(matches!(ProjectionBandDetector::new(empty, 4, 4), Err(SubtitleDetectionError::EmptyRoi)));
}
