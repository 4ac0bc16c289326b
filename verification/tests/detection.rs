use subtitle_fast::bands::{row_projection_candidates, RectCandidate};
use subtitle_fast::bridge::{dp_bridge_horizontal, dp_bridge_vertical, gap_bridge_horizontal, gap_bridge_vertical};
use subtitle_fast::components::{connected_components, rle_component_candidates};
use subtitle_fast::detector::{
    bridge_mask, build_detector, ensure_backend_available, preflight_detection, required_len, roi_from_edges, LumaBandConfig, LumaBandDetector,
    LumaBandOptions, SubtitleDetectionConfig, SubtitleDetectionError, SubtitleDetectorKind,
};
use subtitle_fast::dsu::{DisjointSet, RunDsu};
use subtitle_fast::grid::RoiRect;
use subtitle_fast::integral::build_integral;
use subtitle_fast::mask::{mask_population, threshold_mask_rect};
use subtitle_fast::merge::sort_rects;

fn probe_config() -> SubtitleDetectionConfig {
    SubtitleDetectionConfig {
        frame_width: 640,
        frame_height: 360,
        stride: 640,
        roi: RoiRect { x: 32, y: 234, width: 576, height: 126 },
        luma_band: LumaBandConfig { target_luma: 230, delta: 12 },
    }
}

fn plane_with_band(x0: usize, x1: usize, y0: usize, y1: usize) -> Vec<u8> {
    let mut plane = vec![16u8; 640 * 360];
    for y in y0..y1 {
        for x in x0..x1 {
            plane[y * 640 + x] = 230;
        }
    }
    plane
}

#[test]
fn detector_finds_a_bright_band() {
    let detector = LumaBandDetector::new(probe_config()).expect("detector");
    let plane = plane_with_band(200, 400, 280, 300);
    let regions = detector.detect(&plane).expect("detection");
    assert_eq!(regions.len(), 1);
    let region = &regions[0];
    assert_eq!((region.x, region.y, region.width, region.height), (200, 280, 200, 20));
    assert_eq!(region.measure.hits, 4000);
    assert_eq!(region.measure.area, 4000);
    assert_eq!(region.measure.blocks, vec![250u32; 16]);
}

#[test]
fn detector_rejects_short_planes() {
    let detector = LumaBandDetector::new(probe_config()).expect("detector");
    let plane = vec![0u8; 100];
    match detector.detect(&plane) {
        Err(SubtitleDetectionError::InsufficientData { data_len, required }) => {
            assert_eq!(data_len, 100);
            assert_eq!(required, 640 * 360);
        }
        other => panic!("unexpected {:?}", other),
    }
}

#[test]
fn detector_skips_dark_frames() {
    let detector = LumaBandDetector::new(probe_config()).expect("detector");
    let plane = vec![16u8; 640 * 360];
    let regions = detector.detect(&plane).expect("detection");
    assert!(regions.is_empty());
}

#[test]
fn detector_rejects_square_blobs() {
    let detector = LumaBandDetector::new(probe_config()).expect("detector");
    // 40 by 40 pixels: too square to be a line of text.
    let plane = plane_with_band(300, 340, 280, 320);
    let regions = detector.detect(&plane).expect("detection");
    assert!(regions.is_empty());
}

#[test]
fn empty_roi_is_refused() {
    let mut config = probe_config();
    config.roi.height = 0;
    assert!(matches!(LumaBandDetector::new(config), Err(SubtitleDetectionError::EmptyRoi)));
    assert!(matches!(LumaBandDetector::ensure_available(&config), Err(SubtitleDetectionError::EmptyRoi)));
}

#[test]
fn plane_size_overflow_is_refused() {
    let mut config = probe_config();
    config.stride = usize::MAX;
    match required_len(&config) {
        Err(SubtitleDetectionError::InsufficientData { data_len, required }) => {
            assert_eq!(data_len, 0);
            assert_eq!(required, usize::MAX);
        }
        other => panic!("unexpected {:?}", other),
    }
    assert_eq!(required_len(&probe_config()).ok(), Some(640 * 360));
}

#[test]
fn backend_availability() {
    let config = probe_config();
    assert!(ensure_backend_available(SubtitleDetectorKind::Auto, &config).is_ok());
    assert!(ensure_backend_available(SubtitleDetectorKind::LumaBand, &config).is_ok());
    match ensure_backend_available(SubtitleDetectorKind::MacVision, &config) {
        Err(SubtitleDetectionError::Unsupported { backend }) => assert_eq!(backend, "macos-vision"),
        other => panic!("unexpected {:?}", other),
    }
    assert!(preflight_detection(SubtitleDetectorKind::Auto, &config).is_ok());
    assert!(preflight_detection(SubtitleDetectorKind::LumaBand, &config).is_ok());
    assert!(preflight_detection(SubtitleDetectorKind::MacVision, &config).is_err());
    let mut empty = config;
    empty.roi.width = 0;
    assert!(matches!(preflight_detection(SubtitleDetectorKind::Auto, &empty), Err(SubtitleDetectionError::EmptyRoi)));
    assert!(build_detector(SubtitleDetectorKind::Auto, config).is_ok());
    assert!(build_detector(SubtitleDetectorKind::MacVision, config).is_err());
}

#[test]
fn detector_kind_names() {
    assert_eq!(SubtitleDetectorKind::Auto.as_str(), "auto");
    assert_eq!(SubtitleDetectorKind::MacVision.as_str(), "macos-vision");
    assert_eq!(SubtitleDetectorKind::LumaBand.as_str(), "luma");
    let options = LumaBandOptions::default();
    assert_eq!((options.target, options.delta), (230, 12));
}

#[test]
fn threshold_mask_marks_the_band() {
    let data = vec![10u8, 220, 230, 242, 243, 0, 231, 5];
    let roi = RoiRect { x: 1, y: 0, width: 3, height: 2 };
    let mask = threshold_mask_rect(&data, 4, roi, 218, 242);
    assert_eq!(mask, vec![1, 1, 1, 0, 1, 0]);
    assert_eq!(mask_population(&mask), 4);
}

#[test]
fn horizontal_bridging_fills_short_gaps() {
    let mut mask = vec![1u8, 0, 0, 1, 0, 0, 0, 0, 1, 1];
    // Distances on both sides, each counting the pixel itself, add up to
    // 3 in the short gap and to more in the long one.
    dp_bridge_horizontal(&mut mask, 10, 1, 2);
    assert_eq!(mask, vec![1, 0, 0, 1, 0, 0, 0, 0, 1, 1]);
    dp_bridge_horizontal(&mut mask, 10, 1, 3);
    assert_eq!(mask, vec![1, 1, 1, 1, 0, 0, 0, 0, 1, 1]);
}

#[test]
fn vertical_bridging_fills_short_gaps() {
    let mut mask = vec![1u8, 0, 0, 0, 1, 0, 0, 0, 0, 0];
    dp_bridge_vertical(&mut mask, 1, 10, 4);
    assert_eq!(mask, vec![1, 1, 1, 1, 1, 0, 0, 0, 0, 0]);
}

#[test]
fn span_filling_needs_band_on_both_sides() {
    let mut row = vec![0u8, 1, 0, 0, 1, 0, 0];
    gap_bridge_horizontal(&mut row, 7, 1, 2);
    assert_eq!(row, vec![0, 1, 1, 1, 1, 0, 0]);
    let mut column = vec![1u8, 0, 0, 0, 1];
    gap_bridge_vertical(&mut column, 1, 5, 2);
    assert_eq!(column, vec![1, 0, 0, 0, 1]);
    gap_bridge_vertical(&mut column, 1, 5, 3);
    assert_eq!(column, vec![1, 1, 1, 1, 1]);
}

#[test]
fn row_projection_pads_thin_bands() {
    let width = 10;
    let height = 20;
    let mut mask = vec![0u8; width * height];
    for x in 2..8 {
        mask[5 * width + x] = 1;
    }
    let rects = row_projection_candidates(&mask, width, height);
    assert_eq!(rects, vec![RectCandidate { x: 2, y: 0, width: 6, height: 12 }]);
}

#[test]
fn components_join_diagonal_runs() {
    // Two runs touching at a corner form one component.
    let mask = vec![1u8, 1, 0, 0, 0, 0, 1, 1];
    let rects = rle_component_candidates(&mask, 4, 2);
    assert_eq!(rects, vec![RectCandidate { x: 0, y: 0, width: 4, height: 2 }]);
}

#[test]
fn four_connected_components_are_separate_at_corners() {
    let mask = vec![1u8, 1, 0, 0, 0, 0, 1, 1];
    let comps = connected_components(&mask, 4, 2);
    assert_eq!(comps.len(), 2);
    let total: usize = comps.iter().map(|c| c.area).sum();
    assert_eq!(total, 4);
    let mask = vec![1u8, 1, 0, 0, 0, 1, 1, 0];
    let comps = connected_components(&mask, 4, 2);
    assert_eq!(comps.len(), 1);
    assert_eq!((comps[0].area, comps[0].min_x, comps[0].max_x, comps[0].min_y, comps[0].max_y), (4, 0, 2, 0, 1));
}

#[test]
fn union_find_merges_sets() {
    let mut dsu = RunDsu::new(5);
    dsu.union(0, 1);
    dsu.union(3, 4);
    assert_eq!(dsu.find(0), dsu.find(1));
    assert_eq!(dsu.find(3), dsu.find(4));
    assert_ne!(dsu.find(1), dsu.find(3));
    assert_eq!(dsu.find(2), 2);
    dsu.union(1, 4);
    assert_eq!(dsu.find(0), dsu.find(3));
    let mut labels = DisjointSet::new();
    let a = labels.make_set();
    let b = labels.make_set();
    assert_eq!((a, b), (1, 2));
    labels.union(a, b);
    assert_eq!(labels.find(a), labels.find(b));
    assert_eq!(labels.len(), 3);
}

#[test]
fn union_by_rank_keeps_the_first_root_on_a_tie() {
    let mut dsu = RunDsu::new(4);
    dsu.union(1, 0);
    assert_eq!(dsu.find(0), 1);
    dsu.union(2, 3);
    assert_eq!(dsu.find(3), 2);
    dsu.union(0, 2);
    assert_eq!(dsu.find(3), 1);
    let mut dsu = RunDsu::new(3);
    dsu.union(0, 1);
    dsu.union(2, 0);
    assert_eq!(dsu.find(2), 0);
    assert_eq!(dsu.find(1), 0);
}

#[test]
fn components_come_in_the_order_of_their_representatives() {
    // The run below the first one joins it and, on the tie, its label
    // becomes the representative, after that of the run on the right.
    let mask = vec![1u8, 0, 1, 1, 0, 0];
    let comps = connected_components(&mask, 3, 2);
    let boxes: Vec<_> = comps.iter().map(|c| (c.area, c.min_x, c.max_x, c.min_y, c.max_y)).collect();
    assert_eq!(boxes, vec![(1, 2, 2, 0, 0), (2, 0, 0, 0, 1)]);
}

#[test]
fn integral_image_counts_boxes() {
    let mask = vec![1u8, 0, 1, 1, 1, 0];
    let integral = build_integral(&mask, 3, 2);
    assert_eq!(integral, vec![0, 0, 0, 0, 0, 1, 1, 2, 0, 2, 3, 4]);
}

#[test]
fn sorting_is_stable() {
    let rects = vec![
        RectCandidate { x: 5, y: 1, width: 1, height: 1 },
        RectCandidate { x: 2, y: 2, width: 1, height: 1 },
        RectCandidate { x: 5, y: 0, width: 1, height: 1 },
        RectCandidate { x: 1, y: 3, width: 1, height: 1 },
    ];
    let by_x = sort_rects(&rects, true);
    assert_eq!(by_x.iter().map(|r| (r.x, r.y)).collect::<Vec<_>>(), vec![(1, 3), (2, 2), (5, 1), (5, 0)]);
    let by_y = sort_rects(&rects, false);
    assert_eq!(by_y.iter().map(|r| r.y).collect::<Vec<_>>(), vec![0, 1, 2, 3]);
}

#[test]
fn roi_edges_are_clamped_to_the_frame() {
    assert_eq!(roi_from_edges(32, 234, 608, 360, 640, 360).unwrap(), RoiRect { x: 32, y: 234, width: 576, height: 126 });
    assert_eq!(roi_from_edges(-5, -5, 10, 10, 640, 360).unwrap(), RoiRect { x: 0, y: 0, width: 10, height: 10 });
    assert_eq!(roi_from_edges(600, 300, 900, 500, 640, 360).unwrap(), RoiRect { x: 600, y: 300, width: 40, height: 60 });
    assert!(matches!(roi_from_edges(700, 0, 800, 10, 640, 360), Err(SubtitleDetectionError::EmptyRoi)));
    assert!(matches!(roi_from_edges(10, 10, 5, 20, 640, 360), Err(SubtitleDetectionError::EmptyRoi)));
}

#[test]
fn band_mask_bridging_joins_rows_then_columns() {
    let (w, h) = (120usize, 30usize);
    // Row 5 has band pixels at 0 and 99: the 98-pixel gap is bridged, and so
    // is the 20-pixel tail, whose distance runs to the row's end. Then each
    // column is bridged from row 5 up to its top edge (6 pixels in all),
    // but not down to its bottom edge, which is too far.
    let mut mask = vec![0u8; w * h];
    mask[5 * w] = 1;
    mask[5 * w + 99] = 1;
    bridge_mask(&mut mask, w, h);
    for y in 0..h {
        for x in 0..w {
            assert_eq!(mask[y * w + x], u8::from(y <= 5), "pixel ({x}, {y})");
        }
    }

    // A 109-pixel gap is too long; the 9-pixel tail is not.
    let mut wide = vec![0u8; w * h];
    wide[5 * w] = 1;
    wide[5 * w + 110] = 1;
    bridge_mask(&mut wide, w, h);
    for y in 0..h {
        for x in 0..w {
            let banded = x == 0 || x >= 110;
            assert_eq!(wide[y * w + x], u8::from(banded && y <= 5), "pixel ({x}, {y})");
        }
    }
}

#[test]
fn detecting_twice_gives_the_same_regions() {
    let used = LumaBandDetector::new(probe_config()).expect("detector");
    let _ = used.detect(&plane_with_band(100, 300, 250, 270)).expect("detection");
    let fresh = LumaBandDetector::new(probe_config()).expect("detector");
    let plane = plane_with_band(200, 400, 280, 300);
    let a = used.detect(&plane).expect("detection");
    let b = fresh.detect(&plane).expect("detection");
    assert_eq!(a.len(), b.len());
    for (x, y) in a.iter().zip(b.iter()) {
        assert_eq!((x.x, x.y, x.width, x.height), (y.x, y.y, y.width, y.height));
        assert_eq!((x.measure.hits, x.measure.area, &x.measure.blocks), (y.measure.hits, y.measure.area, &y.measure.blocks));
    }
}
