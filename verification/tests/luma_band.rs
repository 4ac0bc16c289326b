use subtitle_fast::bands::{expand_row_band, MIN_ROW_BAND_PX};
use subtitle_fast::mask::{min_mask_population, sparse_mask_should_skip, MIN_MASK_POPULATION};

#[test]
fn sparse_frames_with_too_few_pixels_are_skipped() {
    let area = 1920 * 824;
    assert!(sparse_mask_should_skip(200, area));
}

#[test]
fn sparse_frames_with_enough_pixels_continue() {
    let area = 1920 * 824;
    // Density is below the threshold, but the population exceeds the scaled watermark.
    assert!(!sparse_mask_should_skip(1100, area));
}

#[test]
fn small_roi_uses_absolute_floor() {
    let area = 200 * 100;
    let min_pop = min_mask_population(area);
    assert!(min_pop >= MIN_MASK_POPULATION);
    assert!(!sparse_mask_should_skip(min_pop + 10, area));
}

#[test]
fn row_band_expands_to_min_height() {
    let (top, bottom) = expand_row_band(800, 804, 824);
    assert!(bottom - top >= MIN_ROW_BAND_PX);
    assert!(top <= 800);
    assert!(bottom >= 804);
}

#[test]
fn row_band_expansion_exact_values() {
    assert_eq!(expand_row_band(800, 804, 824), (796, 808));
    // A band at the top grows downward only.
    assert_eq!(expand_row_band(0, 2, 100), (0, 12));
    // A tall band is kept.
    assert_eq!(expand_row_band(10, 40, 100), (10, 40));
    // A band that cannot grow enough keeps the whole height.
    assert_eq!(expand_row_band(2, 4, 6), (0, 6));
}

#[test]
fn min_population_scales_with_area() {
    assert_eq!(min_mask_population(0), 128);
    assert_eq!(min_mask_population(320_000), 128);
    assert_eq!(min_mask_population(320_001), 129);
    assert_eq!(min_mask_population(1920 * 1080), 830);
}

#[test]
fn sparse_skip_needs_both_conditions() {
    // Dense enough: 15 per 10 000 pixels.
    assert!(!sparse_mask_should_skip(15, 10_000));
    assert!(sparse_mask_should_skip(14, 10_000));
    // An empty area counts as one pixel.
    assert!(sparse_mask_should_skip(0, 0));
}
