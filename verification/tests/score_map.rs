use subtitle_fast::score_map::{map_components, map_dims};

#[test]
fn score_map_shapes() {
    assert_eq!(map_dims(&[3, 4], 10, 20), (3, 4));
    assert_eq!(map_dims(&[1, 1, 4, 5], 10, 20), (4, 5));
    assert_eq!(map_dims(&[1, 6, 7], 10, 20), (6, 7));
    assert_eq!(map_dims(&[2, 6, 7], 10, 20), (20, 10));
    assert_eq!(map_dims(&[1, 2, 4, 5], 10, 20), (20, 10));
}

#[test]
fn score_map_components_in_scan_order() {
    let mask = vec![
        1u8, 1, 0, 1, //
        0, 1, 0, 1, //
        0, 0, 0, 0,
    ];
    let comps = map_components(&mask, 4, 3);
    assert_eq!(comps.len(), 2);
    assert_eq!(comps[0].cells, vec![(0, 0), (1, 0), (1, 1)]);
    assert_eq!((comps[0].min_x, comps[0].max_x, comps[0].min_y, comps[0].max_y), (0, 1, 0, 1));
    assert_eq!(comps[1].cells, vec![(3, 0), (3, 1)]);
    assert_eq!((comps[1].min_x, comps[1].max_x, comps[1].min_y, comps[1].max_y), (3, 3, 0, 1));
}

#[test]
fn score_map_diagonal_cells_are_apart() {
    let mask = vec![1u8, 0, 0, 1];
    let comps = map_components(&mask, 2, 2);
    assert_eq!(comps.len(), 2);
    assert_eq!(comps[0].cells, vec![(0, 0)]);
    assert_eq!(comps[1].cells, vec![(1, 1)]);
}

#[test]
fn score_map_ring_is_one_component() {
    let mask = vec![
        1u8, 1, 1, //
        1, 0, 1, //
        1, 1, 1,
    ];
    let comps = map_components(&mask, 3, 3);
    assert_eq!(comps.len(), 1);
    assert_eq!(comps[0].cells.len(), 8);
    assert_eq!(comps[0].cells[0], (0, 0));
    assert_eq!((comps[0].min_x, comps[0].max_x, comps[0].min_y, comps[0].max_y), (0, 2, 0, 2));
}

#[test]
fn score_map_too_short_or_empty_gives_nothing() {
    assert!(map_components(&[1, 1], 2, 2).is_empty());
    assert!(map_components(&[1, 1], 0, 2).is_empty());
    assert!(map_components(&[1, 1], 2, 0).is_empty());
    assert!(map_components(&[0, 0, 0, 0], 2, 2).is_empty());
}
