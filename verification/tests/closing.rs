use subtitle_fast::closing::{vhgw_close_cols, vhgw_close_line, vhgw_close_rows, vhgw_line_op};

#[test]
fn line_pass_takes_window_extremes() {
    let src = [0u8, 5, 0, 0, 3, 0, 0, 0];
    let (mut prefix, mut suffix, mut dst) = (vec![0u8; 8], vec![0u8; 8], vec![9u8; 9]);
    vhgw_line_op(&src, &mut prefix, &mut suffix, 3, true, &mut dst);
    assert_eq!(dst, vec![5, 5, 3, 3, 3, 0, 0, 0, 9]);
    vhgw_line_op(&src, &mut prefix, &mut suffix, 0, true, &mut dst);
    assert_eq!(&dst[..8], &src);
}

#[test]
fn closing_a_line_dilates_then_erodes() {
    let src = [0u8, 5, 0, 0, 3, 0, 0, 0];
    let (mut prefix, mut suffix, mut scratch, mut dst) = (vec![0u8; 8], vec![0u8; 8], vec![0u8; 8], vec![0u8; 8]);
    vhgw_close_line(&src, &mut dst, &mut prefix, &mut suffix, &mut scratch, 3);
    assert_eq!(dst, vec![3, 3, 3, 0, 0, 0, 0, 0]);
}

#[test]
fn closing_rows_and_columns() {
    let mut mask = vec![1u8, 0, 0, 1, 0, 1, 0, 0];
    let (mut tmp, mut prefix, mut suffix, mut line) = (vec![0u8; 8], vec![0u8; 4], vec![0u8; 4], vec![0u8; 4]);
    vhgw_close_rows(&mut mask, 4, 2, 2, &mut tmp, &mut prefix, &mut suffix, &mut line);
    assert_eq!(mask, vec![0, 0, 1, 1, 1, 0, 0, 0]);

    let mut mask = vec![1u8, 0, 0, 0, 1, 0];
    vhgw_close_cols(&mut mask, 2, 3, 2, &mut tmp, &mut prefix, &mut suffix, &mut line);
    assert_eq!(mask, vec![1, 0, 1, 0, 1, 0]);

    let mut unchanged = vec![1u8, 0, 1, 0];
    vhgw_close_rows(&mut unchanged, 2, 2, 0, &mut tmp, &mut prefix, &mut suffix, &mut line);
    assert_eq!(unchanged, vec![1, 0, 1, 0]);
}
