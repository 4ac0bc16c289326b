//! Row-major plane indexing shared by the detectors.

use vstd::prelude::*;

verus! {

/// The value at row `r`, column `c` of a row-major plane of width `w`.
pub open spec fn at<T>(plane: Seq<T>, w: nat, r: int, c: int) -> T {
    plane[r * w + c]
}

/// Index arithmetic for a cell inside a `w` by `h` plane.
pub proof fn lemma_cell_in_plane(r: int, c: int, w: int, h: int)
    requires
        0 <= r < h,
        0 <= c < w,
    ensures
        0 <= r * w,
        r * w + c < h * w,
        r * w + c < (r + 1) * w,
        (r + 1) * w <= h * w,
        r * w <= r * w + c,
        h * w == w * h,
        r * w + w <= w * h,
        r * w + c < w * h,
{
    assert(h * w == w * h) by (nonlinear_arith);
    assert(0 <= r * w) by (nonlinear_arith)
        requires
            0 <= r,
            0 <= c < w,
    ;
    assert((r + 1) * w == r * w + w) by (nonlinear_arith);
    assert((r + 1) * w <= h * w) by (nonlinear_arith)
        requires
            r + 1 <= h,
            0 <= w,
    ;
}

/// Two distinct cells of a plane have distinct indices.
pub proof fn lemma_cells_distinct(r1: int, c1: int, r2: int, c2: int, w: int)
    requires
        0 <= c1 < w,
        0 <= c2 < w,
        r1 != r2 || c1 != c2,
    ensures
        r1 * w + c1 != r2 * w + c2,
{
    if r1 == r2 {
    } else if r1 < r2 {
        assert(r1 * w + w <= r2 * w) by (nonlinear_arith)
            requires
                r1 < r2,
                0 <= w,
        ;
    } else {
        assert(r2 * w + w <= r1 * w) by (nonlinear_arith)
            requires
                r2 < r1,
                0 <= w,
        ;
    }
}

/// Monotonicity of a row offset in the row number.
pub proof fn lemma_row_offset_monotone(a: int, b: int, s: int)
    requires
        0 <= a <= b,
        0 <= s,
    ensures
        a * s <= b * s,
        0 <= a * s,
{
    assert(a * s <= b * s) by (nonlinear_arith)
        requires
            0 <= a <= b,
            0 <= s,
    ;
    assert(0 <= a * s) by (nonlinear_arith)
        requires
            0 <= a,
            0 <= s,
    ;
}

} // verus!

verus! {

/// A rectangle of whole pixels inside a frame.
#[derive(Clone, Copy, Debug, PartialEq, Eq)]
pub struct RoiRect {
    pub x: usize,
    pub y: usize,
    pub width: usize,
    pub height: usize,
}

/// The index, in a plane with row stride `stride`, of the pixel at row `r`,
/// column `c` of the rectangle `roi`.
pub open spec fn roi_index(stride: nat, roi: RoiRect, r: int, c: int) -> int {
    (roi.y + r) * stride + roi.x + c
}

/// Every row of `roi` can be read from a plane of `len` bytes with row
/// stride `stride`.
pub open spec fn roi_readable(len: nat, stride: nat, roi: RoiRect) -> bool {
    roi.height > 0 ==> (roi.y + roi.height - 1) * stride + roi.x + roi.width <= len
}

/// Every pixel of a readable rectangle lies inside the plane.
pub proof fn lemma_roi_index_in_bounds(len: nat, stride: nat, roi: RoiRect, r: int, c: int)
    requires
        roi_readable(len, stride, roi),
        0 <= r < roi.height,
        0 <= c < roi.width,
    ensures
        0 <= roi_index(stride, roi, r, c) < len,
        (roi.y + r) * stride + roi.x + roi.width <= len,
{
    lemma_row_offset_monotone(roi.y + r, roi.y + roi.height - 1, stride as int);
}

} // verus!
