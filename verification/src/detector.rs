//! The luma-band subtitle detector: thresholds the region of interest of a
//! luma plane around a target brightness, bridges short gaps, finds band
//! rectangles by row projection (or by connected components when there are
//! none), filters them by size and shape, merges boxes line by line, and
//! measures every merged box.

use vstd::prelude::*;

use crate::closing::{vhgw_close_cols, vhgw_close_rows};

use crate::bands::{all_inside, projection_scan, rect_inside, row_projection_candidates, RectCandidate};
use crate::bridge::{
    bridged_pixel, column_of, columns_bridged, dp_bridge_horizontal, dp_bridge_vertical, horizontal_cap, row_of,
    rows_bridged, vertical_cap,
};
use crate::components::{luma_components, luma_reps, rle_component_candidates};
use crate::grid::{at, lemma_cell_in_plane, roi_index, roi_readable, RoiRect};
use crate::text::{decimal, push_decimal, push_str};
use crate::integral::build_integral;
use crate::mask::{
    band_bit, band_for, band_limits, binary, mask_population, population, sparse_mask_should_skip, sparse_skip_spec,
    threshold_mask_rect,
};
use crate::merge::{merge_line_candidates, merge_lines_spec};
use crate::region::{evaluate_region, measures, RegionMeasure, NEAR_GAP, VMR_K};

verus! {

/// Default luma target of the band.
pub const DEFAULT_LUMA_TARGET: u8 = 230;
/// Default half-width of the band around the target.
pub const DEFAULT_LUMA_DELTA: u8 = 12;
/// Smallest area of a candidate rectangle.
pub const MIN_AREA: usize = 300;
/// Largest horizontal gap bridged between band pixels.
pub const HORIZONTAL_GAP: usize = 100;
/// Largest vertical gap bridged between band pixels.
pub const VERTICAL_GAP: usize = 10;

/// The band of luma values the detector looks for: `target_luma` plus or
/// minus `delta`, saturating.
#[derive(Clone, Copy, Debug, PartialEq, Eq)]
pub struct LumaBandConfig {
    pub target_luma: u8,
    pub delta: u8,
}

/// Why a detector cannot be built or cannot run.
#[derive(Debug)]
pub enum SubtitleDetectionError {
    /// The plane holds fewer bytes than `stride * height`.
    InsufficientData { data_len: usize, required: usize },
    /// The region of interest is empty.
    EmptyRoi,
    /// The region of interest is too large for the detector's 32-bit
    /// counters.
    RoiTooLarge { width: usize, height: usize },
    /// The platform's text recognition failed.
    Vision(String),
    /// The backend is not available on this platform.
    Unsupported { backend: &'static str },
}

/// The detectors that can be asked for.
#[derive(Clone, Copy, Debug, PartialEq, Eq, Structural)]
pub enum SubtitleDetectorKind {
    Auto,
    MacVision,
    LumaBand,
}

/// The message of a detection error.
pub open spec fn detection_message(e: SubtitleDetectionError) -> Seq<char> {
    match e {
        SubtitleDetectionError::InsufficientData { data_len, required } => "provided plane data length "@ + decimal(
            data_len as nat,
        ) + " is smaller than stride * height ("@ + decimal(required as nat) + ")"@,
        SubtitleDetectionError::EmptyRoi => "region of interest height is zero"@,
        SubtitleDetectionError::RoiTooLarge { width, height } => "region of interest "@ + decimal(width as nat) + "x"@
            + decimal(height as nat) + " is too large for the detector"@,
        SubtitleDetectionError::Vision(text) => "vision framework error: "@ + text@,
        SubtitleDetectionError::Unsupported { backend } => backend@ + " detector is not supported on this platform"@,
    }
}

impl SubtitleDetectionError {
    /// The message of the error.
    pub fn message(&self) -> (m: String)
        ensures
            m@ == detection_message(*self),
    {
        let mut m = String::new();
        match self {
            SubtitleDetectionError::InsufficientData { data_len, required } => {
                push_str(&mut m, "provided plane data length ");
                push_decimal(&mut m, *data_len as u64);
                push_str(&mut m, " is smaller than stride * height (");
                push_decimal(&mut m, *required as u64);
                push_str(&mut m, ")");
            },
            SubtitleDetectionError::EmptyRoi => {
                push_str(&mut m, "region of interest height is zero");
            },
            SubtitleDetectionError::RoiTooLarge { width, height } => {
                push_str(&mut m, "region of interest ");
                push_decimal(&mut m, *width as u64);
                push_str(&mut m, "x");
                push_decimal(&mut m, *height as u64);
                push_str(&mut m, " is too large for the detector");
            },
            SubtitleDetectionError::Vision(text) => {
                push_str(&mut m, "vision framework error: ");
                push_str(&mut m, text.as_str());
            },
            SubtitleDetectionError::Unsupported { backend } => {
                push_str(&mut m, backend);
                push_str(&mut m, " detector is not supported on this platform");
            },
        }
        proof {
            assert(m@ =~= detection_message(*self));
        }
        m
    }
}

impl SubtitleDetectorKind {
    /// The name of the detector kind.
    pub fn as_str(self) -> (s: &'static str)
        ensures
            s@ == (match self {
                SubtitleDetectorKind::Auto => "auto"@,
                SubtitleDetectorKind::MacVision => "macos-vision"@,
                SubtitleDetectorKind::LumaBand => "luma"@,
            }),
    {
        match self {
            SubtitleDetectorKind::Auto => "auto",
            SubtitleDetectorKind::MacVision => "macos-vision",
            SubtitleDetectorKind::LumaBand => "luma",
        }
    }
}

/// What a detector is built for: the frame's size and row stride, the
/// region of interest in pixels, and the luma band.
#[derive(Clone, Copy, Debug, PartialEq, Eq)]
pub struct SubtitleDetectionConfig {
    pub frame_width: usize,
    pub frame_height: usize,
    pub stride: usize,
    pub roi: RoiRect,
    pub luma_band: LumaBandConfig,
}

/// The region of interest cut to the frame: its edges clamped to
/// `[0, frame_width]` by `[0, frame_height]`.
pub open spec fn clamp_roi(c: SubtitleDetectionConfig) -> RoiRect {
    let x0: int = if c.roi.x < c.frame_width { c.roi.x as int } else { c.frame_width as int };
    let y0: int = if c.roi.y < c.frame_height { c.roi.y as int } else { c.frame_height as int };
    let x1: int = if c.roi.x + c.roi.width > c.frame_width { c.frame_width as int } else { c.roi.x + c.roi.width };
    let y1: int = if c.roi.y + c.roi.height > c.frame_height { c.frame_height as int } else { c.roi.y + c.roi.height };
    RoiRect { x: x0 as usize, y: y0 as usize, width: (x1 - x0) as usize, height: (y1 - y0) as usize }
}

/// The configuration with its region of interest cut to the frame.
pub open spec fn clamped(c: SubtitleDetectionConfig) -> SubtitleDetectionConfig {
    SubtitleDetectionConfig { roi: clamp_roi(c), ..c }
}

/// The region is small enough for the detector's counters: its pixel
/// count (the most a box count of its 0/1 mask reaches) fits in a `u32`,
/// its integral image can be indexed, and a box edge widened by the merge
/// distance fits in `usize`.
pub open spec fn counters_fit(r: RoiRect) -> bool {
    &&& r.width * r.height < u32::MAX
    &&& (r.width + 1) * (r.height + 1) <= usize::MAX
    &&& r.width + NEAR_GAP <= usize::MAX
}

/// Whether the region of interest is small enough for the counters.
fn fits_counters(roi: RoiRect) -> (b: bool)
    requires
        roi.width > 0,
        roi.height > 0,
    ensures
        b == counters_fit(roi),
{
    let w = roi.width;
    let h = roi.height;
    let area_ok = match w.checked_mul(h) {
        Some(a) => a < 0xFFFF_FFFFusize,
        None => false,
    };
    let gap_ok = w.checked_add(NEAR_GAP).is_some();
    let integral_ok = match w.checked_add(1) {
        Some(w1) => match h.checked_add(1) {
            Some(h1) => w1.checked_mul(h1).is_some(),
            None => false,
        },
        None => false,
    };
    proof {
        if w + 1 > usize::MAX || h + 1 > usize::MAX {
            assert((w + 1) * (h + 1) > usize::MAX) by (nonlinear_arith)
                requires
                    w + 1 > usize::MAX || h + 1 > usize::MAX,
                    w >= 1,
                    h >= 1,
            ;
        }
    }
    area_ok && integral_ok && gap_ok
}

/// The byte just past the last pixel of the region of interest.
pub open spec fn roi_end(c: SubtitleDetectionConfig) -> int {
    (c.roi.y + c.roi.height - 1) * c.stride + c.roi.x + c.roi.width
}

/// The number of bytes a plane must hold: `stride * frame_height`, and at
/// least the end of the region of interest (which reaches further only when
/// the stride is narrower than the frame).
pub open spec fn plane_need(c: SubtitleDetectionConfig) -> int {
    if roi_end(c) > c.stride * c.frame_height {
        roi_end(c)
    } else {
        c.stride * c.frame_height
    }
}

/// The number of bytes a plane needs: `stride * frame_height`, or the
/// overflow error.
pub fn required_len(config: &SubtitleDetectionConfig) -> (r: Result<usize, SubtitleDetectionError>)
    ensures
        config.stride * config.frame_height <= usize::MAX ==> r == Ok::<usize, SubtitleDetectionError>(
            (config.stride * config.frame_height) as usize,
        ),
        config.stride * config.frame_height > usize::MAX ==> r == Err::<usize, SubtitleDetectionError>(
            SubtitleDetectionError::InsufficientData { data_len: 0, required: usize::MAX },
        ),
{
    match config.stride.checked_mul(config.frame_height) {
        Some(n) => Ok(n),
        None => Err(SubtitleDetectionError::InsufficientData { data_len: 0, required: usize::MAX }),
    }
}

/// A measured candidate region: its rectangle in frame coordinates and its
/// measurements.
#[derive(Debug)]
pub struct DetectedRegion {
    pub x: usize,
    pub y: usize,
    pub width: usize,
    pub height: usize,
    pub measure: RegionMeasure,
}

/// How the short gaps of a band mask are bridged.
#[derive(Clone, Copy, Debug, PartialEq, Eq, Structural)]
pub enum GapFillMode {
    /// Gaps no longer than the limit, counted from both sides.
    Distance,
    /// Morphological closing of rows and columns.
    Closing,
}

/// The gap bridging the detector uses.
pub const GAP_FILL_MODE: GapFillMode = GapFillMode::Distance;

fn zeroed(n: usize) -> (v: Vec<u8>)
    ensures
        v@.len() == n,
{
    let mut v: Vec<u8> = Vec::new();
    let mut i: usize = 0;
    while i < n
        invariant
            i <= n,
            v@.len() == i,
        decreases n - i,
    {
        v.push(0);
        i = i + 1;
    }
    v
}

/// Bridges the short gaps of a band mask in the detector's mode: with
/// `Distance`, horizontal gaps of up to `HORIZONTAL_GAP` pixels within rows,
/// then vertical gaps of up to `VERTICAL_GAP` pixels within columns of the
/// result; with `Closing`, a closing of the rows and then of the columns.
pub fn bridge_mask(mask: &mut Vec<u8>, width: usize, height: usize)
    requires
        old(mask)@.len() == width * height,
    ensures
        final(mask)@.len() == old(mask)@.len(),
        GAP_FILL_MODE is Distance ==> exists|mid: Seq<u8>|
            rows_bridged(old(mask)@, mid, width as nat, height as nat, HORIZONTAL_GAP as nat, horizontal_cap(HORIZONTAL_GAP as nat))
                && #[trigger] columns_bridged(mid, final(mask)@, width as nat, height as nat, VERTICAL_GAP as nat, vertical_cap(VERTICAL_GAP as nat)),
{
    match GAP_FILL_MODE {
        GapFillMode::Distance => {
            dp_bridge_horizontal(mask, width, height, HORIZONTAL_GAP);
            let ghost mid = mask@;
            dp_bridge_vertical(mask, width, height, VERTICAL_GAP);
            proof {
                assert(columns_bridged(mid, mask@, width as nat, height as nat, VERTICAL_GAP as nat, vertical_cap(VERTICAL_GAP as nat)));
            }
        },
        GapFillMode::Closing => {
            let plane = mask.len();
            let line_len = if width >= height { width } else { height };
            let mut tmp = zeroed(plane);
            let mut prefix = zeroed(line_len);
            let mut suffix = zeroed(line_len);
            let mut line = zeroed(line_len);
            vhgw_close_rows(mask.as_mut_slice(), width, height, HORIZONTAL_GAP, tmp.as_mut_slice(), prefix.as_mut_slice(), suffix.as_mut_slice(), line.as_mut_slice());
            vhgw_close_cols(mask.as_mut_slice(), width, height, VERTICAL_GAP, tmp.as_mut_slice(), prefix.as_mut_slice(), suffix.as_mut_slice(), line.as_mut_slice());
        },
    }
}

/// The region of interest with pixel edges `start_x..end_x`,
/// `start_y..end_y` (the scaled fractions, rounded outwards by the caller)
/// clamped to the frame; `EmptyRoi` when nothing is left.
pub fn roi_from_edges(
    start_x: isize,
    start_y: isize,
    end_x: isize,
    end_y: isize,
    frame_width: usize,
    frame_height: usize,
) -> (r: Result<RoiRect, SubtitleDetectionError>)
    requires
        frame_width <= isize::MAX,
        frame_height <= isize::MAX,
    ensures
        ({
            let sx: int = if start_x < 0 { 0 } else if start_x > frame_width { frame_width as int } else { start_x as int };
            let sy: int = if start_y < 0 { 0 } else if start_y > frame_height { frame_height as int } else { start_y as int };
            let ex: int = if end_x < sx { sx } else if end_x > frame_width { frame_width as int } else { end_x as int };
            let ey: int = if end_y < sy { sy } else if end_y > frame_height { frame_height as int } else { end_y as int };
            if ex - sx == 0 || ey - sy == 0 {
                r matches Err(SubtitleDetectionError::EmptyRoi)
            } else {
                r matches Ok(roi) && roi == (RoiRect {
                    x: sx as usize,
                    y: sy as usize,
                    width: (ex - sx) as usize,
                    height: (ey - sy) as usize,
                })
            }
        }),
{
    let fw = frame_width as isize;
    let fh = frame_height as isize;
    let sx = if start_x < 0 { 0 } else if start_x > fw { fw } else { start_x };
    let sy = if start_y < 0 { 0 } else if start_y > fh { fh } else { start_y };
    let ex = if end_x < sx { sx } else if end_x > fw { fw } else { end_x };
    let ey = if end_y < sy { sy } else if end_y > fh { fh } else { end_y };
    let width = (ex - sx) as usize;
    let height = (ey - sy) as usize;
    if width == 0 || height == 0 {
        return Err(SubtitleDetectionError::EmptyRoi);
    }
    Ok(RoiRect { x: sx as usize, y: sy as usize, width, height })
}

/// A luma-band detector for one frame geometry.
pub struct LumaBandDetector {
    config: SubtitleDetectionConfig,
    required_len: usize,
}

/// The frame area used to bound candidate sizes: width times height,
/// saturating.
pub open spec fn frame_area(c: SubtitleDetectionConfig) -> nat {
    if c.frame_width * c.frame_height <= usize::MAX {
        (c.frame_width * c.frame_height) as nat
    } else {
        usize::MAX as nat
    }
}

/// A band rectangle is kept as a candidate: it is not empty, has at least
/// `MIN_AREA` pixels and at most 35% of the frame area, and is at least
/// twice as wide as high.
pub open spec fn keep_rect(r: RectCandidate, frame_area: nat) -> bool {
    &&& r.width > 0
    &&& r.height > 0
    &&& r.width * r.height >= MIN_AREA
    &&& 20 * (r.width * r.height) <= 7 * frame_area
    &&& r.width >= 2 * r.height
}

/// The kept rectangles, in order.
pub open spec fn kept_rects(s: Seq<RectCandidate>, frame_area: nat) -> Seq<RectCandidate>
    decreases s.len(),
{
    if s.len() == 0 {
        Seq::empty()
    } else {
        kept_rects(s.drop_last(), frame_area) + if keep_rect(s.last(), frame_area) {
            seq![s.last()]
        } else {
            Seq::empty()
        }
    }
}

/// `m` is the band mask of the region of interest of `plane`.
pub open spec fn threshold_of(plane: Seq<u8>, c: SubtitleDetectionConfig, m: Seq<u8>) -> bool {
    let (lo, hi) = band_limits(c.luma_band.target_luma, c.luma_band.delta);
    &&& m.len() == c.roi.width * c.roi.height
    &&& forall|r: int, col: int|
        0 <= r < c.roi.height && 0 <= col < c.roi.width ==> #[trigger] at(m, c.roi.width as nat, r, col) == band_bit(
            plane[roi_index(c.stride as nat, c.roi, r, col)],
            lo,
            hi,
        )
}

/// The band rectangles of a bridged mask: the row-projection bands, or,
/// when there are none, the connected-component boxes.
pub open spec fn band_candidates(m: Seq<u8>, w: nat, h: nat, rects: Seq<RectCandidate>) -> bool {
    let proj = projection_scan(m, w, h, 0, None);
    if proj.len() > 0 {
        rects == proj
    } else {
        luma_components(m, w, h, luma_reps(m, w, h), rects)
    }
}

/// `out` is the rectangle `r` of the region of interest, moved to frame
/// coordinates, with its measurements on the mask `m`.
pub open spec fn region_out(c: SubtitleDetectionConfig, m: Seq<u8>, r: RectCandidate, out: DetectedRegion) -> bool {
    &&& out.x == r.x + c.roi.x
    &&& out.y == r.y + c.roi.y
    &&& out.width == r.width
    &&& out.height == r.height
    &&& measures(out.measure, m, c.roi.width as nat, r, VMR_K as nat)
}

/// The detection of `plane` with configuration `c` gives `out`: `m0` is the
/// band mask; a sparse mask gives nothing; otherwise `m1` and `m2` are the
/// mask bridged along rows and then along columns, `rects` its band
/// rectangles, and `out` the measured boxes that merging the kept
/// rectangles line by line gives, in order.
pub open spec fn detection_outcome(
    c: SubtitleDetectionConfig,
    plane: Seq<u8>,
    m0: Seq<u8>,
    m1: Seq<u8>,
    m2: Seq<u8>,
    rects: Seq<RectCandidate>,
    out: Seq<DetectedRegion>,
) -> bool {
    let w = c.roi.width as nat;
    let h = c.roi.height as nat;
    &&& threshold_of(plane, c, m0)
    &&& if sparse_skip_spec(population(m0), w * h) {
        out.len() == 0
    } else {
        let merged = merge_lines_spec(kept_rects(rects, frame_area(c)));
        &&& rows_bridged(m0, m1, w, h, HORIZONTAL_GAP as nat, horizontal_cap(HORIZONTAL_GAP as nat))
        &&& columns_bridged(m1, m2, w, h, VERTICAL_GAP as nat, vertical_cap(VERTICAL_GAP as nat))
        &&& band_candidates(m2, w, h, rects)
        &&& out.len() == merged.len()
        &&& forall|k: int| 0 <= k < out.len() ==> #[trigger] region_out(c, m2, merged[k], out[k])
    }
}

/// The region lies inside the region of interest.
pub open spec fn region_in_roi(c: SubtitleDetectionConfig, d: DetectedRegion) -> bool {
    &&& c.roi.x <= d.x
    &&& d.x + d.width <= c.roi.x + c.roi.width
    &&& c.roi.y <= d.y
    &&& d.y + d.height <= c.roi.y + c.roi.height
}

/// Some masks and band rectangles give `out` as the detection of `plane`
/// with configuration `c`.
pub open spec fn detection_holds(c: SubtitleDetectionConfig, plane: Seq<u8>, out: Seq<DetectedRegion>) -> bool {
    exists|m0: Seq<u8>, m1: Seq<u8>, m2: Seq<u8>, rects: Seq<RectCandidate>|
        #[trigger] detection_outcome(c, plane, m0, m1, m2, rects, out)
}

/// A plane whose cells are all 0 or 1 is binary.
proof fn lemma_binary_from_cells(s: Seq<u8>, w: nat, h: nat)
    requires
        s.len() == w * h,
        forall|r: int, c: int| 0 <= r < h && 0 <= c < w ==> #[trigger] at(s, w, r, c) <= 1,
    ensures
        binary(s),
{
    assert forall|i: int| 0 <= i < s.len() implies #[trigger] s[i] <= 1 by {
        let r = i / (w as int);
        let c = i % (w as int);
        assert(w > 0) by (nonlinear_arith)
            requires
                0 <= i < w * h,
        ;
        vstd::arithmetic::div_mod::lemma_fundamental_div_mod(i, w as int);
        assert(0 <= c < w);
        assert(r * w + c == i) by (nonlinear_arith)
            requires
                i == w * r + c,
        ;
        assert(0 <= r < h) by (nonlinear_arith)
            requires
                r * w + c == i,
                0 <= c < w,
                0 <= i < w * h,
                w > 0,
        ;
        assert(at(s, w, r, c) <= 1);
    }
}

/// Bridging a binary plane along rows keeps it binary.
proof fn lemma_rows_bridged_binary(m0: Seq<u8>, m1: Seq<u8>, w: nat, h: nat, gap: nat, cap: nat)
    requires
        m0.len() == w * h,
        binary(m0),
        rows_bridged(m0, m1, w, h, gap, cap),
    ensures
        binary(m1),
{
    assert forall|r: int, c: int| 0 <= r < h && 0 <= c < w implies #[trigger] at(m1, w, r, c) <= 1 by {
        lemma_cell_in_plane(r, c, w as int, h as int);
        assert(row_of(m0, w, r)[c] == m0[r * w + c]);
        assert(at(m1, w, r, c) == bridged_pixel(row_of(m0, w, r), c, gap, cap));
    }
    lemma_binary_from_cells(m1, w, h);
}

/// Bridging a binary plane along columns keeps it binary.
proof fn lemma_columns_bridged_binary(m1: Seq<u8>, m2: Seq<u8>, w: nat, h: nat, gap: nat, cap: nat)
    requires
        m1.len() == w * h,
        binary(m1),
        columns_bridged(m1, m2, w, h, gap, cap),
    ensures
        binary(m2),
{
    assert forall|r: int, c: int| 0 <= r < h && 0 <= c < w implies #[trigger] at(m2, w, r, c) <= 1 by {
        lemma_cell_in_plane(r, c, w as int, h as int);
        assert(column_of(m1, w, h, c)[r] == m1[r * w + c]);
        assert(at(m2, w, r, c) == bridged_pixel(column_of(m1, w, h, c), r, gap, cap));
    }
    lemma_binary_from_cells(m2, w, h);
}

/// Two planes of `w` by `h` cells that agree on every cell are equal.
pub(crate) proof fn lemma_cells_equal(a: Seq<u8>, b: Seq<u8>, w: nat, h: nat)
    requires
        a.len() == w * h,
        b.len() == w * h,
        forall|r: int, c: int| 0 <= r < h && 0 <= c < w ==> #[trigger] at(a, w, r, c) == at(b, w, r, c),
    ensures
        a == b,
{
    assert forall|i: int| 0 <= i < a.len() implies a[i] == b[i] by {
        let r = i / (w as int);
        let c = i % (w as int);
        assert(w > 0) by (nonlinear_arith)
            requires
                0 <= i < w * h,
        ;
        vstd::arithmetic::div_mod::lemma_fundamental_div_mod(i, w as int);
        assert(r * w + c == i) by (nonlinear_arith)
            requires
                i == w * r + c,
        ;
        assert(0 <= r < h) by (nonlinear_arith)
            requires
                r * w + c == i,
                0 <= c < w,
                0 <= i < w * h,
                w > 0,
        ;
        assert(at(a, w, r, c) == at(b, w, r, c));
    }
    assert(a =~= b);
}

/// Two region lists agree on every region's rectangle and measurements.
pub open spec fn same_regions(a: Seq<DetectedRegion>, b: Seq<DetectedRegion>) -> bool {
    &&& a.len() == b.len()
    &&& forall|k: int|
        0 <= k < a.len() ==> {
            &&& #[trigger] a[k].x == b[k].x
            &&& a[k].y == b[k].y
            &&& a[k].width == b[k].width
            &&& a[k].height == b[k].height
            &&& a[k].measure.hits == b[k].measure.hits
            &&& a[k].measure.area == b[k].measure.area
            &&& a[k].measure.blocks@ == b[k].measure.blocks@
        }
}

/// Detecting the same plane with the same configuration twice gives the
/// same regions, whether they come from the row projection or from the
/// connected components.
pub proof fn lemma_detection_repeats(c: SubtitleDetectionConfig, plane: Seq<u8>, o1: Seq<DetectedRegion>, o2: Seq<DetectedRegion>)
    requires
        detection_holds(c, plane, o1),
        detection_holds(c, plane, o2),
    ensures
        same_regions(o1, o2),
{
    let w = c.roi.width as nat;
    let h = c.roi.height as nat;
    let (a0, a1, a2, ra) = choose|m0: Seq<u8>, m1: Seq<u8>, m2: Seq<u8>, rects: Seq<RectCandidate>|
        #[trigger] detection_outcome(c, plane, m0, m1, m2, rects, o1);
    let (b0, b1, b2, rb) = choose|m0: Seq<u8>, m1: Seq<u8>, m2: Seq<u8>, rects: Seq<RectCandidate>|
        #[trigger] detection_outcome(c, plane, m0, m1, m2, rects, o2);
    assert(detection_outcome(c, plane, a0, a1, a2, ra, o1));
    assert(detection_outcome(c, plane, b0, b1, b2, rb, o2));
    assert forall|r: int, col: int| 0 <= r < h && 0 <= col < w implies #[trigger] at(a0, w, r, col) == at(b0, w, r, col) by {}
    lemma_cells_equal(a0, b0, w, h);
    if sparse_skip_spec(population(a0), w * h) {
        assert(o1.len() == 0 && o2.len() == 0);
    } else {
        let hg = HORIZONTAL_GAP as nat;
        let vg = VERTICAL_GAP as nat;
        assert forall|r: int, col: int| 0 <= r < h && 0 <= col < w implies #[trigger] at(a1, w, r, col) == at(b1, w, r, col) by {
            assert(at(a1, w, r, col) == bridged_pixel(row_of(a0, w, r), col, hg, horizontal_cap(hg)));
            assert(at(b1, w, r, col) == bridged_pixel(row_of(b0, w, r), col, hg, horizontal_cap(hg)));
        }
        lemma_cells_equal(a1, b1, w, h);
        assert forall|r: int, col: int| 0 <= r < h && 0 <= col < w implies #[trigger] at(a2, w, r, col) == at(b2, w, r, col) by {
            assert(at(a2, w, r, col) == bridged_pixel(column_of(a1, w, h, col), r, vg, vertical_cap(vg)));
            assert(at(b2, w, r, col) == bridged_pixel(column_of(b1, w, h, col), r, vg, vertical_cap(vg)));
        }
        lemma_cells_equal(a2, b2, w, h);
        assert(ra == rb);
        let merged = merge_lines_spec(kept_rects(ra, frame_area(c)));
        assert forall|k: int| 0 <= k < o1.len() implies {
            &&& #[trigger] o1[k].x == o2[k].x
            &&& o1[k].y == o2[k].y
            &&& o1[k].width == o2[k].width
            &&& o1[k].height == o2[k].height
            &&& o1[k].measure.hits == o2[k].measure.hits
            &&& o1[k].measure.area == o2[k].measure.area
            &&& o1[k].measure.blocks@ == o2[k].measure.blocks@
        } by {
            assert(region_out(c, a2, merged[k], o1[k]));
            assert(region_out(c, b2, merged[k], o2[k]));
        }
    }
}

impl View for LumaBandDetector {
    type V = SubtitleDetectionConfig;

    closed spec fn view(&self) -> SubtitleDetectionConfig {
        self.config
    }
}

impl LumaBandDetector {
    #[verifier::type_invariant]
    spec fn inv(&self) -> bool {
        &&& self.config.roi.x + self.config.roi.width <= self.config.frame_width
        &&& self.config.roi.y + self.config.roi.height <= self.config.frame_height
        &&& self.config.stride * self.config.frame_height <= usize::MAX
        &&& self.required_len == plane_need(self.config)
        &&& self.config.roi.width > 0
        &&& self.config.roi.height > 0
    }

    /// The number of bytes a plane must hold.
    pub closed spec fn required(&self) -> nat {
        self.required_len as nat
    }

    /// Checks that a detector can be built for `config`: its plane size
    /// must fit in `usize` and its region of interest, cut to the frame,
    /// must not be empty.
    pub fn ensure_available(config: &SubtitleDetectionConfig) -> (r: Result<(), SubtitleDetectionError>)
        ensures
            r == luma_check(*config),
    {
        match required_len(config) {
            Ok(_) => {},
            Err(e) => {
                return Err(e);
            },
        }
        let roi = clamp_rect(config);
        if roi.width == 0 || roi.height == 0 {
            return Err(SubtitleDetectionError::EmptyRoi);
        }
        Ok(())
    }

    /// Builds a detector for `config` with its region of interest cut to the
    /// frame: the errors of `ensure_available`, then the overflow error when
    /// the end of the region overflows.
    pub fn new(config: SubtitleDetectionConfig) -> (r: Result<Self, SubtitleDetectionError>)
        ensures
            match luma_build(config) {
                Ok(_) => r matches Ok(d) && d@ == clamped(config) && d.required() == plane_need(clamped(config)),
                Err(e) => r == Err::<Self, SubtitleDetectionError>(e),
            },
    {
        let required = match required_len(&config) {
            Ok(n) => n,
            Err(e) => {
                return Err(e);
            },
        };
        let roi = clamp_rect(&config);
        let w = roi.width;
        let h = roi.height;
        if w == 0 || h == 0 {
            return Err(SubtitleDetectionError::EmptyRoi);
        }
        let cfg = SubtitleDetectionConfig { roi, ..config };
        proof {
            assert(roi.y + h - 1 <= config.frame_height - 1);
            assert((roi.y + h - 1) * config.stride <= config.stride * config.frame_height) by (nonlinear_arith)
                requires
                    roi.y + h - 1 <= config.frame_height - 1,
                    config.frame_height > 0,
            ;
        }
        let row_start = (roi.y + h - 1) * config.stride;
        let end = match row_start.checked_add(roi.x) {
            Some(a) => match a.checked_add(w) {
                Some(e) => e,
                None => {
                    return Err(SubtitleDetectionError::InsufficientData { data_len: 0, required: usize::MAX });
                },
            },
            None => {
                return Err(SubtitleDetectionError::InsufficientData { data_len: 0, required: usize::MAX });
            },
        };
        let need = if end > required { end } else { required };
        Ok(LumaBandDetector { config: cfg, required_len: need })
    }

    /// Runs the detector on a luma plane: a plane shorter than the frame
    /// needs is refused, and so is a region of interest too large for the
    /// detector's `u32` counters (`RoiTooLarge`).
    pub fn detect(&self, y_plane: &[u8]) -> (r: Result<Vec<DetectedRegion>, SubtitleDetectionError>)
        ensures
            y_plane@.len() < self.required() ==> r == Err::<Vec<DetectedRegion>, SubtitleDetectionError>(
                SubtitleDetectionError::InsufficientData { data_len: y_plane@.len() as usize, required: self.required() as usize },
            ),
            y_plane@.len() >= self.required() && !counters_fit(self@.roi) ==> r == Err::<Vec<DetectedRegion>, SubtitleDetectionError>(
                SubtitleDetectionError::RoiTooLarge { width: self@.roi.width, height: self@.roi.height },
            ),
            y_plane@.len() >= self.required() && counters_fit(self@.roi) ==> r is Ok,
            y_plane@.len() >= self.required() && counters_fit(self@.roi) ==> detection_holds(self@, y_plane@, r->Ok_0@),
            r matches Ok(out) ==> forall|k: int| 0 <= k < out@.len() ==> #[trigger] region_in_roi(self@, out@[k]),
    {
        proof {
            use_type_invariant(self);
        }
        let config = self.config;
        let roi = config.roi;
        let w = roi.width;
        let h = roi.height;
        if y_plane.len() < self.required_len {
            return Err(SubtitleDetectionError::InsufficientData { data_len: y_plane.len(), required: self.required_len });
        }
        if !fits_counters(roi) {
            return Err(SubtitleDetectionError::RoiTooLarge { width: w, height: h });
        }
        proof {
            assert(roi_end(config) <= y_plane@.len());
            assert(roi_readable(y_plane@.len(), config.stride as nat, roi));
            assert(roi.y + roi.height <= usize::MAX);
        }
        let (lo, hi) = band_for(config.luma_band.target_luma, config.luma_band.delta);
        let mut mask = threshold_mask_rect(y_plane, config.stride, roi, lo, hi);
        let ghost m0 = mask@;
        proof {
            assert forall|r: int, c: int| 0 <= r < h && 0 <= c < w implies #[trigger] at(m0, w as nat, r, c) <= 1 by {}
            lemma_binary_from_cells(m0, w as nat, h as nat);
            assert(threshold_of(y_plane@, config, m0));
        }
        let roi_area = if w * h > 1 { w * h } else { 1 };
        let mask_sum = mask_population(&mask);
        if sparse_mask_should_skip(mask_sum, roi_area) {
            let none: Vec<DetectedRegion> = Vec::new();
            proof {
                assert(detection_outcome(self@, y_plane@, m0, m0, m0, Seq::<RectCandidate>::empty(), none@));
                assert(detection_holds(self@, y_plane@, none@));
            }
            return Ok(none);
        }
        bridge_mask(&mut mask, w, h);
        let ghost m2 = mask@;
        let ghost m1 = choose|mid: Seq<u8>|
            rows_bridged(m0, mid, w as nat, h as nat, HORIZONTAL_GAP as nat, horizontal_cap(HORIZONTAL_GAP as nat))
                && columns_bridged(mid, m2, w as nat, h as nat, VERTICAL_GAP as nat, vertical_cap(VERTICAL_GAP as nat));
        proof {
            lemma_rows_bridged_binary(m0, m1, w as nat, h as nat, HORIZONTAL_GAP as nat, horizontal_cap(HORIZONTAL_GAP as nat));
            lemma_columns_bridged_binary(m1, m2, w as nat, h as nat, VERTICAL_GAP as nat, vertical_cap(VERTICAL_GAP as nat));
        }
        proof {
            assert(w <= u32::MAX) by (nonlinear_arith)
                requires
                    w * h < u32::MAX,
                    h >= 1,
            ;
        }
        let mut rects = row_projection_candidates(&mask, w, h);
        if rects.len() == 0 {
            rects = rle_component_candidates(&mask, w, h);
        }
        proof {
            assert(band_candidates(m2, w as nat, h as nat, rects@));
        }
        if rects.len() == 0 {
            let none: Vec<DetectedRegion> = Vec::new();
            proof {
                assert(kept_rects(rects@, frame_area(config)) == Seq::<RectCandidate>::empty());
                assert(merge_lines_spec(kept_rects(rects@, frame_area(config))).len() == 0);
                assert(detection_outcome(self@, y_plane@, m0, m1, m2, rects@, none@));
                assert(detection_holds(self@, y_plane@, none@));
            }
            return Ok(none);
        }
        let integral = build_integral(&mask, w, h);
        let frame_area_value = match config.frame_width.checked_mul(config.frame_height) {
            Some(v) => v,
            None => usize::MAX,
        };
        let mut candidates: Vec<RectCandidate> = Vec::new();
        let mut i: usize = 0;
        while i < rects.len()
            invariant
                i <= rects@.len(),
                all_inside(rects@, w as nat, h as nat),
                all_inside(candidates@, w as nat, h as nat),
                frame_area_value == frame_area(config),
                w * h < u32::MAX,
                candidates@ == kept_rects(rects@.subrange(0, i as int), frame_area(config)),
            decreases rects@.len() - i,
        {
            let rect = rects[i];
            proof {
                assert(rects@.subrange(0, i + 1).drop_last() == rects@.subrange(0, i as int));
                assert(rect_inside(rect, w as nat, h as nat));
                assert(rect.width * rect.height <= w * h) by (nonlinear_arith)
                    requires
                        rect.width <= w,
                        rect.height <= h,
                ;
            }
            let keep = rect.width > 0 && rect.height > 0 && rect.width * rect.height >= MIN_AREA && (rect.width as u128
                * rect.height as u128) * 20 <= (frame_area_value as u128) * 7 && (rect.width as u128) >= 2 * (
            rect.height as u128);
            if keep {
                let ghost before = candidates@;
                candidates.push(rect);
                proof {
                    assert forall|k: int| 0 <= k < candidates@.len() implies rect_inside(
                        #[trigger] candidates@[k],
                        w as nat,
                        h as nat,
                    ) by {
                        if k < before.len() {
                            assert(candidates@[k] == before[k]);
                        }
                    }
                }
            }
            i += 1;
        }
        proof {
            assert(rects@.subrange(0, rects@.len() as int) == rects@);
            assert(w + NEAR_GAP <= usize::MAX);
        }
        let merged = merge_line_candidates(&candidates, Ghost(w as nat), Ghost(h as nat));
        let mut out: Vec<DetectedRegion> = Vec::new();
        let ghost merged_spec = merge_lines_spec(kept_rects(rects@, frame_area(config)));
        let mut k: usize = 0;
        while k < merged.len()
            invariant
                k <= merged@.len(),
                merged@ == merged_spec,
                all_inside(merged@, w as nat, h as nat),
                out@.len() == k,
                forall|j: int| 0 <= j < k ==> #[trigger] region_out(config, m2, merged_spec[j], out@[j]),
                forall|j: int| 0 <= j < k ==> #[trigger] region_in_roi(config, out@[j]),
                crate::integral::integral_of(integral@, m2, w as nat, h as nat),
                m2.len() == w * h,
                binary(m2),
                w * h < u32::MAX,
                (w + 1) * (h + 1) <= usize::MAX,
                roi.x + w <= config.frame_width,
                roi.y + h <= config.frame_height,
                config == self@,
                roi == config.roi,
                w == roi.width,
                h == roi.height,
            decreases merged@.len() - k,
        {
            let rect = merged[k];
            proof {
                assert(rect_inside(rect, w as nat, h as nat));
            }
            let measure = evaluate_region(&integral, w, rect, VMR_K, Ghost(m2), Ghost(h as nat));
            let ghost before = out@;
            out.push(DetectedRegion {
                x: rect.x + roi.x,
                y: rect.y + roi.y,
                width: rect.width,
                height: rect.height,
                measure,
            });
            proof {
                assert forall|j: int| 0 <= j < k + 1 implies #[trigger] region_out(config, m2, merged_spec[j], out@[j]) by {
                    if j < k {
                        assert(out@[j] == before[j]);
                    }
                }
                assert forall|j: int| 0 <= j < k + 1 implies #[trigger] region_in_roi(config, out@[j]) by {
                    if j < k {
                        assert(out@[j] == before[j]);
                    }
                }
            }
            k += 1;
        }
        proof {
            assert(detection_outcome(self@, y_plane@, m0, m1, m2, rects@, out@));
            assert(detection_holds(self@, y_plane@, out@));
        }
        Ok(out)
    }
}

/// The luma band options of the detection settings.
#[derive(Clone, Copy, Debug, PartialEq, Eq)]
pub struct LumaBandOptions {
    pub target: u8,
    pub delta: u8,
}

impl Default for LumaBandOptions {
    fn default() -> (o: Self)
        ensures
            o == (LumaBandOptions { target: DEFAULT_LUMA_TARGET, delta: DEFAULT_LUMA_DELTA }),
    {
        LumaBandOptions { target: DEFAULT_LUMA_TARGET, delta: DEFAULT_LUMA_DELTA }
    }
}

/// The outcome of checking that the luma-band detector can run with `c`.
pub open spec fn luma_check(c: SubtitleDetectionConfig) -> Result<(), SubtitleDetectionError> {
    if c.stride * c.frame_height > usize::MAX {
        Err(SubtitleDetectionError::InsufficientData { data_len: 0, required: usize::MAX })
    } else if clamp_roi(c).width == 0 || clamp_roi(c).height == 0 {
        Err(SubtitleDetectionError::EmptyRoi)
    } else {
        Ok(())
    }
}

/// The outcome of building the luma-band detector for `c`: the check, then
/// the end of the region.
pub open spec fn luma_build(c: SubtitleDetectionConfig) -> Result<(), SubtitleDetectionError> {
    if luma_check(c) is Err {
        luma_check(c)
    } else if roi_end(clamped(c)) > usize::MAX {
        Err(SubtitleDetectionError::InsufficientData { data_len: 0, required: usize::MAX })
    } else {
        Ok(())
    }
}

/// The region of interest of `config` cut to the frame.
pub fn clamp_rect(config: &SubtitleDetectionConfig) -> (r: RoiRect)
    ensures
        r == clamp_roi(*config),
{
    let fw = config.frame_width;
    let fh = config.frame_height;
    let x0 = if config.roi.x < fw { config.roi.x } else { fw };
    let y0 = if config.roi.y < fh { config.roi.y } else { fh };
    let x1 = if config.roi.width > fw - x0 { fw } else { x0 + config.roi.width };
    let y1 = if config.roi.height > fh - y0 { fh } else { y0 + config.roi.height };
    RoiRect { x: x0, y: y0, width: x1 - x0, height: y1 - y0 }
}

/// `r` is the error for a backend missing from this build, named `name`.
pub open spec fn unsupported_error<T>(r: Result<T, SubtitleDetectionError>, name: Seq<char>) -> bool {
    r matches Err(SubtitleDetectionError::Unsupported { backend }) && backend@ == name
}

/// The detectors tried, in order, when the automatic choice is asked for.
pub fn auto_backend_priority() -> (kinds: Vec<SubtitleDetectorKind>)
    ensures
        kinds@ == seq![SubtitleDetectorKind::LumaBand],
{
    let mut kinds: Vec<SubtitleDetectorKind> = Vec::new();
    kinds.push(SubtitleDetectorKind::LumaBand);
    kinds
}

/// Checks that the detector `kind` can run with `config`: the automatic
/// choice always can, the platform text recognizer is not part of this
/// build, and the luma-band detector checks its geometry.
pub fn ensure_backend_available(kind: SubtitleDetectorKind, config: &SubtitleDetectionConfig) -> (r: Result<
    (),
    SubtitleDetectionError,
>)
    ensures
        kind == SubtitleDetectorKind::Auto ==> r is Ok,
        kind == SubtitleDetectorKind::MacVision ==> unsupported_error(r, "macos-vision"@),
        kind == SubtitleDetectorKind::LumaBand ==> r == luma_check(*config),
{
    match kind {
        SubtitleDetectorKind::Auto => Ok(()),
        SubtitleDetectorKind::MacVision => Err(SubtitleDetectionError::Unsupported { backend: kind.as_str() }),
        SubtitleDetectorKind::LumaBand => LumaBandDetector::ensure_available(config),
    }
}

/// Checks, on the probe configuration `probe`, that the detector `kind` can
/// run; the automatic choice succeeds as soon as one detector of
/// `auto_backend_priority` can, and otherwise gives the last error.
pub fn preflight_detection(kind: SubtitleDetectorKind, probe: &SubtitleDetectionConfig) -> (r: Result<
    (),
    SubtitleDetectionError,
>)
    ensures
        kind == SubtitleDetectorKind::MacVision ==> unsupported_error(r, "macos-vision"@),
        kind != SubtitleDetectorKind::MacVision ==> r == luma_check(*probe),
{
    match kind {
        SubtitleDetectorKind::Auto => {
            let priority = auto_backend_priority();
            let mut last_err: Option<SubtitleDetectionError> = None;
            let mut i: usize = 0;
            while i < priority.len()
                invariant
                    priority@ == seq![SubtitleDetectorKind::LumaBand],
                    kind == SubtitleDetectorKind::Auto,
                    i <= 1,
                    i == 0 ==> last_err is None,
                    i == 1 ==> last_err == (match luma_check(*probe) {
                        Err(e) => Some(e),
                        Ok(_) => None::<SubtitleDetectionError>,
                    }),
                    i == 1 ==> luma_check(*probe) is Err,
                decreases priority@.len() - i,
            {
                let candidate = priority[i];
                match ensure_backend_available(candidate, probe) {
                    Ok(()) => {
                        return Ok(());
                    },
                    Err(err) => {
                        last_err = Some(err);
                    },
                }
                i += 1;
            }
            match last_err {
                Some(err) => Err(err),
                None => Err(SubtitleDetectionError::Unsupported { backend: SubtitleDetectorKind::Auto.as_str() }),
            }
        },
        SubtitleDetectorKind::MacVision => ensure_backend_available(SubtitleDetectorKind::MacVision, probe),
        SubtitleDetectorKind::LumaBand => ensure_backend_available(SubtitleDetectorKind::LumaBand, probe),
    }
}

/// Builds the detector `kind` for `config`: the luma-band detector for the
/// automatic choice or when asked for it, and the unsupported error for the
/// platform text recognizer.
pub fn build_detector(kind: SubtitleDetectorKind, config: SubtitleDetectionConfig) -> (r: Result<
    LumaBandDetector,
    SubtitleDetectionError,
>)
    requires
        kind == SubtitleDetectorKind::LumaBand ==> luma_check(config) is Ok,
    ensures
        kind == SubtitleDetectorKind::MacVision ==> unsupported_error(r, "macos-vision"@),
        kind != SubtitleDetectorKind::MacVision ==> (match luma_build(config) {
            Ok(_) => r matches Ok(d) && d@ == clamped(config) && d.required() == plane_need(clamped(config)),
            Err(e) => r == Err::<LumaBandDetector, SubtitleDetectionError>(e),
        }),
{
    match kind {
        SubtitleDetectorKind::Auto => build_auto(config),
        SubtitleDetectorKind::MacVision => Err(SubtitleDetectionError::Unsupported { backend: kind.as_str() }),
        SubtitleDetectorKind::LumaBand => LumaBandDetector::new(config),
    }
}

/// Builds the first detector of `auto_backend_priority` that is available
/// and builds, or gives the last error.
fn build_auto(config: SubtitleDetectionConfig) -> (r: Result<LumaBandDetector, SubtitleDetectionError>)
    ensures
        match luma_build(config) {
            Ok(_) => r matches Ok(d) && d@ == clamped(config) && d.required() == plane_need(clamped(config)),
            Err(e) => r == Err::<LumaBandDetector, SubtitleDetectionError>(e),
        },
{
    let priority = auto_backend_priority();
    let candidate = priority[0];
    match ensure_backend_available(candidate, &config) {
        Ok(()) => LumaBandDetector::new(config),
        Err(err) => Err(err),
    }
}

} // verus!
