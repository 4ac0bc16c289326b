//! Row projection: per-row statistics of a mask, the bands of dense rows,
//! and the padding of thin bands to a minimum height.

use vstd::prelude::*;

use crate::bridge::row_of;
use crate::grid::{at, lemma_cell_in_plane};
use crate::mask::{binary, lemma_population_binary, lemma_population_bound, population};

verus! {

/// Minimum height, in pixels, that a row band is padded to.
pub const MIN_ROW_BAND_PX: usize = 12;

/// A candidate rectangle in the coordinates of the region of interest.
#[derive(Clone, Copy, Debug, PartialEq, Eq)]
pub struct RectCandidate {
    pub x: usize,
    pub y: usize,
    pub width: usize,
    pub height: usize,
}

/// The rectangle lies inside a `w` by `h` plane.
pub open spec fn rect_inside(r: RectCandidate, w: nat, h: nat) -> bool {
    r.x + r.width <= w && r.y + r.height <= h
}

/// Every rectangle of the sequence lies inside a `w` by `h` plane.
pub open spec fn all_inside(s: Seq<RectCandidate>, w: nat, h: nat) -> bool {
    forall|k: int| 0 <= k < s.len() ==> rect_inside(#[trigger] s[k], w, h)
}


/// The index of the first non-zero value of `line` at or after `i`, or the
/// line's length when there is none.
pub open spec fn first_nonzero_from(line: Seq<u8>, i: int) -> nat
    decreases line.len() - i,
{
    if i >= line.len() {
        line.len()
    } else if i >= 0 && line[i] != 0 {
        i as nat
    } else {
        first_nonzero_from(line, i + 1)
    }
}

/// One past the index of the last non-zero value of `line` before `i`, or
/// 0 when there is none.
pub open spec fn last_nonzero_end(line: Seq<u8>, i: int) -> nat
    decreases i,
{
    if i <= 0 {
        0
    } else if line[i - 1] != 0 {
        i as nat
    } else {
        last_nonzero_end(line, i - 1)
    }
}

/// A band's left extent lies inside the line.
pub proof fn lemma_first_extent_bound(line: Seq<u8>, i: int)
    requires
        0 <= i <= line.len(),
    ensures
        first_nonzero_from(line, i) <= line.len(),
    decreases line.len() - i,
{
    if i < line.len() && line[i] == 0 {
        lemma_first_extent_bound(line, i + 1);
    }
}

/// A band's right extent lies before `j`.
pub proof fn lemma_last_extent_bound(line: Seq<u8>, j: int)
    requires
        0 <= j,
    ensures
        last_nonzero_end(line, j) <= j,
    decreases j,
{
    if j > 0 && line[j - 1] == 0 {
        lemma_last_extent_bound(line, j - 1);
    }
}

/// A padded band stays inside the rows `[0, height)`.
pub proof fn lemma_expanded_band_bounds(top: nat, bottom: nat, height: nat)
    requires
        top < bottom <= height,
    ensures
        expanded_band(top, bottom, height).0 <= expanded_band(top, bottom, height).1 <= height,
{
}

/// Padding a band `[top, bottom)` inside `[0, height)` keeps every row of
/// the band, stays inside the rows, and reaches `MIN_ROW_BAND_PX` rows
/// whenever the height allows it.
pub proof fn lemma_band_padding(top: nat, bottom: nat, height: nat)
    requires
        top < bottom <= height,
    ensures
        expanded_band(top, bottom, height).0 <= top,
        bottom <= expanded_band(top, bottom, height).1 <= height,
        height >= MIN_ROW_BAND_PX ==> expanded_band(top, bottom, height).1 - expanded_band(top, bottom, height).0
            >= MIN_ROW_BAND_PX,
        height < MIN_ROW_BAND_PX ==> expanded_band(top, bottom, height) == (0nat, height),
{
}

proof fn lemma_first_nonzero_skip(line: Seq<u8>, j: int, i: int)
    requires
        0 <= j <= i <= line.len(),
        forall|k: int| j <= k < i ==> line[k] == 0,
    ensures
        first_nonzero_from(line, j) == first_nonzero_from(line, i),
    decreases i - j,
{
    if j < i {
        lemma_first_nonzero_skip(line, j + 1, i);
    }
}

/// Row statistics of a mask: the sum, the first band column (or the width),
/// and one past the last band column (or 0), of every row.
pub struct RowStats {
    pub sums: Vec<u32>,
    pub left_edges: Vec<usize>,
    pub right_edges: Vec<usize>,
}

/// Row `r` of the statistics matches row `r` of the mask.
pub open spec fn row_stat_matches(sums: Seq<u32>, lefts: Seq<usize>, rights: Seq<usize>, mask: Seq<u8>, width: nat, r: int) -> bool {
    &&& sums[r] == population(row_of(mask, width, r))
    &&& lefts[r] == first_nonzero_from(row_of(mask, width, r), 0)
    &&& rights[r] == last_nonzero_end(row_of(mask, width, r), width as int)
}

/// The statistics of every row of a `width` by `height` mask.
pub open spec fn row_stats_of(stats: RowStats, mask: Seq<u8>, width: nat, height: nat) -> bool {
    &&& stats.sums@.len() == height
    &&& stats.left_edges@.len() == height
    &&& stats.right_edges@.len() == height
    &&& forall|r: int| 0 <= r < height ==> #[trigger] row_stat_matches(stats.sums@, stats.left_edges@, stats.right_edges@, mask, width, r)
}

/// Computes the sum and the band extent of every row of a mask.
pub fn compute_row_stats(mask: &[u8], width: usize, height: usize) -> (stats: RowStats)
    requires
        mask@.len() == width * height,
        width * 255 <= u32::MAX || (binary(mask@) && width <= u32::MAX),
    ensures
        row_stats_of(stats, mask@, width as nat, height as nat),
{
    let mut sums: Vec<u32> = Vec::new();
    let mut left_edges: Vec<usize> = Vec::new();
    let mut right_edges: Vec<usize> = Vec::new();
    let mut row: usize = 0;
    while row < height
        invariant
            mask@.len() == width * height,
            width * 255 <= u32::MAX || (binary(mask@) && width <= u32::MAX),
            row <= height,
            sums@.len() == row,
            left_edges@.len() == row,
            right_edges@.len() == row,
            forall|r: int| 0 <= r < row ==> #[trigger] row_stat_matches(sums@, left_edges@, right_edges@, mask@, width as nat, r),
        decreases height - row,
    {
        let ghost line = row_of(mask@, width as nat, row as int);
        proof {
            if width > 0 {
                lemma_cell_in_plane(row as int, width as int - 1, width as int, height as int);
            } else {
                assert(row * width == 0) by (nonlinear_arith)
                    requires width == 0;
            }
            assert(row * width + width <= width * height) by (nonlinear_arith)
                requires row < height;
            assert(mask@.len() == mask.len());
        }
        let base = row * width;
        let mut sum: u32 = 0;
        let mut left = width;
        let mut right: usize = 0;
        let mut idx: usize = 0;
        while idx < width
            invariant
                mask@.len() == width * height,
                width * 255 <= u32::MAX || (binary(mask@) && width <= u32::MAX),
                base == row * width,
                base + width <= mask.len(),
                line == row_of(mask@, width as nat, row as int),
                line.len() == width,
                idx <= width,
                sum == population(line.subrange(0, idx as int)),
                right == last_nonzero_end(line, idx as int),
                right <= idx,
                (left == width && forall|k: int| 0 <= k < idx ==> line[k] == 0) || (left < idx && line[left as int]
                    != 0 && forall|k: int| 0 <= k < left ==> line[k] == 0),
            decreases width - idx,
        {
            let value = mask[base + idx];
            assert(value == line[idx as int]);
            proof {
                let s = line.subrange(0, idx as int + 1);
                assert(s.drop_last() == line.subrange(0, idx as int));
                lemma_population_bound(s);
                if binary(mask@) {
                    assert forall|k: int| 0 <= k < s.len() implies #[trigger] s[k] <= 1 by {
                        assert(s[k] == mask@[base + k]);
                    }
                    lemma_population_binary(s);
                }
            }
            if value != 0 {
                if idx < left {
                    left = idx;
                }
                if idx + 1 > right {
                    right = idx + 1;
                }
            }
            sum += value as u32;
            idx += 1;
        }
        proof {
            assert(line.subrange(0, width as int) == line);
            if left == width {
                lemma_first_nonzero_skip(line, 0, width as int);
            } else {
                lemma_first_nonzero_skip(line, 0, left as int);
            }
        }
        let ghost old_sums = sums@;
        let ghost old_left = left_edges@;
        let ghost old_right = right_edges@;
        sums.push(sum);
        left_edges.push(left);
        right_edges.push(right);
        proof {
            assert(sums@[row as int] == population(line));
            assert(left_edges@[row as int] == first_nonzero_from(line, 0));
            assert(right_edges@[row as int] == last_nonzero_end(line, width as int));
            assert forall|r: int| 0 <= r < row + 1 implies #[trigger] row_stat_matches(sums@, left_edges@, right_edges@, mask@, width as nat, r) by {
                if r < row {
                    assert(row_stat_matches(old_sums, old_left, old_right, mask@, width as nat, r));
                }
            }
        }
        row += 1;
    }
    RowStats { sums, left_edges, right_edges }
}

} // verus!

verus! {

/// How far a band `[top, bottom)` of height `d` below the minimum `m` grows
/// upward and downward: it takes turns, first upward, as long as there are
/// rows left on that side (`above` rows above, `below` rows below), until it
/// reaches `m` rows or cannot grow.
pub open spec fn band_growth(d: nat, m: nat, above: nat, below: nat) -> (nat, nat) {
    let need = (m - d) as nat;
    if above + below < need {
        (above, below)
    } else {
        let half = need / 2;
        let down_wanted = if half >= need - above {
            half
        } else {
            (need - above) as nat
        };
        let down = if below <= down_wanted {
            below
        } else {
            down_wanted
        };
        ((need - down) as nat, down)
    }
}

/// The row band `[top, bottom)`, made at least one row high and then padded
/// to `MIN_ROW_BAND_PX` rows inside `[0, height)` where there is room.
pub open spec fn expanded_band(top: nat, bottom: nat, height: nat) -> (nat, nat) {
    let b1 = if bottom <= top {
        if top + 1 <= height {
            top + 1
        } else {
            height
        }
    } else {
        bottom
    };
    if b1 <= top {
        (top, b1)
    } else if b1 - top >= MIN_ROW_BAND_PX {
        (top, if b1 <= height { b1 } else { height })
    } else {
        let below = if b1 < height { (height - b1) as nat } else { 0 };
        let g = band_growth((b1 - top) as nat, MIN_ROW_BAND_PX as nat, top, below);
        let b2 = b1 + g.1;
        ((top - g.0) as nat, if b2 <= height { b2 } else { height })
    }
}

/// Pads the row band `[top, bottom)` to the minimum band height.
pub fn expand_row_band(top: usize, bottom: usize, height: usize) -> (r: (usize, usize))
    ensures
        r.0 == expanded_band(top as nat, bottom as nat, height as nat).0,
        r.1 == expanded_band(top as nat, bottom as nat, height as nat).1,
{
    let mut top = top;
    let mut bottom = bottom;
    if bottom <= top {
        bottom = if top < height {
            top + 1
        } else {
            height
        };
    }
    if bottom <= top {
        return (top, bottom);
    }
    let ghost top0 = top as nat;
    let ghost b1 = bottom as nat;
    let ghost d = (b1 - top0) as nat;
    let ghost need = if d >= 12 { 0nat } else { (12 - d) as nat };
    let ghost below = if b1 < height { (height - b1) as nat } else { 0nat };
    while bottom - top < MIN_ROW_BAND_PX && (top > 0 || bottom < height)
        invariant
            b1 > top0,
            d == b1 - top0,
            need == if d >= 12 { 0nat } else { (12 - d) as nat },
            below == if b1 < height { (height - b1) as nat } else { 0nat },
            top <= top0,
            bottom >= b1,
            bottom > top,
            bottom - b1 <= below,
            d < 12 ==> (top0 - top) + (bottom - b1) <= need,
            d >= 12 ==> top == top0 && bottom == b1,
            top0 - top == bottom - b1 || (top0 - top == bottom - b1 + 1 && bottom - top >= 12) || (top == 0 && bottom - b1 + 1
                >= top0 - top) || (bottom - b1 == below && top0 - top >= bottom - b1),
        decreases top + (height - bottom) + 24,
    {
        if top > 0 {
            top -= 1;
        }
        if bottom < height && bottom - top < MIN_ROW_BAND_PX {
            bottom += 1;
        }
    }
    let r_bottom = if bottom < height {
        bottom
    } else {
        height
    };
    proof {
        let t = (top0 - top) as nat;
        let b = (bottom - b1) as nat;
        if d < 12 {
            let g = band_growth(d, 12, top0, below);
            if t + b == need {
                assert(top0 + below >= need);
                assert(g.0 == t && g.1 == b);
            } else {
                assert(g.0 == t && g.1 == b);
            }
        }
    }
    (top, r_bottom)
}

} // verus!

verus! {

/// The band rows of a mask of width `w` are those holding at least
/// `ceil(w / 5)` band pixels (a fifth of the row).
pub open spec fn min_band_row_sum(w: nat) -> nat {
    (w + 4) / 5
}

/// The rectangle of a closed band: the band's column extent, and its rows
/// `[start, end)` padded by `expanded_band`.
pub open spec fn band_rect(start: nat, end: nat, left: nat, right: nat, height: nat) -> RectCandidate {
    let e = expanded_band(start, end, height);
    RectCandidate {
        x: left as usize,
        y: e.0 as usize,
        width: (right - left) as usize,
        height: if e.1 >= e.0 { (e.1 - e.0) as usize } else { 0usize },
    }
}

/// The rectangle emitted when the open band `band` closes at row `end`: none
/// when no band is open or when it holds no band column.
pub open spec fn close_band(band: Option<(nat, nat, nat)>, end: nat, height: nat) -> Seq<RectCandidate> {
    match band {
        None => Seq::empty(),
        Some((s, l, r)) => if r > l {
            seq![band_rect(s, end, l, r, height)]
        } else {
            Seq::empty()
        },
    }
}

/// The rectangles of the row bands of a `w` by `h` mask, scanning from row
/// `row` with the open band `band` (its first row, leftmost and rightmost
/// extents so far): maximal runs of band rows, each spanning the union of
/// its rows' band extents.
pub open spec fn projection_scan(mask: Seq<u8>, w: nat, h: nat, row: nat, band: Option<(nat, nat, nat)>) -> Seq<
    RectCandidate,
>
    decreases h - row,
{
    if row >= h {
        close_band(band, h, h)
    } else {
        let line = row_of(mask, w, row as int);
        if population(line) >= min_band_row_sum(w) {
            let l = first_nonzero_from(line, 0);
            let r = last_nonzero_end(line, w as int);
            let next = match band {
                None => (row, if l <= w { l } else { w }, r),
                Some((s, bl, br)) => (s, if l <= bl { l } else { bl }, if r >= br { r } else { br }),
            };
            projection_scan(mask, w, h, row + 1, Some(next))
        } else {
            close_band(band, row, h) + projection_scan(mask, w, h, row + 1, None)
        }
    }
}

/// Row `r` of a `w`-wide mask is a band row: at least a fifth of it is band
/// pixels.
pub open spec fn band_row(mask: Seq<u8>, w: nat, r: int) -> bool {
    population(row_of(mask, w, r)) >= min_band_row_sum(w)
}

/// A band row holds at least a fifth of the width in band pixels.
pub proof fn lemma_band_row_fifth(mask: Seq<u8>, w: nat, r: int)
    ensures
        band_row(mask, w, r) <==> 5 * population(row_of(mask, w, r)) >= w,
{
    let p = population(row_of(mask, w, r));
    assert(((w + 4) / 5 <= p) <==> (5 * p >= w)) by (nonlinear_arith);
}

/// Pixel (`r`, `c`) lies inside one of the rectangles.
pub open spec fn covered(rects: Seq<RectCandidate>, r: int, c: int) -> bool {
    exists|k: int|
        0 <= k < rects.len() && (#[trigger] rects[k]).x <= c < rects[k].x + rects[k].width && rects[k].y <= r < rects[k].y
            + rects[k].height
}

proof fn lemma_covered_left(a: Seq<RectCandidate>, b: Seq<RectCandidate>, r: int, c: int)
    requires
        covered(a, r, c),
    ensures
        covered(a + b, r, c),
{
    let k = choose|k: int|
        0 <= k < a.len() && (#[trigger] a[k]).x <= c < a[k].x + a[k].width && a[k].y <= r < a[k].y + a[k].height;
    assert((a + b)[k] == a[k]);
}

proof fn lemma_covered_right(a: Seq<RectCandidate>, b: Seq<RectCandidate>, r: int, c: int)
    requires
        covered(b, r, c),
    ensures
        covered(a + b, r, c),
{
    let k = choose|k: int|
        0 <= k < b.len() && (#[trigger] b[k]).x <= c < b[k].x + b[k].width && b[k].y <= r < b[k].y + b[k].height;
    assert((a + b)[a.len() + k] == b[k]);
}

proof fn lemma_first_at_most(line: Seq<u8>, i: int, c: int)
    requires
        0 <= i <= c < line.len(),
        line[c] != 0,
    ensures
        first_nonzero_from(line, i) <= c,
    decreases c - i,
{
    if line[i] == 0 {
        lemma_first_at_most(line, i + 1, c);
    }
}

proof fn lemma_last_beyond(line: Seq<u8>, j: int, c: int)
    requires
        0 <= c < j <= line.len(),
        line[c] != 0,
    ensures
        last_nonzero_end(line, j) > c,
    decreases j,
{
    if line[j - 1] == 0 {
        lemma_last_beyond(line, j - 1, c);
    }
}

/// A closed band `[s, end)` whose columns `[bl, br)` hold pixel (`r`, `c`)
/// of one of its rows gives a rectangle holding that pixel.
proof fn lemma_close_covers(s: nat, end: nat, bl: nat, br: nat, h: nat, w: nat, r: int, c: int)
    requires
        s < end <= h,
        h <= usize::MAX,
        br <= w <= usize::MAX,
        s <= r < end,
        bl <= c < br,
    ensures
        covered(close_band(Some((s, bl, br)), end, h), r, c),
{
    lemma_band_padding(s, end, h);
    let out = close_band(Some((s, bl, br)), end, h);
    assert(out[0] == band_rect(s, end, bl, br, h));
}

/// Scanning from row `row` with the open band `band` covers every band pixel
/// of the open band's rows and of the band rows from `row` on.
proof fn lemma_scan_covers(mask: Seq<u8>, w: nat, h: nat, row: nat, band: Option<(nat, nat, nat)>, r: int, c: int)
    requires
        mask.len() == w * h,
        0 < w <= usize::MAX,
        h <= usize::MAX,
        row <= h,
        band matches Some((s, bl, br)) ==> s < row && bl <= w && br <= w && forall|q: int, d: int|
            s <= q < row && 0 <= d < w && #[trigger] row_of(mask, w, q)[d] != 0 ==> bl <= d < br,
        0 <= r < h,
        0 <= c < w,
        row_of(mask, w, r)[c] != 0,
        (band matches Some((s, bl, br)) && s <= r < row) || (row <= r && band_row(mask, w, r)),
    ensures
        covered(projection_scan(mask, w, h, row, band), r, c),
    decreases h - row,
{
    if row >= h {
        let (s, bl, br) = band.unwrap();
        lemma_close_covers(s, h, bl, br, h, w, r, c);
    } else {
        let line = row_of(mask, w, row as int);
        lemma_cell_in_plane(row as int, 0, w as int, h as int);
        assert(line.len() == w);
        if population(line) >= min_band_row_sum(w) {
            let l = first_nonzero_from(line, 0);
            let rr = last_nonzero_end(line, w as int);
            lemma_first_extent_bound(line, 0);
            lemma_last_extent_bound(line, w as int);
            let next = match band {
                None => (row, if l <= w { l } else { w }, rr),
                Some((s, bl, br)) => (s, if l <= bl { l } else { bl }, if rr >= br { rr } else { br }),
            };
            assert forall|q: int, d: int|
                next.0 <= q < row + 1 && 0 <= d < w && #[trigger] row_of(mask, w, q)[d] != 0 implies next.1 <= d < next.2 by {
                if q == row {
                    lemma_first_at_most(line, 0, d);
                    lemma_last_beyond(line, w as int, d);
                }
            }
            lemma_scan_covers(mask, w, h, row + 1, Some(next), r, c);
        } else {
            let rest = projection_scan(mask, w, h, row + 1, None);
            let in_band = match band {
                Some((s, _, _)) => s <= r < row,
                None => false,
            };
            if in_band {
                let (s, bl, br) = band.unwrap();
                lemma_close_covers(s, row, bl, br, h, w, r, c);
                lemma_covered_left(close_band(band, row, h), rest, r, c);
            } else {
                assert(r != row);
                lemma_scan_covers(mask, w, h, row + 1, None, r, c);
                lemma_covered_right(close_band(band, row, h), rest, r, c);
            }
        }
    }
}

/// Every band pixel lies inside a band rectangle: for every band row `r`
/// (at least a fifth of band pixels) and every column `c` where the mask is
/// set, one of the rectangles of the row projection spans that column and
/// that row, so a band spans the union of its rows' extents.
pub proof fn lemma_band_pixels_covered(mask: Seq<u8>, w: nat, h: nat, r: int, c: int)
    requires
        mask.len() == w * h,
        0 < w <= usize::MAX,
        h <= usize::MAX,
        0 <= r < h,
        0 <= c < w,
        band_row(mask, w, r),
        row_of(mask, w, r)[c] != 0,
    ensures
        covered(projection_scan(mask, w, h, 0, None), r, c),
{
    lemma_scan_covers(mask, w, h, 0, None, r, c);
}

proof fn lemma_first_is_set(line: Seq<u8>, i: int)
    requires
        0 <= i <= line.len(),
    ensures
        first_nonzero_from(line, i) < line.len() ==> line[first_nonzero_from(line, i) as int] != 0,
    decreases line.len() - i,
{
    if i < line.len() && line[i] == 0 {
        lemma_first_is_set(line, i + 1);
    }
}

proof fn lemma_last_is_set(line: Seq<u8>, j: int)
    requires
        0 <= j <= line.len(),
    ensures
        last_nonzero_end(line, j) > 0 ==> line[last_nonzero_end(line, j) - 1] != 0,
    decreases j,
{
    if j > 0 && line[j - 1] == 0 {
        lemma_last_is_set(line, j - 1);
    }
}

proof fn lemma_population_has_set(line: Seq<u8>) -> (c: int)
    requires
        population(line) > 0,
    ensures
        0 <= c < line.len(),
        line[c] != 0,
    decreases line.len(),
{
    if line.last() != 0 {
        line.len() - 1
    } else {
        let c = lemma_population_has_set(line.drop_last());
        assert(line.drop_last()[c] == line[c]);
        c
    }
}

/// Column `c` holds a band pixel of a band row among rows `[lo, hi)`.
pub open spec fn column_hit(mask: Seq<u8>, w: nat, lo: int, hi: int, c: int) -> bool {
    exists|q: int| lo <= q < hi && band_row(mask, w, q) && #[trigger] row_of(mask, w, q)[c] != 0
}

/// A rectangle is tight: its leftmost and its rightmost column each hold a
/// band pixel of a band row among its rows.
pub open spec fn tight(mask: Seq<u8>, w: nat, r: RectCandidate) -> bool {
    &&& r.width > 0
    &&& column_hit(mask, w, r.y as int, r.y + r.height, r.x as int)
    &&& column_hit(mask, w, r.y as int, r.y + r.height, r.x + r.width - 1)
}

/// Every rectangle the scan emits from row `row` on, with the open band
/// `band`, is tight.
proof fn lemma_scan_tight(mask: Seq<u8>, w: nat, h: nat, row: nat, band: Option<(nat, nat, nat)>)
    requires
        mask.len() == w * h,
        0 < w <= usize::MAX,
        h <= usize::MAX,
        row <= h,
        band matches Some((s, bl, br)) ==> s < row && bl < br <= w && column_hit(mask, w, s as int, row as int, bl as int)
            && column_hit(mask, w, s as int, row as int, br - 1),
    ensures
        forall|k: int| 0 <= k < projection_scan(mask, w, h, row, band).len() ==> tight(mask, w, #[trigger] projection_scan(mask, w, h, row, band)[k]),
    decreases h - row,
{
    let out = projection_scan(mask, w, h, row, band);
    if row >= h {
        if band is Some {
            let (s, bl, br) = band.unwrap();
            lemma_band_padding(s, h, h);
            assert(out =~= seq![band_rect(s, h, bl, br, h)]);
            lemma_hit_widen(mask, w, s as int, h as int, out[0].y as int, out[0].y + out[0].height, bl as int);
            lemma_hit_widen(mask, w, s as int, h as int, out[0].y as int, out[0].y + out[0].height, br - 1);
            assert(tight(mask, w, out[0]));
        } else {
            assert(out.len() == 0);
        }
    } else {
        let line = row_of(mask, w, row as int);
        lemma_cell_in_plane(row as int, 0, w as int, h as int);
        assert(line.len() == w);
        if population(line) >= min_band_row_sum(w) {
            let l = first_nonzero_from(line, 0);
            let rr = last_nonzero_end(line, w as int);
            let c0 = lemma_population_has_set(line);
            lemma_first_at_most(line, 0, c0);
            lemma_last_beyond(line, w as int, c0);
            lemma_first_is_set(line, 0);
            lemma_last_is_set(line, w as int);
            lemma_last_extent_bound(line, w as int);
            let next = match band {
                None => (row, if l <= w { l } else { w }, rr),
                Some((s, bl, br)) => (s, if l <= bl { l } else { bl }, if rr >= br { rr } else { br }),
            };
            assert(band_row(mask, w, row as int));
            if l <= next.1 {
                assert(row_of(mask, w, row as int)[l as int] != 0);
                assert(column_hit(mask, w, next.0 as int, row + 1int, next.1 as int));
            } else {
                let (s, bl, br) = band.unwrap();
                lemma_hit_widen(mask, w, s as int, row as int, s as int, row + 1int, bl as int);
            }
            if rr >= next.2 {
                assert(row_of(mask, w, row as int)[rr - 1] != 0);
                assert(column_hit(mask, w, next.0 as int, row + 1int, next.2 - 1));
            } else {
                let (s, bl, br) = band.unwrap();
                lemma_hit_widen(mask, w, s as int, row as int, s as int, row + 1int, br - 1);
            }
            lemma_scan_tight(mask, w, h, row + 1, Some(next));
            assert(out == projection_scan(mask, w, h, row + 1, Some(next)));
        } else {
            let first = close_band(band, row, h);
            let rest = projection_scan(mask, w, h, row + 1, None);
            lemma_scan_tight(mask, w, h, row + 1, None);
            if band is Some {
                let (s, bl, br) = band.unwrap();
                lemma_band_padding(s, row, h);
                assert(first =~= seq![band_rect(s, row, bl, br, h)]);
                lemma_hit_widen(mask, w, s as int, row as int, first[0].y as int, first[0].y + first[0].height, bl as int);
                lemma_hit_widen(mask, w, s as int, row as int, first[0].y as int, first[0].y + first[0].height, br - 1);
                assert(tight(mask, w, first[0]));
            }
            assert forall|k: int| 0 <= k < out.len() implies tight(mask, w, #[trigger] out[k]) by {
                if k < first.len() {
                    assert(out[k] == first[k]);
                } else {
                    assert(out[k] == rest[k - first.len()]);
                }
            }
        }
    }
}

proof fn lemma_hit_widen(mask: Seq<u8>, w: nat, lo: int, hi: int, lo2: int, hi2: int, c: int)
    requires
        column_hit(mask, w, lo, hi, c),
        lo2 <= lo,
        hi <= hi2,
    ensures
        column_hit(mask, w, lo2, hi2, c),
{
    let q = choose|q: int| lo <= q < hi && band_row(mask, w, q) && #[trigger] row_of(mask, w, q)[c] != 0;
    assert(lo2 <= q < hi2 && band_row(mask, w, q) && row_of(mask, w, q)[c] != 0);
}

/// The row-projection rectangles are tight around their bands: each one's
/// leftmost and rightmost columns hold a band pixel of a band row among
/// its rows, so no rectangle reaches past the pixels of its band.
pub proof fn lemma_band_rects_tight(mask: Seq<u8>, w: nat, h: nat)
    requires
        mask.len() == w * h,
        0 < w <= usize::MAX,
        h <= usize::MAX,
    ensures
        forall|k: int| 0 <= k < projection_scan(mask, w, h, 0, None).len() ==> tight(mask, w, #[trigger] projection_scan(mask, w, h, 0, None)[k]),
{
    lemma_scan_tight(mask, w, h, 0, None);
}

/// The row-band candidates of a `width` by `height` mask: every maximal run
/// of rows holding at least a fifth of the width in band pixels gives the
/// rectangle of its band columns over its rows, padded to the minimum band
/// height.
pub fn row_projection_candidates(mask: &[u8], width: usize, height: usize) -> (rects: Vec<RectCandidate>)
    requires
        mask@.len() == width * height,
        width * 255 <= u32::MAX || (binary(mask@) && width <= u32::MAX),
    ensures
        rects@ == (if width == 0 || height == 0 {
            Seq::empty()
        } else {
            projection_scan(mask@, width as nat, height as nat, 0, None)
        }),
        all_inside(rects@, width as nat, height as nat),
{
    let mut rects: Vec<RectCandidate> = Vec::new();
    if width == 0 || height == 0 {
        return rects;
    }
    let stats = compute_row_stats(mask, width, height);
    let fifth = if width % 5 == 0 { width / 5 } else { width / 5 + 1 };
    proof {
        assert(fifth == (width + 4) / 5);
        assert(fifth <= u32::MAX);
    }
    let min_sum: u32 = fifth as u32;
    let ghost total = projection_scan(mask@, width as nat, height as nat, 0, None);
    let mut row: usize = 0;
    while row < height
        invariant
            row_stats_of(stats, mask@, width as nat, height as nat),
            min_sum == min_band_row_sum(width as nat),
            width > 0,
            row <= height,
            total == projection_scan(mask@, width as nat, height as nat, 0, None),
            rects@ + projection_scan(mask@, width as nat, height as nat, row as nat, None) == total,
            all_inside(rects@, width as nat, height as nat),
        decreases height - row,
    {
        let ghost row0 = row;
        while row < height && stats.sums[row] < min_sum
            invariant
                row0 <= row,
                row_stats_of(stats, mask@, width as nat, height as nat),
                min_sum == min_band_row_sum(width as nat),
                row <= height,
                rects@ + projection_scan(mask@, width as nat, height as nat, row as nat, None) == total,
                all_inside(rects@, width as nat, height as nat),
            decreases height - row,
        {
            proof {
                assert(row_stat_matches(stats.sums@, stats.left_edges@, stats.right_edges@, mask@, width as nat, row as int));
                assert(projection_scan(mask@, width as nat, height as nat, row as nat, None)
                    == projection_scan(mask@, width as nat, height as nat, row as nat + 1, None));
            }
            row += 1;
        }
        if row < height {
            let start = row;
            let mut left = width;
            let mut right: usize = 0;
            while row < height && stats.sums[row] >= min_sum
                invariant
                    row_stats_of(stats, mask@, width as nat, height as nat),
                    min_sum == min_band_row_sum(width as nat),
                    start < row <= height || (start == row && left == width && right == 0),
                    start < height,
                    rects@ + projection_scan(mask@, width as nat, height as nat, row as nat, if start == row {
                        None
                    } else {
                        Some((start as nat, left as nat, right as nat))
                    }) == total,
                    start == row ==> stats.sums@[start as int] >= min_sum,
                    all_inside(rects@, width as nat, height as nat),
                    width > 0,
                    left <= width,
                    right <= width,
                decreases height - row,
            {
                proof {
                    assert(row_stat_matches(stats.sums@, stats.left_edges@, stats.right_edges@, mask@, width as nat, row as int));
                    lemma_cell_in_plane(row as int, 0, width as int, height as int);
                    lemma_first_extent_bound(row_of(mask@, width as nat, row as int), 0);
                    lemma_last_extent_bound(row_of(mask@, width as nat, row as int), width as int);
                }
                let l = stats.left_edges[row];
                let r = stats.right_edges[row];
                if l < left {
                    left = l;
                }
                if r > right {
                    right = r;
                }
                row += 1;
            }
            proof {
                if row < height {
                    assert(row_stat_matches(stats.sums@, stats.left_edges@, stats.right_edges@, mask@, width as nat, row as int));
                }
                assert(row > start);
                assert(row > row0);
            }
            if row - start >= 1 && right > left {
                let (top, bottom) = expand_row_band(start, row, height);
                proof {
                    lemma_expanded_band_bounds(start as nat, row as nat, height as nat);
                }
                let ghost before = rects@;
                rects.push(RectCandidate {
                    x: left,
                    y: top,
                    width: right - left,
                    height: bottom.saturating_sub(top),
                });
                proof {
                    assert forall|k: int| 0 <= k < rects@.len() implies rect_inside(#[trigger] rects@[k], width as nat, height as nat) by {
                        if k < before.len() {
                            assert(rects@[k] == before[k]);
                        }
                    }
                }
            }
        }
    }
    rects
}

} // verus!
