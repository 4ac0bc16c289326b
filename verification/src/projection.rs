//! The projection-band detector: rows dense in band pixels form bands,
//! and the columns of each band split into segments that become
//! candidates; connected components are the fallback.

use vstd::prelude::*;

use crate::bands::{first_nonzero_from, last_nonzero_end, lemma_first_extent_bound};
use crate::bridge::{columns_gap_filled, gap_bridge_horizontal, gap_bridge_vertical, row_of, rows_gap_filled};
use crate::detector::{
    clamp_rect, clamp_roi, clamped, plane_need, required_len, roi_end, threshold_of, SubtitleDetectionConfig,
    SubtitleDetectionError,
};
use crate::grid::roi_readable;
use crate::mask::{band_for, threshold_mask_rect};
use crate::components::{connected_components, overlap_components, stats_inside, ComponentStats};

verus! {

/// The number of set bits of `v`.
pub open spec fn popcount(v: nat) -> nat
    decreases v,
{
    if v == 0 {
        0
    } else {
        v % 2 + popcount(v / 2)
    }
}

/// The count of a row: the set bits of the bytes of its whole 16-byte
/// chunks, plus the non-zero bytes of the remainder.
pub open spec fn ones_count(row: Seq<u8>, k: int) -> nat
    decreases k,
{
    if k <= 0 {
        0
    } else {
        ones_count(row, k - 1) + if k - 1 < 16 * (row.len() / 16) {
            popcount(row[k - 1] as nat)
        } else if row[k - 1] != 0 {
            1nat
        } else {
            0nat
        }
    }
}

proof fn lemma_popcount_byte(v: nat)
    requires
        v < 256,
    ensures
        popcount(v) <= 8,
{
    assert(popcount(v) <= 8) by {
        reveal_with_fuel(popcount, 9);
    }
}

fn byte_popcount(b: u8) -> (c: usize)
    ensures
        c == popcount(b as nat),
        c <= 8,
{
    let mut v = b;
    let mut c: usize = 0;
    proof {
        lemma_popcount_byte(b as nat);
    }
    while v > 0
        invariant
            c + popcount(v as nat) == popcount(b as nat),
            popcount(b as nat) <= 8,
        decreases v,
    {
        c = c + (v % 2) as usize;
        v = v / 2;
    }
    c
}

/// Counts the set bits of the whole 16-byte chunks of a row and the
/// non-zero bytes of its remainder; for a binary row, its band pixels.
pub fn count_ones_row(row: &[u8]) -> (total: usize)
    requires
        row@.len() * 8 <= usize::MAX,
    ensures
        total == ones_count(row@, row@.len() as int),
{
    let n = row.len();
    let whole = 16 * (n / 16);
    let mut total: usize = 0;
    let mut i: usize = 0;
    while i < n
        invariant
            n == row@.len(),
            whole == 16 * (n / 16),
            i <= n,
            total == ones_count(row@, i as int),
            total <= 8 * i,
            n * 8 <= usize::MAX,
        decreases n - i,
    {
        let b = row[i];
        if i < whole {
            total = total + byte_popcount(b);
        } else if b != 0 {
            total = total + 1;
        }
        i += 1;
    }
    total
}

/// Adds a row, value by value and saturating, to the column counts it
/// overlaps.
pub fn accumulate_columns_scalar(row: &[u8], counts: &mut [u16])
    ensures
        final(counts)@.len() == old(counts)@.len(),
        forall|x: int|
            0 <= x < old(counts)@.len() ==> #[trigger] final(counts)@[x] == if x < row@.len() {
                sat16(old(counts)@[x] + row@[x])
            } else {
                old(counts)@[x]
            },
{
    let n = if row.len() < counts.len() { row.len() } else { counts.len() };
    let ghost c0 = counts@;
    let mut x: usize = 0;
    while x < n
        invariant
            counts@.len() == c0.len(),
            n <= row@.len(),
            n <= c0.len(),
            n == row@.len() || n == c0.len(),
            x <= n,
            forall|k: int| 0 <= k < c0.len() ==> #[trigger] counts@[k] == if k < x {
                sat16(c0[k] + row@[k])
            } else {
                c0[k]
            },
        decreases n - x,
    {
        let v = counts[x];
        counts[x] = v.saturating_add(row[x] as u16);
        x += 1;
    }
}

/// Adds a row to the column counts.
pub fn accumulate_columns(row: &[u8], counts: &mut [u16])
    ensures
        final(counts)@.len() == old(counts)@.len(),
        forall|x: int|
            0 <= x < old(counts)@.len() ==> #[trigger] final(counts)@[x] == if x < row@.len() {
                sat16(old(counts)@[x] + row@[x])
            } else {
                old(counts)@[x]
            },
{
    if row.len() == 0 {
        return;
    }
    accumulate_columns_scalar(row, counts);
}

/// A count saturated at `u16::MAX`.
pub open spec fn sat16(v: int) -> u16 {
    if v > u16::MAX {
        u16::MAX
    } else {
        v as u16
    }
}

/// One row's contribution to a column count: the value, then one more for
/// a band pixel, each step saturating.
pub open spec fn count_step(c: u16, v: u8) -> u16 {
    sat16(sat16(c + v) + if v != 0 { 1int } else { 0int })
}

/// The column counts of rows `[start, r)` of a `w`-wide mask.
pub open spec fn band_counts(mask: Seq<u8>, w: nat, start: int, r: int) -> Seq<u16>
    decreases r - start,
{
    if r <= start {
        Seq::new(w, |x: int| 0u16)
    } else {
        let prev = band_counts(mask, w, start, r - 1);
        let row = row_of(mask, w, r - 1);
        Seq::new(w, |x: int| count_step(prev[x], row[x]))
    }
}

pub open spec fn nat_min(a: nat, b: nat) -> nat {
    if a <= b { a } else { b }
}

pub open spec fn nat_max(a: nat, b: nat) -> nat {
    if a >= b { a } else { b }
}

/// The leftmost band column of rows `[start, r)`, or `w` when there is none.
pub open spec fn band_min_x(mask: Seq<u8>, w: nat, start: int, r: int) -> nat
    decreases r - start,
{
    if r <= start {
        w
    } else {
        nat_min(band_min_x(mask, w, start, r - 1), first_nonzero_from(row_of(mask, w, r - 1), 0))
    }
}

/// One past the rightmost band column of rows `[start, r)`, or 0.
pub open spec fn band_max_x(mask: Seq<u8>, w: nat, start: int, r: int) -> nat
    decreases r - start,
{
    if r <= start {
        0
    } else {
        nat_max(band_max_x(mask, w, start, r - 1), last_nonzero_end(row_of(mask, w, r - 1), w as int))
    }
}

/// The column counts of the rows `[start, end)` of a `width`-wide mask,
/// with the band's leftmost column and one past its rightmost column.
fn band_column_counts(mask: &[u8], width: usize, height: usize, start: usize, end: usize) -> (r: (Vec<u16>, usize, usize))
    requires
        mask@.len() == width * height,
        start <= end <= height,
    ensures
        r.0@ == band_counts(mask@, width as nat, start as int, end as int),
        r.1 == band_min_x(mask@, width as nat, start as int, end as int),
        r.2 == band_max_x(mask@, width as nat, start as int, end as int),
        r.1 <= width,
        r.2 <= width,
{
    let mut counts: Vec<u16> = Vec::new();
    let mut k: usize = 0;
    while k < width
        invariant
            k <= width,
            counts@.len() == k,
            forall|j: int| 0 <= j < k ==> #[trigger] counts@[j] == 0u16,
        decreases width - k,
    {
        counts.push(0);
        k += 1;
    }
    proof {
        assert(counts@ == band_counts(mask@, width as nat, start as int, start as int));
    }
    let mlen = mask.len();
    let mut min_x = width;
    let mut max_x: usize = 0;
    let mut r = start;
    while r < end
        invariant
            mask@.len() == width * height,
            mlen == mask@.len(),
            start <= r <= end <= height,
            counts@ == band_counts(mask@, width as nat, start as int, r as int),
            min_x == band_min_x(mask@, width as nat, start as int, r as int),
            max_x == band_max_x(mask@, width as nat, start as int, r as int),
            min_x <= width,
            max_x <= width,
        decreases end - r,
    {
        proof {
            assert(r * width + width <= width * height && 0 <= r * width) by (nonlinear_arith)
                requires
                    r < height,
            ;
        }
        let row = vstd::slice::slice_subrange(mask, r * width, r * width + width);
        let ghost line = row_of(mask@, width as nat, r as int);
        let ghost prev = counts@;
        proof {
            assert(row@ == line);
        }
        accumulate_columns(row, counts.as_mut_slice());
        let mut row_first: Option<usize> = None;
        let mut row_last: Option<usize> = None;
        let mut x: usize = 0;
        while x < width
            invariant
                row@ == line,
                line.len() == width,
                prev.len() == width,
                counts@.len() == width,
                x <= width,
                forall|j: int| 0 <= j < width ==> #[trigger] counts@[j] == if j < x {
                    count_step(prev[j], line[j])
                } else {
                    sat16(prev[j] + line[j])
                },
                row_first is None ==> first_nonzero_from(line, 0) == first_nonzero_from(line, x as int),
                row_first matches Some(f) ==> first_nonzero_from(line, 0) == f && f < x,
                row_last is None ==> last_nonzero_end(line, x as int) == 0,
                row_last matches Some(l) ==> last_nonzero_end(line, x as int) == l && l <= x,
            decreases width - x,
        {
            if row[x] != 0 {
                let c = counts[x];
                counts.set(x, c.saturating_add(1));
                if row_first.is_none() {
                    row_first = Some(x);
                }
                row_last = Some(x + 1);
            }
            x += 1;
        }
        proof {
            assert(counts@ == band_counts(mask@, width as nat, start as int, r + 1));
            lemma_first_extent_bound(line, 0);
        }
        match row_first {
            Some(f) => {
                if f < min_x {
                    min_x = f;
                }
            },
            None => {},
        }
        match row_last {
            Some(l) => {
                if l > max_x {
                    max_x = l;
                }
            },
            None => {},
        }
        r += 1;
    }
    (counts, min_x, max_x)
}

/// The maximal runs `[s, e)` of non-zero counts in `[x, end)`, given the
/// start of the run open at `x`.
pub open spec fn count_runs(c: Seq<u16>, x: int, end: int, open: Option<nat>) -> Seq<(nat, nat)>
    decreases end - x,
{
    if x >= end {
        match open {
            Some(s) => seq![(s, end as nat)],
            None => Seq::empty(),
        }
    } else if c[x] != 0 {
        count_runs(c, x + 1, end, if open is Some { open } else { Some(x as nat) })
    } else {
        (match open {
            Some(s) => seq![(s, x as nat)],
            None => Seq::empty(),
        }) + count_runs(c, x + 1, end, None)
    }
}

/// The segments of non-zero column counts in `[from, to)`.
fn column_segments(counts: &Vec<u16>, from: usize, to: usize) -> (segs: Vec<(usize, usize)>)
    requires
        from <= to <= counts@.len(),
    ensures
        segs@.map_values(|p: (usize, usize)| (p.0 as nat, p.1 as nat)) == count_runs(counts@, from as int, to as int, None),
        forall|k: int| 0 <= k < segs@.len() ==> from <= (#[trigger] segs@[k]).0 < segs@[k].1 <= to,
        ordered_segments(nat_pairs(segs@)),
{
    let mut segs: Vec<(usize, usize)> = Vec::new();
    let mut open: Option<usize> = None;
    let mut x = from;
    let ghost whole = count_runs(counts@, from as int, to as int, None);
    while x < to
        invariant
            from <= x <= to <= counts@.len(),
            whole == count_runs(counts@, from as int, to as int, None),
            segs@.map_values(|p: (usize, usize)| (p.0 as nat, p.1 as nat)) + count_runs(
                counts@,
                x as int,
                to as int,
                match open {
                    Some(s) => Some(s as nat),
                    None => None,
                },
            ) == whole,
            forall|k: int| 0 <= k < segs@.len() ==> from <= (#[trigger] segs@[k]).0 < segs@[k].1 <= x,
            forall|i: int, j: int| 0 <= i < j < segs@.len() ==> (#[trigger] segs@[i]).1 <= (#[trigger] segs@[j]).0,
            open matches Some(s) ==> from <= s < x && forall|k: int| 0 <= k < segs@.len() ==> (#[trigger] segs@[k]).1 <= s,
        decreases to - x,
    {
        let ghost before = segs@;
        if counts[x] != 0 {
            if open.is_none() {
                open = Some(x);
            }
        } else {
            match open {
                Some(s) => {
                    segs.push((s, x));
                    proof {
                        assert(segs@.map_values(|p: (usize, usize)| (p.0 as nat, p.1 as nat)) == before.map_values(
                            |p: (usize, usize)| (p.0 as nat, p.1 as nat),
                        ).push((s as nat, x as nat)));
                    }
                },
                None => {},
            }
            open = None;
        }
        x += 1;
    }
    let ghost before = segs@;
    match open {
        Some(s) => {
            segs.push((s, to));
            proof {
                assert(segs@.map_values(|p: (usize, usize)| (p.0 as nat, p.1 as nat)) == before.map_values(
                    |p: (usize, usize)| (p.0 as nat, p.1 as nat),
                ).push((s as nat, to as nat)));
            }
        },
        None => {},
    }
    proof {
        let n = nat_pairs(segs@);
        assert forall|i: int| 0 <= i < n.len() implies (#[trigger] n[i]).0 < n[i].1 by {
            assert(segs@[i].0 < segs@[i].1);
        }
        assert forall|i: int, j: int| 0 <= i < j < n.len() implies (#[trigger] n[i]).1 <= (#[trigger] n[j]).0 by {
            assert(segs@[i].1 <= segs@[j].0);
        }
    }
    segs
}

/// The segments of `rest` appended to `done`, each joined to the last one
/// when the gap between them is below `split_gap` columns.
pub open spec fn merge_segments(done: Seq<(nat, nat)>, rest: Seq<(nat, nat)>, split_gap: nat) -> Seq<(nat, nat)>
    decreases rest.len(),
{
    if rest.len() == 0 {
        done
    } else {
        let seg = rest[0];
        let next = if done.len() > 0 && (if seg.0 >= done.last().1 {
            seg.0 - done.last().1
        } else {
            0
        }) < split_gap {
            done.drop_last().push((done.last().0, seg.1))
        } else {
            done.push(seg)
        };
        merge_segments(next, rest.drop_first(), split_gap)
    }
}

/// Segments `[s, e)` that are not empty and come in column order without
/// overlapping.
pub open spec fn ordered_segments(segs: Seq<(nat, nat)>) -> bool {
    &&& forall|i: int| 0 <= i < segs.len() ==> (#[trigger] segs[i]).0 < segs[i].1
    &&& forall|i: int, j: int| 0 <= i < j < segs.len() ==> (#[trigger] segs[i]).1 <= (#[trigger] segs[j]).0
}

/// Segment `x` lies inside one of `segs`.
pub open spec fn inside_some(segs: Seq<(nat, nat)>, x: (nat, nat)) -> bool {
    exists|j: int| 0 <= j < segs.len() && (#[trigger] segs[j]).0 <= x.0 && x.1 <= segs[j].1
}

/// Segments of `done` stay covered as the ordered segments `rest` are
/// joined on.
proof fn lemma_merge_keeps(done: Seq<(nat, nat)>, rest: Seq<(nat, nat)>, g: nat, x: (nat, nat))
    requires
        ordered_segments(rest),
        forall|j: int| 0 <= j < done.len() ==> (#[trigger] done[j]).0 <= done[j].1,
        rest.len() > 0 && done.len() > 0 ==> done.last().1 <= rest[0].0,
        inside_some(done, x),
    ensures
        inside_some(merge_segments(done, rest, g), x),
    decreases rest.len(),
{
    if rest.len() > 0 {
        let seg = rest[0];
        let tail = rest.drop_first();
        let joined = done.len() > 0 && (if seg.0 >= done.last().1 {
            seg.0 - done.last().1
        } else {
            0
        }) < g;
        let last = done.last();
        let next = if joined {
            done.drop_last().push((last.0, seg.1))
        } else {
            done.push(seg)
        };
        let j = choose|j: int| 0 <= j < done.len() && (#[trigger] done[j]).0 <= x.0 && x.1 <= done[j].1;
        if joined && j == done.len() - 1 {
            assert(next[j].0 <= x.0 && x.1 <= next[j].1);
        } else {
            assert(next[j] == done[j]);
        }
        assert(inside_some(next, x));
        assert forall|i: int, k: int| 0 <= i < k < tail.len() implies (#[trigger] tail[i]).1 <= (#[trigger] tail[k]).0 by {
            assert(tail[i] == rest[i + 1]);
            assert(tail[k] == rest[k + 1]);
        }
        assert forall|i: int| 0 <= i < tail.len() implies (#[trigger] tail[i]).0 < tail[i].1 by {
            assert(tail[i] == rest[i + 1]);
        }
        assert forall|i: int| 0 <= i < next.len() implies (#[trigger] next[i]).0 <= next[i].1 by {
            if i < done.len() - 1 || !joined {
                if i < done.len() {
                    assert(next[i] == done[i]);
                }
            }
        }
        if tail.len() > 0 {
            assert(rest[0].1 <= rest[1].0);
        }
        lemma_merge_keeps(next, tail, g, x);
    }
}

/// Every segment of `rest` ends up inside a joined segment.
proof fn lemma_merge_covers(done: Seq<(nat, nat)>, rest: Seq<(nat, nat)>, g: nat, k: int)
    requires
        ordered_segments(rest),
        forall|j: int| 0 <= j < done.len() ==> (#[trigger] done[j]).0 <= done[j].1,
        rest.len() > 0 && done.len() > 0 ==> done.last().1 <= rest[0].0,
        0 <= k < rest.len(),
    ensures
        inside_some(merge_segments(done, rest, g), rest[k]),
    decreases rest.len(),
{
    let seg = rest[0];
    let tail = rest.drop_first();
    let joined = done.len() > 0 && (if seg.0 >= done.last().1 {
        seg.0 - done.last().1
    } else {
        0
    }) < g;
    let last = done.last();
    let next = if joined {
        done.drop_last().push((last.0, seg.1))
    } else {
        done.push(seg)
    };
    assert forall|i: int, m: int| 0 <= i < m < tail.len() implies (#[trigger] tail[i]).1 <= (#[trigger] tail[m]).0 by {
        assert(tail[i] == rest[i + 1]);
        assert(tail[m] == rest[m + 1]);
    }
    assert forall|i: int| 0 <= i < tail.len() implies (#[trigger] tail[i]).0 < tail[i].1 by {
        assert(tail[i] == rest[i + 1]);
    }
    assert forall|i: int| 0 <= i < next.len() implies (#[trigger] next[i]).0 <= next[i].1 by {
        if i < done.len() - 1 || !joined {
            if i < done.len() {
                assert(next[i] == done[i]);
            }
        }
    }
    if tail.len() > 0 {
        assert(rest[0].1 <= rest[1].0);
    }
    if k == 0 {
        let j = next.len() - 1;
        assert(next[j].0 <= seg.0 && seg.1 <= next[j].1);
        assert(inside_some(next, seg));
        lemma_merge_keeps(next, tail, g, seg);
    } else {
        assert(tail[k - 1] == rest[k]);
        lemma_merge_covers(next, tail, g, k - 1);
    }
}

/// Joining segments loses no column: every one of the ordered segments
/// `raw` lies inside one of the joined segments.
pub proof fn lemma_joined_segments_cover(raw: Seq<(nat, nat)>, split_gap: nat, k: int)
    requires
        ordered_segments(raw),
        0 <= k < raw.len(),
    ensures
        inside_some(merge_segments(Seq::empty(), raw, split_gap), raw[k]),
{
    lemma_merge_covers(Seq::empty(), raw, split_gap, k);
}

/// Segment `m` holds both `raw[i]` and the segment after it.
pub open spec fn holds_pair(m: (nat, nat), raw: Seq<(nat, nat)>, i: int) -> bool {
    m.0 <= raw[i].0 && raw[i + 1].1 <= m.1
}

/// What joining the first `p` of the ordered segments `raw` into `done`
/// keeps: the joined segments are not reversed, the last one ends where
/// `raw[p - 1]` does, neighbours are at least `g` columns apart, and none
/// holds two neighbouring raw segments `g` or more columns apart.
spec fn join_inv(raw: Seq<(nat, nat)>, g: nat, done: Seq<(nat, nat)>, p: int) -> bool {
    &&& 0 <= p <= raw.len()
    &&& forall|j: int| 0 <= j < done.len() ==> (#[trigger] done[j]).0 <= done[j].1
    &&& (done.len() > 0 <==> p > 0)
    &&& p > 0 ==> done.last().1 == raw[p - 1].1
    &&& forall|j: int| 0 <= j < done.len() - 1 ==> (#[trigger] done[j]).1 + g <= done[j + 1].0
    &&& forall|j: int, i: int|
        0 <= j < done.len() && 0 <= i < raw.len() - 1 && raw[i].1 + g <= raw[i + 1].0 ==> !#[trigger] holds_pair(done[j], raw, i)
}

proof fn lemma_ordered_pair(raw: Seq<(nat, nat)>, a: int, b: int)
    requires
        ordered_segments(raw),
        0 <= a < b < raw.len(),
    ensures
        raw[a].0 < raw[a].1 <= raw[b].0 < raw[b].1,
{
    assert(raw[a].1 <= raw[b].0);
    assert(raw[a].0 < raw[a].1);
    assert(raw[b].0 < raw[b].1);
}

/// The joined segments after joining `seg` on to `done`.
spec fn join_next(done: Seq<(nat, nat)>, seg: (nat, nat), g: nat) -> Seq<(nat, nat)> {
    let last = done.last();
    if done.len() > 0 && (if seg.0 >= last.1 {
        seg.0 - last.1
    } else {
        0
    }) < g {
        done.drop_last().push((last.0, seg.1))
    } else {
        done.push(seg)
    }
}

proof fn lemma_join_no_wide_pair(raw: Seq<(nat, nat)>, g: nat, done: Seq<(nat, nat)>, p: int, j: int, i: int)
    requires
        ordered_segments(raw),
        join_inv(raw, g, done, p),
        0 <= p < raw.len(),
        0 <= j < join_next(done, raw[p], g).len(),
        0 <= i < raw.len() - 1,
        raw[i].1 + g <= raw[i + 1].0,
    ensures
        !holds_pair(join_next(done, raw[p], g)[j], raw, i),
{
    let seg = raw[p];
    let last = done.last();
    let next = join_next(done, seg, g);
    let joined = done.len() > 0 && (if seg.0 >= last.1 {
        seg.0 - last.1
    } else {
        0
    }) < g;
    if p > 0 {
        lemma_ordered_pair(raw, p - 1, p);
    }
    if j < done.len() - 1 || (!joined && j < done.len()) {
        assert(next[j] == done[j]);
        assert(!holds_pair(done[j], raw, i));
    } else if joined {
        assert(next[j] == (last.0, seg.1));
        if holds_pair(next[j], raw, i) {
            if i + 1 < p {
                if i + 1 < p - 1 {
                    lemma_ordered_pair(raw, i + 1, p - 1);
                }
                assert(holds_pair(done[done.len() - 1], raw, i));
            } else if i + 1 > p {
                lemma_ordered_pair(raw, p, i + 1);
            }
        }
    } else {
        assert(next[j] == seg);
        if holds_pair(next[j], raw, i) {
            if i < p {
                lemma_ordered_pair(raw, i, p);
            } else {
                lemma_ordered_pair(raw, p, i + 1);
            }
        }
    }
}

proof fn lemma_join_step(raw: Seq<(nat, nat)>, g: nat, done: Seq<(nat, nat)>, p: int)
    requires
        ordered_segments(raw),
        join_inv(raw, g, done, p),
        0 <= p < raw.len(),
    ensures
        join_inv(raw, g, join_next(done, raw[p], g), p + 1),
{
    let seg = raw[p];
    let last = done.last();
    let next = join_next(done, seg, g);
    let joined = done.len() > 0 && (if seg.0 >= last.1 {
        seg.0 - last.1
    } else {
        0
    }) < g;
    assert(raw[p].0 < raw[p].1);
    if p > 0 {
        lemma_ordered_pair(raw, p - 1, p);
    }
    assert forall|j: int| 0 <= j < next.len() implies (#[trigger] next[j]).0 <= next[j].1 by {
        if j < done.len() - 1 || (!joined && j < done.len()) {
            assert(next[j] == done[j]);
        }
    }
    assert forall|j: int| 0 <= j < next.len() - 1 implies (#[trigger] next[j]).1 + g <= next[j + 1].0 by {
        if j < done.len() - 1 {
            assert(next[j] == done[j]);
            if j + 1 < done.len() - 1 || !joined {
                assert(next[j + 1] == done[j + 1]);
            }
        }
    }
    assert forall|j: int, i: int|
        0 <= j < next.len() && 0 <= i < raw.len() - 1 && raw[i].1 + g <= raw[i + 1].0 implies !#[trigger] holds_pair(next[j], raw, i) by {
        lemma_join_no_wide_pair(raw, g, done, p, j, i);
    }
}

proof fn lemma_join_inv(raw: Seq<(nat, nat)>, g: nat, done: Seq<(nat, nat)>, p: int)
    requires
        ordered_segments(raw),
        join_inv(raw, g, done, p),
    ensures
        join_inv(raw, g, merge_segments(done, raw.subrange(p, raw.len() as int), g), raw.len() as int),
    decreases raw.len() - p,
{
    let n = raw.len() as int;
    let rest = raw.subrange(p, n);
    if p == n {
        assert(rest.len() == 0);
    } else {
        assert(rest[0] == raw[p]);
        assert(rest.drop_first() =~= raw.subrange(p + 1, n));
        lemma_join_step(raw, g, done, p);
        assert(merge_segments(done, rest, g) == merge_segments(join_next(done, raw[p], g), raw.subrange(p + 1, n), g));
        lemma_join_inv(raw, g, join_next(done, raw[p], g), p + 1);
    }
}

proof fn lemma_joined_apart(m: Seq<(nat, nat)>, g: nat, a: int, b: int)
    requires
        forall|j: int| 0 <= j < m.len() ==> (#[trigger] m[j]).0 <= m[j].1,
        forall|j: int| 0 <= j < m.len() - 1 ==> (#[trigger] m[j]).1 + g <= m[j + 1].0,
        0 <= a < b < m.len(),
    ensures
        m[a].1 + g <= m[b].0,
    decreases b - a,
{
    assert(m[b - 1].1 + g <= m[b].0);
    if a < b - 1 {
        lemma_joined_apart(m, g, a, b - 1);
        assert(m[b - 1].0 <= m[b - 1].1);
    }
}

/// Joining splits exactly at the wide gaps: of the ordered segments `raw`,
/// two neighbours closer than `split_gap` columns end up in one joined
/// segment, two neighbours `split_gap` or more apart never do, and the
/// joined segments are at least `split_gap` columns apart.
pub proof fn lemma_joined_segments_split(raw: Seq<(nat, nat)>, split_gap: nat)
    requires
        ordered_segments(raw),
    ensures
        ({
            let m = merge_segments(Seq::empty(), raw, split_gap);
            &&& forall|j: int| 0 <= j < m.len() - 1 ==> (#[trigger] m[j]).1 + split_gap <= m[j + 1].0
            &&& forall|i: int, j: int|
                0 <= i < raw.len() - 1 && raw[i].1 + split_gap <= raw[i + 1].0 && 0 <= j < m.len() ==> !#[trigger] holds_pair(
                    m[j],
                    raw,
                    i,
                )
            &&& forall|i: int|
                0 <= i < raw.len() - 1 && raw[i + 1].0 < raw[i].1 + split_gap ==> exists|j: int|
                    0 <= j < m.len() && #[trigger] holds_pair(m[j], raw, i)
        }),
{
    let g = split_gap;
    let e = Seq::<(nat, nat)>::empty();
    assert(raw.subrange(0, raw.len() as int) =~= raw);
    lemma_join_inv(raw, g, e, 0);
    let m = merge_segments(e, raw, g);
    assert forall|i: int| 0 <= i < raw.len() - 1 && raw[i + 1].0 < raw[i].1 + g implies exists|j: int|
        0 <= j < m.len() && #[trigger] holds_pair(m[j], raw, i) by {
        lemma_joined_segments_cover(raw, g, i);
        lemma_joined_segments_cover(raw, g, i + 1);
        let j1 = choose|j: int| 0 <= j < m.len() && (#[trigger] m[j]).0 <= raw[i].0 && raw[i].1 <= m[j].1;
        let j2 = choose|j: int| 0 <= j < m.len() && (#[trigger] m[j]).0 <= raw[i + 1].0 && raw[i + 1].1 <= m[j].1;
        lemma_ordered_pair(raw, i, i + 1);
        if j1 < j2 {
            lemma_joined_apart(m, g, j1, j2);
        } else if j2 < j1 {
            lemma_joined_apart(m, g, j2, j1);
        }
        assert(holds_pair(m[j1], raw, i));
    }
}

pub open spec fn nat_pairs(s: Seq<(usize, usize)>) -> Seq<(nat, nat)> {
    s.map_values(|p: (usize, usize)| (p.0 as nat, p.1 as nat))
}

/// Joins segments separated by gaps below `split_gap` columns.
fn merge_column_segments(raw: &Vec<(usize, usize)>, split_gap: usize, Ghost(bound): Ghost<nat>) -> (merged: Vec<(usize, usize)>)
    requires
        forall|k: int| 0 <= k < raw@.len() ==> (#[trigger] raw@[k]).0 < raw@[k].1 <= bound,
    ensures
        nat_pairs(merged@) == merge_segments(Seq::empty(), nat_pairs(raw@), split_gap as nat),
        forall|k: int| 0 <= k < merged@.len() ==> (#[trigger] merged@[k]).1 <= bound && merged@[k].0 < bound,
        ordered_segments(nat_pairs(raw@)) ==> forall|k: int|
            0 <= k < raw@.len() ==> inside_some(nat_pairs(merged@), #[trigger] nat_pairs(raw@)[k]),
        ordered_segments(nat_pairs(raw@)) ==> forall|j: int|
            0 <= j < merged@.len() - 1 ==> (#[trigger] merged@[j]).1 + split_gap <= merged@[j + 1].0,
{
    proof {
        if ordered_segments(nat_pairs(raw@)) {
            lemma_joined_segments_split(nat_pairs(raw@), split_gap as nat);
            assert forall|k: int| 0 <= k < raw@.len() implies inside_some(
                merge_segments(Seq::empty(), nat_pairs(raw@), split_gap as nat),
                #[trigger] nat_pairs(raw@)[k],
            ) by {
                lemma_joined_segments_cover(nat_pairs(raw@), split_gap as nat, k);
            }
        }
    }
    let mut merged: Vec<(usize, usize)> = Vec::new();
    let ghost whole = merge_segments(Seq::empty(), nat_pairs(raw@), split_gap as nat);
    let mut i: usize = 0;
    proof {
        assert(nat_pairs(raw@).subrange(0, raw@.len() as int) == nat_pairs(raw@));
        assert(nat_pairs(merged@) == Seq::<(nat, nat)>::empty());
    }
    while i < raw.len()
        invariant
            i <= raw@.len(),
            whole == merge_segments(Seq::empty(), nat_pairs(raw@), split_gap as nat),
            merge_segments(nat_pairs(merged@), nat_pairs(raw@).subrange(i as int, raw@.len() as int), split_gap as nat)
                == whole,
            forall|k: int| 0 <= k < raw@.len() ==> (#[trigger] raw@[k]).0 < raw@[k].1 <= bound,
            forall|k: int| 0 <= k < merged@.len() ==> (#[trigger] merged@[k]).1 <= bound && merged@[k].0 < bound,
        decreases raw@.len() - i,
    {
        let seg = raw[i];
        let ghost rest = nat_pairs(raw@).subrange(i as int, raw@.len() as int);
        let ghost before = merged@;
        proof {
            assert(rest[0] == (seg.0 as nat, seg.1 as nat));
            assert(rest.drop_first() == nat_pairs(raw@).subrange(i + 1, raw@.len() as int));
        }
        let n = merged.len();
        let joined = if n > 0 {
            let last = merged[n - 1];
            let gap = if seg.0 >= last.1 { seg.0 - last.1 } else { 0 };
            gap < split_gap
        } else {
            false
        };
        if joined {
            let last = merged[n - 1];
            merged.set(n - 1, (last.0, seg.1));
            proof {
                assert(nat_pairs(merged@) == nat_pairs(before).drop_last().push((last.0 as nat, seg.1 as nat)));
            }
        } else {
            merged.push(seg);
            proof {
                assert(nat_pairs(merged@) == nat_pairs(before).push((seg.0 as nat, seg.1 as nat)));
            }
        }
        proof {
            assert forall|k: int| 0 <= k < merged@.len() implies (#[trigger] merged@[k]).1 <= bound && merged@[k].0 < bound by {
                if k < before.len() && !(joined && k == n - 1) {
                    assert(merged@[k] == before[k]);
                }
            }
        }
        i += 1;
    }
    proof {
        assert(nat_pairs(raw@).subrange(i as int, raw@.len() as int).len() == 0);
        if ordered_segments(nat_pairs(raw@)) {
            let m = nat_pairs(merged@);
            assert forall|j: int| 0 <= j < merged@.len() - 1 implies (#[trigger] merged@[j]).1 + split_gap <= merged@[j + 1].0 by {
                assert(m[j].1 + split_gap <= m[j + 1].0);
            }
        }
    }
    merged
}

/// A candidate of the projection detector: its rectangle and the sum of
/// its column counts.
#[derive(Clone, Copy, Debug, PartialEq, Eq, Structural)]
pub struct ProjectionCandidate {
    pub x: usize,
    pub y: usize,
    pub width: usize,
    pub height: usize,
    pub ones: usize,
}

/// The candidate starts inside a `w` by `h` plane.
pub open spec fn cand_inside(c: ProjectionCandidate, w: nat, h: nat) -> bool {
    c.x < w && c.y < h
}

/// The sum of the counts of columns `[s, e)`.
pub open spec fn count_sum(c: Seq<u16>, s: int, e: int) -> nat
    decreases e - s,
{
    if e <= s {
        0
    } else {
        count_sum(c, s, e - 1) + c[e - 1] as nat
    }
}

/// The candidate of segment `seg` of a band of `height` rows starting at
/// row `y`: kept when it is not empty, its counts fill at least a quarter
/// of its area, and it is at least `min_w` columns wide.
pub open spec fn segment_candidate(seg: (nat, nat), c: Seq<u16>, y: nat, height: nat, min_w: nat) -> Seq<ProjectionCandidate> {
    let w = if seg.1 >= seg.0 { (seg.1 - seg.0) as nat } else { 0 };
    let ones = count_sum(c, seg.0 as int, seg.1 as int);
    let area = w * height;
    if w == 0 || area == 0 || 4 * ones < area || w < min_w {
        Seq::empty()
    } else {
        seq![ProjectionCandidate { x: seg.0 as usize, y: y as usize, width: w as usize, height: height as usize, ones: ones as usize }]
    }
}

/// The candidates of the segments, in order.
pub open spec fn segment_candidates(segs: Seq<(nat, nat)>, c: Seq<u16>, y: nat, height: nat, min_w: nat) -> Seq<ProjectionCandidate>
    decreases segs.len(),
{
    if segs.len() == 0 {
        Seq::empty()
    } else {
        segment_candidates(segs.drop_last(), c, y, height, min_w) + segment_candidate(segs.last(), c, y, height, min_w)
    }
}

/// The candidates of the band of rows `[start, end)` of a `w`-wide mask:
/// none when it is shorter than `min_h` rows or holds no band column;
/// otherwise the segments of non-zero column counts within its extent,
/// joined across gaps below a fifth of the extent (at least 32 columns),
/// and filtered by `segment_candidate`.
pub open spec fn band_analysis(mask: Seq<u8>, w: nat, start: nat, end: nat, min_w: nat, min_h: nat) -> Seq<ProjectionCandidate> {
    let height = if end >= start { (end - start) as nat } else { 0 };
    let c = band_counts(mask, w, start as int, end as int);
    let min_x = band_min_x(mask, w, start as int, end as int);
    let max_x = band_max_x(mask, w, start as int, end as int);
    if height == 0 || height < min_h || min_x >= max_x {
        Seq::empty()
    } else {
        let bw = (max_x - min_x) as nat;
        let split_gap = nat_max(32, (bw + 4) / 5);
        let raw = count_runs(c, min_x as int, max_x as int, None);
        segment_candidates(merge_segments(Seq::empty(), raw, split_gap), c, start, height, min_w)
    }
}

/// Splits the band of rows `[band_start, band_end)` of a `width` by
/// `height` mask into candidate segments.
pub fn analyze_band(
    mask: &[u8],
    width: usize,
    height: usize,
    band_start: usize,
    band_end: usize,
    min_region_width: usize,
    min_region_height: usize,
) -> (cands: Vec<ProjectionCandidate>)
    requires
        mask@.len() == width * height,
        band_start <= band_end <= height,
        width * 65535 <= usize::MAX,
    ensures
        cands@ == band_analysis(mask@, width as nat, band_start as nat, band_end as nat, min_region_width as nat, min_region_height as nat),
        forall|k: int| 0 <= k < cands@.len() ==> #[trigger] cand_inside(cands@[k], width as nat, height as nat),
{
    let mut cands: Vec<ProjectionCandidate> = Vec::new();
    let band_height = band_end - band_start;
    if band_height == 0 || band_height < min_region_height {
        return cands;
    }
    let (counts, min_x, max_x) = band_column_counts(mask, width, height, band_start, band_end);
    if min_x >= max_x {
        return cands;
    }
    let band_width = max_x - min_x;
    let split_gap = if (band_width + 4) / 5 > 32 { (band_width + 4) / 5 } else { 32 };
    let raw = column_segments(&counts, min_x, max_x);
    let merged = merge_column_segments(&raw, split_gap, Ghost(width as nat));
    let ghost c = counts@;
    let ghost segs = nat_pairs(merged@);
    let mlen = mask.len();
    let mut i: usize = 0;
    while i < merged.len()
        invariant
            i <= merged@.len(),
            mlen == width * height,
            c == counts@,
            counts@.len() == width,
            width * 65535 <= usize::MAX,
            band_height <= height,
            segs == nat_pairs(merged@),
            forall|k: int| 0 <= k < merged@.len() ==> (#[trigger] merged@[k]).1 <= width && merged@[k].0 < width,
            band_start < band_end <= height,
            forall|k: int| 0 <= k < cands@.len() ==> #[trigger] cand_inside(cands@[k], width as nat, height as nat),
            cands@ == segment_candidates(segs.subrange(0, i as int), c, band_start as nat, band_height as nat, min_region_width as nat),
        decreases merged@.len() - i,
    {
        let seg = merged[i];
        proof {
            assert(segs.subrange(0, i + 1).drop_last() == segs.subrange(0, i as int));
            assert(segs[i as int] == (seg.0 as nat, seg.1 as nat));
        }
        let seg_width = if seg.1 >= seg.0 { seg.1 - seg.0 } else { 0 };
        if seg_width > 0 {
            let mut ones: usize = 0;
            let mut x = seg.0;
            while x < seg.1
                invariant
                    seg.0 <= x <= seg.1 <= width,
                    counts@.len() == width,
                    c == counts@,
                    width * 65535 <= usize::MAX,
                    ones == count_sum(c, seg.0 as int, x as int),
                    ones <= 65535 * (x - seg.0),
                decreases seg.1 - x,
            {
                ones = ones + counts[x] as usize;
                x += 1;
            }
            let area = match seg_width.checked_mul(band_height) {
                Some(a) => a,
                None => usize::MAX,
            };
            proof {
                assert(seg_width * band_height <= width * height) by (nonlinear_arith)
                    requires
                        seg_width <= width,
                        band_height <= height,
                ;
            }
            if area > 0 && (ones as u128) * 4 >= area as u128 && seg_width >= min_region_width {
                let ghost before = cands@;
                cands.push(ProjectionCandidate { x: seg.0, y: band_start, width: seg_width, height: band_height, ones });
                proof {
                    assert forall|k: int| 0 <= k < cands@.len() implies #[trigger] cand_inside(cands@[k], width as nat, height as nat) by {
                        if k < before.len() {
                            assert(cands@[k] == before[k]);
                        }
                    }
                }
            }
        }
        i += 1;
    }
    proof {
        assert(segs.subrange(0, merged@.len() as int) == segs);
    }
    cands
}

/// Shortest run of dense rows that forms a band.
pub const MIN_BAND_HEIGHT: usize = 8;
/// Most candidates kept from the bands.
pub const MAX_BANDS: usize = 5;

/// Inserts `r` after the last candidate whose count is at least its count.
pub open spec fn insert_by_mass(s: Seq<ProjectionCandidate>, r: ProjectionCandidate) -> Seq<ProjectionCandidate>
    decreases s.len(),
{
    if s.len() == 0 {
        seq![r]
    } else if s.last().ones >= r.ones {
        s.push(r)
    } else {
        insert_by_mass(s.drop_last(), r).push(s.last())
    }
}

/// The candidates by decreasing count, candidates with equal counts in
/// their order in `s`.
pub open spec fn sorted_by_mass(s: Seq<ProjectionCandidate>) -> Seq<ProjectionCandidate>
    decreases s.len(),
{
    if s.len() == 0 {
        Seq::empty()
    } else {
        insert_by_mass(sorted_by_mass(s.drop_last()), s.last())
    }
}

/// Orders candidates by decreasing count, keeping the order of equal ones.
pub fn sort_by_mass(cands: &Vec<ProjectionCandidate>) -> (sorted: Vec<ProjectionCandidate>)
    ensures
        sorted@ == sorted_by_mass(cands@),
{
    let mut sorted: Vec<ProjectionCandidate> = Vec::new();
    let mut i: usize = 0;
    while i < cands.len()
        invariant
            i <= cands@.len(),
            sorted@ == sorted_by_mass(cands@.subrange(0, i as int)),
        decreases cands@.len() - i,
    {
        let r = cands[i];
        let ghost s0 = sorted@;
        let mut j = sorted.len();
        proof {
            assert(s0.subrange(0, s0.len() as int) == s0);
            assert(insert_by_mass(s0, r) == insert_by_mass(s0, r) + s0.subrange(s0.len() as int, s0.len() as int));
        }
        while j > 0 && sorted[j - 1].ones < r.ones
            invariant
                sorted@ == s0,
                j <= s0.len(),
                insert_by_mass(s0, r) == insert_by_mass(s0.subrange(0, j as int), r) + s0.subrange(j as int, s0.len() as int),
            decreases j,
        {
            proof {
                let pre = s0.subrange(0, j as int);
                assert(pre.drop_last() == s0.subrange(0, j - 1));
                assert(pre.last() == s0[j - 1]);
                assert(s0.subrange(j - 1, s0.len() as int) == seq![s0[j - 1]] + s0.subrange(j as int, s0.len() as int));
            }
            j -= 1;
        }
        proof {
            let pre = s0.subrange(0, j as int);
            assert(insert_by_mass(pre, r) == pre.push(r));
            assert(s0.insert(j as int, r) == pre.push(r) + s0.subrange(j as int, s0.len() as int));
            assert(cands@.subrange(0, i + 1).drop_last() == cands@.subrange(0, i as int));
        }
        sorted.insert(j, r);
        i += 1;
    }
    proof {
        assert(cands@.subrange(0, cands@.len() as int) == cands@);
    }
    sorted
}

/// Every candidate of an insertion is the inserted one or one of `s`.
proof fn lemma_insert_mass_members(s: Seq<ProjectionCandidate>, r: ProjectionCandidate)
    ensures
        insert_by_mass(s, r).len() == s.len() + 1,
        forall|k: int| 0 <= k < s.len() + 1 ==> #[trigger] insert_by_mass(s, r)[k] == r || s.contains(insert_by_mass(s, r)[k]),
    decreases s.len(),
{
    if s.len() > 0 && s.last().ones < r.ones {
        let p = s.drop_last();
        lemma_insert_mass_members(p, r);
        assert forall|k: int| 0 <= k < s.len() + 1 implies #[trigger] insert_by_mass(s, r)[k] == r || s.contains(
            insert_by_mass(s, r)[k],
        ) by {
            let v = insert_by_mass(s, r)[k];
            if k < s.len() {
                if v != r {
                    let m = choose|m: int| 0 <= m < p.len() && p[m] == v;
                    assert(s[m] == v);
                }
            } else {
                assert(s[s.len() - 1] == v);
            }
        }
    } else if s.len() > 0 {
        assert forall|k: int| 0 <= k < s.len() + 1 implies #[trigger] insert_by_mass(s, r)[k] == r || s.contains(
            insert_by_mass(s, r)[k],
        ) by {
            if k < s.len() {
                assert(s[k] == insert_by_mass(s, r)[k]);
            }
        }
    }
}

/// Sorting by count keeps the number of candidates and every candidate.
pub proof fn lemma_mass_sort_members(s: Seq<ProjectionCandidate>)
    ensures
        sorted_by_mass(s).len() == s.len(),
        forall|k: int| 0 <= k < s.len() ==> s.contains(#[trigger] sorted_by_mass(s)[k]),
    decreases s.len(),
{
    if s.len() > 0 {
        let p = s.drop_last();
        lemma_mass_sort_members(p);
        let sp = sorted_by_mass(p);
        lemma_insert_mass_members(sp, s.last());
        assert forall|k: int| 0 <= k < s.len() implies s.contains(#[trigger] sorted_by_mass(s)[k]) by {
            let v = sorted_by_mass(s)[k];
            if v == s.last() {
                assert(s[s.len() - 1] == v);
            } else {
                assert(sp.contains(v));
                let m = choose|m: int| 0 <= m < sp.len() && sp[m] == v;
                assert(p.contains(sp[m]));
                let q = choose|q: int| 0 <= q < p.len() && p[q] == v;
                assert(s[q] == v);
            }
        }
    }
}

/// The count of row `y` of a `w`-wide mask, as `count_ones_row` gives it.
pub open spec fn row_ones(mask: Seq<u8>, w: nat, y: int) -> nat {
    ones_count(row_of(mask, w, y), w as int)
}

/// The counts of rows `[0, r)`, summed.
pub open spec fn total_ones(mask: Seq<u8>, w: nat, r: int) -> nat
    decreases r,
{
    if r <= 0 {
        0
    } else {
        total_ones(mask, w, r - 1) + row_ones(mask, w, r - 1)
    }
}

/// A row of `ones` counted pixels out of `w` is dense in a `h`-row region
/// of `total` counted pixels: its density reaches the smaller of 0.08 and
/// 0.7 times the average density, and at least 0.02.
pub open spec fn dense_row(ones: nat, w: nat, h: nat, total: nat) -> bool {
    50 * ones >= w && (25 * ones >= 2 * w || 10 * h * ones >= 7 * total)
}

/// The band `[s, end)` when it has at least `MIN_BAND_HEIGHT` rows.
pub open spec fn close_dense_band(band: Option<nat>, end: nat) -> Seq<(nat, nat)> {
    match band {
        Some(s) => if end >= s + MIN_BAND_HEIGHT {
            seq![(s, end)]
        } else {
            Seq::empty()
        },
        None => Seq::empty(),
    }
}

/// The maximal runs of dense rows from row `y` on, given the open run.
pub open spec fn dense_bands(mask: Seq<u8>, w: nat, h: nat, total: nat, y: nat, band: Option<nat>) -> Seq<(nat, nat)>
    decreases h - y,
{
    if y >= h {
        close_dense_band(band, h)
    } else if dense_row(row_ones(mask, w, y as int), w, h, total) {
        dense_bands(mask, w, h, total, y + 1, if band is Some { band } else { Some(y) })
    } else {
        close_dense_band(band, y) + dense_bands(mask, w, h, total, y + 1, None)
    }
}

/// The candidates of the bands, band after band.
pub open spec fn bands_candidates(mask: Seq<u8>, w: nat, bands: Seq<(nat, nat)>, min_w: nat, min_h: nat) -> Seq<ProjectionCandidate>
    decreases bands.len(),
{
    if bands.len() == 0 {
        Seq::empty()
    } else {
        bands_candidates(mask, w, bands.drop_last(), min_w, min_h) + band_analysis(
            mask,
            w,
            bands.last().0,
            bands.last().1,
            min_w,
            min_h,
        )
    }
}

/// The candidates of the dense-row bands of a `w` by `h` mask, by
/// decreasing count, at most `MAX_BANDS` of them.
pub open spec fn band_candidates_of(mask: Seq<u8>, w: nat, h: nat, min_w: nat, min_h: nat) -> Seq<ProjectionCandidate> {
    let bands = dense_bands(mask, w, h, total_ones(mask, w, h as int), 0, None);
    let sorted = sorted_by_mass(bands_candidates(mask, w, bands, min_w, min_h));
    if sorted.len() > MAX_BANDS {
        sorted.subrange(0, MAX_BANDS as int)
    } else {
        sorted
    }
}

/// Appends `more` to `v`.
fn append_candidates(v: &mut Vec<ProjectionCandidate>, more: &Vec<ProjectionCandidate>)
    ensures
        final(v)@ == old(v)@ + more@,
{
    let ghost v0 = v@;
    let mut k: usize = 0;
    while k < more.len()
        invariant
            k <= more@.len(),
            v@ == v0 + more@.subrange(0, k as int),
        decreases more@.len() - k,
    {
        v.push(more[k]);
        proof {
            assert(more@.subrange(0, k + 1) == more@.subrange(0, k as int).push(more@[k as int]));
        }
        k += 1;
    }
    proof {
        assert(more@.subrange(0, more@.len() as int) == more@);
    }
}

/// The candidates of the dense-row bands of a `width` by `height` mask.
pub fn find_candidates(
    mask: &[u8],
    width: usize,
    height: usize,
    min_region_width: usize,
    min_region_height: usize,
) -> (cands: Vec<ProjectionCandidate>)
    requires
        mask@.len() == width * height,
        width * height * 8 <= usize::MAX,
        width * 65535 <= usize::MAX,
    ensures
        (width == 0 || height == 0) ==> cands@.len() == 0,
        width > 0 && height > 0 ==> cands@ == band_candidates_of(mask@, width as nat, height as nat, min_region_width as nat, min_region_height as nat),
        forall|k: int| 0 <= k < cands@.len() ==> #[trigger] cand_inside(cands@[k], width as nat, height as nat),
{
    let mut all: Vec<ProjectionCandidate> = Vec::new();
    if width == 0 || height == 0 {
        return all;
    }
    let mlen = mask.len();
    let mut ones: Vec<usize> = Vec::new();
    let mut total: usize = 0;
    let mut y: usize = 0;
    while y < height
        invariant
            mask@.len() == width * height,
            mlen == mask@.len(),
            width * height * 8 <= usize::MAX,
            y <= height,
            ones@.len() == y,
            forall|k: int| 0 <= k < y ==> #[trigger] ones@[k] == row_ones(mask@, width as nat, k),
            total == total_ones(mask@, width as nat, y as int),
            total <= 8 * width * y,
        decreases height - y,
    {
        proof {
            assert(y * width + width <= width * height && 0 <= y * width) by (nonlinear_arith)
                requires
                    y < height,
            ;
            assert(8 * width * (y + 1) <= width * height * 8) by (nonlinear_arith)
                requires
                    y < height,
            ;
            assert(8 * width * (y + 1) == 8 * width * y + 8 * width) by (nonlinear_arith);
            assert(width * 8 <= width * height * 8) by (nonlinear_arith)
                requires
                    y < height,
            ;
        }
        let row = vstd::slice::slice_subrange(mask, y * width, y * width + width);
        proof {
            assert(row@ == row_of(mask@, width as nat, y as int));
        }
        let count = count_ones_row(row);
        proof {
            lemma_ones_bound(row@, width as int);
        }
        ones.push(count);
        total = total + count;
        y += 1;
    }
    let ghost bands = dense_bands(mask@, width as nat, height as nat, total as nat, 0, None);
    let mut open: Option<usize> = None;
    let ghost mut done_bands: Seq<(nat, nat)> = Seq::empty();
    let mut y: usize = 0;
    while y < height
        invariant
            mask@.len() == width * height,
            width * height * 8 <= usize::MAX,
            width * 65535 <= usize::MAX,
            y <= height,
            ones@.len() == height,
            forall|k: int| 0 <= k < height ==> #[trigger] ones@[k] == row_ones(mask@, width as nat, k),
            total == total_ones(mask@, width as nat, height as int),
            total <= 8 * width * height,
            bands == dense_bands(mask@, width as nat, height as nat, total as nat, 0, None),
            done_bands + dense_bands(mask@, width as nat, height as nat, total as nat, y as nat, match open {
                Some(s) => Some(s as nat),
                None => None,
            }) == bands,
            all@ == bands_candidates(mask@, width as nat, done_bands, min_region_width as nat, min_region_height as nat),
            forall|k: int| 0 <= k < all@.len() ==> #[trigger] cand_inside(all@[k], width as nat, height as nat),
            forall|k: int| 0 <= k < done_bands.len() ==> (#[trigger] done_bands[k]).0 <= done_bands[k].1 <= height,
            open matches Some(s) ==> s < y,
        decreases height - y,
    {
        let o = ones[y];
        proof {
            assert(y * width + width <= width * height && 0 <= y * width) by (nonlinear_arith)
                requires
                    y < height,
            ;
            assert(o <= 8 * width) by {
                lemma_ones_bound(row_of(mask@, width as nat, y as int), width as int);
            }
            assert(height * o <= 8 * width * height) by (nonlinear_arith)
                requires
                    o <= 8 * width,
            ;
            assert(8 * width * height <= usize::MAX) by (nonlinear_arith)
                requires
                    width * height * 8 <= usize::MAX,
            ;
            assert(10 * (height * o) == 10 * height * o) by (nonlinear_arith);
        }
        let ghost d_before = done_bands;
        let ghost open_before = match open {
            Some(s) => Some(s as nat),
            None => None::<nat>,
        };
        let dense = (o as u128) * 50 >= width as u128 && ((o as u128) * 25 >= 2 * (width as u128) || 10 * ((height as u128)
            * (o as u128)) >= 7 * (total as u128));
        if dense {
            if open.is_none() {
                open = Some(y);
            }
        } else {
            match open {
                Some(s) => {
                    if y - s >= MIN_BAND_HEIGHT {
                        let more = analyze_band(mask, width, height, s, y, min_region_width, min_region_height);
                        let ghost a0 = all@;
                        append_candidates(&mut all, &more);
                        proof {
                            assert forall|k: int| 0 <= k < all@.len() implies #[trigger] cand_inside(all@[k], width as nat, height as nat) by {
                                if k < a0.len() {
                                    assert(all@[k] == a0[k]);
                                } else {
                                    assert(all@[k] == more@[k - a0.len()]);
                                }
                            }
                        }
                        proof {
                            let d0 = done_bands;
                            done_bands = d0.push((s as nat, y as nat));
                            assert(done_bands.drop_last() == d0);
                        }
                    }
                },
                None => {},
            }
            open = None;
            proof {
                let tail = dense_bands(mask@, width as nat, height as nat, total as nat, y as nat + 1, None);
                assert(d_before + (close_dense_band(open_before, y as nat) + tail) == done_bands + tail);
            }
        }
        y += 1;
    }
    match open {
        Some(s) => {
            if height - s >= MIN_BAND_HEIGHT {
                let more = analyze_band(mask, width, height, s, height, min_region_width, min_region_height);
                let ghost a0 = all@;
                append_candidates(&mut all, &more);
                proof {
                    assert forall|k: int| 0 <= k < all@.len() implies #[trigger] cand_inside(all@[k], width as nat, height as nat) by {
                        if k < a0.len() {
                            assert(all@[k] == a0[k]);
                        } else {
                            assert(all@[k] == more@[k - a0.len()]);
                        }
                    }
                }
                proof {
                    let d0 = done_bands;
                    done_bands = d0.push((s as nat, height as nat));
                    assert(done_bands.drop_last() == d0);
                }
            }
        },
        None => {},
    }
    proof {
        assert(done_bands == bands);
    }
    let sorted = sort_by_mass(&all);
    proof {
        lemma_mass_sort_members(all@);
        assert forall|k: int| 0 <= k < sorted@.len() implies #[trigger] cand_inside(sorted@[k], width as nat, height as nat) by {
            let v = sorted@[k];
            assert(all@.contains(v));
            let m = choose|m: int| 0 <= m < all@.len() && all@[m] == v;
            assert(cand_inside(all@[m], width as nat, height as nat));
        }
    }
    if sorted.len() > MAX_BANDS {
        let mut kept: Vec<ProjectionCandidate> = Vec::new();
        let mut k: usize = 0;
        while k < MAX_BANDS
            invariant
                k <= MAX_BANDS < sorted@.len(),
                kept@ == sorted@.subrange(0, k as int),
            decreases MAX_BANDS - k,
        {
            kept.push(sorted[k]);
            proof {
                assert(sorted@.subrange(0, k + 1) == sorted@.subrange(0, k as int).push(sorted@[k as int]));
            }
            k += 1;
        }
        kept
    } else {
        sorted
    }
}

/// A row's count is at most eight per byte.
proof fn lemma_ones_bound(row: Seq<u8>, k: int)
    requires
        0 <= k <= row.len(),
    ensures
        ones_count(row, k) <= 8 * k,
    decreases k,
{
    if k > 0 {
        lemma_ones_bound(row, k - 1);
        lemma_popcount_byte(row[k - 1] as nat);
    }
}

/// The candidate of a connected component: its bounding box, kept when it
/// is at least `min_h` rows high and `min_w` columns wide and its pixels
/// fill at least a quarter of it.
pub open spec fn component_candidate(c: ComponentStats, min_w: nat, min_h: nat) -> Seq<ProjectionCandidate> {
    let w = (if c.max_x >= c.min_x { c.max_x - c.min_x } else { 0 }) + 1;
    let h = (if c.max_y >= c.min_y { c.max_y - c.min_y } else { 0 }) + 1;
    let area = w * h;
    if area == 0 || h < min_h || w < min_w || 4 * c.area < area {
        Seq::empty()
    } else {
        seq![ProjectionCandidate { x: c.min_x, y: c.min_y, width: w as usize, height: h as usize, ones: c.area }]
    }
}

/// The candidates of the components, in order.
pub open spec fn component_candidates(comps: Seq<ComponentStats>, min_w: nat, min_h: nat) -> Seq<ProjectionCandidate>
    decreases comps.len(),
{
    if comps.len() == 0 {
        Seq::empty()
    } else {
        component_candidates(comps.drop_last(), min_w, min_h) + component_candidate(comps.last(), min_w, min_h)
    }
}

/// The candidates of the 4-connected components of a mask.
pub fn rle_candidates(mask: &[u8], width: usize, height: usize, min_region_width: usize, min_region_height: usize) -> (cands: Vec<
    ProjectionCandidate,
>)
    requires
        mask@.len() == width * height,
        width * height < u32::MAX,
    ensures
        (width == 0 || height == 0) ==> cands@.len() == 0,
        width > 0 && height > 0 ==> exists|reps: Seq<int>, comps: Seq<ComponentStats>| #[trigger] overlap_components(mask@, width as nat, height as nat, reps, comps)
            && cands@ == component_candidates(comps, min_region_width as nat, min_region_height as nat),
        forall|k: int| 0 <= k < cands@.len() ==> #[trigger] cand_inside(cands@[k], width as nat, height as nat),
{
    let stats = connected_components(mask, width, height);
    let mut cands: Vec<ProjectionCandidate> = Vec::new();
    let mut i: usize = 0;
    while i < stats.len()
        invariant
            i <= stats@.len(),
            width * height < u32::MAX,
            forall|k: int| 0 <= k < stats@.len() ==> #[trigger] stats_inside(stats@[k], width as nat, height as nat),
            cands@ == component_candidates(stats@.subrange(0, i as int), min_region_width as nat, min_region_height as nat),
            forall|k: int| 0 <= k < cands@.len() ==> #[trigger] cand_inside(cands@[k], width as nat, height as nat),
        decreases stats@.len() - i,
    {
        let comp = stats[i];
        proof {
            assert(stats@.subrange(0, i + 1).drop_last() == stats@.subrange(0, i as int));
            assert(stats_inside(comp, width as nat, height as nat));
        }
        let w = comp.max_x - comp.min_x + 1;
        let h = comp.max_y - comp.min_y + 1;
        proof {
            assert(w * h <= width * height) by (nonlinear_arith)
                requires
                    w <= width,
                    h <= height,
            ;
        }
        let area = w * h;
        if area > 0 && h >= min_region_height && w >= min_region_width && (comp.area as u128) * 4 >= area as u128 {
            let ghost before = cands@;
            cands.push(ProjectionCandidate { x: comp.min_x, y: comp.min_y, width: w, height: h, ones: comp.area });
            proof {
                assert forall|k: int| 0 <= k < cands@.len() implies #[trigger] cand_inside(cands@[k], width as nat, height as nat) by {
                    if k < before.len() {
                        assert(cands@[k] == before[k]);
                    }
                }
            }
        }
        i += 1;
    }
    proof {
        assert(stats@.subrange(0, stats@.len() as int) == stats@);
    }
    cands
}

/// Largest horizontal gap filled between band pixels.
pub const H_GAP: usize = 80;
/// Largest vertical gap filled between band pixels.
pub const V_GAP: usize = 12;

/// The region is small enough for the projection detector's counters.
pub open spec fn projection_counters_fit(w: nat, h: nat) -> bool {
    &&& w * h < u32::MAX
    &&& w * h * 8 <= usize::MAX
    &&& w * 65535 <= usize::MAX
}

/// The outcome of building the projection detector for `c`: the plane size
/// overflow, then an empty region (cut to the frame), then an overflowing
/// region end.
pub open spec fn projection_build(c: SubtitleDetectionConfig) -> Result<(), SubtitleDetectionError> {
    let r = clamp_roi(c);
    if c.stride * c.frame_height > usize::MAX {
        Err(SubtitleDetectionError::InsufficientData { data_len: 0, required: usize::MAX })
    } else if r.width == 0 || r.height == 0 {
        Err(SubtitleDetectionError::EmptyRoi)
    } else if roi_end(clamped(c)) > usize::MAX {
        Err(SubtitleDetectionError::InsufficientData { data_len: 0, required: usize::MAX })
    } else {
        Ok(())
    }
}

/// `out` is `local` moved from the region of interest to the frame.
pub open spec fn moved_to_frame(c: SubtitleDetectionConfig, local: Seq<ProjectionCandidate>, out: Seq<ProjectionCandidate>) -> bool {
    &&& out.len() == local.len()
    &&& forall|k: int|
        0 <= k < out.len() ==> #[trigger] out[k] == (ProjectionCandidate {
            x: (local[k].x + c.roi.x) as usize,
            y: (local[k].y + c.roi.y) as usize,
            ..local[k]
        })
}

/// The projection detection of `plane` gives `out`: `m0` is the band mask,
/// `m1` and `m2` the mask with short gaps filled along rows and then along
/// columns; the band candidates, or, when there are none, the component
/// candidates, moved to the frame.
pub open spec fn projection_outcome(
    c: SubtitleDetectionConfig,
    min_w: nat,
    min_h: nat,
    plane: Seq<u8>,
    m0: Seq<u8>,
    m1: Seq<u8>,
    m2: Seq<u8>,
    out: Seq<ProjectionCandidate>,
) -> bool {
    let w = c.roi.width as nat;
    let h = c.roi.height as nat;
    let bands = band_candidates_of(m2, w, h, min_w, min_h);
    &&& threshold_of(plane, c, m0)
    &&& rows_gap_filled(m0, m1, w, h, H_GAP as nat)
    &&& columns_gap_filled(m1, m2, w, h, V_GAP as nat)
    &&& if bands.len() > 0 {
        moved_to_frame(c, bands, out)
    } else {
        exists|reps: Seq<int>, comps: Seq<ComponentStats>|
            #[trigger] overlap_components(m2, w, h, reps, comps) && moved_to_frame(
                c,
                component_candidates(comps, min_w, min_h),
                out,
            )
    }
}

/// Some masks give `out` as the projection detection of `plane`.
pub open spec fn projection_holds(c: SubtitleDetectionConfig, min_w: nat, min_h: nat, plane: Seq<u8>, out: Seq<ProjectionCandidate>) -> bool {
    exists|m0: Seq<u8>, m1: Seq<u8>, m2: Seq<u8>| #[trigger] projection_outcome(c, min_w, min_h, plane, m0, m1, m2, out)
}

/// Running the projection detection twice on the same plane, with the same
/// configuration and smallest region, gives the same candidates, on the
/// band path and on the connected-component path alike.
pub proof fn lemma_projection_repeats(
    c: SubtitleDetectionConfig,
    min_w: nat,
    min_h: nat,
    plane: Seq<u8>,
    o1: Seq<ProjectionCandidate>,
    o2: Seq<ProjectionCandidate>,
)
    requires
        projection_holds(c, min_w, min_h, plane, o1),
        projection_holds(c, min_w, min_h, plane, o2),
    ensures
        o1 == o2,
{
    let w = c.roi.width as nat;
    let h = c.roi.height as nat;
    let (a0, a1, a2) = choose|m0: Seq<u8>, m1: Seq<u8>, m2: Seq<u8>| #[trigger] projection_outcome(c, min_w, min_h, plane, m0, m1, m2, o1);
    let (b0, b1, b2) = choose|m0: Seq<u8>, m1: Seq<u8>, m2: Seq<u8>| #[trigger] projection_outcome(c, min_w, min_h, plane, m0, m1, m2, o2);
    assert(projection_outcome(c, min_w, min_h, plane, a0, a1, a2, o1));
    assert(projection_outcome(c, min_w, min_h, plane, b0, b1, b2, o2));
    assert forall|r: int, col: int| 0 <= r < h && 0 <= col < w implies #[trigger] crate::grid::at(a0, w, r, col) == crate::grid::at(b0, w, r, col) by {}
    crate::detector::lemma_cells_equal(a0, b0, w, h);
    assert forall|r: int, col: int| 0 <= r < h && 0 <= col < w implies #[trigger] crate::grid::at(a1, w, r, col) == crate::grid::at(b1, w, r, col) by {}
    crate::detector::lemma_cells_equal(a1, b1, w, h);
    assert forall|r: int, col: int| 0 <= r < h && 0 <= col < w implies #[trigger] crate::grid::at(a2, w, r, col) == crate::grid::at(b2, w, r, col) by {}
    crate::detector::lemma_cells_equal(a2, b2, w, h);
    let bands = band_candidates_of(a2, w, h, min_w, min_h);
    let local = if bands.len() > 0 {
        bands
    } else {
        let (r1, k1) = choose|reps: Seq<int>, comps: Seq<ComponentStats>|
            #[trigger] overlap_components(a2, w, h, reps, comps) && moved_to_frame(c, component_candidates(comps, min_w, min_h), o1);
        let (r2, k2) = choose|reps: Seq<int>, comps: Seq<ComponentStats>|
            #[trigger] overlap_components(b2, w, h, reps, comps) && moved_to_frame(c, component_candidates(comps, min_w, min_h), o2);
        assert(r1 == r2);
        assert(k1 == k2);
        component_candidates(k1, min_w, min_h)
    };
    assert(moved_to_frame(c, local, o1));
    assert(moved_to_frame(c, local, o2));
    assert(o1 =~= o2);
}

/// The projection-band detector for one frame geometry, with the smallest
/// width and height of a region it reports.
pub struct ProjectionBandDetector {
    config: SubtitleDetectionConfig,
    required_len: usize,
    min_region_width: usize,
    min_region_height: usize,
}

impl ProjectionBandDetector {
    #[verifier::type_invariant]
    spec fn inv(&self) -> bool {
        &&& self.config.roi.x + self.config.roi.width <= self.config.frame_width
        &&& self.config.roi.y + self.config.roi.height <= self.config.frame_height
        &&& self.config.stride * self.config.frame_height <= usize::MAX
        &&& self.required_len == plane_need(self.config)
        &&& self.config.roi.width > 0
        &&& self.config.roi.height > 0
    }

    pub closed spec fn spec_config(&self) -> SubtitleDetectionConfig {
        self.config
    }

    pub closed spec fn spec_required(&self) -> nat {
        self.required_len as nat
    }

    pub closed spec fn spec_min_width(&self) -> nat {
        self.min_region_width as nat
    }

    pub closed spec fn spec_min_height(&self) -> nat {
        self.min_region_height as nat
    }

    /// Checks that the plane size of `config` fits in `usize`.
    pub fn ensure_available(config: &SubtitleDetectionConfig) -> (r: Result<(), SubtitleDetectionError>)
        ensures
            config.stride * config.frame_height <= usize::MAX ==> r is Ok,
            config.stride * config.frame_height > usize::MAX ==> r == Err::<(), SubtitleDetectionError>(
                SubtitleDetectionError::InsufficientData { data_len: 0, required: usize::MAX },
            ),
    {
        match required_len(config) {
            Ok(_) => Ok(()),
            Err(e) => Err(e),
        }
    }

    /// Builds a detector with its region of interest cut to the frame: fails
    /// when the plane size overflows, the region is empty, or its end
    /// overflows.
    pub fn new(config: SubtitleDetectionConfig, min_region_width: usize, min_region_height: usize) -> (r: Result<
        Self,
        SubtitleDetectionError,
    >)
        ensures
            match projection_build(config) {
                Ok(_) => r matches Ok(d) && d.spec_config() == clamped(config) && d.spec_required() == plane_need(clamped(config))
                    && d.spec_min_width() == min_region_width && d.spec_min_height() == min_region_height,
                Err(e) => r == Err::<Self, SubtitleDetectionError>(e),
            },
    {
        let required = match required_len(&config) {
            Ok(n) => n,
            Err(e) => {
                return Err(e);
            },
        };
        let roi = clamp_rect(&config);
        let w = roi.width;
        let h = roi.height;
        if w == 0 || h == 0 {
            return Err(SubtitleDetectionError::EmptyRoi);
        }
        let cfg = SubtitleDetectionConfig { roi, ..config };
        proof {
            assert((roi.y + h - 1) * config.stride <= config.stride * config.frame_height) by (nonlinear_arith)
                requires
                    roi.y + h - 1 <= config.frame_height - 1,
                    config.frame_height > 0,
            ;
        }
        let row_start = (roi.y + h - 1) * config.stride;
        let end = match row_start.checked_add(roi.x) {
            Some(a) => match a.checked_add(w) {
                Some(e) => e,
                None => {
                    return Err(SubtitleDetectionError::InsufficientData { data_len: 0, required: usize::MAX });
                },
            },
            None => {
                return Err(SubtitleDetectionError::InsufficientData { data_len: 0, required: usize::MAX });
            },
        };
        let need = if end > required { end } else { required };
        Ok(ProjectionBandDetector { config: cfg, required_len: need, min_region_width, min_region_height })
    }

    /// Runs the detector on a luma plane; the candidates are in frame
    /// coordinates. A plane shorter than the frame needs is refused, and so
    /// is a region of interest too large for the detector's counters
    /// (`RoiTooLarge`).
    pub fn detect(&self, y_plane: &[u8]) -> (r: Result<Vec<ProjectionCandidate>, SubtitleDetectionError>)
        ensures
            y_plane@.len() < self.spec_required() ==> r == Err::<Vec<ProjectionCandidate>, SubtitleDetectionError>(
                SubtitleDetectionError::InsufficientData { data_len: y_plane@.len() as usize, required: self.spec_required() as usize },
            ),
            y_plane@.len() >= self.spec_required() && !projection_counters_fit(
                self.spec_config().roi.width as nat,
                self.spec_config().roi.height as nat,
            ) ==> r == Err::<Vec<ProjectionCandidate>, SubtitleDetectionError>(
                SubtitleDetectionError::RoiTooLarge { width: self.spec_config().roi.width, height: self.spec_config().roi.height },
            ),
            y_plane@.len() >= self.spec_required() && projection_counters_fit(
                self.spec_config().roi.width as nat,
                self.spec_config().roi.height as nat,
            ) ==> r is Ok,
            y_plane@.len() >= self.spec_required() && projection_counters_fit(
                self.spec_config().roi.width as nat,
                self.spec_config().roi.height as nat,
            ) ==> projection_holds(
                self.spec_config(),
                self.spec_min_width(),
                self.spec_min_height(),
                y_plane@,
                r->Ok_0@,
            ),
    {
        proof {
            use_type_invariant(self);
        }
        let config = self.config;
        let roi = config.roi;
        let w = roi.width;
        let h = roi.height;
        if y_plane.len() < self.required_len {
            return Err(SubtitleDetectionError::InsufficientData { data_len: y_plane.len(), required: self.required_len });
        }
        let fits = match w.checked_mul(h) {
            Some(a) => a < 0xFFFF_FFFFusize && a.checked_mul(8).is_some() && w.checked_mul(65535).is_some(),
            None => false,
        };
        proof {
            if w * h > usize::MAX {
                assert(w * h * 8 > usize::MAX) by (nonlinear_arith)
                    requires
                        w * h > usize::MAX,
                ;
            }
        }
        if !fits {
            return Err(SubtitleDetectionError::RoiTooLarge { width: w, height: h });
        }
        proof {
            assert(roi_end(config) <= y_plane@.len());
            assert(roi_readable(y_plane@.len(), config.stride as nat, roi));
        }
        let (lo, hi) = band_for(config.luma_band.target_luma, config.luma_band.delta);
        let mut mask = threshold_mask_rect(y_plane, config.stride, roi, lo, hi);
        let ghost m0 = mask@;
        proof {
            assert(threshold_of(y_plane@, config, m0));
        }
        gap_bridge_horizontal(&mut mask, w, h, H_GAP);
        let ghost m1 = mask@;
        gap_bridge_vertical(&mut mask, w, h, V_GAP);
        let ghost m2 = mask@;
        let mut local = find_candidates(&mask, w, h, self.min_region_width, self.min_region_height);
        let ghost bands = band_candidates_of(m2, w as nat, h as nat, self.min_region_width as nat, self.min_region_height as nat);
        if local.len() == 0 {
            local = rle_candidates(&mask, w, h, self.min_region_width, self.min_region_height);
        }
        proof {
            if bands.len() > 0 {
                assert(local@ == bands);
            }
        }
        let mut out: Vec<ProjectionCandidate> = Vec::new();
        let mut k: usize = 0;
        while k < local.len()
            invariant
                k <= local@.len(),
                out@.len() == k,
                forall|j: int| 0 <= j < local@.len() ==> #[trigger] cand_inside(local@[j], w as nat, h as nat),
                roi.x + w <= usize::MAX,
                roi.y + h <= usize::MAX,
                forall|j: int|
                    0 <= j < k ==> #[trigger] out@[j] == (ProjectionCandidate {
                        x: (local@[j].x + roi.x) as usize,
                        y: (local@[j].y + roi.y) as usize,
                        ..local@[j]
                    }),
            decreases local@.len() - k,
        {
            let c = local[k];
            proof {
                assert(cand_inside(local@[k as int], w as nat, h as nat));
            }
            let ghost before = out@;
            out.push(ProjectionCandidate { x: c.x + roi.x, y: c.y + roi.y, ..c });
            proof {
                assert forall|j: int| 0 <= j < k + 1 implies #[trigger] out@[j] == (ProjectionCandidate {
                    x: (local@[j].x + roi.x) as usize,
                    y: (local@[j].y + roi.y) as usize,
                    ..local@[j]
                }) by {
                    if j < k {
                        assert(out@[j] == before[j]);
                    }
                }
            }
            k += 1;
        }
        proof {
            assert(projection_outcome(config, self.min_region_width as nat, self.min_region_height as nat, y_plane@, m0, m1, m2, out@));
        }
        Ok(out)
    }
}

} // verus!
