//! Connected components of a mask from its runs: runs of neighbouring rows
//! are merged with union-find, and every component is summarised by its
//! bounding box and area.

use vstd::prelude::*;

use crate::bands::{all_inside, rect_inside, RectCandidate};
use crate::dsu::{model_after, DisjointSet, RunDsu};
use crate::runs::{extract_runs, lemma_mask_runs_bounds, mask_runs, run_triples, width_sum, RowRun};

verus! {

/// The area and bounding box of a component: columns `min_x..=max_x`, rows
/// `min_y..=max_y`.
#[derive(Clone, Copy, Debug, PartialEq, Eq)]
pub struct ComponentStats {
    pub area: usize,
    pub min_x: usize,
    pub max_x: usize,
    pub min_y: usize,
    pub max_y: usize,
}

impl ComponentStats {
    /// Empty statistics anchored at column `x`, row `y`.
    pub fn new(x: usize, y: usize) -> (s: Self)
        ensures
            s == (ComponentStats { area: 0, min_x: x, max_x: x, min_y: y, max_y: y }),
    {
        ComponentStats { area: 0, min_x: x, max_x: x, min_y: y, max_y: y }
    }
}

pub open spec fn nmin(a: nat, b: nat) -> nat {
    if a <= b { a } else { b }
}

pub open spec fn nmax(a: nat, b: nat) -> nat {
    if a >= b { a } else { b }
}

/// The statistics `prev` (or fresh ones anchored at the run's start) with
/// the run `t = (row, start, end)` added.
pub open spec fn stats_add(prev: Option<ComponentStats>, t: (nat, nat, nat)) -> ComponentStats {
    let base = match prev {
        Some(s) => s,
        None => ComponentStats { area: 0, min_x: t.1 as usize, max_x: t.1 as usize, min_y: t.0 as usize, max_y: t.0 as usize },
    };
    ComponentStats {
        area: (base.area + (t.2 - t.1)) as usize,
        min_x: nmin(base.min_x as nat, t.1) as usize,
        max_x: nmax(base.max_x as nat, (t.2 - 1) as nat) as usize,
        min_y: nmin(base.min_y as nat, t.0) as usize,
        max_y: nmax(base.max_y as nat, t.0) as usize,
    }
}

/// The statistics of the runs among the first `k` whose representative is
/// `q`, or none when there is no such run.
pub open spec fn class_stats(t: Seq<(nat, nat, nat)>, reps: Seq<int>, q: int, k: int) -> Option<ComponentStats>
    decreases k,
{
    if k <= 0 {
        None
    } else {
        let prev = class_stats(t, reps, q, k - 1);
        if reps[k - 1] == q {
            Some(stats_add(prev, t[k - 1]))
        } else {
            prev
        }
    }
}

/// The present entries of a table, in order.
pub open spec fn present(table: Seq<Option<ComponentStats>>) -> Seq<ComponentStats>
    decreases table.len(),
{
    if table.len() == 0 {
        Seq::empty()
    } else {
        present(table.drop_last()) + match table.last() {
            Some(c) => seq![c],
            None => Seq::empty(),
        }
    }
}

/// The statistics of every component, ordered by representative label,
/// for `labels` labels.
pub open spec fn component_table(t: Seq<(nat, nat, nat)>, reps: Seq<int>, labels: nat) -> Seq<Option<ComponentStats>> {
    Seq::new(labels, |q: int| class_stats(t, reps, q, t.len() as int))
}

/// A component's bounding box lies inside a `w` by `h` plane.
pub open spec fn stats_inside(c: ComponentStats, w: nat, h: nat) -> bool {
    c.min_x <= c.max_x < w && c.min_y <= c.max_y < h
}

/// The rectangle of a component's bounding box.
pub open spec fn stats_rect(c: ComponentStats) -> RectCandidate {
    RectCandidate {
        x: c.min_x,
        y: c.min_y,
        width: ((if c.max_x >= c.min_x { c.max_x - c.min_x } else { 0 }) + 1) as usize,
        height: ((if c.max_y >= c.min_y { c.max_y - c.min_y } else { 0 }) + 1) as usize,
    }
}

/// Whether runs `i` and `j` are joined by the merges `pairs`, applied in
/// order.
pub open spec fn merged(pairs: Seq<(int, int)>, i: int, j: int) -> bool
    decreases pairs.len(),
{
    if pairs.len() == 0 {
        i == j
    } else {
        let (a, b) = pairs.last();
        let p = pairs.drop_last();
        merged(p, i, j) || (merged(p, i, a) && merged(p, j, b)) || (merged(p, i, b) && merged(p, j, a))
    }
}

/// `reps` gives two of the first `n` runs the same representative exactly
/// when the merges `pairs` join them.
pub open spec fn partition_of(reps: Seq<int>, pairs: Seq<(int, int)>, n: nat) -> bool {
    &&& reps.len() == n
    &&& forall|i: int, j: int| 0 <= i < n && 0 <= j < n ==> (#[trigger] reps[i] == #[trigger] reps[j]) == merged(pairs, i, j)
}

/// One merge keeps a representative map in step with the merged partition.
proof fn lemma_merge_step(r0: Seq<int>, r1: Seq<int>, pairs: Seq<(int, int)>, n: nat, a: int, b: int, m: int)
    requires
        partition_of(r0, pairs, n),
        r1.len() == n,
        0 <= a < n,
        0 <= b < n,
        m == r0[a] || m == r0[b],
        forall|y: int| 0 <= y < n ==> #[trigger] r1[y] == if r0[y] == r0[a] || r0[y] == r0[b] { m } else { r0[y] },
    ensures
        partition_of(r1, pairs.push((a, b)), n),
{
    let p2 = pairs.push((a, b));
    assert(p2.drop_last() == pairs);
    assert forall|i: int, j: int| 0 <= i < n && 0 <= j < n implies (#[trigger] r1[i] == #[trigger] r1[j]) == merged(p2, i, j) by {
        assert(r0[i] == r0[a] <==> merged(pairs, i, a));
        assert(r0[j] == r0[b] <==> merged(pairs, j, b));
        assert(r0[i] == r0[b] <==> merged(pairs, i, b));
        assert(r0[j] == r0[a] <==> merged(pairs, j, a));
        assert(r0[i] == r0[j] <==> merged(pairs, i, j));
    }
}

/// The number of runs is at most their total width.
proof fn lemma_runs_count(t: Seq<(nat, nat, nat)>)
    requires
        forall|k: int| 0 <= k < t.len() ==> (#[trigger] t[k]).1 < t[k].2,
    ensures
        t.len() <= width_sum(t),
    decreases t.len(),
{
    if t.len() > 0 {
        lemma_runs_count(t.drop_last());
    }
}

/// A component's area is at most the width of the runs seen so far.
proof fn lemma_class_area(t: Seq<(nat, nat, nat)>, reps: Seq<int>, q: int, k: int)
    requires
        0 <= k <= t.len(),
        forall|i: int| 0 <= i < t.len() ==> (#[trigger] t[i]).1 < t[i].2,
        width_sum(t) <= usize::MAX,
    ensures
        class_stats(t, reps, q, k) matches Some(c) ==> c.area <= width_sum(t.subrange(0, k)),
    decreases k,
{
    if k > 0 {
        lemma_class_area(t, reps, q, k - 1);
        assert(t.subrange(0, k).drop_last() == t.subrange(0, k - 1));
        lemma_width_prefix(t, k);
    }
}

proof fn lemma_width_prefix(t: Seq<(nat, nat, nat)>, k: int)
    requires
        0 <= k <= t.len(),
    ensures
        width_sum(t.subrange(0, k)) <= width_sum(t),
    decreases t.len() - k,
{
    if k < t.len() {
        lemma_width_prefix(t, k + 1);
        assert(t.subrange(0, k + 1).drop_last() == t.subrange(0, k));
    } else {
        assert(t.subrange(0, k) == t);
    }
}

/// A component's bounding box lies inside the columns and rows of its runs.
proof fn lemma_class_box(t: Seq<(nat, nat, nat)>, reps: Seq<int>, q: int, k: int, w: nat, h: nat)
    requires
        0 <= k <= t.len(),
        w <= usize::MAX,
        h <= usize::MAX,
        forall|i: int| 0 <= i < t.len() ==> (#[trigger] t[i]).1 < t[i].2 && t[i].2 <= w && t[i].0 < h,
    ensures
        class_stats(t, reps, q, k) matches Some(c) ==> c.min_x <= c.max_x < w && c.min_y <= c.max_y < h,
    decreases k,
{
    if k > 0 {
        lemma_class_box(t, reps, q, k - 1, w, h);
        assert(t[k - 1].1 < t[k - 1].2 && t[k - 1].2 <= w && t[k - 1].0 < h);
    }
}

/// Computes the statistics of every component: `reps[i]` is the
/// representative label of run `i`, and `labels` is the number of labels.
fn accumulate_component_stats(runs: &Vec<RowRun>, labels_of: &Vec<u32>, dsu: &mut RunDsu) -> (stats: Vec<
    Option<ComponentStats>,
>)
    requires
        old(dsu).wf(),
        labels_of@.len() == runs@.len(),
        forall|i: int| 0 <= i < runs@.len() ==> (#[trigger] labels_of@[i]) < old(dsu).spec_len(),
        forall|i: int| 0 <= i < runs@.len() ==> (#[trigger] runs@[i]).start < runs@[i].end,
        width_sum(run_triples(runs@)) <= usize::MAX,
    ensures
        final(dsu).wf(),
        final(dsu).spec_len() == old(dsu).spec_len(),
        forall|y: int| 0 <= y < old(dsu).spec_len() ==> #[trigger] final(dsu).rep(y) == old(dsu).rep(y),
        stats@ == component_table(
            run_triples(runs@),
            Seq::new(runs@.len(), |i: int| old(dsu).rep(labels_of@[i] as int)),
            old(dsu).spec_len(),
        ),
{
    let ghost t = run_triples(runs@);
    let ghost reps = Seq::new(runs@.len(), |i: int| old(dsu).rep(labels_of@[i] as int));
    let ghost d0 = *dsu;
    let n_labels = dsu.len();
    let mut stats: Vec<Option<ComponentStats>> = Vec::new();
    let mut q: usize = 0;
    while q < n_labels
        invariant
            n_labels == d0.spec_len(),
            q <= n_labels,
            stats@.len() == q,
            forall|j: int| 0 <= j < q ==> #[trigger] stats@[j] == None::<ComponentStats>,
        decreases n_labels - q,
    {
        stats.push(None);
        q += 1;
    }
    let mut i: usize = 0;
    while i < runs.len()
        invariant
            dsu.wf(),
            dsu.spec_len() == d0.spec_len(),
            d0.wf(),
            n_labels == d0.spec_len(),
            forall|y: int| 0 <= y < d0.spec_len() ==> #[trigger] dsu.rep(y) == d0.rep(y),
            labels_of@.len() == runs@.len(),
            forall|k: int| 0 <= k < runs@.len() ==> (#[trigger] labels_of@[k]) < d0.spec_len(),
            forall|k: int| 0 <= k < runs@.len() ==> (#[trigger] runs@[k]).start < runs@[k].end,
            width_sum(t) <= usize::MAX,
            t == run_triples(runs@),
            reps == Seq::new(runs@.len(), |k: int| d0.rep(labels_of@[k] as int)),
            i <= runs@.len(),
            stats@.len() == n_labels,
            forall|j: int| 0 <= j < n_labels ==> #[trigger] stats@[j] == class_stats(t, reps, j, i as int),
        decreases runs@.len() - i,
    {
        let run = runs[i];
        let label = labels_of[i];
        let root = dsu.find(label);
        proof {
            d0.lemma_rep_in_range(label as int);
            assert(root == d0.rep(label as int));
            assert(reps[i as int] == root);
            lemma_class_area(t, reps, root as int, i as int);
            lemma_width_prefix(t, i as int + 1);
            assert(t.subrange(0, i as int + 1).drop_last() == t.subrange(0, i as int));
            assert(t[i as int] == (run.row as nat, run.start as nat, run.end as nat));
        }
        let base = match stats[root as usize] {
            Some(s) => s,
            None => ComponentStats::new(run.start, run.row),
        };
        let width = run.end - run.start;
        let updated = ComponentStats {
            area: base.area + width,
            min_x: if run.start < base.min_x { run.start } else { base.min_x },
            max_x: if run.end - 1 > base.max_x { run.end - 1 } else { base.max_x },
            min_y: if run.row < base.min_y { run.row } else { base.min_y },
            max_y: if run.row > base.max_y { run.row } else { base.max_y },
        };
        let ghost old_stats = stats@;
        stats.set(root as usize, Some(updated));
        proof {
            assert forall|j: int| 0 <= j < n_labels implies #[trigger] stats@[j] == class_stats(t, reps, j, i as int + 1) by {
                if j != root {
                    assert(old_stats[j] == class_stats(t, reps, j, i as int));
                }
            }
        }
        i += 1;
    }
    proof {
        assert(component_table(t, reps, d0.spec_len()) =~= stats@);
    }
    stats
}

} // verus!

verus! {

/// Two runs touch: they overlap in columns, or the gap between them is at
/// most one column.
pub open spec fn runs_touch_spec(a: (nat, nat, nat), b: (nat, nat, nat)) -> bool {
    nmin(a.2, b.2) > nmax(a.1, b.1) || (if a.2 <= b.1 {
        b.1 - a.2 <= 1
    } else {
        a.1 - b.2 <= 1
    })
}

/// The `(row, start, end)` of a run.
pub open spec fn triple_of(r: RowRun) -> (nat, nat, nat) {
    (r.row as nat, r.start as nat, r.end as nat)
}

/// Whether two runs touch.
pub fn runs_touch(a: &RowRun, b: &RowRun) -> (touch: bool)
    requires
        a.start < a.end,
        b.start < b.end,
    ensures
        touch == runs_touch_spec(triple_of(*a), triple_of(*b)),
{
    let hi = if a.end < b.end { a.end } else { b.end };
    let lo = if a.start > b.start { a.start } else { b.start };
    let overlap = hi.saturating_sub(lo);
    if overlap > 0 {
        return true;
    }
    let gap = if a.end <= b.start {
        b.start - a.end
    } else {
        a.start - b.end
    };
    gap <= 1
}

/// The pairs of runs `(previous-row run, current-row run)` that a merge
/// sweep checks and finds touching: the sweep compares the runs under two
/// cursors and advances the one whose run ends first (the previous row's on
/// a tie).
pub open spec fn sweep_pairs(t: Seq<(nat, nat, nat)>, p: int, pe: int, c: int, ce: int) -> Seq<(int, int)>
    decreases (pe - p) + (ce - c),
{
    if 0 <= p < pe && 0 <= c < ce {
        let rest = if t[p].2 <= t[c].2 {
            sweep_pairs(t, p + 1, pe, c, ce)
        } else {
            sweep_pairs(t, p, pe, c + 1, ce)
        };
        if runs_touch_spec(t[p], t[c]) {
            seq![(p, c)] + rest
        } else {
            rest
        }
    } else {
        Seq::empty()
    }
}

/// The sweep pairs of rows `1..r`, each row against the one above it,
/// `offs[r]` being the index of the first run of row `r`.
pub open spec fn luma_pairs(t: Seq<(nat, nat, nat)>, offs: Seq<int>, r: int) -> Seq<(int, int)>
    decreases r,
{
    if r <= 1 {
        Seq::empty()
    } else {
        luma_pairs(t, offs, r - 1) + sweep_pairs(t, offs[r - 2], offs[r - 1], offs[r - 1], offs[r])
    }
}

/// The index of the first run of every row `0..=h`.
pub open spec fn run_offsets(mask: Seq<u8>, w: nat, h: nat) -> Seq<int> {
    Seq::new(h + 1, |r: int| mask_runs(mask, w, r as nat).len() as int)
}

proof fn lemma_offsets_monotone(mask: Seq<u8>, w: nat, a: nat, b: nat)
    requires
        a <= b,
    ensures
        mask_runs(mask, w, a).len() <= mask_runs(mask, w, b).len(),
    decreases b,
{
    if a < b {
        lemma_offsets_monotone(mask, w, a, (b - 1) as nat);
    }
}

/// The merges of run indices as merges of labels: run `i` has label
/// `i + 1`.
pub open spec fn label_pairs(pairs: Seq<(int, int)>) -> Seq<(int, int)> {
    pairs.map_values(|p: (int, int)| (p.0 + 1, p.1 + 1))
}

/// The representative label of every run of a `w` by `h` mask once the
/// union-find structure over the labels `0..=runs` has applied the merges
/// of the row sweeps in order.
pub open spec fn luma_reps(mask: Seq<u8>, w: nat, h: nat) -> Seq<int> {
    let t = mask_runs(mask, w, h);
    let m = model_after(t.len() + 1, label_pairs(luma_pairs(t, run_offsets(mask, w, h), h as int))).0;
    Seq::new(t.len(), |k: int| m[k + 1])
}

/// `rects` are the component rectangles of a `w` by `h` mask for the
/// representative map `reps` of its runs, the one the union-find structure
/// gives, which joins exactly the runs that the row sweeps join; labels
/// are run indices plus one.
pub open spec fn luma_components(mask: Seq<u8>, w: nat, h: nat, reps: Seq<int>, rects: Seq<RectCandidate>) -> bool {
    let t = mask_runs(mask, w, h);
    &&& reps == luma_reps(mask, w, h)
    &&& partition_of(reps, luma_pairs(t, run_offsets(mask, w, h), h as int), t.len())
    &&& rects == present(component_table(t, reps, t.len() + 1)).map_values(|c: ComponentStats| stats_rect(c))
}

/// The candidate rectangles of the connected components of a mask:
/// maximal runs of band pixels are merged when the sweep over neighbouring
/// rows finds them touching (diagonal contact included), and every
/// component gives its bounding box; the rectangles come in the order of
/// the components' representative labels, as union by rank (the first
/// representative winning a tie) and the merges in sweep order fix them.
pub fn rle_component_candidates(mask: &[u8], width: usize, height: usize) -> (rects: Vec<RectCandidate>)
    requires
        mask@.len() == width * height,
        width * height < u32::MAX,
    ensures
        (width == 0 || height == 0) ==> rects@.len() == 0,
        width > 0 && height > 0 ==> luma_components(mask@, width as nat, height as nat, luma_reps(mask@, width as nat, height as nat), rects@),
        all_inside(rects@, width as nat, height as nat),
{
    let mut rects: Vec<RectCandidate> = Vec::new();
    if width == 0 || height == 0 {
        return rects;
    }
    let (runs, offsets) = extract_runs(mask, width, height);
    let ghost t = mask_runs(mask@, width as nat, height as nat);
    let ghost offs = run_offsets(mask@, width as nat, height as nat);
    let ghost n = t.len();
    proof {
        lemma_mask_runs_bounds(mask@, width as nat, height as nat, height as nat);
        assert(forall|k: int| 0 <= k < n ==> (#[trigger] t[k]).1 < t[k].2);
        lemma_runs_count(t);
        assert(height * width == width * height) by (nonlinear_arith);
        assert(runs@.len() == n);
        assert forall|k: int| 0 <= k < runs@.len() implies (#[trigger] runs@[k]).start < runs@[k].end by {
            assert(run_triples(runs@)[k] == t[k]);
        }
    }
    let mut dsu = DisjointSet::new();
    let mut labels: Vec<u32> = Vec::new();
    let mut i: usize = 0;
    while i < runs.len()
        invariant
            dsu.wf(),
            runs@.len() == n,
            n < u32::MAX,
            i <= n,
            dsu.spec_len() == i + 1,
            labels@.len() == i,
            forall|k: int| 0 <= k < i ==> #[trigger] labels@[k] == k + 1,
            forall|y: int| 0 <= y <= i ==> #[trigger] dsu.rep(y) == y,
            dsu.ranks() == Seq::new(i as nat + 1, |k: int| 0u8),
        decreases n - i,
    {
        let label = dsu.make_set();
        labels.push(label);
        proof {
            assert(dsu.ranks() =~= Seq::new(i as nat + 2, |k: int| 0u8));
        }
        i += 1;
    }
    let ghost mut done: Seq<(int, int)> = Seq::empty();
    let mut row: usize = 1;
    proof {
        let r = Seq::new(n, |k: int| dsu.rep(k + 1));
        assert forall|a: int, b: int| 0 <= a < n && 0 <= b < n implies (#[trigger] r[a] == #[trigger] r[b]) == merged(
            luma_pairs(t, offs, 1),
            a,
            b,
        ) by {
            assert(r[a] == a + 1);
            assert(r[b] == b + 1);
        }
        assert(label_pairs(luma_pairs(t, offs, 1)) =~= Seq::<(int, int)>::empty());
        let e = Seq::<(int, int)>::empty();
        assert(model_after(n + 1, e).0 == Seq::new(n + 1, |k: int| k));
        assert forall|y: int| 0 <= y < n + 1 implies #[trigger] dsu.reps()[y] == y by {
            assert(dsu.rep(y) == y);
        }
        assert(dsu.reps() =~= model_after(n + 1, e).0);
        assert(dsu.ranks() =~= model_after(n + 1, e).1);
    }
    while row < height
        invariant
            dsu.wf(),
            runs@.len() == n,
            run_triples(runs@) == t,
            n < u32::MAX,
            dsu.spec_len() == n + 1,
            labels@.len() == n,
            forall|k: int| 0 <= k < n ==> #[trigger] labels@[k] == k + 1,
            1 <= row <= height,
            offsets@.len() == height + 1,
            offs == run_offsets(mask@, width as nat, height as nat),
            forall|r: int| 0 <= r <= height ==> #[trigger] offsets@[r] == offs[r],
            offs[height as int] == n,
            t == mask_runs(mask@, width as nat, height as nat),
            partition_of(Seq::new(n, |k: int| dsu.rep(k + 1)), luma_pairs(t, offs, row as int), n),
            dsu.reps() == model_after(n + 1, label_pairs(luma_pairs(t, offs, row as int))).0,
            dsu.ranks() == model_after(n + 1, label_pairs(luma_pairs(t, offs, row as int))).1,
            forall|k: int| 0 <= k < n ==> (#[trigger] runs@[k]).start < runs@[k].end,
        decreases height - row,
    {
        proof {
            lemma_offsets_monotone(mask@, width as nat, (row - 1) as nat, row as nat);
            lemma_offsets_monotone(mask@, width as nat, row as nat, row as nat + 1);
            lemma_offsets_monotone(mask@, width as nat, row as nat + 1, height as nat);
        }
        let mut prev = offsets[row - 1];
        let prev_end = offsets[row];
        let mut curr = offsets[row];
        let curr_end = offsets[row + 1];
        let ghost base = luma_pairs(t, offs, row as int);
        let ghost whole = sweep_pairs(t, prev as int, prev_end as int, curr as int, curr_end as int);
        let ghost mut done_row: Seq<(int, int)> = Seq::empty();
        while prev < prev_end && curr < curr_end
            invariant
                dsu.wf(),
                runs@.len() == n,
                run_triples(runs@) == t,
                dsu.spec_len() == n + 1,
                labels@.len() == n,
                forall|k: int| 0 <= k < n ==> #[trigger] labels@[k] == k + 1,
                prev <= prev_end <= n,
                curr <= curr_end <= n,
                done_row + sweep_pairs(t, prev as int, prev_end as int, curr as int, curr_end as int) == whole,
                partition_of(Seq::new(n, |k: int| dsu.rep(k + 1)), base + done_row, n),
                dsu.reps() == model_after(n + 1, label_pairs(base + done_row)).0,
                dsu.ranks() == model_after(n + 1, label_pairs(base + done_row)).1,
                forall|k: int| 0 <= k < n ==> (#[trigger] runs@[k]).start < runs@[k].end,
            decreases (prev_end - prev) + (curr_end - curr),
        {
            let run_a = runs[prev];
            let run_b = runs[curr];
            proof {
                assert(triple_of(run_a) == t[prev as int]);
                assert(triple_of(run_b) == t[curr as int]);
            }
            if runs_touch(&run_a, &run_b) {
                let ghost r0 = Seq::new(n, |k: int| dsu.rep(k + 1));
                let la = labels[prev];
                let lb = labels[curr];
                dsu.union(la, lb);
                proof {
                    let r1 = Seq::new(n, |k: int| dsu.rep(k + 1));
                    lemma_merge_step(r0, r1, base + done_row, n, prev as int, curr as int, dsu.rep(la as int));
                    assert((base + done_row).push((prev as int, curr as int)) == base + done_row.push((prev as int, curr as int)));
                    let lp = label_pairs((base + done_row).push((prev as int, curr as int)));
                    assert(lp.drop_last() =~= label_pairs(base + done_row));
                    assert(lp.last() == (la as int, lb as int));
                    done_row = done_row.push((prev as int, curr as int));
                }
            }
            if run_a.end <= run_b.end {
                prev += 1;
            } else {
                curr += 1;
            }
        }
        proof {
            assert(done_row == whole);
            assert(luma_pairs(t, offs, row as int + 1) == base + whole);
        }
        row += 1;
    }
    proof {
        lemma_mask_runs_bounds(mask@, width as nat, height as nat, height as nat);
        assert(width_sum(run_triples(runs@)) <= usize::MAX) by {
            assert(height * width <= usize::MAX);
        }
    }
    let ghost reps_before = Seq::new(n, |k: int| dsu.rep(k + 1));
    let ghost d_before = dsu;
    proof {
        assert(reps_before =~= luma_reps(mask@, width as nat, height as nat));
    }
    let stats = accumulate_component_stats(&runs, &labels, &mut dsu.sets);
    proof {
        assert(Seq::new(runs@.len(), |k: int| d_before.sets.rep(labels@[k] as int)) == reps_before);
        assert forall|i: int| 0 <= i < t.len() implies (#[trigger] t[i]).1 < t[i].2 && t[i].2 <= width && t[i].0 < height by {}
        assert forall|j: int| 0 <= j < stats@.len() implies ((#[trigger] stats@[j]) matches Some(c) ==> c.min_x <= c.max_x
            < width && c.min_y <= c.max_y < height) by {
            lemma_class_box(t, reps_before, j, n as int, width as nat, height as nat);
        }
    }
    let mut q: usize = 0;
    while q < stats.len()
        invariant
            q <= stats@.len(),
            stats@ == component_table(t, reps_before, n + 1),
            forall|j: int| 0 <= j < stats@.len() ==> ((#[trigger] stats@[j]) matches Some(c) ==> c.min_x <= c.max_x < width
                && c.min_y <= c.max_y < height),
            rects@ == present(stats@.subrange(0, q as int)).map_values(|c: ComponentStats| stats_rect(c)),
            all_inside(rects@, width as nat, height as nat),
        decreases stats@.len() - q,
    {
        proof {
            assert(stats@.subrange(0, q as int + 1).drop_last() == stats@.subrange(0, q as int));
        }
        if let Some(comp) = stats[q] {
            let ghost before = rects@;
            rects.push(RectCandidate {
                x: comp.min_x,
                y: comp.min_y,
                width: comp.max_x.saturating_sub(comp.min_x) + 1,
                height: comp.max_y.saturating_sub(comp.min_y) + 1,
            });
            proof {
                assert forall|k: int| 0 <= k < rects@.len() implies rect_inside(#[trigger] rects@[k], width as nat, height as nat) by {
                    if k < before.len() {
                        assert(rects@[k] == before[k]);
                    }
                }
            }
        }
        q += 1;
    }
    proof {
        assert(stats@.subrange(0, stats@.len() as int) == stats@);
        assert(luma_components(mask@, width as nat, height as nat, reps_before, rects@));
    }
    rects
}

} // verus!

verus! {

/// Run `p` lies on the row just above run `c` and shares a column with it.
pub open spec fn runs_overlap_below(p: (nat, nat, nat), c: (nat, nat, nat)) -> bool {
    p.0 + 1 == c.0 && p.2 > c.1 && c.2 > p.1
}

/// The pairs `(c, p)`, `p` in `ps..k` in order, of runs overlapping the
/// run `c` from the row above.
pub open spec fn prev_scan(t: Seq<(nat, nat, nat)>, c: int, ps: int, k: int) -> Seq<(int, int)>
    decreases k - ps,
{
    if k <= ps {
        Seq::empty()
    } else {
        prev_scan(t, c, ps, k - 1) + if runs_overlap_below(t[k - 1], t[c]) {
            seq![(c, k - 1)]
        } else {
            Seq::empty()
        }
    }
}

/// The overlapping pairs of every run `c` in `cs..k` against the runs
/// `ps..pe` of the row above, in order.
pub open spec fn curr_scan(t: Seq<(nat, nat, nat)>, ps: int, pe: int, cs: int, k: int) -> Seq<(int, int)>
    decreases k - cs,
{
    if k <= cs {
        Seq::empty()
    } else {
        curr_scan(t, ps, pe, cs, k - 1) + prev_scan(t, k - 1, ps, pe)
    }
}

/// The overlapping pairs of rows `1..r`, each row against the one above.
pub open spec fn overlap_pairs(t: Seq<(nat, nat, nat)>, offs: Seq<int>, r: int) -> Seq<(int, int)>
    decreases r,
{
    if r <= 1 {
        Seq::empty()
    } else {
        overlap_pairs(t, offs, r - 1) + curr_scan(t, offs[r - 2], offs[r - 1], offs[r - 1], offs[r])
    }
}

/// The representative label of every run of a `w` by `h` mask once the
/// union-find structure over the run indices has applied the merges of
/// overlapping runs in scan order.
pub open spec fn overlap_reps(mask: Seq<u8>, w: nat, h: nat) -> Seq<int> {
    let t = mask_runs(mask, w, h);
    model_after(t.len(), overlap_pairs(t, run_offsets(mask, w, h), h as int)).0
}

/// `comps` are the component statistics of a `w` by `h` mask for the
/// representative map `reps` of its runs, the one the union-find structure
/// gives, which joins exactly the runs that overlap across neighbouring
/// rows; labels are run indices.
pub open spec fn overlap_components(mask: Seq<u8>, w: nat, h: nat, reps: Seq<int>, comps: Seq<ComponentStats>) -> bool {
    let t = mask_runs(mask, w, h);
    &&& reps == overlap_reps(mask, w, h)
    &&& partition_of(reps, overlap_pairs(t, run_offsets(mask, w, h), h as int), t.len())
    &&& comps == present(component_table(t, reps, t.len()))
}

/// The statistics of the 4-connected components of a mask, in the order of
/// their representative labels: maximal runs of band pixels are merged when
/// they share a column across neighbouring rows, by union by rank (the
/// current row's representative winning a tie), in scan order.
pub fn connected_components(mask: &[u8], width: usize, height: usize) -> (comps: Vec<ComponentStats>)
    requires
        mask@.len() == width * height,
        width * height < u32::MAX,
    ensures
        (width == 0 || height == 0) ==> comps@.len() == 0,
        width > 0 && height > 0 ==> overlap_components(mask@, width as nat, height as nat, overlap_reps(mask@, width as nat, height as nat), comps@),
        forall|k: int| 0 <= k < comps@.len() ==> #[trigger] stats_inside(comps@[k], width as nat, height as nat),
        forall|k: int| 0 <= k < comps@.len() ==> (#[trigger] comps@[k]).area <= width * height,
        comps@.len() <= width * height,
{
    let mut comps: Vec<ComponentStats> = Vec::new();
    if width == 0 || height == 0 {
        return comps;
    }
    let (runs, offsets) = extract_runs(mask, width, height);
    let ghost t = mask_runs(mask@, width as nat, height as nat);
    let ghost offs = run_offsets(mask@, width as nat, height as nat);
    let ghost n = t.len();
    proof {
        lemma_mask_runs_bounds(mask@, width as nat, height as nat, height as nat);
        lemma_runs_count(t);
        assert(height * width == width * height) by (nonlinear_arith);
        assert forall|k: int| 0 <= k < runs@.len() implies (#[trigger] runs@[k]).start < runs@[k].end && runs@[k].row < height by {
            assert(run_triples(runs@)[k] == t[k]);
        }
    }
    let mut dsu = RunDsu::new(runs.len());
    let mut labels: Vec<u32> = Vec::new();
    let mut i: usize = 0;
    while i < runs.len()
        invariant
            runs@.len() == n,
            n < u32::MAX,
            i <= n,
            labels@.len() == i,
            forall|k: int| 0 <= k < i ==> #[trigger] labels@[k] == k,
        decreases n - i,
    {
        labels.push(i as u32);
        i += 1;
    }
    proof {
        let r = Seq::new(n, |k: int| dsu.rep(k));
        assert forall|a: int, b: int| 0 <= a < n && 0 <= b < n implies (#[trigger] r[a] == #[trigger] r[b]) == merged(
            overlap_pairs(t, offs, 1),
            a,
            b,
        ) by {
            assert(r[a] == a);
            assert(r[b] == b);
        }
        let e = Seq::<(int, int)>::empty();
        assert(overlap_pairs(t, offs, 1) == e);
        assert(model_after(n, e).0 == Seq::new(n, |k: int| k));
        assert forall|y: int| 0 <= y < n implies #[trigger] dsu.reps()[y] == y by {
            assert(dsu.rep(y) == y);
        }
        assert(dsu.reps() =~= model_after(n, e).0);
        assert(dsu.ranks() =~= model_after(n, e).1);
    }
    let mut row: usize = 1;
    while row < height
        invariant
            dsu.wf(),
            runs@.len() == n,
            run_triples(runs@) == t,
            n < u32::MAX,
            dsu.spec_len() == n,
            labels@.len() == n,
            forall|k: int| 0 <= k < n ==> #[trigger] labels@[k] == k,
            1 <= row <= height,
            offsets@.len() == height + 1,
            offs == run_offsets(mask@, width as nat, height as nat),
            forall|r: int| 0 <= r <= height ==> #[trigger] offsets@[r] == offs[r],
            offs[height as int] == n,
            t == mask_runs(mask@, width as nat, height as nat),
            partition_of(Seq::new(n, |k: int| dsu.rep(k)), overlap_pairs(t, offs, row as int), n),
            dsu.reps() == model_after(n, overlap_pairs(t, offs, row as int)).0,
            dsu.ranks() == model_after(n, overlap_pairs(t, offs, row as int)).1,
            forall|k: int| 0 <= k < n ==> (#[trigger] runs@[k]).start < runs@[k].end && runs@[k].row < height,
        decreases height - row,
    {
        proof {
            lemma_offsets_monotone(mask@, width as nat, (row - 1) as nat, row as nat);
            lemma_offsets_monotone(mask@, width as nat, row as nat, row as nat + 1);
            lemma_offsets_monotone(mask@, width as nat, row as nat + 1, height as nat);
        }
        let prev_start = offsets[row - 1];
        let prev_end = offsets[row];
        let curr_start = offsets[row];
        let curr_end = offsets[row + 1];
        let ghost base = overlap_pairs(t, offs, row as int);
        let mut curr_idx = curr_start;
        while curr_idx < curr_end
            invariant
                dsu.wf(),
                runs@.len() == n,
                run_triples(runs@) == t,
                dsu.spec_len() == n,
                labels@.len() == n,
                forall|k: int| 0 <= k < n ==> #[trigger] labels@[k] == k,
                prev_start <= prev_end <= n,
                curr_start <= curr_idx <= curr_end <= n,
                partition_of(Seq::new(n, |k: int| dsu.rep(k)), base + curr_scan(t, prev_start as int, prev_end as int, curr_start as int, curr_idx as int), n),
                dsu.reps() == model_after(n, base + curr_scan(t, prev_start as int, prev_end as int, curr_start as int, curr_idx as int)).0,
                dsu.ranks() == model_after(n, base + curr_scan(t, prev_start as int, prev_end as int, curr_start as int, curr_idx as int)).1,
                forall|k: int| 0 <= k < n ==> (#[trigger] runs@[k]).start < runs@[k].end && runs@[k].row < height,
                n < u32::MAX,
            decreases curr_end - curr_idx,
        {
            let curr = runs[curr_idx];
            let ghost before_curr = base + curr_scan(t, prev_start as int, prev_end as int, curr_start as int, curr_idx as int);
            let mut prev_idx = prev_start;
            while prev_idx < prev_end
                invariant
                    dsu.wf(),
                    runs@.len() == n,
                    run_triples(runs@) == t,
                    dsu.spec_len() == n,
                    labels@.len() == n,
                    forall|k: int| 0 <= k < n ==> #[trigger] labels@[k] == k,
                    prev_start <= prev_idx <= prev_end <= n,
                    curr_idx < n,
                    curr == runs@[curr_idx as int],
                    partition_of(Seq::new(n, |k: int| dsu.rep(k)), before_curr + prev_scan(t, curr_idx as int, prev_start as int, prev_idx as int), n),
                    dsu.reps() == model_after(n, before_curr + prev_scan(t, curr_idx as int, prev_start as int, prev_idx as int)).0,
                    dsu.ranks() == model_after(n, before_curr + prev_scan(t, curr_idx as int, prev_start as int, prev_idx as int)).1,
                    forall|k: int| 0 <= k < n ==> (#[trigger] runs@[k]).start < runs@[k].end && runs@[k].row < height,
                    n < u32::MAX,
                decreases prev_end - prev_idx,
            {
                let prev = runs[prev_idx];
                proof {
                    assert(triple_of(prev) == t[prev_idx as int]);
                    assert(triple_of(curr) == t[curr_idx as int]);
                }
                if prev.row + 1 == curr.row && prev.end > curr.start && curr.end > prev.start {
                    let ghost r0 = Seq::new(n, |k: int| dsu.rep(k));
                    let ghost pairs0 = before_curr + prev_scan(t, curr_idx as int, prev_start as int, prev_idx as int);
                    let la = labels[curr_idx];
                    let lb = labels[prev_idx];
                    dsu.union(la, lb);
                    proof {
                        let r1 = Seq::new(n, |k: int| dsu.rep(k));
                        lemma_merge_step(r0, r1, pairs0, n, curr_idx as int, prev_idx as int, dsu.rep(la as int));
                        assert(pairs0.push((curr_idx as int, prev_idx as int)).drop_last() == pairs0);
                        assert(pairs0.push((curr_idx as int, prev_idx as int)) == before_curr + prev_scan(
                            t,
                            curr_idx as int,
                            prev_start as int,
                            prev_idx as int + 1,
                        ));
                    }
                } else {
                    proof {
                        assert(before_curr + prev_scan(t, curr_idx as int, prev_start as int, prev_idx as int + 1)
                            == before_curr + prev_scan(t, curr_idx as int, prev_start as int, prev_idx as int));
                    }
                }
                prev_idx += 1;
            }
            proof {
                assert(before_curr + prev_scan(t, curr_idx as int, prev_start as int, prev_end as int) == base + curr_scan(
                    t,
                    prev_start as int,
                    prev_end as int,
                    curr_start as int,
                    curr_idx as int + 1,
                ));
            }
            curr_idx += 1;
        }
        proof {
            assert(overlap_pairs(t, offs, row as int + 1) == base + curr_scan(
                t,
                prev_start as int,
                prev_end as int,
                curr_start as int,
                curr_end as int,
            ));
        }
        row += 1;
    }
    proof {
        lemma_mask_runs_bounds(mask@, width as nat, height as nat, height as nat);
        assert forall|k: int| 0 <= k < runs@.len() implies (#[trigger] runs@[k]).start < runs@[k].end by {
            assert(run_triples(runs@)[k] == t[k]);
        }
    }
    let ghost reps_before = Seq::new(n, |k: int| dsu.rep(k));
    let ghost d_before = dsu;
    proof {
        assert(reps_before =~= overlap_reps(mask@, width as nat, height as nat));
    }
    let stats = accumulate_component_stats(&runs, &labels, &mut dsu);
    proof {
        assert(Seq::new(runs@.len(), |k: int| d_before.rep(labels@[k] as int)) == reps_before);
        assert forall|i: int| 0 <= i < t.len() implies (#[trigger] t[i]).1 < t[i].2 && t[i].2 <= width && t[i].0 < height by {}
        assert forall|j: int| 0 <= j < stats@.len() implies ((#[trigger] stats@[j]) matches Some(c) ==> stats_inside(c, width as nat, height as nat)) by {
            lemma_class_box(t, reps_before, j, n as int, width as nat, height as nat);
        }
        assert(height * width == width * height) by (nonlinear_arith);
        assert(t.subrange(0, n as int) == t);
        assert forall|j: int| 0 <= j < stats@.len() implies ((#[trigger] stats@[j]) matches Some(c) ==> c.area <= width * height) by {
            lemma_class_area(t, reps_before, j, n as int);
        }
        lemma_runs_count(t);
    }
    let mut q: usize = 0;
    while q < stats.len()
        invariant
            q <= stats@.len(),
            stats@ == component_table(t, reps_before, n),
            comps@ == present(stats@.subrange(0, q as int)),
            forall|j: int| 0 <= j < stats@.len() ==> ((#[trigger] stats@[j]) matches Some(c) ==> stats_inside(c, width as nat, height as nat)),
            forall|k: int| 0 <= k < comps@.len() ==> #[trigger] stats_inside(comps@[k], width as nat, height as nat),
            forall|j: int| 0 <= j < stats@.len() ==> ((#[trigger] stats@[j]) matches Some(c) ==> c.area <= width * height),
            forall|k: int| 0 <= k < comps@.len() ==> (#[trigger] comps@[k]).area <= width * height,
            comps@.len() <= q,
            stats@.len() <= width * height,
        decreases stats@.len() - q,
    {
        proof {
            assert(stats@.subrange(0, q as int + 1).drop_last() == stats@.subrange(0, q as int));
        }
        if let Some(comp) = stats[q] {
            let ghost before = comps@;
            comps.push(comp);
            proof {
                assert forall|k: int| 0 <= k < comps@.len() implies #[trigger] stats_inside(comps@[k], width as nat, height as nat) by {
                    if k < before.len() {
                        assert(comps@[k] == before[k]);
                    }
                }
                assert forall|k: int| 0 <= k < comps@.len() implies (#[trigger] comps@[k]).area <= width * height by {
                    if k < before.len() {
                        assert(comps@[k] == before[k]);
                    }
                }
            }
        }
        q += 1;
    }
    proof {
        assert(stats@.subrange(0, stats@.len() as int) == stats@);
        assert(overlap_components(mask@, width as nat, height as nat, reps_before, comps@));
    }
    comps
}

} // verus!
