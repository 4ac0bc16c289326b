//! Run-length encoding of a mask: the maximal runs of band pixels of every
//! row.

use vstd::prelude::*;

use crate::bridge::row_of;
use crate::grid::lemma_cell_in_plane;

verus! {

/// A maximal run `[start, end)` of band pixels on row `row`, with the label
/// of its set.
#[derive(Clone, Copy, Debug, PartialEq, Eq)]
pub struct RowRun {
    pub start: usize,
    pub end: usize,
    pub row: usize,
    pub label: u32,
}

/// The runs `(start, end)` of `line` from column `x` on, `open` holding the
/// start of the run in progress.
pub open spec fn line_runs(line: Seq<u8>, x: nat, open: Option<nat>) -> Seq<(nat, nat)>
    decreases line.len() - x,
{
    if x >= line.len() {
        match open {
            None => Seq::empty(),
            Some(s) => seq![(s, line.len())],
        }
    } else if line[x as int] != 0 {
        line_runs(line, x + 1, if open is Some { open } else { Some(x) })
    } else {
        (match open {
            None => Seq::empty(),
            Some(s) => seq![(s, x)],
        }) + line_runs(line, x + 1, None)
    }
}

/// The runs of row `r`, tagged with the row.
pub open spec fn tagged_runs(mask: Seq<u8>, w: nat, r: nat) -> Seq<(nat, nat, nat)> {
    line_runs(row_of(mask, w, r as int), 0, None).map_values(|p: (nat, nat)| (r, p.0, p.1))
}

/// The runs of the rows before `r`, row by row, left to right.
pub open spec fn mask_runs(mask: Seq<u8>, w: nat, r: nat) -> Seq<(nat, nat, nat)>
    decreases r,
{
    if r == 0 {
        Seq::empty()
    } else {
        mask_runs(mask, w, (r - 1) as nat) + tagged_runs(mask, w, (r - 1) as nat)
    }
}

/// The `(row, start, end)` of every run of a sequence of runs.
pub open spec fn run_triples(runs: Seq<RowRun>) -> Seq<(nat, nat, nat)> {
    runs.map_values(|run: RowRun| (run.row as nat, run.start as nat, run.end as nat))
}

/// The runs of a `width` by `height` mask, row by row and left to right,
/// every label 0, and for every row `r` the index of its first run
/// (`offsets[height]` is the number of runs).
pub fn extract_runs(mask: &[u8], width: usize, height: usize) -> (res: (Vec<RowRun>, Vec<usize>))
    requires
        mask@.len() == width * height,
    ensures
        run_triples(res.0@) == mask_runs(mask@, width as nat, height as nat),
        forall|i: int| 0 <= i < res.0@.len() ==> (#[trigger] res.0@[i]).label == 0,
        res.1@.len() == height + 1,
        forall|r: int| 0 <= r <= height ==> #[trigger] res.1@[r] == mask_runs(mask@, width as nat, r as nat).len(),
{
    let mut runs: Vec<RowRun> = Vec::new();
    let mut offsets: Vec<usize> = Vec::new();
    let mut row: usize = 0;
    while row < height
        invariant
            mask@.len() == width * height,
            row <= height,
            run_triples(runs@) == mask_runs(mask@, width as nat, row as nat),
            forall|i: int| 0 <= i < runs@.len() ==> (#[trigger] runs@[i]).label == 0,
            offsets@.len() == row,
            forall|r: int| 0 <= r < row ==> #[trigger] offsets@[r] == mask_runs(mask@, width as nat, r as nat).len(),
            runs@.len() <= row * width,
        decreases height - row,
    {
        proof {
            assert(mask@.len() == mask.len());
            if width > 0 {
                lemma_cell_in_plane(row as int, width as int - 1, width as int, height as int);
            } else {
                assert(row * width == 0) by (nonlinear_arith)
                    requires width == 0;
            }
            assert(row * width + width <= width * height) by (nonlinear_arith)
                requires row < height;
            assert((row + 1) * width == row * width + width) by (nonlinear_arith);
        }
        let ghost line = row_of(mask@, width as nat, row as int);
        let ghost before = runs@;
        let ghost before_triples = run_triples(runs@);
        let ghost total_row = line_runs(line, 0, None);
        let ghost old_offsets = offsets@;
        offsets.push(runs.len());
        let base = row * width;
        let mut x: usize = 0;
        while x < width
            invariant
                mask@.len() == width * height,
                base == row * width,
                base + width <= mask.len(),
                line == row_of(mask@, width as nat, row as int),
                line.len() == width,
                x <= width,
                total_row == line_runs(line, 0, None),
                runs@.len() >= before.len(),
                runs@.subrange(0, before.len() as int) == before,
                forall|i: int| 0 <= i < runs@.len() ==> (#[trigger] runs@[i]).label == 0,
                forall|i: int| before.len() <= i < runs@.len() ==> (#[trigger] runs@[i]).row == row,
                runs@.subrange(before.len() as int, runs@.len() as int).map_values(|run: RowRun| (run.start as nat, run.end as nat))
                    + line_runs(line, x as nat, None) == total_row,
                runs@.len() - before.len() <= x,
            decreases width - x,
        {
            let ghost x0 = x;
            while x < width && mask[base + x] == 0
                invariant
                    base + width <= mask.len(),
                    line == row_of(mask@, width as nat, row as int),
                    line.len() == width,
                    base == row * width,
                    x0 <= x <= width,
                    line_runs(line, x0 as nat, None) == line_runs(line, x as nat, None),
                decreases width - x,
            {
                assert(mask@[base + x] == line[x as int]);
                x += 1;
            }
            if x < width {
                assert(mask@[base + x] == line[x as int]);
                let start = x;
                while x < width && mask[base + x] != 0
                    invariant
                        base + width <= mask.len(),
                        line == row_of(mask@, width as nat, row as int),
                        line.len() == width,
                        base == row * width,
                        start < width,
                        start < x <= width || (start == x && line[x as int] != 0),
                        line_runs(line, start as nat, None) == if start == x {
                            line_runs(line, x as nat, None)
                        } else {
                            line_runs(line, x as nat, Some(start as nat))
                        },
                    decreases width - x,
                {
                    assert(mask@[base + x] == line[x as int]);
                    x += 1;
                }
                proof {
                    if x < width {
                        assert(mask@[base + x] == line[x as int]);
                    }
                }
                let ghost pre = runs@;
                runs.push(RowRun { start, end: x, row, label: 0 });
                proof {
                    assert(runs@.subrange(0, before.len() as int) == before) by {
                        assert(runs@.subrange(0, before.len() as int) == pre.subrange(0, before.len() as int));
                    }
                    assert(runs@.subrange(before.len() as int, runs@.len() as int) == pre.subrange(
                        before.len() as int,
                        pre.len() as int,
                    ).push(runs@[pre.len() as int]));
                }
            }
        }
        proof {
            let new_part = runs@.subrange(before.len() as int, runs@.len() as int);
            assert(runs@ == before + new_part);
            assert(run_triples(runs@) == run_triples(before) + run_triples(new_part));
            assert(run_triples(new_part) == tagged_runs(mask@, width as nat, row as nat));
        }
        row += 1;
    }
    offsets.push(runs.len());
    (runs, offsets)
}

} // verus!

verus! {

/// The total width of a sequence of runs.
pub open spec fn width_sum(t: Seq<(nat, nat, nat)>) -> nat
    decreases t.len(),
{
    if t.len() == 0 {
        0
    } else {
        width_sum(t.drop_last()) + (t.last().2 - t.last().1) as nat
    }
}

pub open spec fn pair_width_sum(t: Seq<(nat, nat)>) -> nat
    decreases t.len(),
{
    if t.len() == 0 {
        0
    } else {
        (t[0].1 - t[0].0) as nat + pair_width_sum(t.drop_first())
    }
}

proof fn lemma_pair_width_sum_append(a: Seq<(nat, nat)>, b: Seq<(nat, nat)>)
    ensures
        pair_width_sum(a + b) == pair_width_sum(a) + pair_width_sum(b),
    decreases a.len(),
{
    if a.len() > 0 {
        assert((a + b).drop_first() == a.drop_first() + b);
        lemma_pair_width_sum_append(a.drop_first(), b);
    } else {
        assert(a + b == b);
    }
}

/// Every run of a line lies inside the line, is non-empty, and starts at
/// or after the scan position; their widths add up to at most the rest of
/// the line.
pub proof fn lemma_line_runs_bounds(line: Seq<u8>, x: nat, open: Option<nat>)
    requires
        x <= line.len(),
        open matches Some(s) ==> s < x,
    ensures
        ({
            let runs = line_runs(line, x, open);
            let lo = match open {
                Some(s) => s,
                None => x,
            };
            &&& forall|k: int| 0 <= k < runs.len() ==> lo <= (#[trigger] runs[k]).0 < runs[k].1 <= line.len()
            &&& pair_width_sum(runs) <= line.len() - lo
        }),
    decreases line.len() - x,
{
    let runs = line_runs(line, x, open);
    if x >= line.len() {
        if open is Some {
            assert(pair_width_sum(runs) == pair_width_sum(runs.drop_first()) + (runs[0].1 - runs[0].0));
            assert(runs.drop_first().len() == 0);
        }
    } else if line[x as int] != 0 {
        let nopen = if open is Some { open } else { Some(x) };
        lemma_line_runs_bounds(line, x + 1, nopen);
    } else {
        lemma_line_runs_bounds(line, x + 1, None);
        let head: Seq<(nat, nat)> = match open {
            None => Seq::empty(),
            Some(s) => seq![(s, x)],
        };
        let rest = line_runs(line, x + 1, None);
        assert(runs == head + rest);
        lemma_pair_width_sum_append(head, rest);
        if open is Some {
            assert(pair_width_sum(head) == pair_width_sum(head.drop_first()) + (head[0].1 - head[0].0));
            assert(head.drop_first().len() == 0);
        }
        assert forall|k: int| 0 <= k < runs.len() implies ({
            let lo = match open {
                Some(s) => s,
                None => x,
            };
            lo <= (#[trigger] runs[k]).0 < runs[k].1 <= line.len()
        }) by {
            if k >= head.len() {
                assert(runs[k] == rest[k - head.len()]);
            }
        }
    }
}

proof fn lemma_width_sum_append(a: Seq<(nat, nat, nat)>, b: Seq<(nat, nat, nat)>)
    ensures
        width_sum(a + b) == width_sum(a) + width_sum(b),
    decreases b.len(),
{
    if b.len() > 0 {
        assert((a + b).drop_last() == a + b.drop_last());
        lemma_width_sum_append(a, b.drop_last());
    } else {
        assert(a + b == a);
    }
}

proof fn lemma_tagged_width(t: Seq<(nat, nat)>, r: nat)
    ensures
        width_sum(t.map_values(|p: (nat, nat)| (r, p.0, p.1))) == pair_width_sum(t),
    decreases t.len(),
{
    let m = t.map_values(|p: (nat, nat)| (r, p.0, p.1));
    if t.len() > 0 {
        let tail = t.drop_first();
        lemma_tagged_width(tail, r);
        let head = seq![(r, t[0].0, t[0].1)];
        assert(m == head + tail.map_values(|p: (nat, nat)| (r, p.0, p.1)));
        lemma_width_sum_append(head, tail.map_values(|p: (nat, nat)| (r, p.0, p.1)));
        assert(head.drop_last().len() == 0);
        assert(head.last() == (r, t[0].0, t[0].1));
        assert(width_sum(head.drop_last()) == 0);
        assert(width_sum(head) == (t[0].1 - t[0].0) as nat);
    }
}

/// The runs of the first `r` rows lie on those rows inside the width, are
/// non-empty, and cover at most `r * w` pixels.
pub proof fn lemma_mask_runs_bounds(mask: Seq<u8>, w: nat, h: nat, r: nat)
    requires
        mask.len() == w * h,
        r <= h,
    ensures
        forall|k: int|
            0 <= k < mask_runs(mask, w, r).len() ==> {
                &&& (#[trigger] mask_runs(mask, w, r)[k]).0 < r
                &&& mask_runs(mask, w, r)[k].1 < mask_runs(mask, w, r)[k].2
                &&& mask_runs(mask, w, r)[k].2 <= w
            },
        width_sum(mask_runs(mask, w, r)) <= r * w,
    decreases r,
{
    if r > 0 {
        let r1 = (r - 1) as nat;
        lemma_mask_runs_bounds(mask, w, h, r1);
        let line = row_of(mask, w, r1 as int);
        if w > 0 {
            lemma_cell_in_plane(r1 as int, 0, w as int, h as int);
        } else {
            assert(r1 * w == 0) by (nonlinear_arith)
                requires w == 0;
        }
        assert(r1 * w + w <= w * h) by (nonlinear_arith)
            requires r1 < h;
        assert(line.len() == w);
        lemma_line_runs_bounds(line, 0, None);
        let lr = line_runs(line, 0, None);
        let tagged = tagged_runs(mask, w, r1);
        lemma_tagged_width(lr, r1);
        lemma_width_sum_append(mask_runs(mask, w, r1), tagged);
        assert(r * w == r1 * w + w) by (nonlinear_arith)
            requires r == r1 + 1;
        let all = mask_runs(mask, w, r);
        assert forall|k: int| 0 <= k < all.len() implies {
            &&& (#[trigger] all[k]).0 < r
            &&& all[k].1 < all[k].2
            &&& all[k].2 <= w
        } by {
            let prev = mask_runs(mask, w, r1);
            if k >= prev.len() {
                assert(all[k] == tagged[k - prev.len()]);
                assert(lr[k - prev.len()].0 < lr[k - prev.len()].1);
            } else {
                assert(all[k] == prev[k]);
            }
        }
    }
}

} // verus!
