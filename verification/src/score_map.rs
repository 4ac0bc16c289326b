//! Detection score maps: the size of the map a text detector produced,
//! and the 4-connected components of its cells above the threshold, found
//! by a depth-first flood fill seeded in scan order.

use vstd::prelude::*;

use crate::grid::{lemma_cell_in_plane, lemma_cells_distinct};

verus! {

/// The height and width of a score map of the given shape: `[h, w]`,
/// `[1, 1, h, w]` or `[1, h, w]`, else the model's input size.
pub open spec fn map_dims_spec(shape: Seq<usize>, width: usize, height: usize) -> (usize, usize) {
    if shape.len() == 2 {
        (shape[0], shape[1])
    } else if shape.len() == 4 && shape[0] == 1 && shape[1] == 1 {
        (shape[2], shape[3])
    } else if shape.len() == 3 && shape[0] == 1 {
        (shape[1], shape[2])
    } else {
        (height, width)
    }
}

/// The height and width of a score map from its shape.
pub fn map_dims(shape: &[usize], width: usize, height: usize) -> (dims: (usize, usize))
    ensures
        dims == map_dims_spec(shape@, width, height),
{
    if shape.len() == 2 {
        (shape[0], shape[1])
    } else if shape.len() == 4 && shape[0] == 1 && shape[1] == 1 {
        (shape[2], shape[3])
    } else if shape.len() == 3 && shape[0] == 1 {
        (shape[1], shape[2])
    } else {
        (height, width)
    }
}

/// A cell lies in a `w` by `h` map.
pub open spec fn in_map(w: nat, h: nat, p: (usize, usize)) -> bool {
    p.0 < w && p.1 < h
}

/// The row-major index of a cell.
pub open spec fn cell(w: nat, p: (usize, usize)) -> int {
    p.1 * w + p.0
}

/// The cell is above the threshold.
pub open spec fn is_set(mask: Seq<u8>, w: nat, p: (usize, usize)) -> bool {
    mask[cell(w, p)] != 0
}

/// Two cells share a side.
pub open spec fn adjacent(a: (usize, usize), b: (usize, usize)) -> bool {
    ||| a.0 == b.0 && (a.1 + 1 == b.1 || b.1 + 1 == a.1)
    ||| a.1 == b.1 && (a.0 + 1 == b.0 || b.0 + 1 == a.0)
}

/// `b` is a set cell of the map next to `a`.
pub open spec fn set_neighbor(mask: Seq<u8>, w: nat, h: nat, a: (usize, usize), b: (usize, usize)) -> bool {
    in_map(w, h, b) && adjacent(a, b) && is_set(mask, w, b)
}

/// Cell `i` of `s` touches an earlier one.
pub open spec fn touches_earlier(s: Seq<(usize, usize)>, i: int) -> bool {
    exists|j: int| 0 <= j < i && #[trigger] adjacent(s[j], s[i])
}

/// Every cell after the first touches an earlier one.
pub open spec fn grown(s: Seq<(usize, usize)>) -> bool {
    forall|i: int| 1 <= i < s.len() ==> #[trigger] touches_earlier(s, i)
}

/// No cell occurs twice.
pub open spec fn distinct_cells(s: Seq<(usize, usize)>) -> bool {
    forall|i: int, j: int| 0 <= i < j < s.len() ==> s[i] != s[j]
}

/// The smallest and largest column and row of some cells.
pub open spec fn cells_min_x(s: Seq<(usize, usize)>) -> usize
    decreases s.len(),
{
    if s.len() <= 1 {
        s[0].0
    } else {
        let m = cells_min_x(s.drop_last());
        if s.last().0 < m { s.last().0 } else { m }
    }
}

pub open spec fn cells_max_x(s: Seq<(usize, usize)>) -> usize
    decreases s.len(),
{
    if s.len() <= 1 {
        s[0].0
    } else {
        let m = cells_max_x(s.drop_last());
        if s.last().0 > m { s.last().0 } else { m }
    }
}

pub open spec fn cells_min_y(s: Seq<(usize, usize)>) -> usize
    decreases s.len(),
{
    if s.len() <= 1 {
        s[0].1
    } else {
        let m = cells_min_y(s.drop_last());
        if s.last().1 < m { s.last().1 } else { m }
    }
}

pub open spec fn cells_max_y(s: Seq<(usize, usize)>) -> usize
    decreases s.len(),
{
    if s.len() <= 1 {
        s[0].1
    } else {
        let m = cells_max_y(s.drop_last());
        if s.last().1 > m { s.last().1 } else { m }
    }
}

/// A component of a score map: its bounding box and its cells in the order
/// the flood fill reached them.
pub struct MapComponent {
    pub min_x: usize,
    pub max_x: usize,
    pub min_y: usize,
    pub max_y: usize,
    pub cells: Vec<(usize, usize)>,
}

/// The cells of each component.
pub open spec fn comp_cells(comps: Seq<MapComponent>) -> Seq<Seq<(usize, usize)>> {
    comps.map_values(|c: MapComponent| c.cells@)
}

/// `labels` marks with `k + 1` exactly the cells of `comps[k]`, which are
/// set cells of the map, each once; unmarked cells are 0.
pub open spec fn labeled(mask: Seq<u8>, w: nat, h: nat, labels: Seq<usize>, comps: Seq<Seq<(usize, usize)>>) -> bool {
    &&& labels.len() == w * h
    &&& forall|k: int, i: int|
        0 <= k < comps.len() && 0 <= i < comps[k].len() ==> in_map(w, h, #[trigger] comps[k][i]) && is_set(mask, w, comps[k][i])
            && labels[cell(w, comps[k][i])] == k + 1
    &&& forall|x: usize, y: usize|
        x < w && y < h && #[trigger] labels[cell(w, (x, y))] != 0 ==> labels[cell(w, (x, y))] <= comps.len()
            && comps[labels[cell(w, (x, y))] - 1].contains((x, y))
    &&& forall|k: int| 0 <= k < comps.len() ==> distinct_cells(#[trigger] comps[k])
}

/// The set cells next to a cell of `comps[k]` are in `comps[k]` too.
pub open spec fn closed_comp(mask: Seq<u8>, w: nat, h: nat, labels: Seq<usize>, comps: Seq<Seq<(usize, usize)>>, k: int) -> bool {
    forall|i: int, q: (usize, usize)|
        0 <= i < comps[k].len() && #[trigger] set_neighbor(mask, w, h, comps[k][i], q) ==> labels[cell(w, q)] == k + 1
}

/// The number of unmarked cells.
pub open spec fn zeros(s: Seq<usize>) -> nat
    decreases s.len(),
{
    if s.len() == 0 {
        0
    } else {
        zeros(s.drop_last()) + (if s.last() == 0 { 1nat } else { 0nat })
    }
}

proof fn lemma_zeros_mark(s: Seq<usize>, i: int, v: usize)
    requires
        0 <= i < s.len(),
        s[i] == 0,
        v != 0,
    ensures
        zeros(s) >= 1,
        zeros(s.update(i, v)) + 1 == zeros(s),
    decreases s.len(),
{
    if i < s.len() - 1 {
        assert(s.update(i, v).drop_last() =~= s.drop_last().update(i, v));
        lemma_zeros_mark(s.drop_last(), i, v);
    } else {
        assert(s.update(i, v).drop_last() =~= s.drop_last());
    }
}

/// Pushes cell (`nx`, `ny`) when it lies in the map, is unmarked and set.
fn push_if_open(stack: &mut Vec<(usize, usize)>, labels: &Vec<usize>, mask: &[u8], w: usize, h: usize, nx: usize, ny: usize)
    requires
        labels@.len() == w * h,
        mask@.len() >= w * h,
    ensures
        if in_map(w as nat, h as nat, (nx, ny)) && labels@[cell(w as nat, (nx, ny))] == 0 && mask@[cell(w as nat, (nx, ny))] != 0 {
            final(stack)@ == old(stack)@.push((nx, ny))
        } else {
            final(stack)@ == old(stack)@
        },
{
    let _n = labels.len();
    if nx < w && ny < h {
        proof {
            lemma_cell_in_plane(ny as int, nx as int, w as int, h as int);
        }
        let nidx = ny * w + nx;
        if labels[nidx] == 0 && mask[nidx] != 0 {
            stack.push((nx, ny));
        }
    }
}

/// Every labelled cell keeps its label.
pub open spec fn grows_from(w: nat, h: nat, before: Seq<usize>, after: Seq<usize>) -> bool {
    forall|x: usize, y: usize|
        x < w && y < h && #[trigger] before[cell(w, (x, y))] != 0 ==> after[cell(w, (x, y))] == before[cell(w, (x, y))]
}

/// `p` touches one of `cells`.
pub open spec fn touches(cells: Seq<(usize, usize)>, p: (usize, usize)) -> bool {
    exists|j: int| 0 <= j < cells.len() && #[trigger] adjacent(cells[j], p)
}

proof fn lemma_cells_of(w: nat, h: nat, p: (usize, usize), q: (usize, usize))
    requires
        in_map(w, h, p),
        in_map(w, h, q),
    ensures
        0 <= cell(w, p) < w * h,
        cell(w, p) == cell(w, q) ==> p == q,
{
    lemma_cell_in_plane(p.1 as int, p.0 as int, w as int, h as int);
    if p != q {
        lemma_cells_distinct(p.1 as int, p.0 as int, q.1 as int, q.0 as int, w as int);
    }
}

/// A set cell next to a labelled one is labelled, by the closure of the
/// labelled one's component.
proof fn lemma_no_foreign(mask: Seq<u8>, w: nat, h: nat, l0: Seq<usize>, comps: Seq<Seq<(usize, usize)>>, p: (usize, usize), q: (usize, usize))
    requires
        labeled(mask, w, h, l0, comps),
        forall|k: int| 0 <= k < comps.len() ==> #[trigger] closed_comp(mask, w, h, l0, comps, k),
        in_map(w, h, p),
        is_set(mask, w, p),
        in_map(w, h, q),
        adjacent(q, p),
        l0[cell(w, q)] != 0,
    ensures
        l0[cell(w, p)] != 0,
{
    let k = l0[cell(w, (q.0, q.1))] - 1;
    assert(comps[k].contains((q.0, q.1)));
    let iq = choose|iq: int| 0 <= iq < comps[k].len() && comps[k][iq] == q;
    assert(set_neighbor(mask, w, h, comps[k][iq], p));
    assert(closed_comp(mask, w, h, l0, comps, k));
}

proof fn lemma_adjacent_symmetric(a: (usize, usize), b: (usize, usize))
    ensures
        adjacent(a, b) == adjacent(b, a),
{
}

/// The marks of the flood fill: `labels` is `l0` with the cells of
/// `cells` (each unmarked in `l0`, set, once) marked `label`.
pub open spec fn fill_marks(mask: Seq<u8>, w: nat, h: nat, l0: Seq<usize>, labels: Seq<usize>, label: usize, cells: Seq<(usize, usize)>) -> bool {
    &&& labels.len() == w * h
    &&& grows_from(w, h, l0, labels)
    &&& forall|x: usize, y: usize|
        x < w && y < h && #[trigger] labels[cell(w, (x, y))] != l0[cell(w, (x, y))] ==> l0[cell(w, (x, y))] == 0 && labels[cell(
            w,
            (x, y),
        )] == label && cells.contains((x, y))
    &&& forall|i: int|
        0 <= i < cells.len() ==> in_map(w, h, #[trigger] cells[i]) && is_set(mask, w, cells[i]) && labels[cell(w, cells[i])] == label
            && l0[cell(w, cells[i])] == 0
    &&& distinct_cells(cells)
}

/// The waiting cells are set cells of the map touching the visited ones
/// (only the seed before the first visit).
pub open spec fn fill_stack(mask: Seq<u8>, w: nat, h: nat, seed: (usize, usize), cells: Seq<(usize, usize)>, stack: Seq<(usize, usize)>) -> bool {
    &&& forall|t: int| 0 <= t < stack.len() ==> in_map(w, h, #[trigger] stack[t]) && is_set(mask, w, stack[t])
    &&& cells.len() == 0 ==> stack == seq![seed]
    &&& cells.len() > 0 ==> cells[0] == seed
    &&& cells.len() > 0 ==> forall|t: int| 0 <= t < stack.len() ==> touches(cells, #[trigger] stack[t])
}

/// Every set neighbour of a visited cell is marked or waiting.
pub open spec fn fill_frontier(
    mask: Seq<u8>,
    w: nat,
    h: nat,
    labels: Seq<usize>,
    label: usize,
    cells: Seq<(usize, usize)>,
    stack: Seq<(usize, usize)>,
) -> bool {
    forall|i: int, q: (usize, usize)|
        0 <= i < cells.len() && #[trigger] set_neighbor(mask, w, h, cells[i], q) ==> labels[cell(w, q)] == label || stack.contains(q)
}

/// The state of the flood fill.
pub open spec fn fill_state(
    mask: Seq<u8>,
    w: nat,
    h: nat,
    l0: Seq<usize>,
    labels: Seq<usize>,
    label: usize,
    seed: (usize, usize),
    cells: Seq<(usize, usize)>,
    stack: Seq<(usize, usize)>,
) -> bool {
    &&& fill_marks(mask, w, h, l0, labels, label, cells)
    &&& fill_stack(mask, w, h, seed, cells, stack)
    &&& fill_frontier(mask, w, h, labels, label, cells, stack)
    &&& grown(cells)
}

/// Skipping a popped cell that is already marked keeps the state.
proof fn lemma_skip(
    mask: Seq<u8>,
    w: nat,
    h: nat,
    l0: Seq<usize>,
    labels: Seq<usize>,
    label: usize,
    seed: (usize, usize),
    cells: Seq<(usize, usize)>,
    st: Seq<(usize, usize)>,
    comps: Seq<Seq<(usize, usize)>>,
)
    requires
        labeled(mask, w, h, l0, comps),
        forall|k: int| 0 <= k < comps.len() ==> #[trigger] closed_comp(mask, w, h, l0, comps, k),
        label == comps.len() + 1,
        fill_state(mask, w, h, l0, labels, label, seed, cells, st),
        l0[cell(w, seed)] == 0,
        st.len() > 0,
        labels[cell(w, st.last())] != 0,
    ensures
        fill_state(mask, w, h, l0, labels, label, seed, cells, st.drop_last()),
        labels[cell(w, st.last())] == label,
{
    let p = st.last();
    let stack = st.drop_last();
    if cells.len() == 0 {
        assert(p == seed);
        assert(labels[cell(w, p)] == l0[cell(w, p)]);
        assert(false);
    }
    assert(in_map(w, h, st[st.len() - 1]));
    if labels[cell(w, p)] != label {
        assert(labels[cell(w, (p.0, p.1))] == l0[cell(w, (p.0, p.1))]);
        assert(touches(cells, st[st.len() - 1]));
        let j = choose|j: int| 0 <= j < cells.len() && adjacent(cells[j], p);
        assert(in_map(w, h, cells[j]));
        lemma_adjacent_symmetric(cells[j], p);
        lemma_no_foreign(mask, w, h, l0, comps, cells[j], p);
        assert(false);
    }
    assert forall|i: int, q: (usize, usize)|
        0 <= i < cells.len() && #[trigger] set_neighbor(mask, w, h, cells[i], q) implies labels[cell(w, q)] == label || stack.contains(q) by {
        if labels[cell(w, q)] != label {
            let t = choose|t: int| 0 <= t < st.len() && st[t] == q;
            if t == st.len() - 1 {
            } else {
                assert(stack[t] == q);
            }
        }
    }
    assert forall|t: int| 0 <= t < stack.len() implies in_map(w, h, #[trigger] stack[t]) && is_set(mask, w, stack[t]) by {
        assert(stack[t] == st[t]);
    }
    assert forall|t: int| 0 <= t < stack.len() implies touches(cells, #[trigger] stack[t]) by {
        assert(stack[t] == st[t]);
    }
}

/// The facts every visit lemma starts from.
pub open spec fn visit_pre(
    mask: Seq<u8>,
    w: nat,
    h: nat,
    l0: Seq<usize>,
    labels: Seq<usize>,
    label: usize,
    seed: (usize, usize),
    cells: Seq<(usize, usize)>,
    st: Seq<(usize, usize)>,
    comps: Seq<Seq<(usize, usize)>>,
    pushed: Seq<(usize, usize)>,
) -> bool {
    &&& labeled(mask, w, h, l0, comps)
    &&& forall|k: int| 0 <= k < comps.len() ==> #[trigger] closed_comp(mask, w, h, l0, comps, k)
    &&& label == comps.len() + 1
    &&& fill_state(mask, w, h, l0, labels, label, seed, cells, st)
    &&& l0[cell(w, seed)] == 0
    &&& st.len() > 0
    &&& labels[cell(w, st.last())] == 0
    &&& forall|t: int| 0 <= t < pushed.len() ==> in_map(w, h, #[trigger] pushed[t]) && is_set(mask, w, pushed[t]) && adjacent(st.last(), pushed[t])
    &&& forall|q: (usize, usize)|
        #[trigger] set_neighbor(mask, w, h, st.last(), q) && labels.update(cell(w, st.last()), label)[cell(w, q)] == 0 ==> pushed.contains(q)
}

proof fn lemma_visit_marks(
    mask: Seq<u8>,
    w: nat,
    h: nat,
    l0: Seq<usize>,
    labels: Seq<usize>,
    label: usize,
    seed: (usize, usize),
    cells: Seq<(usize, usize)>,
    st: Seq<(usize, usize)>,
    comps: Seq<Seq<(usize, usize)>>,
    pushed: Seq<(usize, usize)>,
)
    requires
        visit_pre(mask, w, h, l0, labels, label, seed, cells, st, comps, pushed),
    ensures
        fill_marks(mask, w, h, l0, labels.update(cell(w, st.last()), label), label, cells.push(st.last())),
        l0[cell(w, st.last())] == 0,
{
    let p = st.last();
    let lab = labels.update(cell(w, p), label);
    let nc = cells.push(p);
    assert(in_map(w, h, st[st.len() - 1]) && is_set(mask, w, st[st.len() - 1]));
    lemma_cells_of(w, h, p, p);
    assert(l0[cell(w, (p.0, p.1))] == 0) by {
        if l0[cell(w, (p.0, p.1))] != 0 {
            assert(labels[cell(w, (p.0, p.1))] == l0[cell(w, (p.0, p.1))]);
        }
    }
    assert forall|x: usize, y: usize| x < w && y < h && #[trigger] l0[cell(w, (x, y))] != 0 implies lab[cell(w, (x, y))] == l0[cell(w, (x, y))] by {
        lemma_cells_of(w, h, (x, y), p);
        assert(labels[cell(w, (x, y))] == l0[cell(w, (x, y))]);
    }
    assert forall|x: usize, y: usize|
        x < w && y < h && #[trigger] lab[cell(w, (x, y))] != l0[cell(w, (x, y))] implies l0[cell(w, (x, y))] == 0 && lab[cell(
            w,
            (x, y),
        )] == label && nc.contains((x, y)) by {
        lemma_cells_of(w, h, (x, y), p);
        if (x, y) == p {
            assert(nc[nc.len() - 1] == p);
        } else {
            assert(labels[cell(w, (x, y))] != l0[cell(w, (x, y))]);
            let i = choose|i: int| 0 <= i < cells.len() && cells[i] == (x, y);
            assert(nc[i] == (x, y));
        }
    }
    assert forall|i: int|
        0 <= i < nc.len() implies in_map(w, h, #[trigger] nc[i]) && is_set(mask, w, nc[i]) && lab[cell(w, nc[i])] == label && l0[cell(
            w,
            nc[i],
        )] == 0 by {
        if i < cells.len() {
            assert(nc[i] == cells[i]);
            lemma_cells_of(w, h, cells[i], p);
        }
    }
    assert forall|i: int, j: int| 0 <= i < j < nc.len() implies nc[i] != nc[j] by {
        if j == nc.len() - 1 {
            assert(nc[i] == cells[i]);
            assert(labels[cell(w, cells[i])] == label);
        } else {
            assert(nc[i] == cells[i] && nc[j] == cells[j]);
        }
    }
}

proof fn lemma_visit_stack(
    mask: Seq<u8>,
    w: nat,
    h: nat,
    l0: Seq<usize>,
    labels: Seq<usize>,
    label: usize,
    seed: (usize, usize),
    cells: Seq<(usize, usize)>,
    st: Seq<(usize, usize)>,
    comps: Seq<Seq<(usize, usize)>>,
    pushed: Seq<(usize, usize)>,
)
    requires
        visit_pre(mask, w, h, l0, labels, label, seed, cells, st, comps, pushed),
    ensures
        fill_stack(mask, w, h, seed, cells.push(st.last()), st.drop_last() + pushed),
{
    let p = st.last();
    let nc = cells.push(p);
    let stack = st.drop_last() + pushed;
    if cells.len() == 0 {
        assert(p == seed);
    }
    assert forall|t: int| 0 <= t < stack.len() implies in_map(w, h, #[trigger] stack[t]) && is_set(mask, w, stack[t]) by {
        if t < st.len() - 1 {
            assert(stack[t] == st[t]);
        } else {
            assert(stack[t] == pushed[t - (st.len() - 1)]);
        }
    }
    assert forall|t: int| 0 <= t < stack.len() implies touches(nc, #[trigger] stack[t]) by {
        if t < st.len() - 1 {
            assert(stack[t] == st[t]);
            assert(touches(cells, st[t]));
            let j = choose|j: int| 0 <= j < cells.len() && adjacent(cells[j], st[t]);
            assert(nc[j] == cells[j]);
            assert(adjacent(nc[j], stack[t]));
        } else {
            assert(stack[t] == pushed[t - (st.len() - 1)]);
            assert(nc[nc.len() - 1] == p);
            assert(adjacent(nc[nc.len() - 1], stack[t]));
        }
    }
}

/// A visit keeps the cells grown from the seed.
proof fn lemma_visit_grown(cells: Seq<(usize, usize)>, p: (usize, usize))
    requires
        grown(cells),
        cells.len() > 0 ==> touches(cells, p),
    ensures
        grown(cells.push(p)),
{
    let nc = cells.push(p);
    assert forall|i: int| 1 <= i < nc.len() implies #[trigger] touches_earlier(nc, i) by {
        if i < cells.len() {
            assert(nc[i] == cells[i]);
            assert(touches_earlier(cells, i));
            let j = choose|j: int| 0 <= j < i && adjacent(cells[j], cells[i]);
            assert(nc[j] == cells[j]);
            assert(adjacent(nc[j], nc[i]));
        } else {
            assert(nc[i] == p);
            assert(cells.len() > 0);
            assert(touches(cells, p));
            let j = choose|j: int| 0 <= j < cells.len() && adjacent(cells[j], p);
            assert(nc[j] == cells[j]);
            assert(adjacent(nc[j], nc[i]));
        }
    }
    assert(grown(nc));
}

proof fn lemma_visit_frontier(
    mask: Seq<u8>,
    w: nat,
    h: nat,
    l0: Seq<usize>,
    labels: Seq<usize>,
    label: usize,
    cells: Seq<(usize, usize)>,
    st: Seq<(usize, usize)>,
    comps: Seq<Seq<(usize, usize)>>,
    pushed: Seq<(usize, usize)>,
)
    requires
        labeled(mask, w, h, l0, comps),
        forall|k: int| 0 <= k < comps.len() ==> #[trigger] closed_comp(mask, w, h, l0, comps, k),
        label == comps.len() + 1,
        labels.len() == w * h,
        forall|x: usize, y: usize|
            x < w && y < h && #[trigger] labels[cell(w, (x, y))] != l0[cell(w, (x, y))] ==> labels[cell(w, (x, y))] == label,
        st.len() > 0,
        in_map(w, h, st.last()),
        is_set(mask, w, st.last()),
        l0[cell(w, st.last())] == 0,
        fill_frontier(mask, w, h, labels, label, cells, st),
        forall|q: (usize, usize)|
            #[trigger] set_neighbor(mask, w, h, st.last(), q) && labels.update(cell(w, st.last()), label)[cell(w, q)] == 0 ==> pushed.contains(q),
    ensures
        fill_frontier(mask, w, h, labels.update(cell(w, st.last()), label), label, cells.push(st.last()), st.drop_last() + pushed),
{
    let p = st.last();
    let lab = labels.update(cell(w, p), label);
    let nc = cells.push(p);
    let stack = st.drop_last() + pushed;
    assert forall|i: int, q: (usize, usize)|
        0 <= i < nc.len() && #[trigger] set_neighbor(mask, w, h, nc[i], q) implies lab[cell(w, q)] == label || stack.contains(q) by {
        lemma_cells_of(w, h, q, p);
        lemma_cells_of(w, h, q, q);
        lemma_cells_of(w, h, p, p);
        if cell(w, q) != cell(w, p) {
            assert(lab[cell(w, q)] == labels[cell(w, q)]);
        }
        if i < cells.len() {
            assert(nc[i] == cells[i]);
            assert(set_neighbor(mask, w, h, cells[i], q));
            if lab[cell(w, q)] != label {
                assert(labels[cell(w, q)] != label);
                assert(st.contains(q));
                let t = choose|t: int| 0 <= t < st.len() && st[t] == q;
                if t == st.len() - 1 {
                    assert(q == p);
                } else {
                    assert(stack[t] == q);
                }
            }
        } else {
            assert(nc[i] == p);
            if lab[cell(w, q)] != label && lab[cell(w, q)] != 0 {
                assert(labels[cell(w, (q.0, q.1))] == l0[cell(w, (q.0, q.1))]);
                lemma_adjacent_symmetric(p, q);
                lemma_no_foreign(mask, w, h, l0, comps, p, q);
                assert(false);
            }
            if lab[cell(w, q)] == 0 {
                assert(set_neighbor(mask, w, h, st.last(), q));
                assert(pushed.contains(q));
                let t = choose|t: int| 0 <= t < pushed.len() && pushed[t] == q;
                assert(stack[(st.len() - 1) + t] == q);
            }
        }
    }
}

/// Visiting a popped unmarked cell and pushing its open neighbours keeps
/// the state.
proof fn lemma_visit(
    mask: Seq<u8>,
    w: nat,
    h: nat,
    l0: Seq<usize>,
    labels: Seq<usize>,
    label: usize,
    seed: (usize, usize),
    cells: Seq<(usize, usize)>,
    st: Seq<(usize, usize)>,
    comps: Seq<Seq<(usize, usize)>>,
    pushed: Seq<(usize, usize)>,
)
    requires
        visit_pre(mask, w, h, l0, labels, label, seed, cells, st, comps, pushed),
    ensures
        fill_state(mask, w, h, l0, labels.update(cell(w, st.last()), label), label, seed, cells.push(st.last()), st.drop_last() + pushed),
{
    lemma_visit_marks(mask, w, h, l0, labels, label, seed, cells, st, comps, pushed);
    lemma_visit_stack(mask, w, h, l0, labels, label, seed, cells, st, comps, pushed);
    assert(in_map(w, h, st[st.len() - 1]) && is_set(mask, w, st[st.len() - 1]));
    if cells.len() > 0 {
        assert(touches(cells, st[st.len() - 1]));
    }
    lemma_visit_grown(cells, st.last());
    lemma_visit_frontier(mask, w, h, l0, labels, label, cells, st, comps, pushed);
}

/// The cell pushed when `cond` holds.
pub open spec fn pushed_if(cond: bool, c: (usize, usize)) -> Seq<(usize, usize)> {
    if cond { seq![c] } else { Seq::empty() }
}

/// Whether a candidate neighbour is pushed: in the map, unmarked and set.
pub open spec fn open_cell(mask: Seq<u8>, w: nat, h: nat, labels: Seq<usize>, c: (usize, usize)) -> bool {
    in_map(w, h, c) && labels[cell(w, c)] == 0 && mask[cell(w, c)] != 0
}

/// The four neighbour pushes after a visit add exactly the open
/// neighbours of the visited cell.
proof fn lemma_pushes(
    mask: Seq<u8>,
    w: nat,
    h: nat,
    lb: Seq<usize>,
    label: usize,
    st: Seq<(usize, usize)>,
    cx: usize,
    cy: usize,
    left: usize,
    right: usize,
    up: usize,
    down: usize,
    base: Seq<(usize, usize)>,
    s1: Seq<(usize, usize)>,
    s2: Seq<(usize, usize)>,
    s3: Seq<(usize, usize)>,
    s4: Seq<(usize, usize)>,
) -> (pushed: Seq<(usize, usize)>)
    requires
        st.len() > 0,
        st.last() == (cx, cy),
        in_map(w, h, (cx, cy)),
        w <= usize::MAX,
        h <= usize::MAX,
        lb.len() == w * h,
        base == st.drop_last(),
        left == (if cx == 0 { usize::MAX } else { (cx - 1) as usize }),
        right == cx + 1,
        up == (if cy == 0 { usize::MAX } else { (cy - 1) as usize }),
        down == cy + 1,
        ({
            let lab = lb.update(cell(w, (cx, cy)), label);
            &&& s1 == (if open_cell(mask, w, h, lab, (left, cy)) { base.push((left, cy)) } else { base })
            &&& s2 == (if open_cell(mask, w, h, lab, (right, cy)) { s1.push((right, cy)) } else { s1 })
            &&& s3 == (if open_cell(mask, w, h, lab, (cx, up)) { s2.push((cx, up)) } else { s2 })
            &&& s4 == (if open_cell(mask, w, h, lab, (cx, down)) { s3.push((cx, down)) } else { s3 })
        }),
    ensures
        s4 == st.drop_last() + pushed,
        forall|t: int| 0 <= t < pushed.len() ==> in_map(w, h, #[trigger] pushed[t]) && is_set(mask, w, pushed[t]) && adjacent(st.last(), pushed[t]),
        forall|q: (usize, usize)|
            #[trigger] set_neighbor(mask, w, h, st.last(), q) && lb.update(cell(w, st.last()), label)[cell(w, q)] == 0 ==> pushed.contains(q),
{
    let lab = lb.update(cell(w, (cx, cy)), label);
    let c1 = (left, cy);
    let c2 = (right, cy);
    let c3 = (cx, up);
    let c4 = (cx, down);
    let p1 = pushed_if(open_cell(mask, w, h, lab, c1), c1);
    let p2 = pushed_if(open_cell(mask, w, h, lab, c2), c2);
    let p3 = pushed_if(open_cell(mask, w, h, lab, c3), c3);
    let p4 = pushed_if(open_cell(mask, w, h, lab, c4), c4);
    let pushed = p1 + p2 + p3 + p4;
    assert(s1 =~= base + p1);
    assert(s2 =~= base + p1 + p2);
    assert(s3 =~= base + p1 + p2 + p3);
    assert(s4 =~= base + pushed);
    assert forall|t: int| 0 <= t < pushed.len() implies in_map(w, h, #[trigger] pushed[t]) && is_set(mask, w, pushed[t]) && adjacent(st.last(), pushed[t]) by {
        let e = pushed[t];
        let n1 = p1.len() as int;
        let n2 = n1 + p2.len();
        let n3 = n2 + p3.len();
        if t < n1 {
            assert(e == p1[t] && e == c1 && open_cell(mask, w, h, lab, c1));
        } else if t < n2 {
            assert(e == p2[t - n1] && e == c2 && open_cell(mask, w, h, lab, c2));
        } else if t < n3 {
            assert(e == p3[t - n2] && e == c3 && open_cell(mask, w, h, lab, c3));
        } else {
            assert(e == p4[t - n3] && e == c4 && open_cell(mask, w, h, lab, c4));
        }
    }
    assert forall|q: (usize, usize)|
        #[trigger] set_neighbor(mask, w, h, st.last(), q) && lab[cell(w, q)] == 0 implies pushed.contains(q) by {
        if q == c1 {
            assert(pushed[0] == q);
        } else if q == c2 {
            assert(pushed[p1.len() as int] == q);
        } else if q == c3 {
            assert(pushed[(p1.len() + p2.len()) as int] == q);
        } else {
            assert(q == c4);
            assert(pushed[(p1.len() + p2.len() + p3.len()) as int] == q);
        }
    }
    pushed
}

/// The box `min_x..=max_x` by `min_y..=max_y` bounds the cells tightly.
pub open spec fn box_of(cells: Seq<(usize, usize)>, min_x: usize, max_x: usize, min_y: usize, max_y: usize) -> bool {
    min_x == cells_min_x(cells) && max_x == cells_max_x(cells) && min_y == cells_min_y(cells) && max_y == cells_max_y(cells)
}

proof fn lemma_box_push(cb: Seq<(usize, usize)>, p: (usize, usize), min_x: usize, max_x: usize, min_y: usize, max_y: usize)
    requires
        cb.len() > 0 ==> box_of(cb, min_x, max_x, min_y, max_y),
        cb.len() == 0 ==> min_x == p.0 && max_x == p.0 && min_y == p.1 && max_y == p.1,
    ensures
        box_of(
            cb.push(p),
            if p.0 < min_x { p.0 } else { min_x },
            if p.0 > max_x { p.0 } else { max_x },
            if p.1 < min_y { p.1 } else { min_y },
            if p.1 > max_y { p.1 } else { max_y },
        ),
{
    if cb.len() == 0 {
        assert(cb.push(p) =~= seq![p]);
    } else {
        assert(cb.push(p).drop_last() =~= cb);
    }
}

/// Floods the component of the set cell (`sx`, `sy`) depth first, marking
/// its cells with `label`.
#[verifier::rlimit(60)]
fn fill_component(
    mask: &[u8],
    w: usize,
    h: usize,
    labels: &mut Vec<usize>,
    sx: usize,
    sy: usize,
    label: usize,
    Ghost(comps): Ghost<Seq<Seq<(usize, usize)>>>,
) -> (c: MapComponent)
    requires
        label == comps.len() + 1,
        mask@.len() >= w * h,
        labeled(mask@, w as nat, h as nat, old(labels)@, comps),
        forall|k: int| 0 <= k < comps.len() ==> #[trigger] closed_comp(mask@, w as nat, h as nat, old(labels)@, comps, k),
        sx < w,
        sy < h,
        old(labels)@[cell(w as nat, (sx, sy))] == 0,
        mask@[cell(w as nat, (sx, sy))] != 0,
    ensures
        c.cells@.len() > 0,
        c.cells@[0] == (sx, sy),
        fill_marks(mask@, w as nat, h as nat, old(labels)@, final(labels)@, label, c.cells@),
        fill_frontier(mask@, w as nat, h as nat, final(labels)@, label, c.cells@, Seq::empty()),
        grown(c.cells@),
        c.min_x == cells_min_x(c.cells@),
        c.max_x == cells_max_x(c.cells@),
        c.min_y == cells_min_y(c.cells@),
        c.max_y == cells_max_y(c.cells@),
{
    let ghost l0 = labels@;
    let ghost wn = w as nat;
    let ghost hn = h as nat;
    let ghost seed = (sx, sy);
    let _n = labels.len();
    let mut stack: Vec<(usize, usize)> = Vec::new();
    stack.push((sx, sy));
    let mut cells: Vec<(usize, usize)> = Vec::new();
    let mut min_x = sx;
    let mut max_x = sx;
    let mut min_y = sy;
    let mut max_y = sy;
    proof {
        lemma_cells_of(wn, hn, seed, seed);
        assert(forall|x: usize, y: usize| x < w && y < h && #[trigger] l0[cell(wn, (x, y))] != 0 ==> labels@[cell(wn, (x, y))] == l0[cell(wn, (x, y))]);
        assert(fill_state(mask@, wn, hn, l0, labels@, label, seed, cells@, stack@));
    }
    while stack.len() > 0
        invariant
            mask@.len() >= w * h,
            w * h <= usize::MAX,
            wn == w,
            hn == h,
            seed == (sx, sy),
            label == comps.len() + 1,
            labeled(mask@, wn, hn, l0, comps),
            forall|k: int| 0 <= k < comps.len() ==> #[trigger] closed_comp(mask@, wn, hn, l0, comps, k),
            l0[cell(wn, seed)] == 0,
            fill_state(mask@, wn, hn, l0, labels@, label, seed, cells@, stack@),
            cells@.len() > 0 ==> box_of(cells@, min_x, max_x, min_y, max_y),
            cells@.len() == 0 ==> min_x == sx && max_x == sx && min_y == sy && max_y == sy,
        decreases 5 * zeros(labels@) + stack@.len(),
    {
        let ghost st = stack@;
        let ghost lb = labels@;
        let top = stack.pop();
        let (cx, cy) = match top {
            Some(q) => q,
            None => (0, 0),
        };
        let ghost p = (cx, cy);
        proof {
            assert(p == st[st.len() - 1]);
            assert(in_map(wn, hn, st[st.len() - 1]) && is_set(mask@, wn, st[st.len() - 1]));
            lemma_cells_of(wn, hn, p, p);
        }
        let cidx = cy * w + cx;
        if labels[cidx] != 0 || mask[cidx] == 0 {
            proof {
                lemma_skip(mask@, wn, hn, l0, lb, label, seed, cells@, st, comps);
            }
            continue;
        }
        proof {
            lemma_zeros_mark(lb, cell(wn, p), label);
        }
        let ghost cb = cells@;
        proof {
            if cb.len() == 0 {
                assert(p == seed);
            }
            lemma_box_push(cb, p, min_x, max_x, min_y, max_y);
        }
        labels.set(cidx, label);
        cells.push((cx, cy));
        if cx < min_x {
            min_x = cx;
        }
        if cx > max_x {
            max_x = cx;
        }
        if cy < min_y {
            min_y = cy;
        }
        if cy > max_y {
            max_y = cy;
        }
        let left = cx.wrapping_sub(1);
        let right = cx + 1;
        let up = cy.wrapping_sub(1);
        let down = cy + 1;
        let ghost lab = labels@;
        let ghost base = stack@;
        push_if_open(&mut stack, labels, mask, w, h, left, cy);
        let ghost s1 = stack@;
        push_if_open(&mut stack, labels, mask, w, h, right, cy);
        let ghost s2 = stack@;
        push_if_open(&mut stack, labels, mask, w, h, cx, up);
        let ghost s3 = stack@;
        push_if_open(&mut stack, labels, mask, w, h, cx, down);
        proof {
            let pushed = lemma_pushes(mask@, wn, hn, lb, label, st, cx, cy, left, right, up, down, base, s1, s2, s3, stack@);
            lemma_visit(mask@, wn, hn, l0, lb, label, seed, cb, st, comps, pushed);
        }
    }
    proof {
        assert(cells@.len() > 0);
    }
    MapComponent { min_x, max_x, min_y, max_y, cells }
}

/// Marking a new closed component keeps the labelling exact.
proof fn lemma_extend(
    mask: Seq<u8>,
    w: nat,
    h: nat,
    lb: Seq<usize>,
    la: Seq<usize>,
    comps: Seq<Seq<(usize, usize)>>,
    cells: Seq<(usize, usize)>,
    label: usize,
)
    requires
        labeled(mask, w, h, lb, comps),
        forall|k: int| 0 <= k < comps.len() ==> #[trigger] closed_comp(mask, w, h, lb, comps, k),
        label == comps.len() + 1,
        fill_marks(mask, w, h, lb, la, label, cells),
        fill_frontier(mask, w, h, la, label, cells, Seq::empty()),
    ensures
        labeled(mask, w, h, la, comps.push(cells)),
        forall|k: int| 0 <= k < comps.len() + 1 ==> #[trigger] closed_comp(mask, w, h, la, comps.push(cells), k),
{
    let nc = comps.push(cells);
    assert forall|k: int, i: int|
        0 <= k < nc.len() && 0 <= i < nc[k].len() implies in_map(w, h, #[trigger] nc[k][i]) && is_set(mask, w, nc[k][i]) && la[cell(
            w,
            nc[k][i],
        )] == k + 1 by {
        if k < comps.len() {
            assert(nc[k] == comps[k]);
            let q = comps[k][i];
            assert(lb[cell(w, (q.0, q.1))] == k + 1);
        } else {
            assert(nc[k] == cells);
        }
    }
    assert forall|x: usize, y: usize|
        x < w && y < h && #[trigger] la[cell(w, (x, y))] != 0 implies la[cell(w, (x, y))] <= nc.len() && nc[la[cell(w, (x, y))] - 1].contains((x, y)) by {
        if la[cell(w, (x, y))] != lb[cell(w, (x, y))] {
            assert(nc[nc.len() - 1] == cells);
        } else {
            assert(nc[lb[cell(w, (x, y))] - 1] == comps[lb[cell(w, (x, y))] - 1]);
        }
    }
    assert forall|k: int| 0 <= k < nc.len() implies distinct_cells(#[trigger] nc[k]) by {
        if k < comps.len() {
            assert(nc[k] == comps[k]);
        }
    }
    assert forall|k: int| 0 <= k < nc.len() implies #[trigger] closed_comp(mask, w, h, la, nc, k) by {
        if k < comps.len() {
            assert(nc[k] == comps[k]);
            assert(closed_comp(mask, w, h, lb, comps, k));
            assert forall|i: int, q: (usize, usize)|
                0 <= i < nc[k].len() && #[trigger] set_neighbor(mask, w, h, nc[k][i], q) implies la[cell(w, q)] == k + 1 by {
                assert(set_neighbor(mask, w, h, comps[k][i], q));
                assert(lb[cell(w, (q.0, q.1))] == k + 1);
            }
        } else {
            assert(nc[k] == cells);
            assert forall|i: int, q: (usize, usize)|
                0 <= i < nc[k].len() && #[trigger] set_neighbor(mask, w, h, nc[k][i], q) implies la[cell(w, q)] == k + 1 by {
                assert(set_neighbor(mask, w, h, cells[i], q));
                if la[cell(w, q)] != label {
                    assert(Seq::<(usize, usize)>::empty().contains(q));
                }
            }
        }
    }
}

/// The components of the set cells of a `w` by `h` map: the first cell of
/// each comes first in scan order among its cells, and the components come
/// in the scan order of their first cells.
pub open spec fn scan_ordered(w: nat, comps: Seq<Seq<(usize, usize)>>) -> bool {
    &&& forall|k: int, i: int| 0 <= k < comps.len() && 0 <= i < comps[k].len() ==> cell(w, comps[k][0]) <= cell(w, #[trigger] comps[k][i])
    &&& forall|k1: int, k2: int| 0 <= k1 < k2 < comps.len() ==> cell(w, #[trigger] comps[k1][0]) < cell(w, #[trigger] comps[k2][0])
}

/// Every component has a first cell and grows from it.
pub open spec fn all_grown(cs: Seq<Seq<(usize, usize)>>) -> bool {
    forall|k: int| 0 <= k < cs.len() ==> #[trigger] grown_from_first(cs[k])
}

/// The cells have a first one, and every later one touches an earlier one.
pub open spec fn grown_from_first(s: Seq<(usize, usize)>) -> bool {
    s.len() > 0 && grown(s)
}

proof fn lemma_push_grown(cs: Seq<Seq<(usize, usize)>>, c: Seq<(usize, usize)>)
    requires
        all_grown(cs),
        c.len() > 0,
        grown(c),
    ensures
        all_grown(cs.push(c)),
{
    let nc = cs.push(c);
    assert forall|k: int| 0 <= k < nc.len() implies #[trigger] grown_from_first(nc[k]) by {
        if k < cs.len() {
            assert(grown_from_first(cs[k]));
            assert(nc[k] == cs[k]);
        } else {
            assert(nc[k] == c);
        }
    }
    assert(all_grown(nc));
}

/// `comps` are the 4-connected components of the set cells of a `w` by
/// `h` map: some labelling marks exactly their cells, marks every set cell,
/// and no set cell next to a component lies outside it; each component's
/// cells are listed from its scan-first cell, every later one touching an
/// earlier one, with its tight bounding box; the components are in scan
/// order.
pub open spec fn components_of(mask: Seq<u8>, w: nat, h: nat, comps: Seq<MapComponent>) -> bool {
    let cs = comp_cells(comps);
    &&& exists|labels: Seq<usize>|
        #[trigger] labeled(mask, w, h, labels, cs) && (forall|x: usize, y: usize|
            x < w && y < h && is_set(mask, w, (x, y)) ==> #[trigger] labels[cell(w, (x, y))] != 0) && (forall|k: int|
            0 <= k < cs.len() ==> #[trigger] closed_comp(mask, w, h, labels, cs, k))
    &&& all_grown(cs)
    &&& forall|k: int| 0 <= k < comps.len() ==> box_of(#[trigger] comps[k].cells@, comps[k].min_x, comps[k].max_x, comps[k].min_y, comps[k].max_y)
    &&& scan_ordered(w, cs)
}

/// The 4-connected components of the set cells (non-zero entries) of a
/// `map_width` by `map_height` score map, flooded depth first from each
/// unmarked set cell in scan order; none when the map is empty or shorter
/// than its size.
pub fn map_components(mask: &[u8], map_width: usize, map_height: usize) -> (comps: Vec<MapComponent>)
    ensures
        (map_width == 0 || map_height == 0 || map_width * map_height > mask@.len()) ==> comps@.len() == 0,
        !(map_width == 0 || map_height == 0 || map_width * map_height > mask@.len()) ==> components_of(
            mask@,
            map_width as nat,
            map_height as nat,
            comps@,
        ),
{
    let mut comps: Vec<MapComponent> = Vec::new();
    let n = mask.len();
    if map_width == 0 || map_height == 0 {
        return comps;
    }
    let area = match map_width.checked_mul(map_height) {
        Some(a) => a,
        None => {
            return comps;
        },
    };
    if n < area {
        return comps;
    }
    let w = map_width;
    let h = map_height;
    let ghost wn = w as nat;
    let ghost hn = h as nat;
    let mut labels: Vec<usize> = Vec::new();
    let mut i: usize = 0;
    while i < area
        invariant
            i <= area,
            labels@.len() == i,
            forall|j: int| 0 <= j < i ==> labels@[j] == 0,
        decreases area - i,
    {
        labels.push(0);
        i = i + 1;
    }
    let ghost mut cs: Seq<Seq<(usize, usize)>> = Seq::empty();
    proof {
        assert forall|xx: usize, yy: usize| xx < w && yy < h implies #[trigger] labels@[cell(wn, (xx, yy))] == 0 by {
            lemma_cells_of(wn, hn, (xx, yy), (xx, yy));
        }
        assert(labeled(mask@, wn, hn, labels@, cs));
    }
    let mut y: usize = 0;
    while y < h
        invariant
            y <= h,
            w == wn,
            h == hn,
            w > 0,
            area == w * h,
            mask@.len() >= area,
            cs == comp_cells(comps@),
            labeled(mask@, wn, hn, labels@, cs),
            forall|k: int| 0 <= k < cs.len() ==> #[trigger] closed_comp(mask@, wn, hn, labels@, cs, k),
            all_grown(cs),
            forall|k: int| 0 <= k < comps@.len() ==> box_of(#[trigger] comps@[k].cells@, comps@[k].min_x, comps@[k].max_x, comps@[k].min_y, comps@[k].max_y),
            scan_ordered(wn, cs),
            forall|k: int| 0 <= k < cs.len() ==> cell(wn, #[trigger] cs[k][0]) < y * w,
            forall|xx: usize, yy: usize| xx < w && yy < y && is_set(mask@, wn, (xx, yy)) ==> #[trigger] labels@[cell(wn, (xx, yy))] != 0,
            cs.len() <= y * w,
        decreases h - y,
    {
        let mut x: usize = 0;
        while x < w
            invariant
                x <= w,
                y < h,
                w == wn,
                h == hn,
                w > 0,
                area == w * h,
                mask@.len() >= area,
                cs == comp_cells(comps@),
                labeled(mask@, wn, hn, labels@, cs),
                forall|k: int| 0 <= k < cs.len() ==> #[trigger] closed_comp(mask@, wn, hn, labels@, cs, k),
                all_grown(cs),
                forall|k: int| 0 <= k < comps@.len() ==> box_of(#[trigger] comps@[k].cells@, comps@[k].min_x, comps@[k].max_x, comps@[k].min_y, comps@[k].max_y),
                scan_ordered(wn, cs),
                forall|k: int| 0 <= k < cs.len() ==> cell(wn, #[trigger] cs[k][0]) < y * w + x,
                forall|xx: usize, yy: usize|
                    xx < w && yy < h && (yy < y || (yy == y && xx < x)) && is_set(mask@, wn, (xx, yy)) ==> #[trigger] labels@[cell(wn, (xx, yy))] != 0,
                cs.len() <= y * w + x,
            decreases w - x,
        {
            proof {
                lemma_cells_of(wn, hn, (x, y), (x, y));
            }
            let idx = y * w + x;
            if labels[idx] == 0 && mask[idx] != 0 {
                let ghost lb = labels@;
                let label = comps.len() + 1;
                let comp = fill_component(mask, w, h, &mut labels, x, y, label, Ghost(cs));
                proof {
                    lemma_extend(mask@, wn, hn, lb, labels@, cs, comp.cells@, label);
                    let nc = cs.push(comp.cells@);
                    // The new component starts at the scan position and has no earlier cell.
                    assert forall|i: int| 0 <= i < comp.cells@.len() implies cell(wn, (x, y)) <= cell(wn, #[trigger] comp.cells@[i]) by {
                        let q = comp.cells@[i];
                        assert(in_map(wn, hn, q) && is_set(mask@, wn, q) && lb[cell(wn, q)] == 0);
                        lemma_cells_of(wn, hn, q, q);
                        if cell(wn, q) < cell(wn, (x, y)) {
                            if q.1 < y {
                            } else if q.1 == y {
                                assert(q.0 < x);
                            } else {
                                assert(q.1 * w >= (y + 1) * w) by (nonlinear_arith)
                                    requires
                                        q.1 >= y + 1,
                            ;
                                assert((y + 1) * w == y * w + w) by (nonlinear_arith);
                            }
                            assert(lb[cell(wn, (q.0, q.1))] != 0);
                        }
                    }
                    lemma_push_grown(cs, comp.cells@);
                    assert(scan_ordered(wn, nc)) by {
                        assert forall|k: int, i: int| 0 <= k < nc.len() && 0 <= i < nc[k].len() implies cell(wn, nc[k][0]) <= cell(wn, #[trigger] nc[k][i]) by {
                            if k < cs.len() {
                                assert(nc[k] == cs[k]);
                            }
                        }
                        assert forall|k1: int, k2: int| 0 <= k1 < k2 < nc.len() implies cell(wn, #[trigger] nc[k1][0]) < cell(wn, #[trigger] nc[k2][0]) by {
                            assert(nc[k1] == cs[k1]);
                            if k2 < cs.len() {
                                assert(nc[k2] == cs[k2]);
                            }
                        }
                    }
                }
                comps.push(comp);
                proof {
                    cs = cs.push(comps@[comps@.len() - 1].cells@);
                    assert(cs =~= comp_cells(comps@));
                }
            }
            proof {
                assert forall|xx: usize, yy: usize|
                    xx < w && yy < h && (yy < y || (yy == y && xx < x + 1)) && is_set(mask@, wn, (xx, yy)) implies #[trigger] labels@[cell(wn, (xx, yy))] != 0 by {
                    if yy == y && xx == x {
                    }
                }
            }
            x = x + 1;
        }
        proof {
            assert((y + 1) * w == y * w + w) by (nonlinear_arith);
        }
        y = y + 1;
    }
    proof {
        assert forall|xx: usize, yy: usize| xx < w && yy < h && is_set(mask@, wn, (xx, yy)) implies #[trigger] labels@[cell(wn, (xx, yy))] != 0 by {}
        assert(labeled(mask@, wn, hn, labels@, comp_cells(comps@)));
        assert(components_of(mask@, wn, hn, comps@));
    }
    comps
}

} // verus!
