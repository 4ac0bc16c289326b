//! Stable ordering of candidate boxes and the merging of boxes that lie on
//! one text line.

use vstd::prelude::*;

use crate::bands::{all_inside, rect_inside, RectCandidate};
use crate::region::{smax, smin, NEAR_GAP, Y_MERGE_TOL};

verus! {

/// The sort key of a box: its left edge, or its top edge.
pub open spec fn rect_key(r: RectCandidate, by_x: bool) -> nat {
    if by_x {
        r.x as nat
    } else {
        r.y as nat
    }
}

/// Inserts `r` into `s` after every trailing box whose key is larger, that
/// is after the last box whose key is at most the key of `r`.
pub open spec fn insert_by_key(s: Seq<RectCandidate>, r: RectCandidate, by_x: bool) -> Seq<RectCandidate>
    decreases s.len(),
{
    if s.len() == 0 {
        seq![r]
    } else if rect_key(s.last(), by_x) <= rect_key(r, by_x) {
        s.push(r)
    } else {
        insert_by_key(s.drop_last(), r, by_x).push(s.last())
    }
}

/// The boxes of `s` in nondecreasing key order, boxes with equal keys in
/// their order in `s`.
pub open spec fn sorted_by_key(s: Seq<RectCandidate>, by_x: bool) -> Seq<RectCandidate>
    decreases s.len(),
{
    if s.len() == 0 {
        Seq::empty()
    } else {
        insert_by_key(sorted_by_key(s.drop_last(), by_x), s.last(), by_x)
    }
}

/// The sort key of a box.
fn key_of(r: &RectCandidate, by_x: bool) -> (k: usize)
    ensures
        k == rect_key(*r, by_x),
{
    if by_x {
        r.x
    } else {
        r.y
    }
}

/// Orders boxes by left edge (`by_x`) or by top edge, keeping the order of
/// boxes with equal keys.
pub fn sort_rects(rects: &Vec<RectCandidate>, by_x: bool) -> (sorted: Vec<RectCandidate>)
    ensures
        sorted@ == sorted_by_key(rects@, by_x),
{
    let mut sorted: Vec<RectCandidate> = Vec::new();
    let mut i: usize = 0;
    while i < rects.len()
        invariant
            i <= rects@.len(),
            sorted@ == sorted_by_key(rects@.subrange(0, i as int), by_x),
        decreases rects@.len() - i,
    {
        let r = rects[i];
        let key = key_of(&r, by_x);
        let ghost s0 = sorted@;
        let mut j = sorted.len();
        proof {
            assert(s0.subrange(0, s0.len() as int) == s0);
            assert(insert_by_key(s0, r, by_x) == insert_by_key(s0, r, by_x) + s0.subrange(s0.len() as int, s0.len() as int));
        }
        while j > 0 && key_of(&sorted[j - 1], by_x) > key
            invariant
                sorted@ == s0,
                j <= s0.len(),
                key == rect_key(r, by_x),
                insert_by_key(s0, r, by_x) == insert_by_key(s0.subrange(0, j as int), r, by_x) + s0.subrange(
                    j as int,
                    s0.len() as int,
                ),
            decreases j,
        {
            proof {
                let pre = s0.subrange(0, j as int);
                assert(pre.drop_last() == s0.subrange(0, j - 1));
                assert(pre.last() == s0[j - 1]);
                assert(s0.subrange(j - 1, s0.len() as int) == seq![s0[j - 1]] + s0.subrange(j as int, s0.len() as int));
            }
            j -= 1;
        }
        proof {
            let pre = s0.subrange(0, j as int);
            assert(insert_by_key(pre, r, by_x) == pre.push(r));
            assert(s0.insert(j as int, r) == pre.push(r) + s0.subrange(j as int, s0.len() as int));
            assert(s0.subrange(0, s0.len() as int) == s0);
            assert(rects@.subrange(0, i + 1).drop_last() == rects@.subrange(0, i as int));
        }
        sorted.insert(j, r);
        i += 1;
    }
    proof {
        assert(rects@.subrange(0, rects@.len() as int) == rects@);
    }
    sorted
}

/// Every box of an insertion is the inserted box or a box of `s`.
pub proof fn lemma_insert_members(s: Seq<RectCandidate>, r: RectCandidate, by_x: bool)
    ensures
        insert_by_key(s, r, by_x).len() == s.len() + 1,
        forall|k: int|
            0 <= k < s.len() + 1 ==> #[trigger] insert_by_key(s, r, by_x)[k] == r || s.contains(
                insert_by_key(s, r, by_x)[k],
            ),
    decreases s.len(),
{
    if s.len() > 0 && rect_key(s.last(), by_x) > rect_key(r, by_x) {
        let p = s.drop_last();
        lemma_insert_members(p, r, by_x);
        assert forall|k: int| 0 <= k < s.len() + 1 implies #[trigger] insert_by_key(s, r, by_x)[k] == r || s.contains(
            insert_by_key(s, r, by_x)[k],
        ) by {
            let v = insert_by_key(s, r, by_x)[k];
            if k < s.len() {
                if v != r {
                    let m = choose|m: int| 0 <= m < p.len() && p[m] == v;
                    assert(s[m] == v);
                }
            } else {
                assert(s[s.len() - 1] == v);
            }
        }
    } else if s.len() > 0 {
        assert forall|k: int| 0 <= k < s.len() + 1 implies #[trigger] insert_by_key(s, r, by_x)[k] == r || s.contains(
            insert_by_key(s, r, by_x)[k],
        ) by {
            if k < s.len() {
                assert(s[k] == insert_by_key(s, r, by_x)[k]);
            }
        }
    }
}

/// Sorting keeps the number of boxes, and every sorted box is a box of the
/// input.
pub proof fn lemma_sorted_members(s: Seq<RectCandidate>, by_x: bool)
    ensures
        sorted_by_key(s, by_x).len() == s.len(),
        forall|k: int| 0 <= k < s.len() ==> s.contains(#[trigger] sorted_by_key(s, by_x)[k]),
    decreases s.len(),
{
    if s.len() > 0 {
        let p = s.drop_last();
        lemma_sorted_members(p, by_x);
        let sp = sorted_by_key(p, by_x);
        lemma_insert_members(sp, s.last(), by_x);
        assert forall|k: int| 0 <= k < s.len() implies s.contains(#[trigger] sorted_by_key(s, by_x)[k]) by {
            let v = sorted_by_key(s, by_x)[k];
            if v == s.last() {
                assert(s[s.len() - 1] == v);
            } else {
                assert(sp.contains(v));
                let m = choose|m: int| 0 <= m < sp.len() && sp[m] == v;
                assert(p.contains(sp[m]));
                let q = choose|q: int| 0 <= q < p.len() && p[q] == v;
                assert(s[q] == v);
            }
        }
    }
}

/// The keys of a sequence do not decrease.
pub open spec fn key_sorted(s: Seq<RectCandidate>, by_x: bool) -> bool {
    forall|i: int, j: int| 0 <= i < j < s.len() ==> rect_key(#[trigger] s[i], by_x) <= rect_key(#[trigger] s[j], by_x)
}

/// Inserting into a sorted sequence keeps it sorted.
pub proof fn lemma_insert_sorted(s: Seq<RectCandidate>, r: RectCandidate, by_x: bool)
    requires
        key_sorted(s, by_x),
    ensures
        key_sorted(insert_by_key(s, r, by_x), by_x),
    decreases s.len(),
{
    if s.len() > 0 && rect_key(s.last(), by_x) > rect_key(r, by_x) {
        let p = s.drop_last();
        assert(key_sorted(p, by_x)) by {
            assert forall|i: int, j: int| 0 <= i < j < p.len() implies rect_key(#[trigger] p[i], by_x) <= rect_key(
                #[trigger] p[j],
                by_x,
            ) by {
                assert(p[i] == s[i] && p[j] == s[j]);
            }
        }
        lemma_insert_sorted(p, r, by_x);
        lemma_insert_members(p, r, by_x);
        let q = insert_by_key(p, r, by_x);
        assert forall|i: int, j: int| 0 <= i < j < q.len() + 1 implies rect_key(#[trigger] q.push(s.last())[i], by_x)
            <= rect_key(#[trigger] q.push(s.last())[j], by_x) by {
            if j == q.len() {
                let v = q[i];
                if v != r {
                    assert(p.contains(v));
                    let m = choose|m: int| 0 <= m < p.len() && p[m] == v;
                    assert(s[m] == v);
                    assert(rect_key(s[m], by_x) <= rect_key(s[s.len() - 1], by_x));
                }
            }
        }
    } else if s.len() > 0 {
        assert forall|i: int, j: int| 0 <= i < j < s.len() + 1 implies rect_key(#[trigger] s.push(r)[i], by_x) <= rect_key(
            #[trigger] s.push(r)[j],
            by_x,
        ) by {
            if j == s.len() && i < s.len() - 1 {
                assert(rect_key(s[i], by_x) <= rect_key(s[s.len() - 1], by_x));
            }
        }
    }
}

/// Sorting orders boxes by their keys, keeps their number, and keeps every
/// box of the input.
pub proof fn lemma_sort_orders(s: Seq<RectCandidate>, by_x: bool)
    ensures
        key_sorted(sorted_by_key(s, by_x), by_x),
        sorted_by_key(s, by_x).len() == s.len(),
        forall|k: int| 0 <= k < s.len() ==> s.contains(#[trigger] sorted_by_key(s, by_x)[k]),
    decreases s.len(),
{
    lemma_sorted_members(s, by_x);
    if s.len() > 0 {
        lemma_sort_orders(s.drop_last(), by_x);
        lemma_insert_sorted(sorted_by_key(s.drop_last(), by_x), s.last(), by_x);
    }
}

/// Sorting keeps every box inside the plane.
pub proof fn lemma_sorted_inside(s: Seq<RectCandidate>, by_x: bool, w: nat, h: nat)
    requires
        all_inside(s, w, h),
    ensures
        all_inside(sorted_by_key(s, by_x), w, h),
        sorted_by_key(s, by_x).len() == s.len(),
{
    lemma_sorted_members(s, by_x);
    assert forall|k: int| 0 <= k < sorted_by_key(s, by_x).len() implies rect_inside(
        #[trigger] sorted_by_key(s, by_x)[k],
        w,
        h,
    ) by {
        let v = sorted_by_key(s, by_x)[k];
        assert(s.contains(v));
        let m = choose|m: int| 0 <= m < s.len() && s[m] == v;
        assert(rect_inside(s[m], w, h));
    }
}

/// Two boxes lie on one text line: their vertical centres are at most
/// `Y_MERGE_TOL` apart, or their vertical overlap is at least three tenths
/// of the smaller height.
pub open spec fn same_line_spec(a: RectCandidate, b: RectCandidate) -> bool {
    let cy1 = a.y + a.height / 2;
    let cy2 = b.y + b.height / 2;
    let diff = if cy1 >= cy2 { cy1 - cy2 } else { cy2 - cy1 };
    let y0 = smax(a.y as int, b.y as int);
    let y1 = smin(a.y + a.height, b.y + b.height);
    let min_h = smax(smin(a.height as int, b.height as int), 1);
    diff <= Y_MERGE_TOL || (y1 > y0 && 10 * (y1 - y0) >= 3 * min_h)
}

/// Whether two boxes lie on one text line.
pub fn same_line(a: &RectCandidate, b: &RectCandidate, Ghost(w): Ghost<nat>, Ghost(h): Ghost<nat>) -> (r: bool)
    requires
        rect_inside(*a, w, h),
        rect_inside(*b, w, h),
        h <= usize::MAX,
    ensures
        r == same_line_spec(*a, *b),
{
    let cy1 = a.y + a.height / 2;
    let cy2 = b.y + b.height / 2;
    let diff = if cy1 >= cy2 { cy1 - cy2 } else { cy2 - cy1 };
    if diff <= Y_MERGE_TOL {
        return true;
    }
    let y0 = if a.y >= b.y { a.y } else { b.y };
    let y1 = if a.y + a.height <= b.y + b.height { a.y + a.height } else { b.y + b.height };
    if y1 <= y0 {
        return false;
    }
    let overlap = y1 - y0;
    let min_h0 = if a.height <= b.height { a.height } else { b.height };
    let min_height = if min_h0 >= 1 { min_h0 } else { 1 };
    (overlap as u128) * 10 >= (min_height as u128) * 3
}

/// The intersection and the union of the areas of two boxes, the ratio of
/// which is their intersection over union; `(0, 1)` when they do not
/// intersect.
pub open spec fn iou_parts(a: RectCandidate, b: RectCandidate) -> (nat, nat) {
    let x0 = smax(a.x as int, b.x as int);
    let y0 = smax(a.y as int, b.y as int);
    let x1 = smin(a.x + a.width, b.x + b.width);
    let y1 = smin(a.y + a.height, b.y + b.height);
    if x1 <= x0 || y1 <= y0 {
        (0, 1)
    } else {
        let inter = (x1 - x0) * (y1 - y0);
        (inter as nat, (a.width * a.height + b.width * b.height - inter) as nat)
    }
}

/// The intersection over union of two boxes, as its numerator and
/// denominator.
pub fn candidate_iou(a: &RectCandidate, b: &RectCandidate, Ghost(w): Ghost<nat>, Ghost(h): Ghost<nat>) -> (r: (u128, u128))
    requires
        rect_inside(*a, w, h),
        rect_inside(*b, w, h),
        w <= usize::MAX,
        h <= usize::MAX,
        w * h <= u32::MAX,
    ensures
        r.0 == iou_parts(*a, *b).0,
        r.1 == iou_parts(*a, *b).1,
        r.0 <= u32::MAX,
        r.1 <= 2 * u32::MAX,
{
    let x0 = if a.x >= b.x { a.x } else { b.x };
    let y0 = if a.y >= b.y { a.y } else { b.y };
    let x1 = if a.x + a.width <= b.x + b.width { a.x + a.width } else { b.x + b.width };
    let y1 = if a.y + a.height <= b.y + b.height { a.y + a.height } else { b.y + b.height };
    let inter_w = x1.saturating_sub(x0);
    let inter_h = y1.saturating_sub(y0);
    if inter_w == 0 || inter_h == 0 {
        return (0, 1);
    }
    proof {
        assert(inter_w * inter_h <= w * h) by (nonlinear_arith)
            requires
                inter_w <= w,
                inter_h <= h,
        ;
        assert(a.width * a.height <= w * h) by (nonlinear_arith)
            requires
                a.width <= w,
                a.height <= h,
        ;
        assert(b.width * b.height <= w * h) by (nonlinear_arith)
            requires
                b.width <= w,
                b.height <= h,
        ;
        assert(inter_w * inter_h <= a.width * a.height) by (nonlinear_arith)
            requires
                inter_w <= a.width,
                inter_h <= a.height,
        ;
    }
    let intersection = (inter_w as u128) * (inter_h as u128);
    let area_a = (a.width as u128) * (a.height as u128);
    let area_b = (b.width as u128) * (b.height as u128);
    (intersection, area_a + area_b - intersection)
}

/// Two neighbouring boxes of a line are merged when their intersection
/// over union is at least 0.15 or the second starts at most `NEAR_GAP`
/// columns after the first ends.
pub open spec fn should_merge_spec(a: RectCandidate, b: RectCandidate) -> bool {
    let (inter, uni) = iou_parts(a, b);
    20 * inter >= 3 * uni || b.x <= a.x + a.width + NEAR_GAP
}

/// Whether two neighbouring boxes of a line are merged.
pub fn should_merge(a: &RectCandidate, b: &RectCandidate, Ghost(w): Ghost<nat>, Ghost(h): Ghost<nat>) -> (r: bool)
    requires
        rect_inside(*a, w, h),
        rect_inside(*b, w, h),
        w + NEAR_GAP <= usize::MAX,
        h <= usize::MAX,
        w * h <= u32::MAX,
    ensures
        r == should_merge_spec(*a, *b),
{
    let (intersection, union) = candidate_iou(a, b, Ghost(w), Ghost(h));
    let near = b.x <= a.x + a.width + NEAR_GAP;
    intersection * 20 >= union * 3 || near
}

/// The smallest box holding two boxes.
pub open spec fn union_rect(a: RectCandidate, b: RectCandidate) -> RectCandidate {
    let x0 = smin(a.x as int, b.x as int);
    let y0 = smin(a.y as int, b.y as int);
    let x1 = smax(a.x + a.width, b.x + b.width);
    let y1 = smax(a.y + a.height, b.y + b.height);
    RectCandidate { x: x0 as usize, y: y0 as usize, width: (x1 - x0) as usize, height: (y1 - y0) as usize }
}

/// The smallest box holding two boxes.
pub fn merge_candidates(a: &RectCandidate, b: &RectCandidate, Ghost(w): Ghost<nat>, Ghost(h): Ghost<nat>) -> (r: RectCandidate)
    requires
        rect_inside(*a, w, h),
        rect_inside(*b, w, h),
        w <= usize::MAX,
        h <= usize::MAX,
    ensures
        r == union_rect(*a, *b),
        rect_inside(r, w, h),
{
    let x0 = if a.x <= b.x { a.x } else { b.x };
    let y0 = if a.y <= b.y { a.y } else { b.y };
    let x1 = if a.x + a.width >= b.x + b.width { a.x + a.width } else { b.x + b.width };
    let y1 = if a.y + a.height >= b.y + b.height { a.y + a.height } else { b.y + b.height };
    RectCandidate { x: x0, y: y0, width: x1.saturating_sub(x0), height: y1.saturating_sub(y0) }
}

/// Walks a line's boxes in order, merging each into the current box while
/// `should_merge_spec` holds, and emitting the current box otherwise.
pub open spec fn group_fold(cur: RectCandidate, rest: Seq<RectCandidate>) -> Seq<RectCandidate>
    decreases rest.len(),
{
    if rest.len() == 0 {
        seq![cur]
    } else if should_merge_spec(cur, rest[0]) {
        group_fold(union_rect(cur, rest[0]), rest.drop_first())
    } else {
        seq![cur] + group_fold(rest[0], rest.drop_first())
    }
}

/// The merged boxes of one line: its boxes ordered by left edge, then
/// folded with `group_fold`.
pub open spec fn merge_group_spec(group: Seq<RectCandidate>) -> Seq<RectCandidate> {
    if group.len() == 0 {
        Seq::empty()
    } else {
        let s = sorted_by_key(group, true);
        group_fold(s[0], s.drop_first())
    }
}

/// Merging keeps boxes inside the plane.
pub proof fn lemma_group_fold_inside(cur: RectCandidate, rest: Seq<RectCandidate>, w: nat, h: nat)
    requires
        rect_inside(cur, w, h),
        all_inside(rest, w, h),
    ensures
        all_inside(group_fold(cur, rest), w, h),
    decreases rest.len(),
{
    if rest.len() > 0 {
        assert(rect_inside(rest[0], w, h));
        assert(all_inside(rest.drop_first(), w, h)) by {
            assert forall|k: int| 0 <= k < rest.drop_first().len() implies rect_inside(#[trigger] rest.drop_first()[k], w, h) by {
                assert(rest.drop_first()[k] == rest[k + 1]);
            }
        }
        if should_merge_spec(cur, rest[0]) {
            lemma_group_fold_inside(union_rect(cur, rest[0]), rest.drop_first(), w, h);
        } else {
            lemma_group_fold_inside(rest[0], rest.drop_first(), w, h);
            let tail = group_fold(rest[0], rest.drop_first());
            assert forall|k: int| 0 <= k < 1 + tail.len() implies rect_inside(#[trigger] (seq![cur] + tail)[k], w, h) by {
                if k > 0 {
                    assert((seq![cur] + tail)[k] == tail[k - 1]);
                }
            }
        }
    }
}

/// Folding boxes ordered by left edge, from a current box left of all of
/// them, leaves every emitted box more than `NEAR_GAP` columns left of the
/// next one, and the first emitted box starts where the current box does.
proof fn lemma_fold_separates(cur: RectCandidate, rest: Seq<RectCandidate>)
    requires
        forall|i: int, j: int| 0 <= i < j < rest.len() ==> (#[trigger] rest[i]).x <= (#[trigger] rest[j]).x,
        forall|i: int| 0 <= i < rest.len() ==> cur.x <= (#[trigger] rest[i]).x,
    ensures
        group_fold(cur, rest).len() >= 1,
        group_fold(cur, rest)[0].x == cur.x,
        forall|k: int|
            0 <= k < group_fold(cur, rest).len() - 1 ==> #[trigger] group_fold(cur, rest)[k].x + group_fold(cur, rest)[k].width
                + NEAR_GAP < group_fold(cur, rest)[k + 1].x,
    decreases rest.len(),
{
    if rest.len() > 0 {
        let b = rest[0];
        let tail = rest.drop_first();
        assert forall|i: int, j: int| 0 <= i < j < tail.len() implies (#[trigger] tail[i]).x <= (#[trigger] tail[j]).x by {
            assert(tail[i] == rest[i + 1]);
            assert(tail[j] == rest[j + 1]);
        }
        if should_merge_spec(cur, b) {
            let u = union_rect(cur, b);
            assert(u.x == cur.x);
            assert forall|i: int| 0 <= i < tail.len() implies u.x <= (#[trigger] tail[i]).x by {
                assert(tail[i] == rest[i + 1]);
            }
            lemma_fold_separates(u, tail);
        } else {
            assert forall|i: int| 0 <= i < tail.len() implies b.x <= (#[trigger] tail[i]).x by {
                assert(tail[i] == rest[i + 1]);
            }
            lemma_fold_separates(b, tail);
            let g = group_fold(b, tail);
            let out = seq![cur] + g;
            assert(group_fold(cur, rest) == out);
            assert forall|k: int| 0 <= k < out.len() - 1 implies #[trigger] out[k].x + out[k].width + NEAR_GAP < out[k + 1].x by {
                if k == 0 {
                    assert(out[1] == g[0]);
                } else {
                    assert(out[k] == g[k - 1]);
                    assert(out[k + 1] == g[k]);
                }
            }
        }
    }
}

/// Merging the boxes of one line leaves no two neighbouring boxes close:
/// in the merged boxes, ordered by left edge, every box ends more than
/// `NEAR_GAP` columns before the next one starts, so boxes within
/// `NEAR_GAP` columns of each other always end up in one box.
pub proof fn lemma_line_merge_separates(group: Seq<RectCandidate>)
    ensures
        ({
            let out = merge_group_spec(group);
            &&& forall|i: int, j: int| 0 <= i < j < out.len() ==> (#[trigger] out[i]).x <= (#[trigger] out[j]).x
            &&& forall|k: int| 0 <= k < out.len() - 1 ==> #[trigger] out[k].x + out[k].width + NEAR_GAP < out[k + 1].x
        }),
{
    if group.len() > 0 {
        let s = sorted_by_key(group, true);
        lemma_sort_orders(group, true);
        let tail = s.drop_first();
        assert forall|i: int, j: int| 0 <= i < j < tail.len() implies (#[trigger] tail[i]).x <= (#[trigger] tail[j]).x by {
            assert(rect_key(s[i + 1], true) <= rect_key(s[j + 1], true));
        }
        assert forall|i: int| 0 <= i < tail.len() implies s[0].x <= (#[trigger] tail[i]).x by {
            assert(rect_key(s[0], true) <= rect_key(s[i + 1], true));
        }
        lemma_fold_separates(s[0], tail);
        let out = merge_group_spec(group);
        assert forall|i: int, j: int| 0 <= i < j < out.len() implies (#[trigger] out[i]).x <= (#[trigger] out[j]).x by {
            lemma_chain_increasing(out, i, j);
        }
    }
}

/// Folding boxes that are each more than `NEAR_GAP` columns right of the
/// one before merges nothing.
proof fn lemma_fold_keeps_far(cur: RectCandidate, rest: Seq<RectCandidate>)
    requires
        rest.len() > 0 ==> cur.x + cur.width + NEAR_GAP < rest[0].x,
        forall|k: int| 0 <= k < rest.len() - 1 ==> #[trigger] rest[k].x + rest[k].width + NEAR_GAP < rest[k + 1].x,
    ensures
        group_fold(cur, rest) == seq![cur] + rest,
    decreases rest.len(),
{
    if rest.len() > 0 {
        let b = rest[0];
        let tail = rest.drop_first();
        assert(iou_parts(cur, b) == (0nat, 1nat));
        assert(!should_merge_spec(cur, b));
        assert forall|k: int| 0 <= k < tail.len() - 1 implies #[trigger] tail[k].x + tail[k].width + NEAR_GAP < tail[k + 1].x by {
            assert(tail[k] == rest[k + 1]);
            assert(tail[k + 1] == rest[k + 2]);
        }
        if tail.len() > 0 {
            assert(tail[0] == rest[1]);
        }
        lemma_fold_keeps_far(b, tail);
        assert(seq![cur] + (seq![b] + tail) =~= seq![cur] + rest);
    }
}

/// Boxes of a line that lie far apart are not merged: when, ordered by left
/// edge, every box starts more than `NEAR_GAP` columns after the previous
/// one ends, merging the line gives back the boxes in that order.
pub proof fn lemma_far_boxes_kept(group: Seq<RectCandidate>)
    requires
        forall|k: int|
            0 <= k < group.len() - 1 ==> #[trigger] sorted_by_key(group, true)[k].x + sorted_by_key(group, true)[k].width + NEAR_GAP
                < sorted_by_key(group, true)[k + 1].x,
    ensures
        merge_group_spec(group) == sorted_by_key(group, true),
{
    if group.len() > 0 {
        let s = sorted_by_key(group, true);
        lemma_sort_orders(group, true);
        let tail = s.drop_first();
        assert forall|k: int| 0 <= k < tail.len() - 1 implies #[trigger] tail[k].x + tail[k].width + NEAR_GAP < tail[k + 1].x by {
            assert(tail[k] == s[k + 1]);
            assert(tail[k + 1] == s[k + 2]);
        }
        if tail.len() > 0 {
            assert(tail[0] == s[1]);
        }
        lemma_fold_keeps_far(s[0], tail);
        assert(seq![s[0]] + tail =~= s);
    }
}

proof fn lemma_chain_increasing(out: Seq<RectCandidate>, i: int, j: int)
    requires
        0 <= i < j < out.len(),
        forall|k: int| 0 <= k < out.len() - 1 ==> #[trigger] out[k].x + out[k].width + NEAR_GAP < out[k + 1].x,
    ensures
        out[i].x <= out[j].x,
    decreases j - i,
{
    assert(out[j - 1].x + out[j - 1].width + NEAR_GAP < out[j].x);
    if i < j - 1 {
        lemma_chain_increasing(out, i, j - 1);
    }
}

/// Merges the boxes of one line: orders them by left edge and merges each
/// box into the previous one while `should_merge` holds.
pub fn merge_group(group: &Vec<RectCandidate>, Ghost(w): Ghost<nat>, Ghost(h): Ghost<nat>) -> (result: Vec<RectCandidate>)
    requires
        all_inside(group@, w, h),
        w + NEAR_GAP <= usize::MAX,
        h <= usize::MAX,
        w * h <= u32::MAX,
    ensures
        result@ == merge_group_spec(group@),
        all_inside(result@, w, h),
        forall|k: int| 0 <= k < result@.len() - 1 ==> #[trigger] result@[k].x + result@[k].width + NEAR_GAP < result@[k + 1].x,
{
    proof {
        lemma_line_merge_separates(group@);
    }
    let mut result: Vec<RectCandidate> = Vec::new();
    if group.len() == 0 {
        return result;
    }
    let sorted = sort_rects(group, true);
    proof {
        lemma_sorted_inside(group@, true, w, h);
    }
    let ghost s = sorted@;
    let mut current = sorted[0];
    proof {
        assert(rect_inside(s[0], w, h));
    }
    proof {
        assert(s.drop_first() == s.subrange(1, s.len() as int));
    }
    let mut i: usize = 1;
    while i < sorted.len()
        invariant
            s == sorted@,
            s.len() == group@.len(),
            all_inside(s, w, h),
            1 <= i <= s.len(),
            rect_inside(current, w, h),
            all_inside(result@, w, h),
            w + NEAR_GAP <= usize::MAX,
            h <= usize::MAX,
            w * h <= u32::MAX,
            result@ + group_fold(current, s.subrange(i as int, s.len() as int)) == group_fold(s[0], s.drop_first()),
        decreases s.len() - i,
    {
        let candidate = sorted[i];
        let ghost rest = s.subrange(i as int, s.len() as int);
        proof {
            assert(rest[0] == candidate);
            assert(rest.drop_first() == s.subrange(i + 1, s.len() as int));
            assert(rect_inside(s[i as int], w, h));
        }
        if should_merge(&current, &candidate, Ghost(w), Ghost(h)) {
            current = merge_candidates(&current, &candidate, Ghost(w), Ghost(h));
        } else {
            let ghost before = result@;
            result.push(current);
            proof {
                assert(result@ + group_fold(candidate, rest.drop_first()) == before + (seq![current] + group_fold(
                    candidate,
                    rest.drop_first(),
                )));
                assert forall|k: int| 0 <= k < result@.len() implies rect_inside(#[trigger] result@[k], w, h) by {
                    if k < before.len() {
                        assert(result@[k] == before[k]);
                    }
                }
            }
            current = candidate;
        }
        i += 1;
    }
    proof {
        assert(s.subrange(i as int, s.len() as int).len() == 0);
        assert(s.drop_first() == s.subrange(1, s.len() as int));
    }
    let ghost before = result@;
    result.push(current);
    proof {
        assert forall|k: int| 0 <= k < result@.len() implies rect_inside(#[trigger] result@[k], w, h) by {
            if k < before.len() {
                assert(result@[k] == before[k]);
            }
        }
    }
    result
}

/// Walks boxes ordered by top edge, growing the current line group while
/// each box lies on one line with the last box of the group, and emitting
/// the merged group otherwise.
pub open spec fn line_fold(group: Seq<RectCandidate>, rest: Seq<RectCandidate>) -> Seq<RectCandidate>
    decreases rest.len(),
{
    if rest.len() == 0 {
        merge_group_spec(group)
    } else if same_line_spec(group.last(), rest[0]) {
        line_fold(group.push(rest[0]), rest.drop_first())
    } else {
        merge_group_spec(group) + line_fold(seq![rest[0]], rest.drop_first())
    }
}

/// The merged boxes of all lines: the boxes ordered by top edge, split
/// into line groups, and every group merged.
pub open spec fn merge_lines_spec(candidates: Seq<RectCandidate>) -> Seq<RectCandidate> {
    if candidates.len() == 0 {
        Seq::empty()
    } else {
        let s = sorted_by_key(candidates, false);
        line_fold(seq![s[0]], s.drop_first())
    }
}

/// Merges candidate boxes line by line: orders them by top edge, groups
/// consecutive boxes that lie on one line, and merges every group.
pub fn merge_line_candidates(candidates: &Vec<RectCandidate>, Ghost(w): Ghost<nat>, Ghost(h): Ghost<nat>) -> (merged: Vec<
    RectCandidate,
>)
    requires
        all_inside(candidates@, w, h),
        w + NEAR_GAP <= usize::MAX,
        h <= usize::MAX,
        w * h <= u32::MAX,
    ensures
        merged@ == merge_lines_spec(candidates@),
        all_inside(merged@, w, h),
{
    let mut merged: Vec<RectCandidate> = Vec::new();
    if candidates.len() == 0 {
        return merged;
    }
    let sorted = sort_rects(candidates, false);
    proof {
        lemma_sorted_inside(candidates@, false, w, h);
    }
    let ghost s = sorted@;
    let mut line_group: Vec<RectCandidate> = Vec::new();
    line_group.push(sorted[0]);
    proof {
        assert(s.drop_first() == s.subrange(1, s.len() as int));
        assert(line_group@ == seq![s[0]]);
        assert(rect_inside(s[0], w, h));
    }
    let mut i: usize = 1;
    while i < sorted.len()
        invariant
            s == sorted@,
            s.len() == candidates@.len(),
            all_inside(s, w, h),
            1 <= i <= s.len(),
            line_group@.len() > 0,
            all_inside(line_group@, w, h),
            all_inside(merged@, w, h),
            w + NEAR_GAP <= usize::MAX,
            h <= usize::MAX,
            w * h <= u32::MAX,
            merged@ + line_fold(line_group@, s.subrange(i as int, s.len() as int)) == line_fold(seq![s[0]], s.drop_first()),
        decreases s.len() - i,
    {
        let cand = sorted[i];
        let ghost rest = s.subrange(i as int, s.len() as int);
        let ghost g0 = line_group@;
        proof {
            assert(rest[0] == cand);
            assert(rest.drop_first() == s.subrange(i + 1, s.len() as int));
            assert(rect_inside(s[i as int], w, h));
            assert(rect_inside(g0[g0.len() - 1], w, h));
        }
        let last = line_group[line_group.len() - 1];
        if same_line(&last, &cand, Ghost(w), Ghost(h)) {
            line_group.push(cand);
            proof {
                assert forall|k: int| 0 <= k < line_group@.len() implies rect_inside(#[trigger] line_group@[k], w, h) by {
                    if k < g0.len() {
                        assert(line_group@[k] == g0[k]);
                    }
                }
            }
        } else {
            let part = merge_group(&line_group, Ghost(w), Ghost(h));
            let ghost before = merged@;
            let mut k: usize = 0;
            while k < part.len()
                invariant
                    k <= part@.len(),
                    merged@ == before + part@.subrange(0, k as int),
                    all_inside(before, w, h),
                    all_inside(part@, w, h),
                decreases part@.len() - k,
            {
                merged.push(part[k]);
                proof {
                    assert(part@.subrange(0, k + 1) == part@.subrange(0, k as int).push(part@[k as int]));
                }
                k += 1;
            }
            proof {
                assert(part@.subrange(0, part@.len() as int) == part@);
                assert(merged@ + line_fold(seq![cand], rest.drop_first()) == before + (part@ + line_fold(
                    seq![cand],
                    rest.drop_first(),
                )));
                assert forall|j: int| 0 <= j < merged@.len() implies rect_inside(#[trigger] merged@[j], w, h) by {
                    if j < before.len() {
                        assert(merged@[j] == before[j]);
                    } else {
                        assert(merged@[j] == part@[j - before.len()]);
                    }
                }
            }
            line_group = Vec::new();
            line_group.push(cand);
            proof {
                assert(line_group@ == seq![cand]);
            }
        }
        i += 1;
    }
    proof {
        assert(s.subrange(i as int, s.len() as int).len() == 0);
    }
    let part = merge_group(&line_group, Ghost(w), Ghost(h));
    let ghost before = merged@;
    let mut k: usize = 0;
    while k < part.len()
        invariant
            k <= part@.len(),
            merged@ == before + part@.subrange(0, k as int),
            all_inside(before, w, h),
            all_inside(part@, w, h),
        decreases part@.len() - k,
    {
        merged.push(part[k]);
        proof {
            assert(part@.subrange(0, k + 1) == part@.subrange(0, k as int).push(part@[k as int]));
        }
        k += 1;
    }
    proof {
        assert(part@.subrange(0, part@.len() as int) == part@);
        assert forall|j: int| 0 <= j < merged@.len() implies rect_inside(#[trigger] merged@[j], w, h) by {
            if j < before.len() {
                assert(merged@[j] == before[j]);
            } else {
                assert(merged@[j] == part@[j - before.len()]);
            }
        }
    }
    merged
}

} // verus!
