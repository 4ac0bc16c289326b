//! Morphological closing of mask lines with the van Herk / Gil-Werman
//! scheme: a running extreme within aligned blocks from the left and from
//! the right gives, at every position, the extreme of a window of `gap`
//! values in two look-ups.

use vstd::prelude::*;

use crate::bridge::{column_of, row_of};
use crate::grid::lemma_cell_in_plane;

verus! {

/// The larger (dilation) or smaller (erosion) of two values.
pub open spec fn combine(a: u8, b: u8, dilation: bool) -> u8 {
    if dilation {
        if a >= b { a } else { b }
    } else {
        if a <= b { a } else { b }
    }
}

/// The extreme (largest for dilation, smallest for erosion) of `s[lo..=hi]`.
pub open spec fn range_op(s: Seq<u8>, lo: int, hi: int, dilation: bool) -> u8
    decreases hi - lo,
{
    if hi <= lo {
        s[lo]
    } else {
        combine(range_op(s, lo, hi - 1, dilation), s[hi], dilation)
    }
}

/// The first position of the aligned block of `w` positions holding `k`.
pub open spec fn block_start(k: int, w: int) -> int {
    k - k % w
}

/// The last position of the aligned block holding `k`, cut at `last`.
pub open spec fn block_end(k: int, w: int, last: int) -> int {
    let e = block_start(k, w) + w - 1;
    if e <= last { e } else { last }
}

/// The window end for position `k`: `k + w - 1`, cut at `last`.
pub open spec fn window_end(k: int, w: int, last: int) -> int {
    if k + w - 1 <= last { k + w - 1 } else { last }
}

/// What one pass computes at position `i` of a line: the extreme of the
/// block prefix ending at the window end and of the block suffix starting
/// at `i`.
pub open spec fn line_value(s: Seq<u8>, w: int, i: int, dilation: bool) -> u8 {
    let last = s.len() - 1;
    let end = window_end(i, w, last);
    combine(range_op(s, block_start(end, w), end, dilation), range_op(s, i, block_end(i, w, last), dilation), dilation)
}

/// One pass over a line with window `w`.
pub open spec fn line_pass(s: Seq<u8>, w: int, dilation: bool) -> Seq<u8> {
    Seq::new(s.len(), |i: int| line_value(s, w, i, dilation))
}

/// The closing of a line: dilation, then erosion of the result.
pub open spec fn closed_line(s: Seq<u8>, w: int) -> Seq<u8> {
    line_pass(line_pass(s, w, true), w, false)
}

proof fn lemma_block(k: int, w: int)
    requires
        w > 0,
        k >= 0,
    ensures
        0 <= k % w < w,
        block_start(k, w) <= k,
        k < block_start(k, w) + w,
        block_start(k, w) >= 0,
        k % w != 0 ==> block_start(k - 1, w) == block_start(k, w),
        k % w == w - 1 ==> block_start(k, w) + w - 1 == k,
        (k + 1) % w != 0 ==> block_start(k + 1, w) == block_start(k, w) && k % w < w - 1,
        (k + 1) % w == 0 ==> k % w == w - 1,
{
    vstd::arithmetic::div_mod::lemma_fundamental_div_mod(k, w);
    let q = k / w;
    let r = k % w;
    assert(w * q == q * w) by (nonlinear_arith);
    assert(k == q * w + r);
    assert(q >= 0) by (nonlinear_arith)
        requires
            k >= 0,
            k == q * w + r,
            0 <= r < w,
            w > 0,
    ;
    assert(q * w >= 0) by (nonlinear_arith)
        requires
            q >= 0,
            w > 0,
    ;
    if r != 0 {
        vstd::arithmetic::div_mod::lemma_fundamental_div_mod_converse(k - 1, w, q, r - 1);
    }
    if r + 1 < w {
        vstd::arithmetic::div_mod::lemma_fundamental_div_mod_converse(k + 1, w, q, r + 1);
    } else {
        assert((q + 1) * w == q * w + w) by (nonlinear_arith);
        vstd::arithmetic::div_mod::lemma_fundamental_div_mod_converse(k + 1, w, q + 1, 0);
    }
}

proof fn lemma_combine_facts(a: u8, b: u8, c: u8, dilation: bool)
    ensures
        combine(a, b, dilation) == combine(b, a, dilation),
        combine(combine(a, b, dilation), c, dilation) == combine(a, combine(b, c, dilation), dilation),
        combine(a, a, dilation) == a,
{
}

/// The extreme of a range, taken from its front.
pub proof fn lemma_range_front(s: Seq<u8>, lo: int, hi: int, dilation: bool)
    requires
        lo < hi,
    ensures
        range_op(s, lo, hi, dilation) == combine(s[lo], range_op(s, lo + 1, hi, dilation), dilation),
    decreases hi - lo,
{
    if hi - 1 > lo {
        lemma_range_front(s, lo, hi - 1, dilation);
        lemma_combine_facts(s[lo], range_op(s, lo + 1, hi - 1, dilation), s[hi], dilation);
        assert(range_op(s, lo + 1, hi, dilation) == combine(range_op(s, lo + 1, hi - 1, dilation), s[hi], dilation));
    } else {
        assert(range_op(s, lo, hi - 1, dilation) == s[lo]);
        assert(range_op(s, lo + 1, hi, dilation) == s[hi]);
    }
}

/// The extreme of a range is that of its two parts.
pub proof fn lemma_range_split(s: Seq<u8>, lo: int, mid: int, hi: int, dilation: bool)
    requires
        lo <= mid < hi,
    ensures
        range_op(s, lo, hi, dilation) == combine(range_op(s, lo, mid, dilation), range_op(s, mid + 1, hi, dilation), dilation),
    decreases hi - mid,
{
    if hi == mid + 1 {
    } else {
        lemma_range_split(s, lo, mid, hi - 1, dilation);
        lemma_combine_facts(range_op(s, lo, mid, dilation), range_op(s, mid + 1, hi - 1, dilation), s[hi], dilation);
    }
}

/// Away from the end of the line, a pass gives the extreme of the window
/// of `w` values starting at each position.
pub proof fn lemma_window_extreme(s: Seq<u8>, w: int, i: int, dilation: bool)
    requires
        w > 0,
        0 <= i,
        i + w - 1 < s.len(),
    ensures
        line_value(s, w, i, dilation) == range_op(s, i, i + w - 1, dilation),
{
    let last = s.len() - 1;
    let end = i + w - 1;
    lemma_block(i, w);
    lemma_block(end, w);
    vstd::arithmetic::div_mod::lemma_fundamental_div_mod(i, w);
    let q = i / w;
    let r = i % w;
    assert(w * q == q * w) by (nonlinear_arith);
    assert((q + 1) * w == q * w + w) by (nonlinear_arith);
    if r == 0 {
        vstd::arithmetic::div_mod::lemma_fundamental_div_mod_converse(end, w, q, w - 1);
        lemma_combine_facts(range_op(s, i, end, dilation), range_op(s, i, end, dilation), 0, dilation);
    } else {
        vstd::arithmetic::div_mod::lemma_fundamental_div_mod_converse(end, w, q + 1, r - 1);
        assert(block_start(end, w) == block_start(i, w) + w);
        lemma_range_split(s, i, block_start(end, w) - 1, end, dilation);
        lemma_combine_facts(range_op(s, i, block_start(end, w) - 1, dilation), range_op(s, block_start(end, w), end, dilation), 0, dilation);
    }
}

fn combine_exec(a: u8, b: u8, dilation: bool) -> (c: u8)
    ensures
        c == combine(a, b, dilation),
{
    if dilation {
        if a >= b { a } else { b }
    } else {
        if a <= b { a } else { b }
    }
}

/// One van Herk / Gil-Werman pass over `src` with window `max(gap, 1)`,
/// using `prefix` and `suffix` as scratch: block extremes from the left and
/// from the right, then at each position the extreme of the block prefix
/// at the window end and the block suffix at the position.
pub fn vhgw_line_op(src: &[u8], prefix: &mut [u8], suffix: &mut [u8], gap: usize, is_dilation: bool, dst: &mut [u8])
    requires
        old(prefix)@.len() >= src@.len(),
        old(suffix)@.len() >= src@.len(),
        old(dst)@.len() >= src@.len(),
    ensures
        final(prefix)@.len() == old(prefix)@.len(),
        final(suffix)@.len() == old(suffix)@.len(),
        final(dst)@.len() == old(dst)@.len(),
        forall|i: int| 0 <= i < src@.len() ==> #[trigger] final(dst)@[i] == line_value(
            src@,
            if gap >= 1 { gap as int } else { 1 },
            i,
            is_dilation,
        ),
        forall|i: int| src@.len() <= i < old(dst)@.len() ==> #[trigger] final(dst)@[i] == old(dst)@[i],
{
    let window = if gap >= 1 { gap } else { 1 };
    let ghost w = window as int;
    let len = src.len();
    let ghost s = src@;
    let mut i: usize = 0;
    while i < len
        invariant
            len == s.len(),
            s == src@,
            w == window as int,
            window >= 1,
            i <= len,
            prefix@.len() == old(prefix)@.len(),
            prefix@.len() >= len,
            forall|k: int| 0 <= k < i ==> #[trigger] prefix@[k] == range_op(s, block_start(k, w), k, is_dilation),
        decreases len - i,
    {
        proof {
            lemma_block(i as int, w);
        }
        if i % window == 0 {
            prefix[i] = src[i];
        } else {
            let p = prefix[i - 1];
            prefix[i] = combine_exec(p, src[i], is_dilation);
        }
        i = i + 1;
    }
    if len == 0 {
        return;
    }
    let last = len - 1;
    let mut k = len;
    while k > 0
        invariant
            len == s.len(),
            s == src@,
            len > 0,
            last == len - 1,
            w == window as int,
            window >= 1,
            k <= len,
            suffix@.len() == old(suffix)@.len(),
            suffix@.len() >= len,
            forall|m: int| k <= m < len ==> #[trigger] suffix@[m] == range_op(s, m, block_end(m, w, last as int), is_dilation),
        decreases k,
    {
        let idx = k - 1;
        proof {
            lemma_block(idx as int, w);
        }
        if idx == last || (idx + 1) % window == 0 {
            suffix[idx] = src[idx];
        } else {
            let nxt = suffix[idx + 1];
            proof {
                lemma_block(idx as int + 1, w);
                lemma_range_front(s, idx as int, block_end(idx as int, w, last as int), is_dilation);
                lemma_combine_facts(nxt, s[idx as int], 0, is_dilation);
            }
            suffix[idx] = combine_exec(nxt, src[idx], is_dilation);
        }
        k = k - 1;
    }
    let ghost d0 = dst@;
    let mut idx: usize = 0;
    while idx < len
        invariant
            len == s.len(),
            s == src@,
            len > 0,
            last == len - 1,
            w == window as int,
            window >= 1,
            idx <= len,
            prefix@.len() >= len,
            suffix@.len() >= len,
            forall|k: int| 0 <= k < len ==> #[trigger] prefix@[k] == range_op(s, block_start(k, w), k, is_dilation),
            forall|m: int| 0 <= m < len ==> #[trigger] suffix@[m] == range_op(s, m, block_end(m, w, last as int), is_dilation),
            dst@.len() == d0.len(),
            d0.len() >= len,
            forall|j: int| 0 <= j < idx ==> #[trigger] dst@[j] == line_value(s, w, j, is_dilation),
            forall|j: int| idx <= j < d0.len() ==> #[trigger] dst@[j] == d0[j],
        decreases len - idx,
    {
        let end = if window - 1 <= last - idx { idx + (window - 1) } else { last };
        let left = prefix[end];
        let right = suffix[idx];
        dst[idx] = combine_exec(left, right, is_dilation);
        idx = idx + 1;
    }
}

/// The window of the closing for a gap: at least one value.
pub open spec fn closing_window(gap: usize) -> int {
    if gap >= 1 { gap as int } else { 1 }
}

/// Closes a line: a dilation pass into `scratch`, then an erosion pass
/// into `dst`.
pub fn vhgw_close_line(src: &[u8], dst: &mut [u8], prefix: &mut [u8], suffix: &mut [u8], scratch: &mut [u8], gap: usize)
    requires
        old(dst)@.len() >= src@.len(),
        old(prefix)@.len() >= src@.len(),
        old(suffix)@.len() >= src@.len(),
        old(scratch)@.len() >= src@.len(),
    ensures
        final(dst)@.len() == old(dst)@.len(),
        final(prefix)@.len() == old(prefix)@.len(),
        final(suffix)@.len() == old(suffix)@.len(),
        final(scratch)@.len() == old(scratch)@.len(),
        forall|i: int| 0 <= i < src@.len() ==> #[trigger] final(dst)@[i] == closed_line(src@, closing_window(gap))[i],
        forall|i: int| src@.len() <= i < old(dst)@.len() ==> #[trigger] final(dst)@[i] == old(dst)@[i],
{
    let len = src.len();
    if len == 0 {
        return;
    }
    vhgw_line_op(src, prefix, suffix, gap, true, scratch);
    let dilated = &scratch[0..len];
    proof {
        assert(dilated@ =~= line_pass(src@, closing_window(gap), true));
    }
    vhgw_line_op(dilated, prefix, suffix, gap, false, dst);
}

/// Closes every row of a `width` by `height` mask; `tmp_plane` receives the
/// closed plane, which then replaces the mask. A zero gap or width leaves
/// the mask as it is.
pub fn vhgw_close_rows(
    mask: &mut [u8],
    width: usize,
    height: usize,
    gap: usize,
    tmp_plane: &mut [u8],
    prefix: &mut [u8],
    suffix: &mut [u8],
    line: &mut [u8],
)
    requires
        old(mask)@.len() == width * height,
        old(tmp_plane)@.len() >= width * height,
        old(prefix)@.len() >= width,
        old(suffix)@.len() >= width,
        old(line)@.len() >= width,
    ensures
        final(mask)@.len() == old(mask)@.len(),
        (gap == 0 || width == 0) ==> final(mask)@ == old(mask)@,
        (gap > 0 && width > 0) ==> forall|r: int, x: int|
            0 <= r < height && 0 <= x < width ==> #[trigger] final(mask)@[r * width + x] == closed_line(
                row_of(old(mask)@, width as nat, r),
                gap as int,
            )[x],
{
    if gap == 0 || width == 0 {
        return;
    }
    let _n = mask.len();
    let plane = width * height;
    let ghost m0 = mask@;
    let mut i: usize = 0;
    while i < plane
        invariant
            i <= plane,
            plane <= tmp_plane@.len(),
        decreases plane - i,
    {
        tmp_plane[i] = 0;
        i = i + 1;
    }
    let mut out: Vec<u8> = Vec::new();
    let mut k: usize = 0;
    while k < width
        invariant
            k <= width,
            out@.len() == k,
        decreases width - k,
    {
        out.push(0);
        k = k + 1;
    }
    let mut r: usize = 0;
    while r < height
        invariant
            r <= height,
            plane == width * height,
            width > 0,
            gap > 0,
            mask@ == m0,
            m0.len() == plane,
            tmp_plane@.len() >= plane,
            prefix@.len() >= width,
            suffix@.len() >= width,
            line@.len() >= width,
            out@.len() == width,
            forall|rr: int, x: int| 0 <= rr < r && 0 <= x < width ==> #[trigger] tmp_plane@[rr * width + x] == closed_line(
                row_of(m0, width as nat, rr),
                gap as int,
            )[x],
        decreases height - r,
    {
        proof {
            lemma_cell_in_plane(r as int, 0, width as int, height as int);
        }
        let start = r * width;
        let row = &mask[start..start + width];
        proof {
            assert(row@ == row_of(m0, width as nat, r as int));
        }
        vhgw_close_line(row, out.as_mut_slice(), prefix, suffix, line, gap);
        let mut x: usize = 0;
        while x < width
            invariant
                x <= width,
                r < height,
                start == r * width,
                start + width <= plane,
                plane == width * height,
                tmp_plane@.len() >= plane,
                out@.len() == width,
                forall|j: int| 0 <= j < width ==> #[trigger] out@[j] == closed_line(row_of(m0, width as nat, r as int), gap as int)[j],
                forall|rr: int, xx: int| 0 <= rr < r && 0 <= xx < width ==> #[trigger] tmp_plane@[rr * width + xx] == closed_line(
                    row_of(m0, width as nat, rr),
                    gap as int,
                )[xx],
                forall|xx: int| 0 <= xx < x ==> #[trigger] tmp_plane@[start + xx] == closed_line(row_of(m0, width as nat, r as int), gap as int)[xx],
            decreases width - x,
        {
            let ghost before = tmp_plane@;
            tmp_plane[start + x] = out[x];
            proof {
                assert forall|rr: int, xx: int| 0 <= rr < r && 0 <= xx < width implies #[trigger] tmp_plane@[rr * width + xx] == closed_line(
                    row_of(m0, width as nat, rr),
                    gap as int,
                )[xx] by {
                    lemma_cell_in_plane(rr, xx, width as int, r as int);
                    assert(before[rr * width + xx] == tmp_plane@[rr * width + xx]);
                }
            }
            x = x + 1;
        }
        proof {
            assert forall|rr: int, xx: int| 0 <= rr < r + 1 && 0 <= xx < width implies #[trigger] tmp_plane@[rr * width + xx] == closed_line(
                row_of(m0, width as nat, rr),
                gap as int,
            )[xx] by {
                if rr == r {
                    assert(tmp_plane@[start + xx] == closed_line(row_of(m0, width as nat, r as int), gap as int)[xx]);
                }
            }
        }
        r = r + 1;
    }
    let mut j: usize = 0;
    while j < plane
        invariant
            j <= plane,
            plane == width * height,
            mask@.len() == plane,
            tmp_plane@.len() >= plane,
            forall|rr: int, x: int| 0 <= rr < height && 0 <= x < width ==> #[trigger] tmp_plane@[rr * width + x] == closed_line(
                row_of(m0, width as nat, rr),
                gap as int,
            )[x],
            forall|q: int| 0 <= q < j ==> #[trigger] mask@[q] == tmp_plane@[q],
        decreases plane - j,
    {
        mask[j] = tmp_plane[j];
        j = j + 1;
    }
    proof {
        assert forall|rr: int, x: int| 0 <= rr < height && 0 <= x < width implies #[trigger] mask@[rr * width + x] == closed_line(
            row_of(m0, width as nat, rr),
            gap as int,
        )[x] by {
            lemma_cell_in_plane(rr, x, width as int, height as int);
            assert(mask@[rr * width + x] == tmp_plane@[rr * width + x]);
        }
    }
}

/// Closes every column of a `width` by `height` mask, reading from a copy
/// of it in `tmp_plane`. A zero gap or height leaves the mask as it is.
pub fn vhgw_close_cols(
    mask: &mut [u8],
    width: usize,
    height: usize,
    gap: usize,
    tmp_plane: &mut [u8],
    prefix: &mut [u8],
    suffix: &mut [u8],
    line: &mut [u8],
)
    requires
        old(mask)@.len() == width * height,
        old(tmp_plane)@.len() >= width * height,
        old(prefix)@.len() >= height,
        old(suffix)@.len() >= height,
        old(line)@.len() >= height,
    ensures
        final(mask)@.len() == old(mask)@.len(),
        (gap == 0 || height == 0) ==> final(mask)@ == old(mask)@,
        (gap > 0 && height > 0) ==> forall|r: int, c: int|
            0 <= r < height && 0 <= c < width ==> #[trigger] final(mask)@[r * width + c] == closed_line(
                column_of(old(mask)@, width as nat, height as nat, c),
                gap as int,
            )[r],
{
    if gap == 0 || height == 0 {
        return;
    }
    let _n = mask.len();
    let plane = width * height;
    let ghost m0 = mask@;
    let mut i: usize = 0;
    while i < plane
        invariant
            i <= plane,
            plane == width * height,
            mask@ == m0,
            m0.len() == plane,
            tmp_plane@.len() >= plane,
            forall|q: int| 0 <= q < i ==> #[trigger] tmp_plane@[q] == m0[q],
        decreases plane - i,
    {
        tmp_plane[i] = mask[i];
        i = i + 1;
    }
    let mut column: Vec<u8> = Vec::new();
    let mut out: Vec<u8> = Vec::new();
    let mut k: usize = 0;
    while k < height
        invariant
            k <= height,
            column@.len() == k,
            out@.len() == k,
        decreases height - k,
    {
        column.push(0);
        out.push(0);
        k = k + 1;
    }
    let mut col: usize = 0;
    while col < width
        invariant
            col <= width,
            plane == width * height,
            height > 0,
            gap > 0,
            m0.len() == plane,
            mask@.len() == plane,
            tmp_plane@.len() >= plane,
            forall|q: int| 0 <= q < plane ==> #[trigger] tmp_plane@[q] == m0[q],
            prefix@.len() >= height,
            suffix@.len() >= height,
            line@.len() >= height,
            column@.len() == height,
            out@.len() == height,
            forall|r: int, c: int| 0 <= r < height && 0 <= c < width ==> #[trigger] mask@[r * width + c] == (if c < col {
                closed_line(column_of(m0, width as nat, height as nat, c), gap as int)[r]
            } else {
                m0[r * width + c]
            }),
        decreases width - col,
    {
        let mut y: usize = 0;
        while y < height
            invariant
                y <= height,
                col < width,
                plane == width * height,
                m0.len() == plane,
                tmp_plane@.len() >= plane,
                forall|q: int| 0 <= q < plane ==> #[trigger] tmp_plane@[q] == m0[q],
                column@.len() == height,
                forall|r: int| 0 <= r < y ==> #[trigger] column@[r] == m0[r * width + col],
            decreases height - y,
        {
            proof {
                lemma_cell_in_plane(y as int, col as int, width as int, height as int);
            }
            column.set(y, tmp_plane[y * width + col]);
            y = y + 1;
        }
        proof {
            assert(column@ =~= column_of(m0, width as nat, height as nat, col as int));
        }
        vhgw_close_line(column.as_slice(), out.as_mut_slice(), prefix, suffix, line, gap);
        let mut y2: usize = 0;
        while y2 < height
            invariant
                y2 <= height,
                col < width,
                plane == width * height,
                m0.len() == plane,
                mask@.len() == plane,
                out@.len() == height,
                forall|r: int| 0 <= r < height ==> #[trigger] out@[r] == closed_line(column_of(m0, width as nat, height as nat, col as int), gap as int)[r],
                forall|r: int, c: int| 0 <= r < height && 0 <= c < width ==> #[trigger] mask@[r * width + c] == (if c < col || (c == col && r < y2) {
                    closed_line(column_of(m0, width as nat, height as nat, c), gap as int)[r]
                } else {
                    m0[r * width + c]
                }),
            decreases height - y2,
        {
            proof {
                lemma_cell_in_plane(y2 as int, col as int, width as int, height as int);
            }
            let ghost before = mask@;
            mask[y2 * width + col] = out[y2];
            proof {
                assert forall|r: int, c: int| 0 <= r < height && 0 <= c < width implies #[trigger] mask@[r * width + c] == (if c < col || (c == col && r < y2 + 1) {
                    closed_line(column_of(m0, width as nat, height as nat, c), gap as int)[r]
                } else {
                    m0[r * width + c]
                }) by {
                    lemma_cell_in_plane(r, c, width as int, height as int);
                    if r != y2 || c != col {
                        crate::grid::lemma_cells_distinct(r, c, y2 as int, col as int, width as int);
                        assert(mask@[r * width + c] == before[r * width + c]);
                    }
                }
            }
            y2 = y2 + 1;
        }
        col = col + 1;
    }
}

} // verus!
