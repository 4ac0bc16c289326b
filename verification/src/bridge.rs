//! Gap bridging: filling short background gaps between band pixels, along
//! rows and along columns.

use vstd::prelude::*;

use crate::grid::{at, lemma_cell_in_plane, lemma_cells_distinct};

verus! {

/// The number of background pixels in the run that ends at `i`, counting `i`,
/// and stopping at the previous non-zero pixel or at the start of the line.
pub open spec fn left_run(line: Seq<u8>, i: int) -> nat
    decreases i,
{
    if i <= 0 {
        1
    } else if line[i - 1] != 0 {
        1
    } else {
        left_run(line, i - 1) + 1
    }
}

/// The number of background pixels in the run that starts at `i`, counting
/// `i`, and stopping at the next non-zero pixel or at the end of the line.
pub open spec fn right_run(line: Seq<u8>, i: int) -> nat
    decreases line.len() - i,
{
    if i >= line.len() - 1 {
        1
    } else if line[i + 1] != 0 {
        1
    } else {
        right_run(line, i + 1) + 1
    }
}

pub open spec fn min_nat(a: nat, b: nat) -> nat {
    if a <= b {
        a
    } else {
        b
    }
}

/// The value of pixel `i` after distance bridging: a background pixel
/// becomes 1 when its distances to the band on both sides, each capped at
/// `cap`, add up to at most `gap`.
pub open spec fn bridged_pixel(line: Seq<u8>, i: int, gap: nat, cap: nat) -> u8 {
    if line[i] != 0 {
        line[i]
    } else if cap > 0 && min_nat(left_run(line, i), cap) + min_nat(right_run(line, i), cap) <= gap {
        1
    } else {
        0
    }
}

/// Row `r` of a row-major plane of width `w`.
pub open spec fn row_of(plane: Seq<u8>, w: nat, r: int) -> Seq<u8> {
    plane.subrange(r * w, r * w + w)
}

/// Column `c` of a row-major plane of width `w` and height `h`.
pub open spec fn column_of(plane: Seq<u8>, w: nat, h: nat, c: int) -> Seq<u8> {
    Seq::new(h, |r: int| plane[r * w + c])
}

/// The line of `len` pixels read from `plane` starting at `start`, `step`
/// apart.
pub open spec fn line_at(plane: Seq<u8>, start: int, step: int, len: nat) -> Seq<u8> {
    Seq::new(len, |k: int| plane[start + k * step])
}

pub open spec fn line_index(start: int, step: int, k: int) -> int {
    start + k * step
}

/// The pixels of a line lie at distinct indices in the plane.
proof fn lemma_line_index_distinct(start: int, step: int, k1: int, k2: int)
    requires
        step > 0,
        k1 != k2,
    ensures
        line_index(start, step, k1) != line_index(start, step, k2),
{
    if k1 < k2 {
        assert(k1 * step < k2 * step) by (nonlinear_arith)
            requires
                k1 < k2,
                step > 0,
        ;
    } else {
        assert(k2 * step < k1 * step) by (nonlinear_arith)
            requires
                k2 < k1,
                step > 0,
        ;
    }
}

proof fn lemma_line_index_bound(start: int, step: int, k: int, len: int)
    requires
        0 <= k < len,
        step > 0,
        start >= 0,
    ensures
        start <= line_index(start, step, k) <= start + (len - 1) * step,
{
    assert(0 <= k * step <= (len - 1) * step) by (nonlinear_arith)
        requires
            0 <= k < len,
            step > 0,
    ;
}

/// The capped left distances of every background pixel of the line of `len`
/// pixels starting at `start`, `step` apart; 0 on band pixels. The cap is
/// `cap`, and each step saturates at 65535.
pub fn horizontal_left_pass(plane: &[u8], start: usize, step: usize, len: usize, cap: u32) -> (buf: Vec<u32>)
    requires
        step > 0,
        len > 0 ==> start + (len - 1) * step < plane@.len(),
    ensures
        buf@.len() == len,
        forall|k: int|
            0 <= k < len ==> #[trigger] buf@[k] == if plane@[line_index(start as int, step as int, k)] != 0 {
                0
            } else {
                min_nat(left_run(line_at(plane@, start as int, step as int, len as nat), k), cap as nat)
            },
{
    let ghost line = line_at(plane@, start as int, step as int, len as nat);
    let mut buf: Vec<u32> = Vec::new();
    let mut last: u32 = 0;
    let mut idx: usize = start;
    let mut k: usize = 0;
    while k < len
        invariant
            step > 0,
            len > 0 ==> start + (len - 1) * step < plane@.len(),
            line == line_at(plane@, start as int, step as int, len as nat),
            k <= len,
            k < len ==> idx == line_index(start as int, step as int, k as int),
            buf@.len() == k,
            last == if k == 0 || line[k - 1] != 0 {
                0
            } else {
                min_nat(left_run(line, k - 1), cap as nat)
            },
            forall|j: int|
                0 <= j < k ==> #[trigger] buf@[j] == if line[j] != 0 {
                    0
                } else {
                    min_nat(left_run(line, j), cap as nat)
                },
        decreases len - k,
    {
        proof {
            lemma_line_index_bound(start as int, step as int, k as int, len as int);
        }
        let v = plane[idx];
        assert(v == line[k as int]);
        if v != 0 {
            last = 0;
            buf.push(0);
        } else {
            let next = last.saturating_add(1);
            last = if next < cap {
                next
            } else {
                cap
            };
            buf.push(last);
        }
        if k + 1 < len {
            proof {
                lemma_line_index_bound(start as int, step as int, k as int + 1, len as int);
                assert(line_index(start as int, step as int, k as int + 1) == idx + step) by (nonlinear_arith)
                    requires
                        idx == line_index(start as int, step as int, k as int),
                ;
            }
            idx = idx + step;
        }
        k += 1;
    }
    buf
}

/// Bridges the line of `len` pixels starting at `start`, `step` apart, in
/// place: `buf` holds the capped left distances of the line, the right
/// distances are computed here with the same cap, and every other pixel of
/// the plane is left as it was.
pub fn horizontal_right_apply(
    plane: &mut Vec<u8>,
    start: usize,
    step: usize,
    len: usize,
    buf: &[u32],
    gap: usize,
    cap: u32,
)
    requires
        step > 0,
        len > 0 ==> start + (len - 1) * step < old(plane)@.len(),
        buf@.len() == len,
        cap > 0,
        forall|k: int|
            0 <= k < len ==> #[trigger] buf@[k] == if old(plane)@[line_index(start as int, step as int, k)] != 0 {
                0
            } else {
                min_nat(left_run(line_at(old(plane)@, start as int, step as int, len as nat), k), cap as nat)
            },
    ensures
        final(plane)@.len() == old(plane)@.len(),
        forall|k: int|
            0 <= k < len ==> #[trigger] final(plane)@[line_index(start as int, step as int, k)] == bridged_pixel(
                line_at(old(plane)@, start as int, step as int, len as nat),
                k,
                gap as nat,
                cap as nat,
            ),
        forall|i: int|
            0 <= i < old(plane)@.len() && (forall|k: int| 0 <= k < len ==> line_index(start as int, step as int, k) != i)
                ==> #[trigger] final(plane)@[i] == old(plane)@[i],
{
    let ghost line = line_at(old(plane)@, start as int, step as int, len as nat);
    let ghost orig = old(plane)@;
    if len == 0 {
        return;
    }
    let mut last: u32 = 0;
    let mut k: usize = len;
    proof {
        lemma_line_index_bound(start as int, step as int, len as int - 1, len as int);
        assert(plane@.len() == plane.len());
    }
    let mut idx: usize = start + (len - 1) * step;
    while k > 0
        invariant
            step > 0,
            len > 0,
            start + (len - 1) * step < orig.len(),
            line == line_at(orig, start as int, step as int, len as nat),
            orig == old(plane)@,
            buf@.len() == len,
            cap > 0,
            forall|j: int|
                0 <= j < len ==> #[trigger] buf@[j] == if orig[line_index(start as int, step as int, j)] != 0 {
                    0
                } else {
                    min_nat(left_run(line, j), cap as nat)
                },
            k <= len,
            k > 0 ==> idx == line_index(start as int, step as int, k as int - 1),
            plane@.len() == orig.len(),
            last == if k == len || line[k as int] != 0 {
                0
            } else {
                min_nat(right_run(line, k as int), cap as nat)
            },
            forall|j: int|
                0 <= j < len ==> #[trigger] plane@[line_index(start as int, step as int, j)] == if j >= k {
                    bridged_pixel(line, j, gap as nat, cap as nat)
                } else {
                    line[j]
                },
            forall|i: int|
                0 <= i < orig.len() && (forall|j: int| 0 <= j < len ==> line_index(start as int, step as int, j) != i)
                    ==> #[trigger] plane@[i] == orig[i],
        decreases k,
    {
        let kk = k - 1;
        let ghost pre = plane@;
        proof {
            lemma_line_index_bound(start as int, step as int, kk as int, len as int);
        }
        let v = plane[idx];
        assert(v == line[kk as int]);
        if v != 0 {
            last = 0;
        } else {
            let next = last.saturating_add(1);
            last = if next < cap {
                next
            } else {
                cap
            };
            let left = buf[kk];
            proof {
                assert(line[kk as int] == orig[line_index(start as int, step as int, kk as int)]);
                assert(last == min_nat(right_run(line, kk as int), cap as nat));
                assert(left == min_nat(left_run(line, kk as int), cap as nat));
            }
            if left != 0 && last != 0 && (left as u64 + last as u64) <= gap as u64 {
                plane.set(idx, 1);
            }
        }
        assert(plane@ == pre || plane@ == pre.update(idx as int, 1u8));
        assert(idx == line_index(start as int, step as int, kk as int));
        proof {
            assert forall|j: int| 0 <= j < len implies #[trigger] plane@[line_index(start as int, step as int, j)] == if j >= kk {
                bridged_pixel(line, j, gap as nat, cap as nat)
            } else {
                line[j]
            } by {
                lemma_line_index_bound(start as int, step as int, j, len as int);
                if j != kk {
                    lemma_line_index_distinct(start as int, step as int, j, kk as int);
                    assert(pre[line_index(start as int, step as int, j)] == if j >= k {
                        bridged_pixel(line, j, gap as nat, cap as nat)
                    } else {
                        line[j]
                    });
                    assert(plane@[line_index(start as int, step as int, j)] == pre[line_index(start as int, step as int, j)]);
                } else {
                    assert(pre[line_index(start as int, step as int, j)] == line[j]);
                }
            }
            assert forall|i: int|
                0 <= i < orig.len() && (forall|j: int| 0 <= j < len ==> line_index(start as int, step as int, j) != i)
                    implies #[trigger] plane@[i] == orig[i] by {
                assert(line_index(start as int, step as int, kk as int) != i);
                assert(pre[i] == orig[i]);
            }
        }
        if kk > 0 {
            proof {
                lemma_line_index_bound(start as int, step as int, kk as int - 1, len as int);
                assert(line_index(start as int, step as int, kk as int - 1) == idx - step) by (nonlinear_arith)
                    requires
                        idx == line_index(start as int, step as int, kk as int),
                ;
            }
            idx = idx - step;
        }
        k = kk;
    }
}

} // verus!

verus! {

/// The plane `out` is the plane `inp` with every row bridged.
pub open spec fn rows_bridged(inp: Seq<u8>, out: Seq<u8>, w: nat, h: nat, gap: nat, cap: nat) -> bool {
    &&& out.len() == inp.len()
    &&& forall|r: int, c: int|
        0 <= r < h && 0 <= c < w ==> #[trigger] at(out, w, r, c) == bridged_pixel(row_of(inp, w, r), c, gap, cap)
}

/// The plane `out` is the plane `inp` with every column bridged.
pub open spec fn columns_bridged(inp: Seq<u8>, out: Seq<u8>, w: nat, h: nat, gap: nat, cap: nat) -> bool {
    &&& out.len() == inp.len()
    &&& forall|r: int, c: int|
        0 <= r < h && 0 <= c < w ==> #[trigger] at(out, w, r, c) == bridged_pixel(column_of(inp, w, h, c), r, gap, cap)
}

/// The cap of the horizontal distances: the gap, at most 65535.
pub open spec fn horizontal_cap(gap: nat) -> nat {
    if gap <= 65535 {
        gap
    } else {
        65535
    }
}

/// The cap of the vertical distances: the gap, at most `u32::MAX`.
pub open spec fn vertical_cap(gap: nat) -> nat {
    if gap <= u32::MAX {
        gap
    } else {
        u32::MAX as nat
    }
}

proof fn lemma_row_is_line(plane: Seq<u8>, w: nat, h: nat, r: int)
    requires
        plane.len() == w * h,
        0 <= r < h,
    ensures
        line_at(plane, r * w, 1, w) == row_of(plane, w, r),
{
    if w > 0 {
        lemma_cell_in_plane(r, 0, w as int, h as int);
    } else {
        assert(r * w == 0) by (nonlinear_arith)
            requires
                w == 0,
        ;
    }
    assert(r * w + w <= w * h) by (nonlinear_arith)
        requires
            r < h,
    ;
    assert forall|k: int| 0 <= k < w implies line_at(plane, r * w, 1, w)[k] == row_of(plane, w, r)[k] by {
        assert(k * 1 == k);
    }
}

proof fn lemma_column_is_line(plane: Seq<u8>, w: nat, h: nat, c: int)
    requires
        plane.len() == w * h,
        0 <= c < w,
    ensures
        line_at(plane, c, w as int, h) == column_of(plane, w, h, c),
{
    assert forall|k: int| 0 <= k < h implies line_at(plane, c, w as int, h)[k] == column_of(plane, w, h, c)[k] by {
        assert(k * w == k * (w as int));
    }
}

/// Bridges every row of a `width` by `height` plane: a background pixel
/// becomes 1 when its distances to the band on its left and on its right
/// (each counted to the row's end where there is no band pixel, and capped
/// at the gap, at most 65535) add up to at most `gap`.
pub fn dp_bridge_horizontal(mask: &mut Vec<u8>, width: usize, height: usize, gap: usize)
    requires
        old(mask)@.len() == width * height,
    ensures
        rows_bridged(old(mask)@, final(mask)@, width as nat, height as nat, gap as nat, horizontal_cap(gap as nat)),
{
    let ghost orig = mask@;
    let ghost cap_spec = horizontal_cap(gap as nat);
    if gap == 0 || width == 0 {
        proof {
            assert forall|r: int, c: int| 0 <= r < height && 0 <= c < width implies #[trigger] at(mask@, width as nat, r, c)
                == bridged_pixel(row_of(orig, width as nat, r), c, gap as nat, cap_spec) by {
                lemma_cell_in_plane(r, c, width as int, height as int);
                assert(row_of(orig, width as nat, r)[c] == orig[r * width + c]);
            }
        }
        return;
    }
    let cap: u32 = if gap <= 65535 {
        gap as u32
    } else {
        65535
    };
    let mut row: usize = 0;
    while row < height
        invariant
            orig.len() == width * height,
            width > 0,
            gap > 0,
            cap == cap_spec,
            cap_spec == horizontal_cap(gap as nat),
            row <= height,
            mask@.len() == orig.len(),
            forall|r: int, c: int|
                0 <= r < height && 0 <= c < width ==> #[trigger] at(mask@, width as nat, r, c) == if r < row {
                    bridged_pixel(row_of(orig, width as nat, r), c, gap as nat, cap_spec)
                } else {
                    at(orig, width as nat, r, c)
                },
        decreases height - row,
    {
        proof {
            lemma_cell_in_plane(row as int, width as int - 1, width as int, height as int);
            assert(mask@.len() == mask.len());
        }
        let start = row * width;
        let ghost pre = mask@;
        proof {
            assert(line_at(pre, start as int, 1, width as nat) == row_of(orig, width as nat, row as int)) by {
                lemma_row_is_line(orig, width as nat, height as nat, row as int);
                assert forall|k: int| 0 <= k < width implies line_at(pre, start as int, 1, width as nat)[k]
                    == line_at(orig, start as int, 1, width as nat)[k] by {
                    lemma_cell_in_plane(row as int, k, width as int, height as int);
                    assert(at(pre, width as nat, row as int, k) == at(orig, width as nat, row as int, k));
                    assert(k * 1 == k);
                }
            }
        }
        let buf = horizontal_left_pass(mask, start, 1, width, cap);
        horizontal_right_apply(mask, start, 1, width, &buf, gap, cap);
        proof {
            assert forall|r: int, c: int|
                0 <= r < height && 0 <= c < width implies #[trigger] at(mask@, width as nat, r, c) == if r < row + 1 {
                    bridged_pixel(row_of(orig, width as nat, r), c, gap as nat, cap_spec)
                } else {
                    at(orig, width as nat, r, c)
                } by {
                lemma_cell_in_plane(r, c, width as int, height as int);
                if r == row {
                    assert(line_index(start as int, 1, c) == r * width + c);
                } else {
                    assert forall|k: int| 0 <= k < width implies line_index(start as int, 1, k) != r * width + c by {
                        lemma_cells_distinct(row as int, k, r, c, width as int);
                    }
                    assert(at(pre, width as nat, r, c) == pre[r * width + c]);
                }
            }
        }
        row += 1;
    }
}

/// Bridges every column of a `width` by `height` plane: a background pixel
/// becomes 1 when its distances to the band above and below it (each
/// counted to the column's end where there is no band pixel, and capped at
/// the gap, at most `u32::MAX`) add up to at most `gap`.
pub fn dp_bridge_vertical(mask: &mut Vec<u8>, width: usize, height: usize, gap: usize)
    requires
        old(mask)@.len() == width * height,
    ensures
        columns_bridged(old(mask)@, final(mask)@, width as nat, height as nat, gap as nat, vertical_cap(gap as nat)),
{
    let ghost orig = mask@;
    let ghost cap_spec = vertical_cap(gap as nat);
    if gap == 0 || height == 0 {
        proof {
            assert forall|r: int, c: int| 0 <= r < height && 0 <= c < width implies #[trigger] at(mask@, width as nat, r, c)
                == bridged_pixel(column_of(orig, width as nat, height as nat, c), r, gap as nat, cap_spec) by {
                lemma_cell_in_plane(r, c, width as int, height as int);
            }
        }
        return;
    }
    let cap: u32 = if gap <= 4294967295 {
        gap as u32
    } else {
        4294967295
    };
    let mut col: usize = 0;
    while col < width
        invariant
            orig.len() == width * height,
            height > 0,
            gap > 0,
            cap == cap_spec,
            cap_spec == vertical_cap(gap as nat),
            col <= width,
            mask@.len() == orig.len(),
            forall|r: int, c: int|
                0 <= r < height && 0 <= c < width ==> #[trigger] at(mask@, width as nat, r, c) == if c < col {
                    bridged_pixel(column_of(orig, width as nat, height as nat, c), r, gap as nat, cap_spec)
                } else {
                    at(orig, width as nat, r, c)
                },
        decreases width - col,
    {
        proof {
            lemma_cell_in_plane(height as int - 1, col as int, width as int, height as int);
        }
        let ghost pre = mask@;
        proof {
            assert(line_at(pre, col as int, width as int, height as nat) == column_of(orig, width as nat, height as nat, col as int)) by {
                lemma_column_is_line(orig, width as nat, height as nat, col as int);
                assert forall|k: int| 0 <= k < height implies line_at(pre, col as int, width as int, height as nat)[k]
                    == line_at(orig, col as int, width as int, height as nat)[k] by {
                    lemma_cell_in_plane(k, col as int, width as int, height as int);
                    assert(at(pre, width as nat, k, col as int) == at(orig, width as nat, k, col as int));
                }
            }
            assert((height - 1) * width + col == col + (height - 1) * width);
        }
        let buf = horizontal_left_pass(mask, col, width, height, cap);
        horizontal_right_apply(mask, col, width, height, &buf, gap, cap);
        proof {
            assert forall|r: int, c: int|
                0 <= r < height && 0 <= c < width implies #[trigger] at(mask@, width as nat, r, c) == if c < col + 1 {
                    bridged_pixel(column_of(orig, width as nat, height as nat, c), r, gap as nat, cap_spec)
                } else {
                    at(orig, width as nat, r, c)
                } by {
                lemma_cell_in_plane(r, c, width as int, height as int);
                if c == col {
                    assert(line_index(col as int, width as int, r) == r * width + c) by (nonlinear_arith)
                        requires c == col;
                } else {
                    assert forall|k: int| 0 <= k < height implies line_index(col as int, width as int, k) != r * width + c by {
                        assert(line_index(col as int, width as int, k) == k * width + col) by (nonlinear_arith);
                        lemma_cells_distinct(k, col as int, r, c, width as int);
                    }
                    assert(at(pre, width as nat, r, c) == pre[r * width + c]);
                }
            }
        }
        col += 1;
    }
}

} // verus!

verus! {

/// The value of pixel `i` after span filling: a background pixel becomes 1
/// when the background span holding it has band pixels on both sides and
/// is at most `gap` pixels long.
pub open spec fn gap_filled_pixel(line: Seq<u8>, i: int, gap: nat) -> u8 {
    if line[i] != 0 {
        line[i]
    } else if i - left_run(line, i) >= 0 && i + right_run(line, i) < line.len() && left_run(line, i)
        + right_run(line, i) - 1 <= gap {
        1
    } else {
        0
    }
}

proof fn lemma_left_run_in_span(line: Seq<u8>, x: int, j: int)
    requires
        0 <= x <= j < line.len(),
        x == 0 || line[x - 1] != 0,
        forall|k: int| x <= k < j ==> line[k] == 0,
    ensures
        left_run(line, j) == j - x + 1,
    decreases j - x,
{
    if j > x {
        lemma_left_run_in_span(line, x, j - 1);
    }
}

proof fn lemma_right_run_in_span(line: Seq<u8>, e: int, j: int)
    requires
        0 <= j < e <= line.len(),
        e == line.len() || line[e] != 0,
        forall|k: int| j < k < e ==> line[k] == 0,
    ensures
        right_run(line, j) == e - j,
    decreases e - j,
{
    if j < e - 1 {
        lemma_right_run_in_span(line, e, j + 1);
    }
}

/// Fills, in place, the short background spans of the line of `len` pixels
/// starting at `start`, `step` apart; every other pixel of the plane is
/// left as it was.
pub fn fill_gaps_line(plane: &mut Vec<u8>, start: usize, step: usize, len: usize, gap: usize)
    requires
        step > 0,
        len > 0 ==> start + (len - 1) * step < old(plane)@.len(),
    ensures
        final(plane)@.len() == old(plane)@.len(),
        forall|k: int|
            0 <= k < len ==> #[trigger] final(plane)@[line_index(start as int, step as int, k)] == gap_filled_pixel(
                line_at(old(plane)@, start as int, step as int, len as nat),
                k,
                gap as nat,
            ),
        forall|i: int|
            0 <= i < old(plane)@.len() && (forall|k: int| 0 <= k < len ==> line_index(start as int, step as int, k) != i)
                ==> #[trigger] final(plane)@[i] == old(plane)@[i],
{
    let ghost line = line_at(old(plane)@, start as int, step as int, len as nat);
    let ghost orig = old(plane)@;
    proof {
        assert(plane@.len() == plane.len());
    }
    let mut x: usize = 0;
    while x < len
        invariant
            step > 0,
            len > 0 ==> start + (len - 1) * step < orig.len(),
            orig.len() <= usize::MAX,
            line == line_at(orig, start as int, step as int, len as nat),
            orig == old(plane)@,
            plane@.len() == orig.len(),
            x <= len,
            x == 0 || x == len || line[x - 1] != 0 || line[x as int] != 0,
            forall|j: int|
                0 <= j < len ==> #[trigger] plane@[line_index(start as int, step as int, j)] == if j < x {
                    gap_filled_pixel(line, j, gap as nat)
                } else {
                    line[j]
                },
            forall|i: int|
                0 <= i < orig.len() && (forall|j: int| 0 <= j < len ==> line_index(start as int, step as int, j) != i)
                    ==> #[trigger] plane@[i] == orig[i],
        decreases len - x,
    {
        proof {
            lemma_line_index_bound(start as int, step as int, x as int, len as int);
        }
        let ghost pre = plane@;
        if plane[start + x * step] != 0 {
            proof {
                assert(line[x as int] != 0);
            }
            x += 1;
        } else {
            proof {
                assert(line[x as int] == 0);
            }
            let mut span_end = x;
            let mut scanning = true;
            while scanning
                invariant
                    step > 0,
                    len > 0 ==> start + (len - 1) * step < orig.len(),
                    orig.len() <= usize::MAX,
                    line == line_at(orig, start as int, step as int, len as nat),
                    plane@ == pre,
                    plane@.len() == orig.len(),
                    x < len,
                    x <= span_end <= len,
                    forall|j: int|
                        0 <= j < len ==> #[trigger] plane@[line_index(start as int, step as int, j)] == if j < x {
                            gap_filled_pixel(line, j, gap as nat)
                        } else {
                            line[j]
                        },
                    forall|k: int| x <= k < span_end ==> line[k] == 0,
                    !scanning ==> span_end == len || line[span_end as int] != 0,
                decreases len - span_end + if scanning { 1int } else { 0int },
            {
                if span_end < len {
                    proof {
                        lemma_line_index_bound(start as int, step as int, span_end as int, len as int);
                        assert(plane@[line_index(start as int, step as int, span_end as int)] == line[span_end as int]);
                    }
                    if plane[start + span_end * step] == 0 {
                        span_end += 1;
                    } else {
                        scanning = false;
                    }
                } else {
                    scanning = false;
                }
            }
            proof {
                if span_end < len {
                    lemma_line_index_bound(start as int, step as int, span_end as int, len as int);
                    assert(plane@[line_index(start as int, step as int, span_end as int)] == line[span_end as int]);
                }
            }
            proof {
                if x > 0 {
                    lemma_line_index_bound(start as int, step as int, x as int - 1, len as int);
                    assert(plane@[line_index(start as int, step as int, x as int - 1)] == line[x as int - 1]);
                }
            }
            let left_connected = x > 0 && plane[start + (x - 1) * step] != 0;
            let right_connected = span_end < len && plane[start + span_end * step] != 0;
            let fill = left_connected && right_connected && (span_end - x) <= gap;
            proof {
                assert forall|j: int| x <= j < span_end implies gap_filled_pixel(line, j, gap as nat) == if fill {
                    1u8
                } else {
                    0u8
                } by {
                    lemma_left_run_in_span(line, x as int, j);
                    lemma_right_run_in_span(line, span_end as int, j);
                }
            }
            if fill {
                let mut f = x;
                while f < span_end
                    invariant
                        step > 0,
                        len > 0 ==> start + (len - 1) * step < orig.len(),
                        orig.len() <= usize::MAX,
                        plane@.len() == orig.len(),
                        x <= f <= span_end <= len,
                        forall|j: int|
                            0 <= j < len ==> #[trigger] plane@[line_index(start as int, step as int, j)] == if j < x {
                                gap_filled_pixel(line, j, gap as nat)
                            } else if j < f {
                                1u8
                            } else {
                                line[j]
                            },
                        forall|i: int|
                            0 <= i < orig.len() && (forall|j: int| 0 <= j < len ==> line_index(start as int, step as int, j) != i)
                                ==> #[trigger] plane@[i] == orig[i],
                    decreases span_end - f,
                {
                    proof {
                        lemma_line_index_bound(start as int, step as int, f as int, len as int);
                    }
                    let ghost pre2 = plane@;
                    plane.set(start + f * step, 1);
                    proof {
                        assert forall|j: int| 0 <= j < len implies #[trigger] plane@[line_index(start as int, step as int, j)] == if j < x {
                            gap_filled_pixel(line, j, gap as nat)
                        } else if j < f + 1 {
                            1u8
                        } else {
                            line[j]
                        } by {
                            lemma_line_index_bound(start as int, step as int, j, len as int);
                            if j != f {
                                lemma_line_index_distinct(start as int, step as int, j, f as int);
                                assert(pre2[line_index(start as int, step as int, j)] == plane@[line_index(start as int, step as int, j)]);
                            }
                        }
                        assert forall|i: int|
                            0 <= i < orig.len() && (forall|j: int| 0 <= j < len ==> line_index(start as int, step as int, j) != i)
                                implies #[trigger] plane@[i] == orig[i] by {
                            assert(line_index(start as int, step as int, f as int) != i);
                            assert(pre2[i] == orig[i]);
                        }
                    }
                    f += 1;
                }
            }
            proof {
                assert forall|j: int| 0 <= j < len implies #[trigger] plane@[line_index(start as int, step as int, j)] == if j < span_end {
                    gap_filled_pixel(line, j, gap as nat)
                } else {
                    line[j]
                } by {
                    if x <= j < span_end {
                        assert(line[j] == 0);
                    }
                }
            }
            x = span_end;
        }
    }
}

/// The plane `out` is the plane `inp` with the short spans of every row
/// filled.
pub open spec fn rows_gap_filled(inp: Seq<u8>, out: Seq<u8>, w: nat, h: nat, gap: nat) -> bool {
    &&& out.len() == inp.len()
    &&& forall|r: int, c: int|
        0 <= r < h && 0 <= c < w ==> #[trigger] at(out, w, r, c) == gap_filled_pixel(row_of(inp, w, r), c, gap)
}

/// The plane `out` is the plane `inp` with the short spans of every column
/// filled.
pub open spec fn columns_gap_filled(inp: Seq<u8>, out: Seq<u8>, w: nat, h: nat, gap: nat) -> bool {
    &&& out.len() == inp.len()
    &&& forall|r: int, c: int|
        0 <= r < h && 0 <= c < w ==> #[trigger] at(out, w, r, c) == gap_filled_pixel(column_of(inp, w, h, c), r, gap)
}

/// Fills every background span of a row that has band pixels at both ends
/// and is at most `gap` pixels long.
pub fn gap_bridge_horizontal(mask: &mut Vec<u8>, width: usize, height: usize, gap: usize)
    requires
        old(mask)@.len() == width * height,
    ensures
        rows_gap_filled(old(mask)@, final(mask)@, width as nat, height as nat, gap as nat),
{
    let ghost orig = mask@;
    if gap == 0 || width == 0 {
        proof {
            assert forall|r: int, c: int| 0 <= r < height && 0 <= c < width implies #[trigger] at(mask@, width as nat, r, c)
                == gap_filled_pixel(row_of(orig, width as nat, r), c, gap as nat) by {
                lemma_cell_in_plane(r, c, width as int, height as int);
                assert(row_of(orig, width as nat, r)[c] == orig[r * width + c]);
            }
        }
        return;
    }
    let mut row: usize = 0;
    while row < height
        invariant
            orig.len() == width * height,
            width > 0,
            row <= height,
            mask@.len() == orig.len(),
            forall|r: int, c: int|
                0 <= r < height && 0 <= c < width ==> #[trigger] at(mask@, width as nat, r, c) == if r < row {
                    gap_filled_pixel(row_of(orig, width as nat, r), c, gap as nat)
                } else {
                    at(orig, width as nat, r, c)
                },
        decreases height - row,
    {
        proof {
            lemma_cell_in_plane(row as int, width as int - 1, width as int, height as int);
            assert(mask@.len() == mask.len());
        }
        let start = row * width;
        let ghost pre = mask@;
        proof {
            assert(line_at(pre, start as int, 1, width as nat) == row_of(orig, width as nat, row as int)) by {
                lemma_row_is_line(orig, width as nat, height as nat, row as int);
                assert forall|k: int| 0 <= k < width implies line_at(pre, start as int, 1, width as nat)[k]
                    == line_at(orig, start as int, 1, width as nat)[k] by {
                    lemma_cell_in_plane(row as int, k, width as int, height as int);
                    assert(at(pre, width as nat, row as int, k) == at(orig, width as nat, row as int, k));
                    assert(k * 1 == k);
                }
            }
        }
        fill_gaps_line(mask, start, 1, width, gap);
        proof {
            assert forall|r: int, c: int|
                0 <= r < height && 0 <= c < width implies #[trigger] at(mask@, width as nat, r, c) == if r < row + 1 {
                    gap_filled_pixel(row_of(orig, width as nat, r), c, gap as nat)
                } else {
                    at(orig, width as nat, r, c)
                } by {
                lemma_cell_in_plane(r, c, width as int, height as int);
                if r == row {
                    assert(line_index(start as int, 1, c) == r * width + c);
                } else {
                    assert forall|k: int| 0 <= k < width implies line_index(start as int, 1, k) != r * width + c by {
                        lemma_cells_distinct(row as int, k, r, c, width as int);
                    }
                    assert(at(pre, width as nat, r, c) == pre[r * width + c]);
                }
            }
        }
        row += 1;
    }
}

/// Fills every background span of a column that has band pixels at both
/// ends and is at most `gap` pixels long.
pub fn gap_bridge_vertical(mask: &mut Vec<u8>, width: usize, height: usize, gap: usize)
    requires
        old(mask)@.len() == width * height,
    ensures
        columns_gap_filled(old(mask)@, final(mask)@, width as nat, height as nat, gap as nat),
{
    let ghost orig = mask@;
    if gap == 0 || height == 0 {
        proof {
            assert forall|r: int, c: int| 0 <= r < height && 0 <= c < width implies #[trigger] at(mask@, width as nat, r, c)
                == gap_filled_pixel(column_of(orig, width as nat, height as nat, c), r, gap as nat) by {
                lemma_cell_in_plane(r, c, width as int, height as int);
            }
        }
        return;
    }
    let mut col: usize = 0;
    while col < width
        invariant
            orig.len() == width * height,
            height > 0,
            col <= width,
            mask@.len() == orig.len(),
            forall|r: int, c: int|
                0 <= r < height && 0 <= c < width ==> #[trigger] at(mask@, width as nat, r, c) == if c < col {
                    gap_filled_pixel(column_of(orig, width as nat, height as nat, c), r, gap as nat)
                } else {
                    at(orig, width as nat, r, c)
                },
        decreases width - col,
    {
        proof {
            lemma_cell_in_plane(height as int - 1, col as int, width as int, height as int);
        }
        let ghost pre = mask@;
        proof {
            assert(line_at(pre, col as int, width as int, height as nat) == column_of(orig, width as nat, height as nat, col as int)) by {
                lemma_column_is_line(orig, width as nat, height as nat, col as int);
                assert forall|k: int| 0 <= k < height implies line_at(pre, col as int, width as int, height as nat)[k]
                    == line_at(orig, col as int, width as int, height as nat)[k] by {
                    lemma_cell_in_plane(k, col as int, width as int, height as int);
                    assert(at(pre, width as nat, k, col as int) == at(orig, width as nat, k, col as int));
                }
            }
            assert((height - 1) * width + col == col + (height - 1) * width);
        }
        fill_gaps_line(mask, col, width, height, gap);
        proof {
            assert forall|r: int, c: int|
                0 <= r < height && 0 <= c < width implies #[trigger] at(mask@, width as nat, r, c) == if c < col + 1 {
                    gap_filled_pixel(column_of(orig, width as nat, height as nat, c), r, gap as nat)
                } else {
                    at(orig, width as nat, r, c)
                } by {
                lemma_cell_in_plane(r, c, width as int, height as int);
                if c == col {
                    assert(line_index(col as int, width as int, r) == r * width + c) by (nonlinear_arith)
                        requires c == col;
                } else {
                    assert forall|k: int| 0 <= k < height implies line_index(col as int, width as int, k) != r * width + c by {
                        assert(line_index(col as int, width as int, k) == k * width + col) by (nonlinear_arith);
                        lemma_cells_distinct(k, col as int, r, c, width as int);
                    }
                    assert(at(pre, width as nat, r, c) == pre[r * width + c]);
                }
            }
        }
        col += 1;
    }
}

/// Bridging never clears a band pixel, only sets background pixels to 1,
/// and so keeps a binary line binary.
pub proof fn lemma_bridging_keeps_band(line: Seq<u8>, i: int, gap: nat, cap: nat)
    requires
        0 <= i < line.len(),
    ensures
        line[i] != 0 ==> bridged_pixel(line, i, gap, cap) == line[i],
        line[i] == 0 ==> bridged_pixel(line, i, gap, cap) <= 1,
        line[i] != 0 ==> gap_filled_pixel(line, i, gap) == line[i],
        line[i] == 0 ==> gap_filled_pixel(line, i, gap) <= 1,
{
}

} // verus!
