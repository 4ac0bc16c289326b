//! The integral image of a binary mask, and rectangle counts read from it.

use vstd::prelude::*;

use crate::bridge::row_of;
use crate::grid::{lemma_cell_in_plane, lemma_cells_distinct};
use crate::mask::{binary, lemma_population_binary, population};

verus! {

/// The band pixels of row `r` in columns `[x0, x1)`.
pub open spec fn span_count(mask: Seq<u8>, w: nat, r: int, x0: int, x1: int) -> nat {
    population(row_of(mask, w, r).subrange(x0, x1))
}

/// The band pixels of the box of columns `[x0, x1)` and rows `[y0, y1)`.
pub open spec fn box_count(mask: Seq<u8>, w: nat, x0: int, x1: int, y0: int, y1: int) -> nat
    decreases y1 - y0,
{
    if y1 <= y0 {
        0
    } else {
        box_count(mask, w, x0, x1, y0, y1 - 1) + span_count(mask, w, y1 - 1, x0, x1)
    }
}

/// `integral` is the integral image of a `w` by `h` mask: row-major with
/// width `w + 1`, its entry at column `x`, row `y` counts the band pixels
/// above and to the left.
pub open spec fn integral_of(integral: Seq<u32>, mask: Seq<u8>, w: nat, h: nat) -> bool {
    &&& integral.len() == (w + 1) * (h + 1)
    &&& forall|x: int, y: int|
        0 <= x <= w && 0 <= y <= h ==> #[trigger] integral[y * (w + 1) + x] == box_count(mask, w, 0, x, 0, y)
}

/// The population of a sequence splits at any point.
pub proof fn lemma_population_split(s: Seq<u8>, a: int, b: int, c: int)
    requires
        0 <= a <= b <= c <= s.len(),
    ensures
        population(s.subrange(a, c)) == population(s.subrange(a, b)) + population(s.subrange(b, c)),
    decreases c - b,
{
    if c == b {
        assert(s.subrange(b, c).len() == 0);
    } else {
        lemma_population_split(s, a, b, c - 1);
        assert(s.subrange(a, c).drop_last() == s.subrange(a, c - 1));
        assert(s.subrange(b, c).drop_last() == s.subrange(b, c - 1));
    }
}

/// Box counts split between rows.
pub proof fn lemma_box_split_rows(mask: Seq<u8>, w: nat, x0: int, x1: int, y0: int, y1: int, y2: int)
    requires
        y0 <= y1 <= y2,
    ensures
        box_count(mask, w, x0, x1, y0, y2) == box_count(mask, w, x0, x1, y0, y1) + box_count(mask, w, x0, x1, y1, y2),
    decreases y2 - y1,
{
    if y2 > y1 {
        lemma_box_split_rows(mask, w, x0, x1, y0, y1, y2 - 1);
    }
}

/// Box counts split between columns.
pub proof fn lemma_box_split_columns(mask: Seq<u8>, w: nat, x0: int, x1: int, x2: int, y0: int, y1: int)
    requires
        0 <= x0 <= x1 <= x2 <= w,
        mask.len() >= y1 * w,
        0 <= y0,
    ensures
        box_count(mask, w, x0, x2, y0, y1) == box_count(mask, w, x0, x1, y0, y1) + box_count(mask, w, x1, x2, y0, y1),
    decreases y1 - y0,
{
    if y1 > y0 {
        assert(mask.len() >= (y1 - 1) * w) by (nonlinear_arith)
            requires
                mask.len() >= y1 * w,
                y1 > 0,
        ;
        lemma_box_split_columns(mask, w, x0, x1, x2, y0, y1 - 1);
        assert((y1 - 1) * w + w == y1 * w) by (nonlinear_arith);
        assert(0 <= (y1 - 1) * w) by (nonlinear_arith)
            requires
                y1 > 0,
        ;
        let row = row_of(mask, w, y1 - 1);
        assert(row.len() == w);
        lemma_population_split(row, x0, x1, x2);
    }
}

/// A box of a binary mask holds at most as many band pixels as it has cells.
pub proof fn lemma_box_bound(mask: Seq<u8>, w: nat, x0: int, x1: int, y0: int, y1: int)
    requires
        binary(mask),
        0 <= x0 <= x1 <= w,
        0 <= y0 <= y1,
        mask.len() >= y1 * w,
    ensures
        box_count(mask, w, x0, x1, y0, y1) <= (x1 - x0) * (y1 - y0),
    decreases y1 - y0,
{
    if y1 > y0 {
        assert(mask.len() >= (y1 - 1) * w) by (nonlinear_arith)
            requires
                mask.len() >= y1 * w,
                y1 > 0,
        ;
        lemma_box_bound(mask, w, x0, x1, y0, y1 - 1);
        assert((y1 - 1) * w + w == y1 * w) by (nonlinear_arith);
        assert(0 <= (y1 - 1) * w) by (nonlinear_arith)
            requires
                y1 > 0,
        ;
        let span = row_of(mask, w, y1 - 1).subrange(x0, x1);
        assert forall|i: int| 0 <= i < span.len() implies #[trigger] span[i] <= 1 by {
            assert(span[i] == mask[(y1 - 1) * w + x0 + i]);
        }
        lemma_population_binary(span);
        assert((x1 - x0) * (y1 - y0) == (x1 - x0) * (y1 - 1 - y0) + (x1 - x0)) by (nonlinear_arith);
    }
}

/// An empty column range holds no band pixels.
pub proof fn lemma_box_no_columns(mask: Seq<u8>, w: nat, x: int, y0: int, y1: int)
    requires
        0 <= x <= w,
        0 <= y0,
        mask.len() >= y1 * w,
    ensures
        box_count(mask, w, x, x, y0, y1) == 0,
    decreases y1 - y0,
{
    if y1 > y0 {
        assert(mask.len() >= (y1 - 1) * w) by (nonlinear_arith)
            requires
                mask.len() >= y1 * w,
                y1 > 0,
        ;
        lemma_box_no_columns(mask, w, x, y0, y1 - 1);
        assert((y1 - 1) * w + w == y1 * w) by (nonlinear_arith);
        assert(0 <= (y1 - 1) * w) by (nonlinear_arith)
            requires
                y1 > 0,
        ;
        assert(row_of(mask, w, y1 - 1).subrange(x, x).len() == 0);
    }
}

/// The count of a box from the four integral corners around it.
pub proof fn lemma_box_from_corners(mask: Seq<u8>, w: nat, x0: int, x1: int, y0: int, y1: int)
    requires
        0 <= x0 <= x1 <= w,
        0 <= y0 <= y1,
        mask.len() >= y1 * w,
    ensures
        box_count(mask, w, x0, x1, y0, y1) + box_count(mask, w, 0, x0, 0, y1) + box_count(mask, w, 0, x1, 0, y0)
            == box_count(mask, w, 0, x1, 0, y1) + box_count(mask, w, 0, x0, 0, y0),
{
    lemma_box_split_rows(mask, w, 0, x1, 0, y0, y1);
    lemma_box_split_rows(mask, w, 0, x0, 0, y0, y1);
    lemma_box_split_columns(mask, w, 0, x0, x1, y0, y1);
}

/// The running row sums of a binary mask: entry `r * width + c` counts the
/// band pixels of row `r` in columns `0..=c`.
fn compute_horizontal_prefix(mask: &[u8], width: usize, height: usize) -> (row_prefix: Vec<u32>)
    requires
        mask@.len() == width * height,
        binary(mask@),
        width * height <= u32::MAX,
    ensures
        row_prefix@.len() == width * height,
        forall|r: int, c: int|
            0 <= r < height && 0 <= c < width ==> #[trigger] row_prefix@[r * width + c] == span_count(
                mask@,
                width as nat,
                r,
                0,
                c + 1,
            ),
{
    let mut row_prefix: Vec<u32> = Vec::new();
    let mut row: usize = 0;
    while row < height
        invariant
            mask@.len() == width * height,
            binary(mask@),
            width * height <= u32::MAX,
            row <= height,
            row_prefix@.len() == row * width,
            forall|r: int, c: int|
                0 <= r < row && 0 <= c < width ==> #[trigger] row_prefix@[r * width + c] == span_count(
                    mask@,
                    width as nat,
                    r,
                    0,
                    c + 1,
                ),
        decreases height - row,
    {
        let ghost line = row_of(mask@, width as nat, row as int);
        let mut acc: u32 = 0;
        let mut idx: usize = 0;
        while idx < width
            invariant
                mask@.len() == width * height,
                binary(mask@),
                width * height <= u32::MAX,
                row < height,
                idx <= width,
                line == row_of(mask@, width as nat, row as int),
                row_prefix@.len() == row * width + idx,
                acc == population(line.subrange(0, idx as int)),
                forall|r: int, c: int|
                    0 <= r < row && 0 <= c < width ==> #[trigger] row_prefix@[r * width + c] == span_count(
                        mask@,
                        width as nat,
                        r,
                        0,
                        c + 1,
                    ),
                forall|c: int| 0 <= c < idx ==> #[trigger] row_prefix@[row * width + c] == span_count(
                    mask@,
                    width as nat,
                    row as int,
                    0,
                    c + 1,
                ),
            decreases width - idx,
        {
            proof {
                lemma_cell_in_plane(row as int, idx as int, width as int, height as int);
                assert(line.subrange(0, idx as int + 1).drop_last() == line.subrange(0, idx as int));
                assert(line[idx as int] == mask@[row * width + idx]);
                assert(mask@[row * width + idx] <= 1);
                let span = line.subrange(0, idx as int);
                assert forall|i: int| 0 <= i < span.len() implies #[trigger] span[i] <= 1 by {
                    assert(span[i] == mask@[row * width + i]);
                }
                lemma_population_binary(span);
                assert(width <= width * height) by (nonlinear_arith)
                    requires
                        row < height,
                ;
            }
            acc = acc + mask[row * width + idx] as u32;
            let ghost before = row_prefix@;
            row_prefix.push(acc);
            proof {
                assert forall|r: int, c: int| 0 <= r < row && 0 <= c < width implies #[trigger] row_prefix@[r * width + c]
                    == span_count(mask@, width as nat, r, 0, c + 1) by {
                    lemma_cell_in_plane(r, c, width as int, row as int);
                    assert(row_prefix@[r * width + c] == before[r * width + c]);
                }
                assert forall|c: int| 0 <= c < idx + 1 implies #[trigger] row_prefix@[row * width + c] == span_count(
                    mask@,
                    width as nat,
                    row as int,
                    0,
                    c + 1,
                ) by {
                    if c < idx {
                        assert(row_prefix@[row * width + c] == before[row * width + c]);
                    }
                }
            }
            idx += 1;
        }
        proof {
            assert((row + 1) * width == row * width + width) by (nonlinear_arith);
        }
        row += 1;
    }
    proof {
        assert(row * width == width * height) by (nonlinear_arith)
            requires
                row == height,
        ;
    }
    row_prefix
}

/// Sums the running row sums down every column: the integral image of the
/// mask, with a zero first row and column.
fn accumulate_columns(
    row_prefix: &Vec<u32>,
    width: usize,
    height: usize,
    Ghost(mask): Ghost<Seq<u8>>,
) -> (integral: Vec<u32>)
    requires
        mask.len() == width * height,
        binary(mask),
        width * height <= u32::MAX,
        (width + 1) * (height + 1) <= usize::MAX,
        row_prefix@.len() == width * height,
        forall|r: int, c: int|
            0 <= r < height && 0 <= c < width ==> #[trigger] row_prefix@[r * width + c] == span_count(
                mask,
                width as nat,
                r,
                0,
                c + 1,
            ),
    ensures
        integral_of(integral@, mask, width as nat, height as nat),
{
    proof {
        assert(width + 1 <= (width + 1) * (height + 1)) by (nonlinear_arith);
        assert(height + 1 <= (width + 1) * (height + 1)) by (nonlinear_arith);
    }
    let stride = width + 1;
    let total = stride * (height + 1);
    let mut integral: Vec<u32> = Vec::new();
    let mut k: usize = 0;
    while k < total
        invariant
            k <= total,
            integral@.len() == k,
            forall|i: int| 0 <= i < k ==> #[trigger] integral@[i] == 0,
        decreases total - k,
    {
        integral.push(0);
        k += 1;
    }
    proof {
        assert forall|x: int, y: int| 0 <= x <= width && 0 <= y <= height implies #[trigger] integral@[y * stride + x]
            == (if x <= 0 { box_count(mask, width as nat, 0, x, 0, y) } else { 0 }) by {
            lemma_cell_in_plane(y, x, stride as int, height + 1);
            if x <= 0 {
                assert(mask.len() >= y * width) by (nonlinear_arith)
                    requires
                        mask.len() == width * height,
                        y <= height,
                ;
                lemma_box_no_columns(mask, width as nat, 0, 0, y);
            }
        }
    }
    let mut col: usize = 0;
    while col < width
        invariant
            mask.len() == width * height,
            binary(mask),
            width * height <= u32::MAX,
            stride == width + 1,
            total == stride * (height + 1),
            integral@.len() == total,
            row_prefix@.len() == width * height,
            forall|r: int, c: int|
                0 <= r < height && 0 <= c < width ==> #[trigger] row_prefix@[r * width + c] == span_count(
                    mask,
                    width as nat,
                    r,
                    0,
                    c + 1,
                ),
            col <= width,
            forall|x: int, y: int|
                0 <= x <= width && 0 <= y <= height ==> #[trigger] integral@[y * stride + x] == (if x <= col {
                    box_count(mask, width as nat, 0, x, 0, y)
                } else {
                    0
                }),
        decreases width - col,
    {
        let mut acc: u32 = 0;
        let mut row: usize = 0;
        while row < height
            invariant
                mask.len() == width * height,
                binary(mask),
                width * height <= u32::MAX,
                stride == width + 1,
                total == stride * (height + 1),
                integral@.len() == total,
                row_prefix@.len() == width * height,
                forall|r: int, c: int|
                    0 <= r < height && 0 <= c < width ==> #[trigger] row_prefix@[r * width + c] == span_count(
                        mask,
                        width as nat,
                        r,
                        0,
                        c + 1,
                    ),
                col < width,
                row <= height,
                acc == box_count(mask, width as nat, 0, col + 1, 0, row as int),
                forall|x: int, y: int|
                    0 <= x <= width && 0 <= y <= height ==> #[trigger] integral@[y * stride + x] == (if x <= col || (x
                        == col + 1 && y <= row) {
                        box_count(mask, width as nat, 0, x, 0, y)
                    } else {
                        0
                    }),
            decreases height - row,
        {
            proof {
                lemma_cell_in_plane(row as int, col as int, width as int, height as int);
                assert(mask.len() >= (row + 1) * width) by (nonlinear_arith)
                    requires
                        mask.len() == width * height,
                        row < height,
                ;
                lemma_box_bound(mask, width as nat, 0, col + 1, 0, row + 1);
                assert((col + 1) * (row + 1) <= width * height) by (nonlinear_arith)
                    requires
                        col < width,
                        row < height,
                ;
                lemma_cell_in_plane(row + 1, col + 1, stride as int, height + 1);
            }
            acc = acc + row_prefix[row * width + col];
            let idx = (row + 1) * stride + (col + 1);
            let ghost before = integral@;
            integral.set(idx, acc);
            proof {
                assert forall|x: int, y: int| 0 <= x <= width && 0 <= y <= height implies #[trigger] integral@[y * stride
                    + x] == (if x <= col || (x == col + 1 && y <= row + 1) {
                    box_count(mask, width as nat, 0, x, 0, y)
                } else {
                    0
                }) by {
                    lemma_cell_in_plane(y, x, stride as int, height + 1);
                    if y != row + 1 || x != col + 1 {
                        lemma_cells_distinct(y, x, row + 1, col + 1, stride as int);
                        assert(integral@[y * stride + x] == before[y * stride + x]);
                    }
                }
            }
            row += 1;
        }
        col += 1;
    }
    integral
}

/// The integral image of a binary `width` by `height` mask.
pub fn build_integral(mask: &[u8], width: usize, height: usize) -> (integral: Vec<u32>)
    requires
        mask@.len() == width * height,
        binary(mask@),
        width * height <= u32::MAX,
        (width + 1) * (height + 1) <= usize::MAX,
    ensures
        integral_of(integral@, mask@, width as nat, height as nat),
{
    let row_prefix = compute_horizontal_prefix(mask, width, height);
    accumulate_columns(&row_prefix, width, height, Ghost(mask@))
}

/// The number of band pixels in columns `[x0, x1)` and rows `[y0, y1)`,
/// read from the integral image with wrapping arithmetic.
pub(crate) fn rect_sum(integral: &[u32], width: usize, x0: usize, y0: usize, x1: usize, y1: usize, Ghost(mask): Ghost<Seq<u8>>, Ghost(height): Ghost<nat>) -> (total: u32)
    requires
        integral_of(integral@, mask, width as nat, height),
        mask.len() == width * height,
        (width + 1) * (height + 1) <= usize::MAX,
        x0 <= x1 <= width,
        y0 <= y1 <= height,
    ensures
        total == box_count(mask, width as nat, x0 as int, x1 as int, y0 as int, y1 as int),
{
    proof {
        lemma_cell_in_plane(y1 as int, x1 as int, width + 1, (height + 1) as int);
        lemma_cell_in_plane(y0 as int, x0 as int, width + 1, (height + 1) as int);
        lemma_cell_in_plane(y1 as int, x0 as int, width + 1, (height + 1) as int);
        lemma_cell_in_plane(y0 as int, x1 as int, width + 1, (height + 1) as int);
        assert(mask.len() >= y1 * width) by (nonlinear_arith)
            requires
                mask.len() == width * height,
                y1 <= height,
        ;
        lemma_box_from_corners(mask, width as nat, x0 as int, x1 as int, y0 as int, y1 as int);
        assert(mask.len() >= y0 * width) by (nonlinear_arith)
            requires
                mask.len() == width * height,
                y0 <= height,
        ;
        lemma_box_split_columns(mask, width as nat, 0, x0 as int, x1 as int, 0, y0 as int);
        assert(width + 1 <= (width + 1) * (height + 1)) by (nonlinear_arith);
    }
    let stride = width + 1;
    let a = integral[y1 * stride + x1];
    let b = integral[y1 * stride + x0];
    let c = integral[y0 * stride + x1];
    let d = integral[y0 * stride + x0];
    a.wrapping_sub(b).wrapping_sub(c).wrapping_add(d)
}

} // verus!
