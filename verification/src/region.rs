//! Candidate regions: their band-pixel measurements on the integral image,
//! stable ordering, and the merging of boxes that lie on one text line.

use vstd::prelude::*;

use crate::bands::{rect_inside, RectCandidate};
use crate::integral::{box_count, integral_of, rect_sum};
use crate::mask::binary;

verus! {

/// Subdivision factor of the block grid used to measure fill variance.
pub const VMR_K: usize = 4;
/// Largest distance between vertical centres of boxes on one line.
pub const Y_MERGE_TOL: usize = 10;
/// Largest horizontal gap between boxes that are merged.
pub const NEAR_GAP: usize = 16;

pub open spec fn smin(a: int, b: int) -> int {
    if a <= b { a } else { b }
}

pub open spec fn smax(a: int, b: int) -> int {
    if a >= b { a } else { b }
}

/// The band-pixel counts of one row of blocks: columns from `x` up to
/// `x1` in steps of `dx`, rows `[yy, yb)`.
pub open spec fn block_row(mask: Seq<u8>, w: nat, x: int, x1: int, dx: int, yy: int, yb: int) -> Seq<u32>
    decreases smax(x1 - x, 0),
{
    if x >= x1 || dx <= 0 {
        Seq::empty()
    } else {
        seq![box_count(mask, w, x, smin(x + dx, x1), yy, yb) as u32] + block_row(mask, w, x + dx, x1, dx, yy, yb)
    }
}

/// The band-pixel counts of the blocks of a grid, row by row: rows from
/// `y` up to `y1` in steps of `dy`, each split into columns as `block_row`.
pub open spec fn block_grid(mask: Seq<u8>, w: nat, x: int, x1: int, dx: int, y: int, y1: int, dy: int) -> Seq<u32>
    decreases smax(y1 - y, 0),
{
    if y >= y1 || dy <= 0 {
        Seq::empty()
    } else {
        block_row(mask, w, x, x1, dx, y, smin(y + dy, y1)) + block_grid(mask, w, x, x1, dx, y + dy, y1, dy)
    }
}

/// The block step along a side of length `len`: a `k`-th of it, at least 1.
pub open spec fn block_step(len: nat, k: nat) -> int {
    let s = len / k;
    if s >= 1 { s as int } else { 1 }
}

/// The block counts of the rectangle `r` for subdivision factor `k`: none
/// when a side is shorter than `k`.
pub open spec fn region_blocks(mask: Seq<u8>, w: nat, r: RectCandidate, k: nat) -> Seq<u32> {
    if r.width >= k && r.height >= k {
        block_grid(
            mask,
            w,
            r.x as int,
            r.x + r.width,
            block_step(r.width as nat, k),
            r.y as int,
            r.y + r.height,
            block_step(r.height as nat, k),
        )
    } else {
        Seq::empty()
    }
}

/// The integer measurements of a region from which its fill, its
/// variance-to-mean ratio and its score are computed: the band pixels it
/// holds, its area, and the band pixels of every block of its grid.
#[derive(Debug)]
pub struct RegionMeasure {
    pub hits: u32,
    pub area: usize,
    pub blocks: Vec<u32>,
}

/// `m` measures the rectangle `r` of a `w`-wide mask with subdivision
/// factor `k`.
pub open spec fn measures(m: RegionMeasure, mask: Seq<u8>, w: nat, r: RectCandidate, k: nat) -> bool {
    &&& m.hits == box_count(mask, w, r.x as int, r.x + r.width, r.y as int, r.y + r.height)
    &&& m.area == r.width * r.height
    &&& m.blocks@ == region_blocks(mask, w, r, k)
}

/// Measures the rectangle `rect` of a binary `width` by `height` mask from
/// its integral image.
pub fn evaluate_region(
    integral: &[u32],
    width: usize,
    rect: RectCandidate,
    vmr_k: usize,
    Ghost(mask): Ghost<Seq<u8>>,
    Ghost(height): Ghost<nat>,
) -> (m: RegionMeasure)
    requires
        integral_of(integral@, mask, width as nat, height),
        mask.len() == width * height,
        binary(mask),
        width * height <= u32::MAX,
        (width + 1) * (height + 1) <= usize::MAX,
        rect_inside(rect, width as nat, height),
        vmr_k > 0,
    ensures
        measures(m, mask, width as nat, rect, vmr_k as nat),
{
    let x = rect.x;
    let y = rect.y;
    let w = rect.width;
    let h = rect.height;
    proof {
        assert(width + 1 <= (width + 1) * (height + 1)) by (nonlinear_arith);
        assert(height + 1 <= (width + 1) * (height + 1)) by (nonlinear_arith);
    }
    let x1 = x + w;
    let y1 = y + h;
    proof {
        assert(w * h <= width * height) by (nonlinear_arith)
            requires
                x + w <= width,
                y + h <= height,
        ;
    }
    let hits = rect_sum(integral, width, x, y, x1, y1, Ghost(mask), Ghost(height));
    let area = w * h;
    let mut blocks: Vec<u32> = Vec::new();
    if w >= vmr_k && h >= vmr_k {
        let dx = if w / vmr_k > 1 { w / vmr_k } else { 1 };
        let dy = if h / vmr_k > 1 { h / vmr_k } else { 1 };
        proof {
            assert(2 * (width + 1) <= (width + 1) * (height + 1)) by (nonlinear_arith)
                requires
                    height >= 1,
            ;
            assert(2 * (height + 1) <= (width + 1) * (height + 1)) by (nonlinear_arith)
                requires
                    width >= 1,
            ;
            assert(dx <= w) by (nonlinear_arith)
                requires
                    dx == (if w / vmr_k > 1 { w / vmr_k } else { 1 }),
                    w >= vmr_k,
                    vmr_k > 0,
            ;
            assert(dy <= h) by (nonlinear_arith)
                requires
                    dy == (if h / vmr_k > 1 { h / vmr_k } else { 1 }),
                    h >= vmr_k,
                    vmr_k > 0,
            ;
        }
        let ghost whole = block_grid(mask, width as nat, x as int, x1 as int, dx as int, y as int, y1 as int, dy as int);
        let mut yy = y;
        while yy < y1
            invariant
                integral_of(integral@, mask, width as nat, height),
                mask.len() == width * height,
                binary(mask),
                width * height <= u32::MAX,
                (width + 1) * (height + 1) <= usize::MAX,
                x1 <= width,
                y1 <= height,
                width < usize::MAX - width,
                height < usize::MAX - height,
                x <= x1,
                0 < dx <= x1 - x,
                0 < dy <= y1 - y,
                y <= yy,
                yy <= y1 + dy,
                whole == block_grid(mask, width as nat, x as int, x1 as int, dx as int, y as int, y1 as int, dy as int),
                blocks@ + block_grid(mask, width as nat, x as int, x1 as int, dx as int, yy as int, y1 as int, dy as int) == whole,
            decreases y1 + dy - yy,
        {
            let yb = if yy + dy < y1 { yy + dy } else { y1 };
            let ghost row_whole = block_row(mask, width as nat, x as int, x1 as int, dx as int, yy as int, yb as int);
            let ghost before = blocks@;
            let mut xx = x;
            while xx < x1
                invariant
                    integral_of(integral@, mask, width as nat, height),
                    mask.len() == width * height,
                    binary(mask),
                    width * height <= u32::MAX,
                    (width + 1) * (height + 1) <= usize::MAX,
                    x1 <= width,
                    width < usize::MAX - width,
                    yy < yb <= y1 <= height,
                    0 < dx <= x1 - x,
                    x <= xx,
                    xx <= x1 + dx,
                    row_whole == block_row(mask, width as nat, x as int, x1 as int, dx as int, yy as int, yb as int),
                    blocks@ + block_row(mask, width as nat, xx as int, x1 as int, dx as int, yy as int, yb as int) == before
                        + row_whole,
                decreases x1 + dx - xx,
            {
                let xb = if xx + dx < x1 { xx + dx } else { x1 };
                let value = rect_sum(integral, width, xx, yy, xb, yb, Ghost(mask), Ghost(height));
                let ghost prev = blocks@;
                blocks.push(value);
                proof {
                    let rest = block_row(mask, width as nat, xx + dx, x1 as int, dx as int, yy as int, yb as int);
                    assert(block_row(mask, width as nat, xx as int, x1 as int, dx as int, yy as int, yb as int) == seq![
                        value,
                    ] + rest);
                    assert(blocks@ + rest == prev + (seq![value] + rest));
                }
                xx = xx + dx;
            }
            proof {
                assert(block_row(mask, width as nat, xx as int, x1 as int, dx as int, yy as int, yb as int) == Seq::<
                    u32,
                >::empty());
                assert(blocks@ == before + row_whole);
                let rest = block_grid(mask, width as nat, x as int, x1 as int, dx as int, yy + dy, y1 as int, dy as int);
                assert(block_grid(mask, width as nat, x as int, x1 as int, dx as int, yy as int, y1 as int, dy as int)
                    == row_whole + rest);
                assert(blocks@ + rest == before + (row_whole + rest));
            }
            yy = yy + dy;
        }
    }
    RegionMeasure { hits, area, blocks }
}

} // verus!
