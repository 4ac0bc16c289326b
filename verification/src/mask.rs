//! Binary masks of the pixels whose luma lies in the subtitle band.

use vstd::prelude::*;

use crate::grid::{at, lemma_cell_in_plane, lemma_roi_index_in_bounds, roi_index, roi_readable, RoiRect};

verus! {

/// Whether a luma value lies in the inclusive band `[lo, hi]`.
pub open spec fn in_luma_band(v: u8, lo: u8, hi: u8) -> bool {
    lo <= v && v <= hi
}

/// The mask value of one pixel: 1 inside the band, 0 outside.
pub open spec fn band_bit(v: u8, lo: u8, hi: u8) -> u8 {
    if in_luma_band(v, lo, hi) {
        1
    } else {
        0
    }
}

/// Writes the band mask of `src` into `dst`, pixel by pixel, over the
/// common length of the two slices.
pub fn threshold_row(src: &[u8], dst: &mut [u8], lo: u8, hi: u8)
    ensures
        final(dst)@.len() == old(dst)@.len(),
        forall|i: int|
            0 <= i < old(dst)@.len() ==> #[trigger] final(dst)@[i] == if i < src@.len() {
                band_bit(src@[i], lo, hi)
            } else {
                old(dst)@[i]
            },
{
    let n = if src.len() < dst.len() {
        src.len()
    } else {
        dst.len()
    };
    let mut i: usize = 0;
    while i < n
        invariant
            n <= src@.len(),
            n <= old(dst)@.len(),
            n == src@.len() || n == old(dst)@.len(),
            i <= n,
            dst@.len() == old(dst)@.len(),
            forall|j: int|
                0 <= j < dst@.len() ==> #[trigger] dst@[j] == if j < i {
                    band_bit(src@[j], lo, hi)
                } else {
                    old(dst)@[j]
                },
        decreases n - i,
    {
        let v = src[i];
        dst[i] = if v >= lo && v <= hi {
            1
        } else {
            0
        };
        i += 1;
    }
}

/// The luma band `[target - delta, target + delta]`, each end saturating.
pub open spec fn band_limits(target: u8, delta: u8) -> (u8, u8) {
    (
        if target >= delta { (target - delta) as u8 } else { 0u8 },
        if target + delta <= 255 { (target + delta) as u8 } else { 255u8 },
    )
}

/// Computes the saturating band limits around `target`.
pub fn band_for(target: u8, delta: u8) -> (r: (u8, u8))
    ensures
        r == band_limits(target, delta),
{
    (target.saturating_sub(delta), target.saturating_add(delta))
}

/// The band mask of the rectangle `roi` of a plane with row stride `stride`,
/// row-major with the rectangle's width.
pub fn threshold_mask_rect(data: &[u8], stride: usize, roi: RoiRect, lo: u8, hi: u8) -> (mask: Vec<u8>)
    requires
        roi_readable(data@.len(), stride as nat, roi),
        roi.width * roi.height <= usize::MAX,
        roi.y + roi.height <= usize::MAX,
    ensures
        mask@.len() == roi.width * roi.height,
        forall|r: int, c: int|
            0 <= r < roi.height && 0 <= c < roi.width ==> #[trigger] at(mask@, roi.width as nat, r, c)
                == band_bit(data@[roi_index(stride as nat, roi, r, c)], lo, hi),
{
    let mut mask: Vec<u8> = Vec::new();
    let mut row: usize = 0;
    while row < roi.height
        invariant
            roi_readable(data@.len(), stride as nat, roi),
            roi.width * roi.height <= usize::MAX,
            roi.y + roi.height <= usize::MAX,
            row <= roi.height,
            mask@.len() == row * roi.width,
            forall|r: int, c: int|
                0 <= r < row && 0 <= c < roi.width ==> #[trigger] at(mask@, roi.width as nat, r, c)
                    == band_bit(data@[roi_index(stride as nat, roi, r, c)], lo, hi),
        decreases roi.height - row,
    {
        proof {
            assert(data@.len() == data.len());
            if roi.width > 0 {
                lemma_roi_index_in_bounds(data@.len(), stride as nat, roi, row as int, 0);
            }
            lemma_cell_in_plane(row as int, 0, roi.width as int + 1, roi.height as int);
            assert((row + 1) * roi.width <= roi.height * roi.width) by (nonlinear_arith)
                requires row < roi.height;
            assert((row + 1) * roi.width == row * roi.width + roi.width) by (nonlinear_arith);
            assert(roi.height * roi.width == roi.width * roi.height) by (nonlinear_arith);
        }
        let ghost before = mask@;
        let mut c: usize = 0;
        if roi.width > 0 {
            let src_offset = (roi.y + row) * stride + roi.x;
            while c < roi.width
                invariant
                    roi_readable(data@.len(), stride as nat, roi),
                    row < roi.height,
                    roi.width > 0,
                    src_offset == (roi.y + row) * stride + roi.x,
                    src_offset + roi.width <= data.len(),
                    c <= roi.width,
                    mask@.len() == row * roi.width + c,
                    mask@.subrange(0, row * roi.width) == before,
                    forall|k: int| 0 <= k < c ==> #[trigger] mask@[row * roi.width + k]
                        == band_bit(data@[src_offset + k], lo, hi),
                decreases roi.width - c,
            {
                let v = data[src_offset + c];
                mask.push(if v >= lo && v <= hi { 1 } else { 0 });
                c += 1;
            }
            proof {
                assert forall|r: int, cc: int|
                    0 <= r < row + 1 && 0 <= cc < roi.width implies #[trigger] at(mask@, roi.width as nat, r, cc)
                        == band_bit(data@[roi_index(stride as nat, roi, r, cc)], lo, hi) by {
                    lemma_cell_in_plane(r, cc, roi.width as int, row as int + 1);
                    if r < row {
                        lemma_cell_in_plane(r, cc, roi.width as int, row as int);
                        assert(mask@.subrange(0, row * roi.width)[r * roi.width + cc] == mask@[r * roi.width + cc]);
                        assert(mask@[r * roi.width + cc] == before[r * roi.width + cc]);
                        assert(at(before, roi.width as nat, r, cc) == band_bit(data@[roi_index(stride as nat, roi, r, cc)], lo, hi));
                    } else {
                        assert(mask@[row * roi.width + cc] == band_bit(data@[(roi.y + row) * stride + roi.x + cc], lo, hi));
                    }
                }
            }
        }
        row += 1;
    }
    proof {
        assert(roi.height * roi.width == roi.width * roi.height) by (nonlinear_arith);
    }
    mask
}

/// The sum of the values of a mask.
pub open spec fn population(s: Seq<u8>) -> nat
    decreases s.len(),
{
    if s.len() == 0 {
        0
    } else {
        population(s.drop_last()) + s.last() as nat
    }
}

/// The population of a sequence is at most 255 per element.
pub proof fn lemma_population_bound(s: Seq<u8>)
    ensures
        population(s) <= 255 * s.len(),
    decreases s.len(),
{
    if s.len() > 0 {
        lemma_population_bound(s.drop_last());
    }
}

/// Every value of the mask is 0 or 1.
pub open spec fn binary(s: Seq<u8>) -> bool {
    forall|i: int| 0 <= i < s.len() ==> #[trigger] s[i] <= 1
}

/// A binary sequence has at most one band pixel per element.
pub proof fn lemma_population_binary(s: Seq<u8>)
    requires
        binary(s),
    ensures
        population(s) <= s.len(),
    decreases s.len(),
{
    if s.len() > 0 {
        assert(binary(s.drop_last()));
        lemma_population_binary(s.drop_last());
        assert(s[s.len() - 1] <= 1);
    }
}

/// Adds up the values of a mask.
pub fn mask_population(mask: &[u8]) -> (total: usize)
    requires
        mask@.len() * 255 <= usize::MAX || binary(mask@),
    ensures
        total == population(mask@),
{
    let mut total: usize = 0;
    let mut i: usize = 0;
    while i < mask.len()
        invariant
            mask@.len() * 255 <= usize::MAX || binary(mask@),
            i <= mask@.len(),
            total == population(mask@.subrange(0, i as int)),
        decreases mask@.len() - i,
    {
        proof {
            let s = mask@.subrange(0, i as int + 1);
            assert(s.drop_last() == mask@.subrange(0, i as int));
            if binary(mask@) {
                assert(binary(s)) by {
                    assert forall|k: int| 0 <= k < s.len() implies #[trigger] s[k] <= 1 by {
                        assert(s[k] == mask@[k]);
                    }
                }
                lemma_population_binary(s);
            } else {
                lemma_population_bound(s);
            }
        }
        total += mask[i] as usize;
        i += 1;
    }
    proof {
        assert(mask@.subrange(0, mask@.len() as int) == mask@);
    }
    total
}

/// The population floor of a sparse frame.
pub const MIN_MASK_POPULATION: usize = 128;

/// The smallest number of band pixels that keeps a sparse frame alive:
/// 4 per 10 000 pixels of the area (rounded up), and never fewer than 128.
pub open spec fn min_population_spec(roi_area: nat) -> nat {
    let scaled = (roi_area * 4 + 9999) / 10000;
    if scaled > MIN_MASK_POPULATION {
        scaled
    } else {
        MIN_MASK_POPULATION as nat
    }
}

/// Computes the population floor of `min_population_spec`.
pub fn min_mask_population(roi_area: usize) -> (r: usize)
    ensures
        r == min_population_spec(roi_area as nat),
{
    let scaled = ((roi_area as u128 * 4 + 9999) / 10000) as usize;
    if scaled > MIN_MASK_POPULATION {
        scaled
    } else {
        MIN_MASK_POPULATION
    }
}

/// A frame is skipped when its band density is below 15 per 10 000 pixels
/// of the area (taken as at least 1) and its population is below the floor.
pub open spec fn sparse_skip_spec(population: nat, roi_area: nat) -> bool {
    let area = if roi_area > 0 { roi_area } else { 1 };
    population * 10000 < 15 * area && population < min_population_spec(area)
}

/// Decides whether a frame with `mask_population` band pixels in an area of
/// `roi_area` pixels is too sparse to hold a subtitle.
pub fn sparse_mask_should_skip(mask_population: usize, roi_area: usize) -> (skip: bool)
    ensures
        skip == sparse_skip_spec(mask_population as nat, roi_area as nat),
{
    let area = if roi_area > 0 { roi_area } else { 1 };
    let sparse = (mask_population as u128) * 10000 < 15 * (area as u128);
    let min_population = min_mask_population(area);
    sparse && mask_population < min_population
}

/// The population floor never drops below `MIN_MASK_POPULATION`, and a
/// frame with at least the floor's population in band pixels is never
/// skipped.
pub proof fn lemma_population_floor(population: nat, roi_area: nat)
    ensures
        min_population_spec(roi_area) >= MIN_MASK_POPULATION,
        population >= min_population_spec(if roi_area > 0 { roi_area } else { 1 }) ==> !sparse_skip_spec(
            population,
            roi_area,
        ),
{
}

/// A band mask holds only 0 and 1.
pub proof fn lemma_band_bit_binary(v: u8, lo: u8, hi: u8)
    ensures
        band_bit(v, lo, hi) <= 1,
        band_bit(v, lo, hi) == 1 <==> lo <= v <= hi,
{
}

} // verus!
