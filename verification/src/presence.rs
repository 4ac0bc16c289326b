//! The exact integer stages of the subtitle presence test on the bottom
//! band of a luma plane: band extraction and copying, clamped sampling,
//! Sobel responses, histogram ranks, binarisation, horizontal opening, long
//! runs and the area of letter-sized components. The weighted score built
//! from them is computed in floating point by the caller.

use vstd::prelude::*;

use crate::components::{connected_components, overlap_components, ComponentStats};

verus! {

/// Why the presence detector cannot run on a plane.
#[derive(Clone, Copy, Debug, PartialEq, Eq, Structural)]
pub enum DetectionError {
    InsufficientData { expected: usize, actual: usize },
    DimensionOverflow,
}

/// A borrowed `width` by `height` window whose rows start `stride` bytes
/// apart in `data`.
pub struct ImageView<'a> {
    pub data: &'a [u8],
    pub width: usize,
    pub height: usize,
    pub stride: usize,
}

/// A contiguous `width` by `height` image.
pub struct OwnedImage {
    pub data: Vec<u8>,
    pub width: usize,
    pub height: usize,
}

/// Every row of the view can be read.
pub open spec fn view_readable(data: Seq<u8>, width: nat, height: nat, stride: nat) -> bool {
    height == 0 || width == 0 || (height - 1) * stride + width <= data.len()
}

/// The first `rows` rows of a view, one after another.
pub open spec fn copied_rows(data: Seq<u8>, width: nat, stride: nat, rows: nat) -> Seq<u8>
    decreases rows,
{
    if rows == 0 {
        Seq::empty()
    } else {
        let r = (rows - 1) as nat;
        copied_rows(data, width, stride, r) + data.subrange((r * stride) as int, (r * stride + width) as int)
    }
}

/// The row-major pixels of a `width` by `height` image, row `y` of the view
/// being row `y` of the image.
pub proof fn lemma_copied_rows(data: Seq<u8>, width: nat, stride: nat, rows: nat)
    requires
        rows == 0 || (rows - 1) * stride + width <= data.len(),
    ensures
        copied_rows(data, width, stride, rows).len() == rows * width,
        forall|y: nat, x: nat| y < rows && x < width ==> #[trigger] copied_rows(data, width, stride, rows)[(y * width + x) as int] == data[(y * stride + x) as int],
    decreases rows,
{
    if rows > 0 {
        let r = (rows - 1) as nat;
        if r > 0 {
            assert((r - 1) * stride <= r * stride) by (nonlinear_arith)
                requires
                    r > 0,
            ;
        }
        lemma_copied_rows(data, width, stride, r);
        let prev = copied_rows(data, width, stride, r);
        assert(rows * width == r * width + width) by (nonlinear_arith)
            requires
                rows == r + 1,
        ;
        assert forall|y: nat, x: nat| y < rows && x < width implies #[trigger] copied_rows(data, width, stride, rows)[(y * width + x) as int] == data[(y * stride + x) as int] by {
            if y < r {
                assert(y * width + x < r * width) by (nonlinear_arith)
                    requires
                        y < r,
                        x < width,
                ;
            } else {
                assert(y == r);
                assert(y * width + x - r * width == x);
            }
        }
    }
}

/// `idx` clamped to `0..max_value` (0 when that range is empty).
pub open spec fn clamp_index_spec(idx: int, max_value: nat) -> nat {
    if max_value == 0 {
        0
    } else if idx <= 0 {
        0
    } else if idx >= max_value {
        (max_value - 1) as nat
    } else {
        idx as nat
    }
}

/// Clamps a signed index into `0..max_value`.
pub fn clamp_index(idx: isize, max_value: usize) -> (r: usize)
    ensures
        r == clamp_index_spec(idx as int, max_value as nat),
{
    if max_value == 0 {
        return 0;
    }
    if idx <= 0 {
        0
    } else if (idx as usize) >= max_value {
        max_value - 1
    } else {
        idx as usize
    }
}

/// The bottom `roi_height` rows of a `width` by `height` plane: the band
/// where subtitles are looked for.
pub fn extract_roi<'a>(data: &'a [u8], width: usize, height: usize, stride: usize, roi_height: usize) -> (roi: ImageView<'a>)
    requires
        roi_height <= height,
        height * stride <= data@.len(),
    ensures
        roi.data@ == data@.subrange(((height - roi_height) * stride) as int, (height * stride) as int),
        roi.width == width,
        roi.height == roi_height,
        roi.stride == stride,
{
    let _len = data.len();
    let start_row = height - roi_height;
    proof {
        assert(start_row * stride <= height * stride) by (nonlinear_arith)
            requires
                start_row <= height,
        ;
        assert(start_row * stride + roi_height * stride == height * stride) by (nonlinear_arith)
            requires
                start_row + roi_height == height,
        ;
    }
    let start = start_row * stride;
    let end = start + roi_height * stride;
    ImageView { data: &data[start..end], width, height: roi_height, stride }
}

/// The first row of the middle band of `band_height` rows.
pub open spec fn mid_band_start(height: nat, band_height: nat) -> nat {
    (if height >= band_height { (height - band_height) as nat } else { 0 }) / 2
}

/// The band of `band_height` rows centred vertically in a `width` by
/// `height` plane (cut at the bottom), the reference against which the
/// subtitle area is compared.
pub fn extract_mid_band<'a>(data: &'a [u8], width: usize, height: usize, stride: usize, band_height: usize) -> (band: ImageView<'a>)
    requires
        height * stride <= data@.len(),
        height + band_height <= usize::MAX,
    ensures
        ({
            let start = mid_band_start(height as nat, band_height as nat);
            let end_row: nat = if height <= start + band_height { height as nat } else { (start + band_height) as nat };
            &&& band.data@ == data@.subrange(start * stride, end_row * stride)
            &&& band.width == width
            &&& band.height == (if band_height <= height { band_height } else { height })
            &&& band.stride == stride
        }),
{
    let _len = data.len();
    let start_row = height.saturating_sub(band_height) / 2;
    let end_row = if height <= start_row + band_height { height } else { start_row + band_height };
    proof {
        assert(start_row * stride <= end_row * stride) by (nonlinear_arith)
            requires
                start_row <= end_row,
        ;
        assert(end_row * stride <= height * stride) by (nonlinear_arith)
            requires
                end_row <= height,
        ;
    }
    let start = start_row * stride;
    let end = end_row * stride;
    ImageView {
        data: &data[start..end],
        width,
        height: if band_height <= height { band_height } else { height },
        stride,
    }
}

/// A contiguous copy of a view when it needs no downsampling to
/// `target_width` columns (or is empty); `None` when it must be resampled
/// to fewer columns, which interpolates in floating point.
pub fn resize_roi(view: &ImageView, target_width: usize) -> (r: Option<OwnedImage>)
    requires
        view_readable(view.data@, view.width as nat, view.height as nat, view.stride as nat),
        view.width * view.height <= usize::MAX,
    ensures
        (view.width == 0 || view.height == 0) ==> (r matches Some(img) && img.data@.len() == 0
            && img.width == view.width && img.height == view.height),
        (view.width > 0 && view.height > 0 && target_width >= view.width) ==> (r matches Some(img)
            && img.data@ == copied_rows(view.data@, view.width as nat, view.stride as nat, view.height as nat)
            && img.width == view.width && img.height == view.height),
        (view.width > 0 && view.height > 0 && target_width < view.width) ==> r is None,
{
    let src_w = view.width;
    let src_h = view.height;
    if src_w == 0 || src_h == 0 {
        return Some(OwnedImage { data: Vec::new(), width: src_w, height: src_h });
    }
    if target_width < src_w {
        return None;
    }
    let len = view.data.len();
    let mut data: Vec<u8> = Vec::new();
    let mut row: usize = 0;
    while row < src_h
        invariant
            0 <= row <= src_h,
            src_w == view.width,
            src_h == view.height,
            src_w > 0,
            len == view.data@.len(),
            view_readable(view.data@, view.width as nat, view.height as nat, view.stride as nat),
            data@ == copied_rows(view.data@, src_w as nat, view.stride as nat, row as nat),
        decreases src_h - row,
    {
        proof {
            assert(row * view.stride <= (src_h - 1) * view.stride) by (nonlinear_arith)
                requires
                    row < src_h,
            ;
        }
        let start = row * view.stride;
        let end = start + src_w;
        let ghost before = data@;
        data.extend_from_slice(&view.data[start..end]);
        proof {
            assert(data@ =~= before + view.data@.subrange(start as int, end as int));
        }
        row = row + 1;
    }
    Some(OwnedImage { data, width: src_w, height: src_h })
}

/// The pixel at column `x`, row `y` of a view.
pub fn sample(view: &ImageView, x: usize, y: usize) -> (v: u8)
    requires
        y * view.stride + x < view.data@.len(),
    ensures
        v == view.data@[y * view.stride + x],
{
    let _len = view.data.len();
    view.data[y * view.stride + x]
}

/// The Sobel kernel weight at row `ky`, column `kx` (the horizontal
/// gradient kernel, or the vertical one).
pub open spec fn kernel_weight(horizontal: bool, ky: int, kx: int) -> int {
    if horizontal {
        (kx - 1) * (if ky == 1 { 2int } else { 1int })
    } else {
        (1 - ky) * (if kx == 1 { 2int } else { 1int })
    }
}

/// The pixel under kernel cell (`ky`, `kx`) centred on (`x`, `y`), with
/// coordinates clamped to the image.
pub open spec fn kernel_pixel(data: Seq<u8>, width: nat, height: nat, x: int, y: int, ky: int, kx: int) -> int {
    data[(clamp_index_spec(y + ky - 1, height) * width + clamp_index_spec(x + kx - 1, width)) as int] as int
}

/// The first `kx` terms of kernel row `ky`.
pub open spec fn kernel_row(data: Seq<u8>, width: nat, height: nat, x: int, y: int, horizontal: bool, ky: int, kx: int) -> int
    decreases kx,
{
    if kx <= 0 {
        0
    } else {
        kernel_row(data, width, height, x, y, horizontal, ky, kx - 1)
            + kernel_weight(horizontal, ky, kx - 1) * kernel_pixel(data, width, height, x, y, ky, kx - 1)
    }
}

/// The Sobel response at (`x`, `y`): the three kernel rows summed.
pub open spec fn sobel_spec(data: Seq<u8>, width: nat, height: nat, x: int, y: int, horizontal: bool) -> int {
    kernel_row(data, width, height, x, y, horizontal, 0, 3) + kernel_row(data, width, height, x, y, horizontal, 1, 3)
        + kernel_row(data, width, height, x, y, horizontal, 2, 3)
}

fn kernel_weight_exec(horizontal: bool, ky: usize, kx: usize) -> (w: i32)
    requires
        ky < 3,
        kx < 3,
    ensures
        w == kernel_weight(horizontal, ky as int, kx as int),
        -2 <= w <= 2,
{
    if horizontal {
        (kx as i32 - 1) * (if ky == 1 { 2 } else { 1 })
    } else {
        (1 - ky as i32) * (if kx == 1 { 2 } else { 1 })
    }
}

proof fn lemma_pixel_index(width: nat, height: nat, sx: nat, sy: nat)
    requires
        sx < width,
        sy < height,
    ensures
        sy * width + sx < width * height,
{
    assert(sy * width + sx < width * height) by (nonlinear_arith)
        requires
            sx < width,
            sy < height,
    ;
}

/// The response of a Sobel kernel at (`x`, `y`) of a `width` by `height`
/// image, borders repeated.
pub fn sobel_at(data: &[u8], width: usize, height: usize, x: usize, y: usize, horizontal: bool) -> (value: i32)
    requires
        x < width,
        y < height,
        width * height <= data@.len(),
        width < i32::MAX,
        height < i32::MAX,
    ensures
        value == sobel_spec(data@, width as nat, height as nat, x as int, y as int, horizontal),
        -4590 <= value <= 4590,
{
    let len = data.len();
    let mut value: i32 = 0;
    let mut ky: usize = 0;
    while ky < 3
        invariant
            ky <= 3,
            x < width,
            y < height,
            width * height <= data@.len(),
            width < i32::MAX,
            height < i32::MAX,
            value == (if ky >= 1 { kernel_row(data@, width as nat, height as nat, x as int, y as int, horizontal, 0, 3) } else { 0 })
                + (if ky >= 2 { kernel_row(data@, width as nat, height as nat, x as int, y as int, horizontal, 1, 3) } else { 0 })
                + (if ky >= 3 { kernel_row(data@, width as nat, height as nat, x as int, y as int, horizontal, 2, 3) } else { 0 }),
            -1530 * ky <= value <= 1530 * ky,
            len == data@.len(),
        decreases 3 - ky,
    {
        let sy = clamp_index(y as isize + ky as isize - 1, height);
        let mut row: i32 = 0;
        let mut kx: usize = 0;
        while kx < 3
            invariant
                ky < 3,
                kx <= 3,
                x < width,
                y < height,
                sy < height,
                sy == clamp_index_spec(y + ky - 1, height as nat),
                width * height <= data@.len(),
                width < i32::MAX,
                row == kernel_row(data@, width as nat, height as nat, x as int, y as int, horizontal, ky as int, kx as int),
                -510 * kx <= row <= 510 * kx,
                len == data@.len(),
            decreases 3 - kx,
        {
            let sx = clamp_index(x as isize + kx as isize - 1, width);
            proof {
                lemma_pixel_index(width as nat, height as nat, sx as nat, sy as nat);
            }
            let weight = kernel_weight_exec(horizontal, ky, kx);
            let px = data[sy * width + sx] as i32;
            proof {
                assert(-510 <= weight * px <= 510) by (nonlinear_arith)
                    requires
                        -2 <= weight <= 2,
                        0 <= px <= 255,
                ;
            }
            row = row + weight * px;
            kx = kx + 1;
        }
        value = value + row;
        ky = ky + 1;
    }
    value
}

/// The gradient magnitude `|gx| + |gy|` at (`x`, `y`).
pub open spec fn magnitude_spec(data: Seq<u8>, width: nat, height: nat, x: int, y: int) -> int {
    let gx = sobel_spec(data, width, height, x, y, true);
    let gy = sobel_spec(data, width, height, x, y, false);
    (if gx >= 0 { gx } else { -gx }) + (if gy >= 0 { gy } else { -gy })
}

/// The gradient magnitude of every pixel of an image, row-major: pixel `i`
/// is column `i % width` of row `i / width`.
pub fn sobel_magnitudes(image: &OwnedImage) -> (mags: Vec<u32>)
    requires
        image.data@.len() == image.width * image.height,
        image.width < i32::MAX,
        image.height < i32::MAX,
    ensures
        mags@.len() == image.width * image.height,
        forall|i: int| 0 <= i < mags@.len() ==> #[trigger] mags@[i] == magnitude_spec(
            image.data@,
            image.width as nat,
            image.height as nat,
            i % (image.width as int),
            i / (image.width as int),
        ),
{
    let width = image.width;
    let height = image.height;
    let mut mags: Vec<u32> = Vec::new();
    let mut y: usize = 0;
    while y < height
        invariant
            y <= height,
            width == image.width,
            height == image.height,
            image.data@.len() == width * height,
            width < i32::MAX,
            height < i32::MAX,
            mags@.len() == y * width,
            forall|i: int| 0 <= i < mags@.len() ==> #[trigger] mags@[i] == magnitude_spec(
                image.data@,
                width as nat,
                height as nat,
                i % (width as int),
                i / (width as int),
            ),
        decreases height - y,
    {
        let mut x: usize = 0;
        while x < width
            invariant
                y < height,
                x <= width,
                width == image.width,
                height == image.height,
                image.data@.len() == width * height,
                width < i32::MAX,
                height < i32::MAX,
                mags@.len() == y * width + x,
                forall|i: int| 0 <= i < mags@.len() ==> #[trigger] mags@[i] == magnitude_spec(
                    image.data@,
                    width as nat,
                    height as nat,
                    i % (width as int),
                    i / (width as int),
                ),
            decreases width - x,
        {
            let gx = sobel_at(&image.data, width, height, x, y, true);
            let gy = sobel_at(&image.data, width, height, x, y, false);
            let ax: u32 = if gx >= 0 { gx as u32 } else { (-gx) as u32 };
            let ay: u32 = if gy >= 0 { gy as u32 } else { (-gy) as u32 };
            proof {
                vstd::arithmetic::div_mod::lemma_fundamental_div_mod_converse(
                    (y * width + x) as int,
                    width as int,
                    y as int,
                    x as int,
                );
            }
            mags.push(ax + ay);
            x = x + 1;
        }
        proof {
            assert((y + 1) * width == y * width + width) by (nonlinear_arith);
        }
        y = y + 1;
    }
    proof {
        assert(height * width == width * height) by (nonlinear_arith);
    }
    mags
}

/// Pixels at or above `threshold` become 1, the others 0.
pub fn threshold_binary(image: &OwnedImage, threshold: u8) -> (mask: Vec<u8>)
    ensures
        mask@.len() == image.data@.len(),
        forall|i: int| 0 <= i < mask@.len() ==> #[trigger] mask@[i] == (if image.data@[i] >= threshold { 1u8 } else { 0u8 }),
{
    let mut mask: Vec<u8> = Vec::new();
    let mut i: usize = 0;
    while i < image.data.len()
        invariant
            i <= image.data@.len(),
            mask@.len() == i,
            forall|k: int| 0 <= k < i ==> #[trigger] mask@[k] == (if image.data@[k] >= threshold { 1u8 } else { 0u8 }),
        decreases image.data@.len() - i,
    {
        mask.push(if image.data[i] >= threshold { 1 } else { 0 });
        i = i + 1;
    }
    mask
}

/// How many entries of `s` equal `v`.
pub open spec fn count_eq(s: Seq<u8>, v: int) -> nat
    decreases s.len(),
{
    if s.len() == 0 {
        0
    } else {
        count_eq(s.drop_last(), v) + (if s.last() == v { 1nat } else { 0nat })
    }
}

/// How many entries of `s` are at most `v`.
pub open spec fn count_le(s: Seq<u8>, v: int) -> nat
    decreases s.len(),
{
    if s.len() == 0 {
        0
    } else {
        count_le(s.drop_last(), v) + (if s.last() <= v { 1nat } else { 0nat })
    }
}

proof fn lemma_count_le_step(s: Seq<u8>, v: int)
    ensures
        count_le(s, v) == count_le(s, v - 1) + count_eq(s, v),
        count_le(s, -1) == 0,
        count_le(s, 255) == s.len(),
    decreases s.len(),
{
    if s.len() > 0 {
        lemma_count_le_step(s.drop_last(), v);
    }
}

/// The smallest pixel value from `v` on whose cumulative count reaches
/// `rank`, or 255 when none does.
pub open spec fn rank_value_from(s: Seq<u8>, rank: nat, v: int) -> u8
    decreases 256 - v,
{
    if v >= 255 {
        255
    } else if count_le(s, v) >= rank {
        v as u8
    } else {
        rank_value_from(s, rank, v + 1)
    }
}

/// The pixel value at cumulative rank `rank` of `data`: the smallest value
/// `v` with at least `rank` pixels at most `v` (0 for no pixels, 255 when
/// the rank exceeds the pixel count). The caller derives the rank of a
/// percentile from the pixel count.
pub fn percentile(data: &[u8], rank: usize) -> (v: u8)
    ensures
        data@.len() == 0 ==> v == 0,
        data@.len() > 0 ==> v == rank_value_from(data@, rank as nat, 0),
{
    if data.len() == 0 {
        return 0;
    }
    let mut histogram: Vec<usize> = Vec::new();
    let mut b: usize = 0;
    while b < 256
        invariant
            b <= 256,
            histogram@.len() == b,
            forall|k: int| 0 <= k < b ==> #[trigger] histogram@[k] == 0,
        decreases 256 - b,
    {
        histogram.push(0);
        b = b + 1;
    }
    let mut i: usize = 0;
    while i < data.len()
        invariant
            i <= data@.len(),
            histogram@.len() == 256,
            forall|k: int| 0 <= k < 256 ==> #[trigger] histogram@[k] == count_eq(data@.take(i as int), k),
        decreases data@.len() - i,
    {
        let value = data[i] as usize;
        proof {
            assert(data@.take(i + 1).drop_last() =~= data@.take(i as int));
            lemma_count_eq_bound(data@.take(i as int), value as int);
        }
        let c = histogram[value];
        histogram.set(value, c + 1);
        i = i + 1;
    }
    proof {
        assert(data@.take(data@.len() as int) =~= data@);
    }
    let n = data.len();
    proof {
        lemma_count_le_step(data@, 0);
    }
    let mut cumulative: usize = 0;
    let mut v: usize = 0;
    while v < 256
        invariant
            v <= 256,
            n == data@.len(),
            data@.len() > 0,
            histogram@.len() == 256,
            forall|k: int| 0 <= k < 256 ==> #[trigger] histogram@[k] == count_eq(data@, k),
            cumulative == count_le(data@, v - 1),
            forall|u: int| 0 <= u < v ==> count_le(data@, u) < rank,
            rank_value_from(data@, rank as nat, 0) == rank_value_from(data@, rank as nat, v as int),
        decreases 256 - v,
    {
        proof {
            lemma_count_le_step(data@, v as int);
            lemma_count_le_step(data@, 255);
            if v > 0 {
                lemma_count_le_monotone(data@, v as int, 255);
            } else {
                lemma_count_le_monotone(data@, 0, 255);
            }
        }
        cumulative = cumulative + histogram[v];
        if cumulative >= rank {
            if v < 255 {
                return v as u8;
            } else {
                return 255;
            }
        }
        v = v + 1;
    }
    255
}

proof fn lemma_count_eq_bound(s: Seq<u8>, v: int)
    ensures
        count_eq(s, v) <= s.len(),
    decreases s.len(),
{
    if s.len() > 0 {
        lemma_count_eq_bound(s.drop_last(), v);
    }
}

proof fn lemma_count_le_monotone(s: Seq<u8>, a: int, b: int)
    requires
        a <= b,
    ensures
        count_le(s, a) <= count_le(s, b),
    decreases s.len(),
{
    if s.len() > 0 {
        lemma_count_le_monotone(s.drop_last(), a, b);
    }
}

/// A mask entry counts as set when its lowest bit is.
pub open spec fn bit_set(v: u8) -> bool {
    v & 1u8 == 1u8
}

/// The 1x3 erosion at column `x` of the row starting at `base`: the pixel
/// and its neighbours within the row are all set.
pub open spec fn eroded(m: Seq<u8>, width: nat, base: int, x: int) -> bool {
    &&& bit_set(m[base + x])
    &&& (x > 0 ==> bit_set(m[base + x - 1]))
    &&& (x + 1 < width ==> bit_set(m[base + x + 1]))
}

/// The 1x3 opening at column `x` of the row starting at `base`: the
/// erosion is set at the pixel or at a neighbour within the row.
pub open spec fn opened(m: Seq<u8>, width: nat, base: int, x: int) -> bool {
    ||| eroded(m, width, base, x)
    ||| (x > 0 && eroded(m, width, base, x - 1))
    ||| (x + 1 < width && eroded(m, width, base, x + 1))
}

proof fn lemma_and_bit(acc: u8, v: u8)
    requires
        acc == 0u8 || acc == 1u8,
    ensures
        (acc & v) == (if acc == 1u8 && v & 1u8 == 1u8 { 1u8 } else { 0u8 }),
{
    assert((acc & v) == (if acc == 1u8 && v & 1u8 == 1u8 { 1u8 } else { 0u8 })) by (bit_vector)
        requires
            acc == 0u8 || acc == 1u8,
    ;
}

proof fn lemma_or_bit(acc: u8, v: u8)
    requires
        acc == 0u8 || acc == 1u8,
        v == 0u8 || v == 1u8,
    ensures
        (acc | v) == (if acc == 1u8 || v == 1u8 { 1u8 } else { 0u8 }),
{
    assert((acc | v) == (if acc == 1u8 || v == 1u8 { 1u8 } else { 0u8 })) by (bit_vector)
        requires
            acc == 0u8 || acc == 1u8,
            v == 0u8 || v == 1u8,
    ;
}

proof fn lemma_row_base(y: nat, x: nat, width: nat, height: nat)
    requires
        y < height,
        x < width,
    ensures
        y * width + x < height * width,
        y * width + width <= height * width,
{
    assert(y * width + x < height * width && y * width + width <= height * width) by (nonlinear_arith)
        requires
            y < height,
            x < width,
    ;
}

/// The 1x3 erosion of the row starting at `base`, at column `x`, as
/// computed over the window `x-1..=x+1` cut to the row.
fn erode_at(mask: &[u8], base: usize, x: usize, width: usize) -> (r: u8)
    requires
        x < width,
        base + width <= mask@.len(),
    ensures
        r == (if eroded(mask@, width as nat, base as int, x as int) { 1u8 } else { 0u8 }),
{
    let n = mask.len();
    let lo = if x > 0 { x - 1 } else { 0 };
    let hi = if x + 1 < width - 1 { x + 1 } else { width - 1 };
    let mut acc: u8 = 1;
    let mut dx = lo;
    while dx <= hi
        invariant
            lo <= dx <= hi + 1,
            hi < width,
            lo == (if x > 0 { x - 1 } else { 0 }),
            hi == (if x + 1 < width - 1 { x + 1 } else { width - 1 }),
            x < width,
            base + width <= mask@.len(),
            n == mask@.len(),
            acc == (if (forall|d: int| lo <= d < dx ==> #[trigger] bit_set(mask@[base + d])) { 1u8 } else { 0u8 }),
        decreases hi + 1 - dx,
    {
        proof {
            lemma_and_bit(acc, mask@[base + dx]);
            if acc == 1u8 && bit_set(mask@[base + dx]) {
                assert forall|d: int| lo <= d < dx + 1 implies #[trigger] bit_set(mask@[base + d]) by {
                    if d < dx {
                    }
                }
            }
        }
        acc &= mask[base + dx];
        dx = dx + 1;
    }
    proof {
        if eroded(mask@, width as nat, base as int, x as int) {
            assert forall|d: int| lo <= d < dx implies #[trigger] bit_set(mask@[base + d]) by {
                if d < x {
                    assert(d == x - 1);
                } else if d > x {
                    assert(d == x + 1);
                }
            }
        } else {
            if !bit_set(mask@[base + x]) {
                assert(!bit_set(mask@[base + x]));
            } else if x > 0 && !bit_set(mask@[base + x - 1]) {
                assert(!bit_set(mask@[base + (x - 1)]));
            } else {
                assert(!bit_set(mask@[base + (x + 1)]));
            }
        }
    }
    acc
}

/// Opens each full row of a mask with a 1x3 horizontal element: erosion
/// then dilation, so set pixels survive only within horizontal runs of at
/// least three; entries past the last full row, and masks less than three
/// wide, are left as they are.
pub fn morphological_open_horizontal(mask: &mut [u8], width: usize)
    ensures
        final(mask)@.len() == old(mask)@.len(),
        width < 3 ==> final(mask)@ == old(mask)@,
        width >= 3 ==> forall|y: int, x: int|
            0 <= y < (old(mask)@.len() as int) / (width as int) && 0 <= x < width ==> #[trigger] final(mask)@[y * width + x] == (if opened(
                old(mask)@,
                width as nat,
                y * width,
                x,
            ) {
                1u8
            } else {
                0u8
            }),
        width >= 3 ==> forall|i: int|
            ((old(mask)@.len() as int) / (width as int)) * width <= i < old(mask)@.len() ==> #[trigger] final(mask)@[i] == old(mask)@[i],
{
    if width < 3 {
        return;
    }
    let len = mask.len();
    let height = len / width;
    proof {
        vstd::arithmetic::div_mod::lemma_fundamental_div_mod(len as int, width as int);
        assert(height * width <= len) by (nonlinear_arith)
            requires
                height == len / width,
                width > 0,
                len == width * (len / width) + len % width,
                len % width >= 0,
        ;
    }
    let ghost m0 = mask@;
    let mut temp: Vec<u8> = Vec::new();
    let mut i: usize = 0;
    while i < len
        invariant
            i <= len,
            temp@.len() == i,
            forall|k: int| 0 <= k < i ==> #[trigger] temp@[k] == 0u8,
        decreases len - i,
    {
        temp.push(0);
        i = i + 1;
    }
    let mut y: usize = 0;
    while y < height
        invariant
            y <= height,
            height * width <= len,
            len == mask@.len(),
            mask@ == m0,
            width >= 3,
            temp@.len() == len,
            forall|yy: int, xx: int| 0 <= yy < y && 0 <= xx < width ==> #[trigger] temp@[yy * width + xx] == (if eroded(m0, width as nat, yy * width, xx) { 1u8 } else { 0u8 }),
        decreases height - y,
    {
        proof {
            lemma_row_base(y as nat, 0, width as nat, height as nat);
        }
        let base = y * width;
        let mut x: usize = 0;
        while x < width
            invariant
                y < height,
                x <= width,
                base == y * width,
                base + width <= height * width,
                height * width <= len,
                len == mask@.len(),
                mask@ == m0,
                width >= 3,
                temp@.len() == len,
                forall|yy: int, xx: int| 0 <= yy < y && 0 <= xx < width ==> #[trigger] temp@[yy * width + xx] == (if eroded(m0, width as nat, yy * width, xx) { 1u8 } else { 0u8 }),
                forall|xx: int| 0 <= xx < x ==> #[trigger] temp@[base + xx] == (if eroded(m0, width as nat, base as int, xx) { 1u8 } else { 0u8 }),
            decreases width - x,
        {
            let e = erode_at(mask, base, x, width);
            let ghost before = temp@;
            temp.set(base + x, e);
            proof {
                assert forall|yy: int, xx: int| 0 <= yy < y && 0 <= xx < width implies #[trigger] temp@[yy * width + xx] == (if eroded(m0, width as nat, yy * width, xx) { 1u8 } else { 0u8 }) by {
                    lemma_row_base(yy as nat, xx as nat, width as nat, y as nat);
                    assert(before[yy * width + xx] == (if eroded(m0, width as nat, yy * width, xx) { 1u8 } else { 0u8 }));
                }
            }
            x = x + 1;
        }
        proof {
            assert forall|yy: int, xx: int| 0 <= yy < y + 1 && 0 <= xx < width implies #[trigger] temp@[yy * width + xx] == (if eroded(m0, width as nat, yy * width, xx) { 1u8 } else { 0u8 }) by {
                if yy == y {
                    assert(temp@[base + xx] == (if eroded(m0, width as nat, base as int, xx) { 1u8 } else { 0u8 }));
                }
            }
        }
        y = y + 1;
    }
    let ghost t = temp@;
    y = 0;
    while y < height
        invariant
            y <= height,
            height * width <= len,
            len == mask@.len(),
            len == m0.len(),
            height == len / width,
            width >= 3,
            temp@ == t,
            t.len() == len,
            forall|yy: int, xx: int| 0 <= yy < height && 0 <= xx < width ==> #[trigger] t[yy * width + xx] == (if eroded(m0, width as nat, yy * width, xx) { 1u8 } else { 0u8 }),
            forall|yy: int, xx: int| 0 <= yy < y && 0 <= xx < width ==> #[trigger] mask@[yy * width + xx] == (if opened(m0, width as nat, yy * width, xx) { 1u8 } else { 0u8 }),
            forall|k: int| y * width <= k < len ==> #[trigger] mask@[k] == m0[k],
        decreases height - y,
    {
        proof {
            lemma_row_base(y as nat, 0, width as nat, height as nat);
        }
        let base = y * width;
        let mut x: usize = 0;
        while x < width
            invariant
                y < height,
                x <= width,
                base == y * width,
                base + width <= height * width,
                height * width <= len,
                len == mask@.len(),
                len == m0.len(),
                width >= 3,
                temp@ == t,
                t.len() == len,
                forall|yy: int, xx: int| 0 <= yy < height && 0 <= xx < width ==> #[trigger] t[yy * width + xx] == (if eroded(m0, width as nat, yy * width, xx) { 1u8 } else { 0u8 }),
                forall|yy: int, xx: int| 0 <= yy < y && 0 <= xx < width ==> #[trigger] mask@[yy * width + xx] == (if opened(m0, width as nat, yy * width, xx) { 1u8 } else { 0u8 }),
                forall|xx: int| 0 <= xx < x ==> #[trigger] mask@[base + xx] == (if opened(m0, width as nat, base as int, xx) { 1u8 } else { 0u8 }),
                forall|k: int| base + x <= k < len ==> #[trigger] mask@[k] == m0[k],
            decreases width - x,
        {
            let lo = if x > 0 { x - 1 } else { 0 };
            let hi = if x + 1 < width - 1 { x + 1 } else { width - 1 };
            let mut acc: u8 = 0;
            let mut dx = lo;
            proof {
                assert(t[y * width + x] == (if eroded(m0, width as nat, y * width, x as int) { 1u8 } else { 0u8 }));
            }
            while dx <= hi
                invariant
                    lo <= dx <= hi + 1,
                    hi < width,
                    lo == (if x > 0 { x - 1 } else { 0 }),
                    hi == (if x + 1 < width - 1 { x + 1 } else { width - 1 }),
                    x < width,
                    y < height,
                    base == y * width,
                    base + width <= len,
                    temp@ == t,
                    t.len() == len,
                    forall|yy: int, xx: int| 0 <= yy < height && 0 <= xx < width ==> #[trigger] t[yy * width + xx] == (if eroded(m0, width as nat, yy * width, xx) { 1u8 } else { 0u8 }),
                    acc == (if (exists|d: int| lo <= d < dx && #[trigger] eroded(m0, width as nat, base as int, d)) { 1u8 } else { 0u8 }),
                decreases hi + 1 - dx,
            {
                proof {
                    assert(t[y * width + dx] == (if eroded(m0, width as nat, y * width, dx as int) { 1u8 } else { 0u8 }));
                    lemma_or_bit(acc, t[base + dx]);
                    if acc == 0u8 && !eroded(m0, width as nat, base as int, dx as int) {
                        assert forall|d: int| lo <= d < dx + 1 implies !#[trigger] eroded(m0, width as nat, base as int, d) by {
                            if d < dx {
                            }
                        }
                    }
                }
                acc |= temp[base + dx];
                dx = dx + 1;
            }
            proof {
                if opened(m0, width as nat, base as int, x as int) {
                    if eroded(m0, width as nat, base as int, x as int) {
                        assert(lo <= x < dx);
                    } else if x > 0 && eroded(m0, width as nat, base as int, x - 1) {
                        assert(lo <= x - 1 < dx);
                    } else {
                        assert(lo <= x + 1 < dx);
                    }
                } else {
                    assert forall|d: int| lo <= d < dx implies !#[trigger] eroded(m0, width as nat, base as int, d) by {
                        if d < x {
                            assert(d == x - 1);
                        } else if d > x {
                            assert(d == x + 1);
                        }
                    }
                }
            }
            let ghost before = mask@;
            mask[base + x] = acc;
            proof {
                assert forall|yy: int, xx: int| 0 <= yy < y && 0 <= xx < width implies #[trigger] mask@[yy * width + xx] == (if opened(m0, width as nat, yy * width, xx) { 1u8 } else { 0u8 }) by {
                    lemma_row_base(yy as nat, xx as nat, width as nat, y as nat);
                    assert(before[yy * width + xx] == (if opened(m0, width as nat, yy * width, xx) { 1u8 } else { 0u8 }));
                }
            }
            x = x + 1;
        }
        proof {
            assert forall|yy: int, xx: int| 0 <= yy < y + 1 && 0 <= xx < width implies #[trigger] mask@[yy * width + xx] == (if opened(m0, width as nat, yy * width, xx) { 1u8 } else { 0u8 }) by {
                if yy == y {
                    assert(mask@[base + xx] == (if opened(m0, width as nat, base as int, xx) { 1u8 } else { 0u8 }));
                }
            }
            assert((y + 1) * width == base + width) by (nonlinear_arith)
                requires
                    base == y * width,
            ;
        }
        y = y + 1;
    }
}

/// Scanning `row[0..k]`: the length of the run of ones in progress, and the
/// pixels of the finished runs at least `threshold` long.
pub open spec fn run_scan(row: Seq<u8>, threshold: nat, k: nat) -> (nat, nat)
    decreases k,
{
    if k == 0 {
        (0, 0)
    } else {
        let (cur, tot) = run_scan(row, threshold, (k - 1) as nat);
        if row[k - 1] == 1 {
            (cur + 1, tot)
        } else {
            (0, if cur >= threshold { tot + cur } else { tot })
        }
    }
}

/// The pixels of a row that lie in runs of ones at least `threshold` long.
pub open spec fn row_long_runs(row: Seq<u8>, threshold: nat) -> nat {
    let (cur, tot) = run_scan(row, threshold, row.len());
    if cur >= threshold { tot + cur } else { tot }
}

/// The long-run pixels of the rows of `width` entries from `start` on (the
/// last row may be shorter).
pub open spec fn long_runs_from(mask: Seq<u8>, width: nat, threshold: nat, start: nat) -> nat
    decreases mask.len() - start,
    when width > 0
{
    if start >= mask.len() {
        0
    } else {
        let end: nat = if start + width <= mask.len() { start + width } else { mask.len() };
        row_long_runs(mask.subrange(start as int, end as int), threshold) + long_runs_from(mask, width, threshold, end)
    }
}

proof fn lemma_run_scan_bound(row: Seq<u8>, threshold: nat, k: nat)
    requires
        k <= row.len(),
    ensures
        run_scan(row, threshold, k).0 + run_scan(row, threshold, k).1 <= k,
    decreases k,
{
    if k > 0 {
        lemma_run_scan_bound(row, threshold, (k - 1) as nat);
    }
}

/// The horizontal opening only clears pixels: every pixel it leaves set
/// was set before.
pub proof fn lemma_opening_only_clears(m: Seq<u8>, width: nat, base: int, x: int)
    requires
        0 <= x < width,
        0 <= base,
        base + width <= m.len(),
        opened(m, width, base, x),
    ensures
        bit_set(m[base + x]),
{
    if !eroded(m, width, base, x) {
        if x > 0 && eroded(m, width, base, x - 1) {
            assert(base + (x - 1) + 1 == base + x);
        } else {
            assert(base + (x + 1) - 1 == base + x);
        }
    }
}

/// The pixels of a mask that lie in horizontal runs of ones at least
/// `threshold` long, the mask cut into rows of `width` entries (the last
/// one possibly shorter); 0 for a zero width.
pub fn long_run_pixels(mask: &[u8], width: usize, threshold: usize) -> (total: usize)
    ensures
        width == 0 ==> total == 0,
        width > 0 ==> total == long_runs_from(mask@, width as nat, threshold as nat, 0),
{
    let len = mask.len();
    if width == 0 || len == 0 {
        return 0;
    }
    let mut total: usize = 0;
    let mut start: usize = 0;
    while start < len
        invariant
            width > 0,
            len == mask@.len(),
            start <= len,
            total <= start,
            total + long_runs_from(mask@, width as nat, threshold as nat, start as nat) == long_runs_from(mask@, width as nat, threshold as nat, 0),
        decreases len - start,
    {
        let end = if width <= len - start { start + width } else { len };
        let ghost row = mask@.subrange(start as int, end as int);
        let mut current: usize = 0;
        let mut row_total: usize = 0;
        let mut x = start;
        while x < end
            invariant
                start <= x <= end,
                end <= len,
                len == mask@.len(),
                row == mask@.subrange(start as int, end as int),
                (current as nat, row_total as nat) == run_scan(row, threshold as nat, (x - start) as nat),
            decreases end - x,
        {
            proof {
                lemma_run_scan_bound(row, threshold as nat, (x - start) as nat);
            }
            if mask[x] == 1 {
                current = current + 1;
            } else {
                if current >= threshold {
                    row_total = row_total + current;
                }
                current = 0;
            }
            x = x + 1;
        }
        proof {
            lemma_run_scan_bound(row, threshold as nat, (end - start) as nat);
        }
        if current >= threshold {
            row_total = row_total + current;
        }
        total = total + row_total;
        start = end;
    }
    total
}

/// A component whose bounding box is 6 to 80 pixels on each side, the
/// longer side at most ten times the shorter: the size of a glyph.
pub open spec fn letter_sized(c: ComponentStats) -> bool {
    let w = c.max_x - c.min_x + 1;
    let h = c.max_y - c.min_y + 1;
    &&& 6 <= w <= 80
    &&& 6 <= h <= 80
    &&& if w >= h { w <= 10 * h } else { h <= 10 * w }
}

/// The total area of the glyph-sized components of `comps`.
pub open spec fn letter_area(comps: Seq<ComponentStats>) -> nat
    decreases comps.len(),
{
    if comps.len() == 0 {
        0
    } else {
        letter_area(comps.drop_last()) + (if letter_sized(comps.last()) { comps.last().area as nat } else { 0 })
    }
}

/// The pixels of the glyph-sized 4-connected components of the set
/// (nonzero) pixels among the full rows of a mask `width` wide; 0 for a
/// zero width.
pub fn letter_component_area(mask: &[u8], width: usize) -> (area: u64)
    requires
        mask@.len() < u32::MAX,
    ensures
        width == 0 ==> area == 0,
        width > 0 ==> ({
            let height = (mask@.len() / (width as nat)) as nat;
            exists|comps: Seq<ComponentStats>, reps: Seq<int>|
                #[trigger] overlap_components(mask@.take((height * width) as int), width as nat, height, reps, comps)
                    && area == letter_area(comps)
        }),
{
    if width == 0 {
        return 0;
    }
    let len = mask.len();
    let height = len / width;
    proof {
        vstd::arithmetic::div_mod::lemma_fundamental_div_mod(len as int, width as int);
        assert(height * width <= len) by (nonlinear_arith)
            requires
                height == len / width,
                width > 0,
                len == width * (len / width) + len % width,
                len % width >= 0,
        ;
        assert(width * height == height * width) by (nonlinear_arith);
    }
    let rows = &mask[0..height * width];
    proof {
        assert(rows@ == mask@.take((height * width) as int));
    }
    let comps = connected_components(rows, width, height);
    let mut area: u64 = 0;
    let mut q: usize = 0;
    while q < comps.len()
        invariant
            q <= comps@.len(),
            comps@.len() <= width * height,
            width * height < u32::MAX,
            forall|k: int| 0 <= k < comps@.len() ==> (#[trigger] comps@[k]).area <= width * height,
            forall|k: int| 0 <= k < comps@.len() ==> #[trigger] crate::components::stats_inside(comps@[k], width as nat, height as nat),
            area == letter_area(comps@.take(q as int)),
            area <= q * (u32::MAX as int),
        decreases comps@.len() - q,
    {
        let c = comps[q];
        proof {
            assert(crate::components::stats_inside(comps@[q as int], width as nat, height as nat));
            assert(comps@.take(q + 1).drop_last() =~= comps@.take(q as int));
            assert((q + 1) * (u32::MAX as int) == q * (u32::MAX as int) + u32::MAX) by (nonlinear_arith);
            assert(q * (u32::MAX as int) + u32::MAX <= u64::MAX) by (nonlinear_arith)
                requires
                    q < u32::MAX,
            ;
        }
        let w = c.max_x - c.min_x + 1;
        let h = c.max_y - c.min_y + 1;
        if 6 <= w && w <= 80 && 6 <= h && h <= 80 {
            let aspect_ok = if w >= h { w <= 10 * h } else { h <= 10 * w };
            if aspect_ok {
                area = area + c.area as u64;
            }
        }
        q = q + 1;
    }
    proof {
        assert(comps@.take(comps@.len() as int) =~= comps@);
        if height == 0 {
            assert(comps@.len() == 0);
            let t = crate::runs::mask_runs(rows@, width as nat, 0);
            assert(t.len() == 0);
            let table = crate::components::component_table(t, Seq::<int>::empty(), 0);
            assert(table =~= Seq::<Option<ComponentStats>>::empty());
            assert(crate::components::present(table) =~= Seq::<ComponentStats>::empty());
            assert(comps@ =~= Seq::<ComponentStats>::empty());
            assert(crate::components::partition_of(Seq::<int>::empty(), crate::components::overlap_pairs(t, crate::components::run_offsets(rows@, width as nat, 0), 0), t.len()));
            let e = crate::components::overlap_pairs(t, crate::components::run_offsets(rows@, width as nat, 0), 0);
            assert(crate::dsu::model_after(0, e).0 =~= Seq::<int>::empty());
            assert(overlap_components(rows@, width as nat, 0, Seq::<int>::empty(), comps@));
        }
    }
    area
}

/// The check the presence detector makes of a plane: `stride * height`
/// bytes must fit in `usize` and be present.
pub fn check_plane(stride: usize, height: usize, len: usize) -> (r: Result<usize, DetectionError>)
    ensures
        stride * height > usize::MAX ==> r == Err::<usize, DetectionError>(DetectionError::DimensionOverflow),
        stride * height <= usize::MAX && len < stride * height ==> r == Err::<usize, DetectionError>(
            DetectionError::InsufficientData { expected: (stride * height) as usize, actual: len },
        ),
        stride * height <= usize::MAX && len >= stride * height ==> r == Ok::<usize, DetectionError>((stride * height) as usize),
{
    match stride.checked_mul(height) {
        None => Err(DetectionError::DimensionOverflow),
        Some(expected) => {
            if len < expected {
                Err(DetectionError::InsufficientData { expected, actual: len })
            } else {
                Ok(expected)
            }
        },
    }
}

} // verus!
