//! Values of the desktop front end: the run state of a detection, the
//! result of starting a run, frame-image errors, the pixel operations of
//! the replay preview, and the packing of 4:2:2 rows.

use vstd::prelude::*;
use vstd::string::StrSliceExecFns;
use vstd::string::StringExecFns;

use crate::text::{decimal, push_char, push_decimal, push_str};

verus! {

/// Whether a detection run is idle, running or paused.
#[derive(Clone, Copy, Debug, PartialEq, Eq, Structural)]
pub enum DetectionRunState {
    Idle,
    Running,
    Paused,
}

impl DetectionRunState {
    /// A run has started and not finished: running or paused.
    pub fn is_running(self) -> (r: bool)
        ensures
            r == (self == DetectionRunState::Running || self == DetectionRunState::Paused),
    {
        match self {
            DetectionRunState::Running | DetectionRunState::Paused => true,
            DetectionRunState::Idle => false,
        }
    }

    /// The run is paused.
    pub fn is_paused(self) -> (r: bool)
        ensures
            r == (self == DetectionRunState::Paused),
    {
        match self {
            DetectionRunState::Paused => true,
            _ => false,
        }
    }
}

/// Whether a sliding side panel is collapsed, and how many times it has
/// changed, counted modulo 2^32 (each change starts a new animation).
#[derive(Clone, Copy, Debug, PartialEq, Eq, Structural)]
pub struct AnimatedPanelState {
    pub is_collapsed: bool,
    pub toggle_count: u32,
}

/// One more change, wrapping at 2^32.
pub open spec fn next_count(count: u32) -> u32 {
    if count == u32::MAX {
        0
    } else {
        (count + 1) as u32
    }
}

impl AnimatedPanelState {
    /// An expanded panel that has not changed.
    pub fn new() -> (s: Self)
        ensures
            s == (AnimatedPanelState { is_collapsed: false, toggle_count: 0 }),
    {
        AnimatedPanelState { is_collapsed: false, toggle_count: 0 }
    }

    /// A collapsed panel that has not changed.
    pub fn collapsed() -> (s: Self)
        ensures
            s == (AnimatedPanelState { is_collapsed: true, toggle_count: 0 }),
    {
        AnimatedPanelState { is_collapsed: true, toggle_count: 0 }
    }

    pub fn is_collapsed(&self) -> (r: bool)
        ensures
            r == self.is_collapsed,
    {
        self.is_collapsed
    }

    pub fn is_expanded(&self) -> (r: bool)
        ensures
            r == !self.is_collapsed,
    {
        !self.is_collapsed
    }

    /// Collapses an expanded panel or expands a collapsed one.
    pub fn toggle(&mut self)
        ensures
            final(self).is_collapsed == !old(self).is_collapsed,
            final(self).toggle_count == next_count(old(self).toggle_count),
    {
        self.is_collapsed = !self.is_collapsed;
        self.toggle_count = self.toggle_count.wrapping_add(1);
    }

    /// Expands the panel; a change only when it was collapsed.
    pub fn open(&mut self)
        ensures
            *final(self) == (if old(self).is_collapsed {
                AnimatedPanelState { is_collapsed: false, toggle_count: next_count(old(self).toggle_count) }
            } else {
                *old(self)
            }),
    {
        if self.is_collapsed {
            self.is_collapsed = false;
            self.toggle_count = self.toggle_count.wrapping_add(1);
        }
    }

    /// Collapses the panel; a change only when it was expanded.
    pub fn close(&mut self)
        ensures
            *final(self) == (if !old(self).is_collapsed {
                AnimatedPanelState { is_collapsed: true, toggle_count: next_count(old(self).toggle_count) }
            } else {
                *old(self)
            }),
    {
        if !self.is_collapsed {
            self.is_collapsed = true;
            self.toggle_count = self.toggle_count.wrapping_add(1);
        }
    }

    /// Sets whether the panel is collapsed; a change only when it differs.
    pub fn set_collapsed(&mut self, collapsed: bool)
        ensures
            *final(self) == (if old(self).is_collapsed != collapsed {
                AnimatedPanelState { is_collapsed: collapsed, toggle_count: next_count(old(self).toggle_count) }
            } else {
                *old(self)
            }),
    {
        if self.is_collapsed != collapsed {
            self.is_collapsed = collapsed;
            self.toggle_count = self.toggle_count.wrapping_add(1);
        }
    }

    /// The name of the panel's current animation: `prefix`, whether it is
    /// collapsed, and the change count, joined by `-`.
    pub fn animation_id(&self, prefix: &str) -> (id: String)
        ensures
            id@ == prefix@ + seq!['-'] + (if self.is_collapsed { "true"@ } else { "false"@ }) + seq!['-'] + decimal(
                self.toggle_count as nat,
            ),
    {
        let mut id = prefix.to_owned();
        push_char(&mut id, '-');
        let word = if self.is_collapsed { "true" } else { "false" };
        let ghost before = id@;
        let n = word.unicode_len();
        let mut i: usize = 0;
        while i < n
            invariant
                i <= n,
                n == word@.len(),
                id@ == before + word@.subrange(0, i as int),
            decreases n - i,
        {
            let c = word.get_char(i);
            push_char(&mut id, c);
            proof {
                assert(before + word@.subrange(0, i + 1) =~= (before + word@.subrange(0, i as int)).push(c));
            }
            i = i + 1;
        }
        proof {
            assert(word@.subrange(0, n as int) =~= word@);
        }
        push_char(&mut id, '-');
        push_decimal(&mut id, self.toggle_count as u64);
        proof {
            assert(id@ =~= prefix@ + seq!['-'] + (if self.is_collapsed { "true"@ } else { "false"@ }) + seq!['-'] + decimal(
                self.toggle_count as nat,
            ));
        }
        id
    }
}

/// Toggling a panel twice brings it back to the same side, with its change
/// count two further on (modulo 2^32).
pub proof fn lemma_toggle_twice(s: AnimatedPanelState, t: AnimatedPanelState, u: AnimatedPanelState)
    requires
        t.is_collapsed == !s.is_collapsed,
        t.toggle_count == next_count(s.toggle_count),
        u.is_collapsed == !t.is_collapsed,
        u.toggle_count == next_count(t.toggle_count),
    ensures
        u.is_collapsed == s.is_collapsed,
        u.toggle_count == (s.toggle_count + 2) % 0x1_0000_0000,
{
}

/// The outcome of starting a run: a handle (0 when the run did not start)
/// and an error code (0 for success).
#[derive(Clone, Copy, Debug, PartialEq, Eq, Structural)]
pub struct GuiRunResult {
    pub handle_id: u64,
    pub error_code: i32,
}

/// Why a frame could not be turned into an image.
#[derive(Debug)]
pub struct FrameImageError(pub String);

impl FrameImageError {
    /// The error with `message`.
    pub fn new(message: String) -> (e: Self)
        ensures
            e.0@ == message@,
    {
        FrameImageError(message)
    }
}

/// The size and strides of an NV12 frame.
#[derive(Clone, Copy, Debug, PartialEq, Eq, Structural)]
pub struct Nv12FrameInfo {
    pub width: u32,
    pub height: u32,
    pub y_stride: usize,
    pub uv_stride: usize,
}

/// The previous index, clamped at 0.
pub open spec fn prev_index(i: int) -> int {
    if i > 0 { i - 1 } else { 0 }
}

/// The next index, clamped at `n - 1`.
pub open spec fn next_index(i: int, n: int) -> int {
    if i + 1 < n { i + 1 } else { n - 1 }
}

/// The sum of the three values of a row of a 3x3 neighbourhood: columns
/// `x - 1`, `x`, `x + 1` (clamped to `[0, n)`) times `step`, plus `offset`,
/// read from the row starting at `row`.
pub open spec fn row3(p: Seq<u8>, row: int, x: int, n: int, step: int, offset: int) -> int {
    p[row + prev_index(x) * step + offset] + p[row + x * step + offset] + p[row + next_index(x, n) * step + offset]
}

/// The mean, rounded down, of the 3x3 neighbourhood of `(x, y)` in a plane
/// of `w` by `h` samples `step` bytes apart, rows `stride` bytes apart,
/// edges clamped.
pub open spec fn box_mean(p: Seq<u8>, stride: int, w: int, h: int, y: int, x: int, step: int, offset: int) -> int {
    (row3(p, prev_index(y) * stride, x, w, step, offset) + row3(p, y * stride, x, w, step, offset) + row3(
        p,
        next_index(y, h) * stride,
        x,
        w,
        step,
        offset,
    )) / 9
}

proof fn lemma_row_offsets(y: int, h: int, stride: int)
    requires
        0 <= y < h,
        stride >= 0,
    ensures
        0 <= prev_index(y) * stride <= (h - 1) * stride,
        0 <= y * stride <= (h - 1) * stride,
        0 <= next_index(y, h) * stride <= (h - 1) * stride,
        (h - 1) * stride + stride == h * stride,
{
    assert(0 <= prev_index(y) * stride <= (h - 1) * stride) by (nonlinear_arith)
        requires
            0 <= prev_index(y) <= h - 1,
            stride >= 0,
    ;
    assert(0 <= y * stride <= (h - 1) * stride) by (nonlinear_arith)
        requires
            0 <= y <= h - 1,
            stride >= 0,
    ;
    assert(0 <= next_index(y, h) * stride <= (h - 1) * stride) by (nonlinear_arith)
        requires
            0 <= next_index(y, h) <= h - 1,
            stride >= 0,
    ;
    assert((h - 1) * stride + stride == h * stride) by (nonlinear_arith);
}

/// Sums three samples of a row: columns `x - 1`, `x`, `x + 1`, clamped.
fn sum_row3(p: &Vec<u8>, row: usize, x: usize, n: usize, step: usize, offset: usize) -> (s: u32)
    requires
        x < n,
        row + (n - 1) * step + offset < p@.len(),
        p@.len() <= usize::MAX,
        step <= 2,
    ensures
        s == row3(p@, row as int, x as int, n as int, step as int, offset as int),
{
    let x0 = if x > 0 { x - 1 } else { 0 };
    let x2 = if x + 1 < n { x + 1 } else { n - 1 };
    proof {
        assert(0 <= x0 * step <= (n - 1) * step) by (nonlinear_arith)
            requires
                0 <= x0 <= n - 1,
        ;
        assert(0 <= x * step <= (n - 1) * step) by (nonlinear_arith)
            requires
                0 <= x <= n - 1,
        ;
        assert(0 <= x2 * step <= (n - 1) * step) by (nonlinear_arith)
            requires
                0 <= x2 <= n - 1,
        ;
    }
    p[row + x0 * step + offset] as u32 + p[row + x * step + offset] as u32 + p[row + x2 * step + offset] as u32
}

/// Replaces every luma sample of the `width` by `height` picture by the
/// mean of its 3x3 neighbourhood (edges clamped), computed from the
/// samples before the call; does nothing when a size or the stride is 0
/// or the plane is shorter than `stride * height`.
pub fn blur_luma(y_plane: &mut [u8], info: Nv12FrameInfo)
    requires
        info.width > 0 && info.height > 0 && info.y_stride > 0 && info.y_stride * info.height <= old(y_plane)@.len()
            ==> info.width <= info.y_stride,
    ensures
        final(y_plane)@.len() == old(y_plane)@.len(),
        ({
            let w = info.width as int;
            let h = info.height as int;
            let s = info.y_stride as int;
            if w == 0 || h == 0 || s == 0 || s * h > old(y_plane)@.len() {
                final(y_plane)@ == old(y_plane)@
            } else {
                forall|i: int|
                    0 <= i < old(y_plane)@.len() ==> #[trigger] final(y_plane)@[i] == (if i < s * h && i % s < w {
                        box_mean(old(y_plane)@, s, w, h, i / s, i % s, 1, 0) as u8
                    } else {
                        old(y_plane)@[i]
                    })
            }
        }),
{
    let width = info.width as usize;
    let height = info.height as usize;
    let stride = info.y_stride;
    if width == 0 || height == 0 || stride == 0 {
        return;
    }
    let len = y_plane.len();
    match stride.checked_mul(height) {
        Some(total) => {
            if total > len {
                return;
            }
        },
        None => {
            return;
        },
    }
    let src = vstd::slice::slice_to_vec(y_plane);
    let ghost orig = y_plane@;
    let mut y: usize = 0;
    while y < height
        invariant
            src@ == orig,
            y_plane@.len() == orig.len(),
            orig.len() == len,
            0 < width <= stride,
            stride * height <= orig.len(),
            y <= height,
            forall|i: int|
                0 <= i < orig.len() ==> #[trigger] y_plane@[i] == (if i < stride * y && i % (stride as int) < width {
                    box_mean(orig, stride as int, width as int, height as int, i / (stride as int), i % (stride as int), 1, 0) as u8
                } else {
                    orig[i]
                }),
        decreases height - y,
    {
        proof {
            lemma_row_offsets(y as int, height as int, stride as int);
        }
        let y0 = if y > 0 { y - 1 } else { 0 };
        let y2 = if y + 1 < height { y + 1 } else { height - 1 };
        let mut x: usize = 0;
        while x < width
            invariant
                src@ == orig,
                y_plane@.len() == orig.len(),
                orig.len() == len,
                0 < width <= stride,
                stride * height <= orig.len(),
                y < height,
                x <= width,
                y0 == prev_index(y as int),
                y2 == next_index(y as int, height as int),
                0 <= y0 * stride <= (height - 1) * stride,
                0 <= y * stride <= (height - 1) * stride,
                0 <= y2 * stride <= (height - 1) * stride,
                (height - 1) * stride + stride == height * stride,
                forall|i: int|
                    0 <= i < orig.len() ==> #[trigger] y_plane@[i] == (if (i < stride * y || (stride * y <= i < stride
                        * y + x)) && i % (stride as int) < width {
                        box_mean(orig, stride as int, width as int, height as int, i / (stride as int), i % (stride as int), 1, 0) as u8
                    } else {
                        orig[i]
                    }),
            decreases width - x,
        {
            let sum = sum_row3(&src, y0 * stride, x, width, 1, 0) + sum_row3(&src, y * stride, x, width, 1, 0) + sum_row3(
                &src,
                y2 * stride,
                x,
                width,
                1,
                0,
            );
            let idx = y * stride + x;
            let ghost before = y_plane@;
            y_plane[idx] = (sum / 9) as u8;
            proof {
                vstd::arithmetic::div_mod::lemma_fundamental_div_mod_converse(idx as int, stride as int, y as int, x as int);
                assert(stride * y == y * stride) by (nonlinear_arith);
                assert forall|i: int| 0 <= i < orig.len() implies #[trigger] y_plane@[i] == (if (i < stride * y || (stride
                    * y <= i < stride * y + x + 1)) && i % (stride as int) < width {
                    box_mean(orig, stride as int, width as int, height as int, i / (stride as int), i % (stride as int), 1, 0) as u8
                } else {
                    orig[i]
                }) by {
                    if i != idx {
                        assert(y_plane@[i] == before[i]);
                    }
                }
            }
            x += 1;
        }
        proof {
            assert forall|i: int| 0 <= i < orig.len() implies #[trigger] y_plane@[i] == (if i < stride * (y + 1) && i % (
            stride as int) < width {
                box_mean(orig, stride as int, width as int, height as int, i / (stride as int), i % (stride as int), 1, 0) as u8
            } else {
                orig[i]
            }) by {
                assert(stride * (y + 1) == stride * y + stride) by (nonlinear_arith);
                assert(stride * y == y * stride) by (nonlinear_arith);
                if stride * y + width <= i < stride * (y + 1) {
                    vstd::arithmetic::div_mod::lemma_fundamental_div_mod_converse(i, stride as int, y as int, i - y * stride);
                }
            }
        }
        y += 1;
    }
}

/// Replaces every chroma pair of the `(width + 1) / 2` (at most `stride / 2`)
/// pairs of each of the `len / stride` rows by the mean of its 3x3
/// neighbourhood of pairs (edges clamped), computed from the samples before
/// the call; does nothing when a size is 0.
pub fn blur_chroma(uv_plane: &mut [u8], info: Nv12FrameInfo)
    ensures
        final(uv_plane)@.len() == old(uv_plane)@.len(),
        ({
            let s = info.uv_stride as int;
            let len = old(uv_plane)@.len() as int;
            let uvh = if s > 0 { len / s } else { 0 };
            let half = (info.width as int + 1) / 2;
            let uvw = if s > 0 { if half <= s / 2 { half } else { s / 2 } } else { 0 };
            if info.width == 0 || s == 0 || uvh == 0 || uvw == 0 {
                final(uv_plane)@ == old(uv_plane)@
            } else {
                forall|i: int|
                    0 <= i < len ==> #[trigger] final(uv_plane)@[i] == (if i < s * uvh && i % s < 2 * uvw {
                        box_mean(old(uv_plane)@, s, uvw, uvh, i / s, (i % s) / 2, 2, (i % s) % 2) as u8
                    } else {
                        old(uv_plane)@[i]
                    })
            }
        }),
{
    let width = info.width as usize;
    let stride = info.uv_stride;
    if width == 0 || stride == 0 {
        return;
    }
    let len = uv_plane.len();
    let uv_height = len / stride;
    if uv_height == 0 {
        return;
    }
    let half = ((info.width as u64 + 1) / 2) as usize;
    let uv_width = if half <= stride / 2 { half } else { stride / 2 };
    if uv_width == 0 {
        return;
    }
    proof {
        vstd::arithmetic::div_mod::lemma_fundamental_div_mod(len as int, stride as int);
        assert(stride * uv_height <= len);
        assert(uv_height * stride == stride * uv_height) by (nonlinear_arith);
    }
    let src = vstd::slice::slice_to_vec(uv_plane);
    let ghost orig = uv_plane@;
    let mut y: usize = 0;
    while y < uv_height
        invariant
            src@ == orig,
            uv_plane@.len() == orig.len(),
            orig.len() == len,
            stride > 0,
            0 < uv_width,
            2 * uv_width <= stride,
            uv_height * stride <= len,
            stride * uv_height <= len,
            y <= uv_height,
            forall|i: int|
                0 <= i < orig.len() ==> #[trigger] uv_plane@[i] == (if i < stride * y && i % (stride as int) < 2 * uv_width {
                    box_mean(orig, stride as int, uv_width as int, uv_height as int, i / (stride as int), (i % (stride as int)) / 2, 2, (i % (stride as int)) % 2) as u8
                } else {
                    orig[i]
                }),
        decreases uv_height - y,
    {
        proof {
            lemma_row_offsets(y as int, uv_height as int, stride as int);
        }
        let y0 = if y > 0 { y - 1 } else { 0 };
        let y2 = if y + 1 < uv_height { y + 1 } else { uv_height - 1 };
        let mut x: usize = 0;
        while x < uv_width
            invariant
                src@ == orig,
                uv_plane@.len() == orig.len(),
                orig.len() == len,
                stride > 0,
                0 < uv_width,
                2 * uv_width <= stride,
                uv_height * stride <= len,
                stride * uv_height <= len,
                y < uv_height,
                x <= uv_width,
                y0 == prev_index(y as int),
                y2 == next_index(y as int, uv_height as int),
                0 <= y0 * stride <= (uv_height - 1) * stride,
                0 <= y * stride <= (uv_height - 1) * stride,
                0 <= y2 * stride <= (uv_height - 1) * stride,
                (uv_height - 1) * stride + stride == uv_height * stride,
                forall|i: int|
                    0 <= i < orig.len() ==> #[trigger] uv_plane@[i] == (if (i < stride * y || (stride * y <= i < stride
                        * y + 2 * x)) && i % (stride as int) < 2 * uv_width {
                        box_mean(orig, stride as int, uv_width as int, uv_height as int, i / (stride as int), (i % (stride as int)) / 2, 2, (i % (stride as int)) % 2) as u8
                    } else {
                        orig[i]
                    }),
            decreases uv_width - x,
        {
            let sum_u = sum_row3(&src, y0 * stride, x, uv_width, 2, 0) + sum_row3(&src, y * stride, x, uv_width, 2, 0)
                + sum_row3(&src, y2 * stride, x, uv_width, 2, 0);
            let sum_v = sum_row3(&src, y0 * stride, x, uv_width, 2, 1) + sum_row3(&src, y * stride, x, uv_width, 2, 1)
                + sum_row3(&src, y2 * stride, x, uv_width, 2, 1);
            let out_idx = y * stride + x * 2;
            let ghost before = uv_plane@;
            uv_plane[out_idx] = (sum_u / 9) as u8;
            uv_plane[out_idx + 1] = (sum_v / 9) as u8;
            proof {
                vstd::arithmetic::div_mod::lemma_fundamental_div_mod_converse(out_idx as int, stride as int, y as int, 2 * x);
                vstd::arithmetic::div_mod::lemma_fundamental_div_mod_converse(out_idx + 1, stride as int, y as int, 2 * x + 1);
                assert(stride * y == y * stride) by (nonlinear_arith);
                assert forall|i: int| 0 <= i < orig.len() implies #[trigger] uv_plane@[i] == (if (i < stride * y || (stride
                    * y <= i < stride * y + 2 * (x + 1))) && i % (stride as int) < 2 * uv_width {
                    box_mean(orig, stride as int, uv_width as int, uv_height as int, i / (stride as int), (i % (stride as int)) / 2, 2, (i % (stride as int)) % 2) as u8
                } else {
                    orig[i]
                }) by {
                    if i != out_idx && i != out_idx + 1 {
                        assert(uv_plane@[i] == before[i]);
                    }
                }
            }
            x += 1;
        }
        proof {
            assert forall|i: int| 0 <= i < orig.len() implies #[trigger] uv_plane@[i] == (if i < stride * (y + 1) && i % (
            stride as int) < 2 * uv_width {
                box_mean(orig, stride as int, uv_width as int, uv_height as int, i / (stride as int), (i % (stride as int)) / 2, 2, (i % (stride as int)) % 2) as u8
            } else {
                orig[i]
            }) by {
                assert(stride * (y + 1) == stride * y + stride) by (nonlinear_arith);
                assert(stride * y == y * stride) by (nonlinear_arith);
                if stride * y + 2 * uv_width <= i < stride * (y + 1) {
                    vstd::arithmetic::div_mod::lemma_fundamental_div_mod_converse(i, stride as int, y as int, i - y * stride);
                }
            }
        }
        y += 1;
    }
}

/// The shift of a chroma sample toward neutral: 80% of its distance from
/// 128, rounded toward 128.
pub open spec fn tint_shift(c: int) -> int {
    if c >= 128 {
        ((c - 128) * 80) / 100
    } else {
        -(((128 - c) * 80) / 100)
    }
}

/// A value clamped to `[0, 255]`.
pub open spec fn clamp_byte(v: int) -> u8 {
    if v < 0 {
        0
    } else if v > 255 {
        255
    } else {
        v as u8
    }
}

fn tint_chroma(c: u8, bias_up: bool) -> (r: u8)
    ensures
        r == clamp_byte(128 + tint_shift(c as int) + if bias_up { 6int } else { -6int }),
{
    let c32 = c as i32;
    let shift: i32 = if c32 >= 128 { ((c32 - 128) * 80) / 100 } else { -(((128 - c32) * 80) / 100) };
    let tinted: i32 = if bias_up { 128 + shift + 6 } else { 128 + shift - 6 };
    if tinted < 0 {
        0
    } else if tinted > 255 {
        255
    } else {
        tinted as u8
    }
}

/// The luma plane `p` after one blur of the picture described by `info`.
pub open spec fn luma_blurred(p: Seq<u8>, info: Nv12FrameInfo) -> Seq<u8> {
    let w = info.width as int;
    let h = info.height as int;
    let s = info.y_stride as int;
    if w == 0 || h == 0 || s == 0 || s * h > p.len() {
        p
    } else {
        Seq::new(
            p.len(),
            |i: int|
                if i < s * h && i % s < w {
                    box_mean(p, s, w, h, i / s, i % s, 1, 0) as u8
                } else {
                    p[i]
                },
        )
    }
}

/// The chroma plane `p` after one blur of the picture described by `info`.
pub open spec fn chroma_blurred(p: Seq<u8>, info: Nv12FrameInfo) -> Seq<u8> {
    let s = info.uv_stride as int;
    let len = p.len() as int;
    let uvh = if s > 0 { len / s } else { 0 };
    let half = (info.width as int + 1) / 2;
    let uvw = if s > 0 { if half <= s / 2 { half } else { s / 2 } } else { 0 };
    if info.width == 0 || s == 0 || uvh == 0 || uvw == 0 {
        p
    } else {
        Seq::new(
            p.len(),
            |i: int|
                if i < s * uvh && i % s < 2 * uvw {
                    box_mean(p, s, uvw, uvh, i / s, (i % s) / 2, 2, (i % s) % 2) as u8
                } else {
                    p[i]
                },
        )
    }
}

/// The planes after `passes` blurs of both.
pub open spec fn nv12_blurred(y: Seq<u8>, uv: Seq<u8>, info: Nv12FrameInfo, passes: nat) -> (Seq<u8>, Seq<u8>)
    decreases passes,
{
    if passes == 0 {
        (y, uv)
    } else {
        let prev = nv12_blurred(y, uv, info, (passes - 1) as nat);
        (luma_blurred(prev.0, info), chroma_blurred(prev.1, info))
    }
}

/// Blurs both planes of a frame `passes` times.
pub fn blur_nv12_plane(y_plane: &mut [u8], uv_plane: &mut [u8], info: Nv12FrameInfo, passes: usize)
    requires
        info.width > 0 && info.height > 0 && info.y_stride > 0 && info.y_stride * info.height <= old(y_plane)@.len()
            ==> info.width <= info.y_stride,
    ensures
        (final(y_plane)@, final(uv_plane)@) == nv12_blurred(old(y_plane)@, old(uv_plane)@, info, passes as nat),
{
    let ghost y0 = y_plane@;
    let ghost uv0 = uv_plane@;
    let mut k: usize = 0;
    while k < passes
        invariant
            k <= passes,
            y_plane@.len() == y0.len(),
            (y_plane@, uv_plane@) == nv12_blurred(y0, uv0, info, k as nat),
            info.width > 0 && info.height > 0 && info.y_stride > 0 && info.y_stride * info.height <= y0.len()
                ==> info.width <= info.y_stride,
        decreases passes - k,
    {
        let ghost yb = y_plane@;
        let ghost uvb = uv_plane@;
        blur_luma(y_plane, info);
        blur_chroma(uv_plane, info);
        proof {
            assert(y_plane@ =~= luma_blurred(yb, info));
            assert(uv_plane@ =~= chroma_blurred(uvb, info));
        }
        k = k + 1;
    }
}

/// Darkens the luma plane to 165/255 of its value (rounded down) and pulls
/// every chroma pair toward neutral, tinting it; a trailing odd chroma byte
/// is left as it is.
pub fn tint_nv12_plane(y_plane: &mut [u8], uv_plane: &mut [u8])
    ensures
        final(y_plane)@.len() == old(y_plane)@.len(),
        final(uv_plane)@.len() == old(uv_plane)@.len(),
        forall|i: int| 0 <= i < old(y_plane)@.len() ==> #[trigger] final(y_plane)@[i] == (old(y_plane)@[i] * 165 / 255) as u8,
        forall|i: int|
            0 <= i < old(uv_plane)@.len() ==> #[trigger] final(uv_plane)@[i] == (if i >= 2 * (old(uv_plane)@.len() / 2) {
                old(uv_plane)@[i]
            } else if i % 2 == 0 {
                clamp_byte(128 + tint_shift(old(uv_plane)@[i] as int) + 6)
            } else {
                clamp_byte(128 + tint_shift(old(uv_plane)@[i] as int) - 6)
            }),
{
    let ghost y0 = y_plane@;
    let ghost uv0 = uv_plane@;
    let ylen = y_plane.len();
    let mut i: usize = 0;
    while i < ylen
        invariant
            y_plane@.len() == y0.len(),
            ylen == y0.len(),
            i <= ylen,
            forall|k: int| 0 <= k < i ==> #[trigger] y_plane@[k] == (y0[k] * 165 / 255) as u8,
            forall|k: int| i <= k < ylen ==> #[trigger] y_plane@[k] == y0[k],
        decreases ylen - i,
    {
        let v = y_plane[i];
        y_plane[i] = ((v as u16 * 165) / 255) as u8;
        i += 1;
    }
    let uvlen = uv_plane.len();
    let pairs = uvlen / 2;
    let mut k: usize = 0;
    while k < pairs
        invariant
            uv_plane@.len() == uv0.len(),
            uvlen == uv0.len(),
            pairs == uvlen / 2,
            k <= pairs,
            forall|j: int|
                0 <= j < uvlen ==> #[trigger] uv_plane@[j] == (if j >= 2 * k {
                    uv0[j]
                } else if j % 2 == 0 {
                    clamp_byte(128 + tint_shift(uv0[j] as int) + 6)
                } else {
                    clamp_byte(128 + tint_shift(uv0[j] as int) - 6)
                }),
        decreases pairs - k,
    {
        let u = uv_plane[2 * k];
        let v = uv_plane[2 * k + 1];
        uv_plane[2 * k] = tint_chroma(u, true);
        uv_plane[2 * k + 1] = tint_chroma(v, false);
        k += 1;
    }
}

/// The bytes of a packed 4:2:2 row of `width` pixels: two per pixel, the
/// width padded to even; none when that overflows.
pub open spec fn packed_width_spec(width: nat) -> Option<nat> {
    let padded = if width % 2 == 0 { width } else { width + 1 };
    if padded > usize::MAX || 2 * padded > usize::MAX {
        None
    } else {
        Some(2 * padded)
    }
}

/// The bytes of a packed 4:2:2 row of `width` pixels.
pub fn packed_422_width(width: usize, label: &str) -> (r: Result<usize, FrameImageError>)
    ensures
        packed_width_spec(width as nat) matches Some(n) ==> r == Ok::<usize, FrameImageError>(n as usize),
        packed_width_spec(width as nat) is None ==> (r matches Err(e) && (e.0@ == label@ + " width overflow"@ || e.0@
            == label@ + " packed width overflow"@)),
        width % 2 == 1 && width == usize::MAX ==> (r matches Err(e) && e.0@ == label@ + " width overflow"@),
        (width % 2 == 0 || width < usize::MAX) && packed_width_spec(width as nat) is None ==> (r matches Err(e) && e.0@
            == label@ + " packed width overflow"@),
{
    let padded = if width % 2 == 0 {
        width
    } else {
        match width.checked_add(1) {
            Some(p) => p,
            None => {
                let mut message = <String as StringExecFns>::from_str(label);
                message.append(" width overflow");
                return Err(FrameImageError::new(message));
            },
        }
    };
    match padded.checked_mul(2) {
        Some(n) => Ok(n),
        None => {
            let mut message = <String as StringExecFns>::from_str(label);
            message.append(" packed width overflow");
            Err(FrameImageError::new(message))
        },
    }
}

/// The first row, from `r` on, of `h` rows `stride` bytes apart whose
/// first `pw` bytes reach past `len` bytes; `h` when there is none.
pub open spec fn first_short_row(r: nat, h: nat, stride: nat, pw: nat, len: nat) -> nat
    decreases h - r,
{
    if r >= h {
        h
    } else if r * stride + pw > len {
        r
    } else {
        first_short_row(r + 1, h, stride, pw, len)
    }
}

/// The first `pw` bytes of each of `h` rows `stride` bytes apart, one row
/// after the other.
pub open spec fn packed_rows(data: Seq<u8>, pw: nat, stride: nat, h: nat) -> Seq<u8>
    decreases h,
{
    if h == 0 {
        Seq::empty()
    } else {
        packed_rows(data, pw, stride, (h - 1) as nat) + data.subrange((h - 1) * stride, (h - 1) * stride + pw)
    }
}

/// The message for a stride smaller than the packed row it holds.
pub open spec fn stride_text(label: Seq<char>, stride: nat, packed_width: nat) -> Seq<char> {
    label + " stride "@ + decimal(stride) + " is smaller than packed width "@ + decimal(packed_width)
}

/// Describes a stride smaller than the packed row it holds.
fn stride_message(label: &str, stride: usize, packed_width: usize) -> (message: String)
    ensures
        message@ == stride_text(label@, stride as nat, packed_width as nat),
{
    let mut message = String::new();
    push_str(&mut message, label);
    push_str(&mut message, " stride ");
    push_decimal(&mut message, stride as u64);
    push_str(&mut message, " is smaller than packed width ");
    push_decimal(&mut message, packed_width as u64);
    proof {
        assert(message@ =~= stride_text(label@, stride as nat, packed_width as nat));
    }
    message
}

fn labelled(label: &str, text: &str) -> (message: String)
    ensures
        message@ == label@ + text@,
{
    let mut message = <String as StringExecFns>::from_str(label);
    message.append(text);
    message
}

/// Copies the packed 4:2:2 rows of a `width` by `height` picture out of
/// rows `stride` bytes apart, with the packed stride as a `u32`.
pub fn repack_packed_422(width: usize, height: usize, stride: usize, data: &[u8], label: &str) -> (r: Result<
    (Vec<u8>, u32),
    FrameImageError,
>)
    ensures
        packed_width_spec(width as nat) is None ==> r is Err,
        packed_width_spec(width as nat) matches Some(pw) ==> ({
            let first = first_short_row(0, height as nat, stride as nat, pw, data@.len());
            if stride < pw {
                r matches Err(e) && e.0@ == stride_text(label@, stride as nat, pw)
            } else if pw * height > usize::MAX {
                r matches Err(e) && e.0@ == label@ + " packed size overflow"@
            } else if first < height {
                r matches Err(e) && (if first * stride + pw > usize::MAX {
                    e.0@ == label@ + " stride overflow"@
                } else {
                    e.0@ == label@ + " buffer too small"@
                })
            } else if pw > u32::MAX {
                r matches Err(e) && e.0@ == label@ + " stride overflows u32"@
            } else {
                r matches Ok(out) && out.0@ == packed_rows(data@, pw, stride as nat, height as nat) && out.1 == pw
            }
        }),
{
    let packed_width = match packed_422_width(width, label) {
        Ok(n) => n,
        Err(e) => {
            return Err(e);
        },
    };
    if stride < packed_width {
        return Err(FrameImageError::new(stride_message(label, stride, packed_width)));
    }
    let packed_len = match packed_width.checked_mul(height) {
        Some(n) => n,
        None => {
            return Err(FrameImageError::new(labelled(label, " packed size overflow")));
        },
    };
    let dlen = data.len();
    let mut packed: Vec<u8> = Vec::new();
    let mut row: usize = 0;
    while row < height
        invariant
            row <= height,
            packed_width <= stride,
            dlen == data@.len(),
            packed_width_spec(width as nat) == Some(packed_width as nat),
            packed_width * height <= usize::MAX,
            packed@ == packed_rows(data@, packed_width as nat, stride as nat, row as nat),
            first_short_row(0, height as nat, stride as nat, packed_width as nat, data@.len()) == first_short_row(
                row as nat,
                height as nat,
                stride as nat,
                packed_width as nat,
                data@.len(),
            ),
        decreases height - row,
    {
        let row_start = match row.checked_mul(stride) {
            Some(n) => n,
            None => {
                proof {
                    assert(row * stride + packed_width > data@.len());
                }
                return Err(FrameImageError::new(labelled(label, " stride overflow")));
            },
        };
        let row_end = match row_start.checked_add(packed_width) {
            Some(n) => n,
            None => {
                return Err(FrameImageError::new(labelled(label, " stride overflow")));
            },
        };
        if row_end > dlen {
            return Err(FrameImageError::new(labelled(label, " buffer too small")));
        }
        let ghost before = packed@;
        let mut k = row_start;
        while k < row_end
            invariant
                row_start <= k <= row_end <= data@.len(),
                packed@ == before + data@.subrange(row_start as int, k as int),
            decreases row_end - k,
        {
            packed.push(data[k]);
            proof {
                assert(data@.subrange(row_start as int, k + 1) == data@.subrange(row_start as int, k as int).push(data@[k as int]));
            }
            k += 1;
        }
        row += 1;
    }
    if packed_width > 0xffff_ffff {
        return Err(FrameImageError::new(labelled(label, " stride overflows u32")));
    }
    Ok((packed, packed_width as u32))
}

} // verus!
