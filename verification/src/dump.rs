//! Frames written out for inspection: the luma plane packed row by row,
//! detected regions outlined on it, grey turned to RGB, and the pixels
//! encoded as JPEG, PNG or WebP by the `image` crate.

use vstd::prelude::*;

use image::codecs::jpeg::JpegEncoder;
use image::codecs::png::PngEncoder;
use image::codecs::webp::WebPEncoder;
use image::ImageEncoder;

use crate::grid::{lemma_cell_in_plane, lemma_cells_distinct};
use crate::presence::{copied_rows, lemma_copied_rows};
use crate::sink::ImageOutputFormat;

verus! {

/// An inclusive pixel rectangle: columns `x0..=x1`, rows `y0..=y1`.
#[derive(Clone, Copy, Debug, PartialEq, Eq, Structural)]
pub struct Rect {
    pub x0: usize,
    pub y0: usize,
    pub x1: usize,
    pub y1: usize,
}

/// The rectangle lies inside a `w` by `h` frame.
pub open spec fn rect_in_frame(r: Rect, w: nat, h: nat) -> bool {
    r.x0 <= r.x1 < w && r.y0 <= r.y1 < h
}

/// The outline thickness of a rectangle: its shorter side span, at least 1
/// and at most 2 (and at most the frame's longer side).
pub open spec fn thickness_spec(r: Rect, w: nat, h: nat) -> nat {
    let dx: nat = if r.x1 >= r.x0 { (r.x1 - r.x0) as nat } else { 0 };
    let dy: nat = if r.y1 >= r.y0 { (r.y1 - r.y0) as nat } else { 0 };
    let m: nat = if dx <= dy { dx } else { dy };
    let m1: nat = if m >= 1 { m } else { 1 };
    let m2: nat = if m1 <= 2 { m1 } else { 2 };
    let wh: nat = if w >= h { w } else { h };
    if m2 <= wh { m2 } else { wh }
}

/// Pixel (`x`, `y`) lies on the outline of thickness `t` of `r`.
pub open spec fn on_border(r: Rect, t: int, x: int, y: int) -> bool {
    &&& r.x0 <= x <= r.x1
    &&& r.y0 <= y <= r.y1
    &&& (y < r.y0 + t || y > r.y1 - t || x < r.x0 + t || x > r.x1 - t)
}

/// Pixel (`x`, `y`) lies on the outline of one of the first `k` rectangles.
pub open spec fn outlined(rects: Seq<Rect>, k: int, w: nat, h: nat, x: int, y: int) -> bool
    decreases k,
{
    k > 0 && (outlined(rects, k - 1, w, h, x, y) || on_border(rects[k - 1], thickness_spec(rects[k - 1], w, h) as int, x, y))
}

/// A pixel is outlined by the first `n` rectangles exactly when it lies on
/// the border (at its thickness) of one of them: every rectangle of the
/// list is drawn, and nothing else.
pub proof fn lemma_outlined_iff(rects: Seq<Rect>, n: int, w: nat, h: nat, x: int, y: int)
    requires
        0 <= n <= rects.len(),
    ensures
        outlined(rects, n, w, h, x, y) <==> exists|k: int| 0 <= k < n && #[trigger] on_border(rects[k], thickness_spec(rects[k], w, h) as int, x, y),
    decreases n,
{
    if n > 0 {
        lemma_outlined_iff(rects, n - 1, w, h, x, y);
        if on_border(rects[n - 1], thickness_spec(rects[n - 1], w, h) as int, x, y) {
            assert(outlined(rects, n, w, h, x, y));
        }
        if exists|k: int| 0 <= k < n && #[trigger] on_border(rects[k], thickness_spec(rects[k], w, h) as int, x, y) {
            let k = choose|k: int| 0 <= k < n && #[trigger] on_border(rects[k], thickness_spec(rects[k], w, h) as int, x, y);
            if k < n - 1 {
                assert(outlined(rects, n - 1, w, h, x, y));
            }
        }
    }
}

/// The outline thickness for `rect` in a `width` by `height` frame.
pub fn rect_thickness(rect: &Rect, width: usize, height: usize) -> (t: usize)
    ensures
        t == thickness_spec(*rect, width as nat, height as nat),
{
    let dx = rect.x1.saturating_sub(rect.x0);
    let dy = rect.y1.saturating_sub(rect.y0);
    let m = if dx <= dy { dx } else { dy };
    let max_possible = if m >= 1 { m } else { 1 };
    let capped = if max_possible <= 2 { max_possible } else { 2 };
    let wh = if width >= height { width } else { height };
    if capped <= wh { capped } else { wh }
}

/// Writing `v` at cell (`y`, `x`) of a `w` by `h` plane changes that cell
/// alone.
pub proof fn lemma_set_cell(before: Seq<u8>, after: Seq<u8>, w: nat, h: nat, y: int, x: int, v: u8)
    requires
        before.len() == w * h,
        0 <= y < h,
        0 <= x < w,
        after == before.update(y * w + x, v),
    ensures
        forall|yy: int, xx: int| 0 <= yy < h && 0 <= xx < w ==> #[trigger] after[yy * w + xx] == (if yy == y && xx == x { v } else { before[yy * w + xx] }),
{
    lemma_cell_in_plane(y, x, w as int, h as int);
    assert forall|yy: int, xx: int| 0 <= yy < h && 0 <= xx < w implies #[trigger] after[yy * w + xx] == (if yy == y && xx == x { v } else { before[yy * w + xx] }) by {
        lemma_cell_in_plane(yy, xx, w as int, h as int);
        if yy != y || xx != x {
            lemma_cells_distinct(yy, xx, y, x, w as int);
        }
    }
}

/// Outlines one rectangle on a luma plane.
fn draw_rect_luma(buffer: &mut [u8], width: usize, height: usize, rect: &Rect)
    requires
        old(buffer)@.len() == width * height,
        rect_in_frame(*rect, width as nat, height as nat),
    ensures
        final(buffer)@.len() == old(buffer)@.len(),
        forall|y: int, x: int| 0 <= y < height && 0 <= x < width ==> #[trigger] final(buffer)@[y * width + x] == (if on_border(
            *rect,
            thickness_spec(*rect, width as nat, height as nat) as int,
            x,
            y,
        ) {
            255u8
        } else {
            old(buffer)@[y * width + x]
        }),
{
    let stride = width;
    let n = buffer.len();
    let ghost b0 = buffer@;
    let thickness = rect_thickness(rect, width, height);
    let mut next: usize = 0;
    while next < thickness
        invariant
            thickness == thickness_spec(*rect, width as nat, height as nat),
            next <= thickness,
            stride == width,
            n == buffer@.len(),
            buffer@.len() == width * height,
            b0.len() == width * height,
            rect_in_frame(*rect, width as nat, height as nat),
            forall|y: int, x: int| 0 <= y < height && 0 <= x < width ==> #[trigger] buffer@[y * width + x] == (if on_border(*rect, next as int, x, y) { 255u8 } else { b0[y * width + x] }),
        ensures
            next == thickness,
        decreases thickness - next,
    {
        let offset = next;
        next = next + 1;
        proof {
            assert(rect.y0 + offset <= rect.y1 && rect.x0 + offset <= rect.x1);
        }
        let top = rect.y0.saturating_add(offset);
        if top > rect.y1 {
            break;
        }
        let bottom = rect.y1.saturating_sub(offset);
        if bottom >= height {
            continue;
        }
        let mut x = rect.x0;
        while x <= rect.x1
            invariant
                rect_in_frame(*rect, width as nat, height as nat),
                rect.x0 <= x <= rect.x1 + 1,
                stride == width,
                top == rect.y0 + offset,
                top <= rect.y1,
                bottom == rect.y1 - offset,
                n == buffer@.len(),
                buffer@.len() == width * height,
                b0.len() == width * height,
                forall|y: int, xx: int| 0 <= y < height && 0 <= xx < width ==> #[trigger] buffer@[y * width + xx] == (if on_border(*rect, offset as int, xx, y)
                    || ((y == top || y == bottom) && rect.x0 <= xx < x) { 255u8 } else { b0[y * width + xx] }),
            decreases rect.x1 + 1 - x,
        {
            if top < height {
                proof {
                    lemma_cell_in_plane(top as int, x as int, width as int, height as int);
                }
                let ghost before = buffer@;
                buffer[top * stride + x] = 255;
                proof {
                    lemma_set_cell(before, buffer@, width as nat, height as nat, top as int, x as int, 255u8);
                }
            }
            if bottom < height {
                proof {
                    lemma_cell_in_plane(bottom as int, x as int, width as int, height as int);
                }
                let ghost before = buffer@;
                buffer[bottom * stride + x] = 255;
                proof {
                    lemma_set_cell(before, buffer@, width as nat, height as nat, bottom as int, x as int, 255u8);
                }
            }
            x = x + 1;
        }
        let left = rect.x0.saturating_add(offset);
        if left > rect.x1 {
            break;
        }
        let right = rect.x1.saturating_sub(offset);
        let mut y = rect.y0;
        while y <= rect.y1
            invariant
                rect_in_frame(*rect, width as nat, height as nat),
                rect.y0 <= y <= rect.y1 + 1,
                stride == width,
                top == rect.y0 + offset,
                top <= rect.y1,
                bottom == rect.y1 - offset,
                left == rect.x0 + offset,
                left <= rect.x1,
                right == rect.x1 - offset,
                n == buffer@.len(),
                buffer@.len() == width * height,
                b0.len() == width * height,
                forall|yy: int, xx: int| 0 <= yy < height && 0 <= xx < width ==> #[trigger] buffer@[yy * width + xx] == (if on_border(*rect, offset as int, xx, yy)
                    || ((yy == top || yy == bottom) && rect.x0 <= xx <= rect.x1)
                    || ((xx == left || xx == right) && rect.y0 <= yy < y) { 255u8 } else { b0[yy * width + xx] }),
            decreases rect.y1 + 1 - y,
        {
            if y < height {
                proof {
                    lemma_cell_in_plane(y as int, left as int, width as int, height as int);
                }
                let ghost before = buffer@;
                buffer[y * stride + left] = 255;
                proof {
                    lemma_set_cell(before, buffer@, width as nat, height as nat, y as int, left as int, 255u8);
                }
            }
            if right < width && y < height {
                proof {
                    lemma_cell_in_plane(y as int, right as int, width as int, height as int);
                }
                let ghost before = buffer@;
                buffer[y * stride + right] = 255;
                proof {
                    lemma_set_cell(before, buffer@, width as nat, height as nat, y as int, right as int, 255u8);
                }
            }
            y = y + 1;
        }
        proof {
            assert forall|yy: int, xx: int| 0 <= yy < height && 0 <= xx < width implies (on_border(*rect, offset + 1, xx, yy) <==> (on_border(*rect, offset as int, xx, yy)
                || ((yy == top || yy == bottom) && rect.x0 <= xx <= rect.x1)
                || ((xx == left || xx == right) && rect.y0 <= yy <= rect.y1))) by {}
        }
    }
}

/// Outlines every rectangle on a `width` by `height` luma plane in white.
pub fn draw_rectangles_luma(buffer: &mut [u8], width: usize, height: usize, rects: &[Rect])
    requires
        old(buffer)@.len() == width * height,
        forall|k: int| 0 <= k < rects@.len() ==> #[trigger] rect_in_frame(rects@[k], width as nat, height as nat),
    ensures
        final(buffer)@.len() == old(buffer)@.len(),
        forall|y: int, x: int| 0 <= y < height && 0 <= x < width ==> #[trigger] final(buffer)@[y * width + x] == (if outlined(
            rects@,
            rects@.len() as int,
            width as nat,
            height as nat,
            x,
            y,
        ) {
            255u8
        } else {
            old(buffer)@[y * width + x]
        }),
        forall|k: int, y: int, x: int|
            #![trigger rects@[k], final(buffer)@[y * width + x]]
            0 <= k < rects@.len() && 0 <= y < height && 0 <= x < width && on_border(
                rects@[k],
                thickness_spec(rects@[k], width as nat, height as nat) as int,
                x,
                y,
            ) ==> final(buffer)@[y * width + x] == 255u8,
{
    let ghost b0 = buffer@;
    let mut k: usize = 0;
    while k < rects.len()
        invariant
            k <= rects@.len(),
            buffer@.len() == width * height,
            b0.len() == width * height,
            forall|j: int| 0 <= j < rects@.len() ==> #[trigger] rect_in_frame(rects@[j], width as nat, height as nat),
            forall|y: int, x: int| 0 <= y < height && 0 <= x < width ==> #[trigger] buffer@[y * width + x] == (if outlined(rects@, k as int, width as nat, height as nat, x, y) {
                255u8
            } else {
                b0[y * width + x]
            }),
        decreases rects@.len() - k,
    {
        let rect = rects[k];
        proof {
            assert(rect_in_frame(rects@[k as int], width as nat, height as nat));
        }
        draw_rect_luma(buffer, width, height, &rect);
        k = k + 1;
    }
    proof {
        assert forall|j: int, y: int, x: int|
            #![trigger rects@[j], buffer@[y * width + x]]
            0 <= j < rects@.len() && 0 <= y < height && 0 <= x < width && on_border(
                rects@[j],
                thickness_spec(rects@[j], width as nat, height as nat) as int,
                x,
                y,
            ) implies buffer@[y * width + x] == 255u8 by {
            lemma_outlined_iff(rects@, rects@.len() as int, width as nat, height as nat, x, y);
        }
    }
}

/// The colour of an outline in an RGB frame: a light red.
pub open spec fn outline_channel(c: int) -> u8 {
    if c == 0 { 255u8 } else { 64u8 }
}

/// Sets the three channels of pixel (`x`, `y`) of an RGB buffer whose rows
/// are `stride` bytes apart, when the whole pixel lies in the buffer.
pub fn tint_pixel(buffer: &mut [u8], stride: usize, y: usize, x: usize, color: [u8; 3])
    requires
        y * stride + x * 3 + 2 <= usize::MAX,
    ensures
        ({
            let idx = y * stride + x * 3;
            if idx + 2 >= old(buffer)@.len() {
                final(buffer)@ == old(buffer)@
            } else {
                final(buffer)@ == old(buffer)@.update(idx, color@[0]).update(idx + 1, color@[1]).update(idx + 2, color@[2])
            }
        }),
{
    let idx = y * stride + x * 3;
    if idx + 2 >= buffer.len() {
        return;
    }
    buffer[idx] = color[0];
    buffer[idx + 1] = color[1];
    buffer[idx + 2] = color[2];
}

/// Writing the outline colour at pixel (`y`, `x`) of a `w` by `h` RGB
/// buffer changes that pixel alone.
pub proof fn lemma_set_pixel(before: Seq<u8>, after: Seq<u8>, w: nat, h: nat, y: int, x: int)
    requires
        before.len() == 3 * (w * h),
        0 <= y < h,
        0 <= x < w,
        after == before.update((y * w + x) * 3, outline_channel(0)).update((y * w + x) * 3 + 1, outline_channel(1)).update(
            (y * w + x) * 3 + 2,
            outline_channel(2),
        ),
    ensures
        forall|yy: int, xx: int, c: int|
            0 <= yy < h && 0 <= xx < w && 0 <= c < 3 ==> #[trigger] after[(yy * w + xx) * 3 + c] == (if yy == y && xx == x {
                outline_channel(c)
            } else {
                before[(yy * w + xx) * 3 + c]
            }),
{
    lemma_cell_in_plane(y, x, w as int, h as int);
    assert forall|yy: int, xx: int, c: int|
        0 <= yy < h && 0 <= xx < w && 0 <= c < 3 implies #[trigger] after[(yy * w + xx) * 3 + c] == (if yy == y && xx == x {
            outline_channel(c)
        } else {
            before[(yy * w + xx) * 3 + c]
        }) by {
        lemma_cell_in_plane(yy, xx, w as int, h as int);
        if yy != y || xx != x {
            lemma_cells_distinct(yy, xx, y, x, w as int);
        }
    }
}

proof fn lemma_pixel_index(w: nat, h: nat, y: int, x: int)
    requires
        0 <= y < h,
        0 <= x < w,
    ensures
        y * (w * 3) + x * 3 == (y * w + x) * 3,
        (y * w + x) * 3 + 2 < 3 * (w * h),
{
    lemma_cell_in_plane(y, x, w as int, h as int);
    assert(y * (w * 3) + x * 3 == (y * w + x) * 3) by (nonlinear_arith);
}

/// Outlines one rectangle on an RGB frame.
fn draw_rect_rgb(buffer: &mut [u8], width: usize, height: usize, rect: &Rect)
    requires
        old(buffer)@.len() == 3 * (width * height),
        rect_in_frame(*rect, width as nat, height as nat),
    ensures
        final(buffer)@.len() == old(buffer)@.len(),
        forall|y: int, x: int, c: int|
            0 <= y < height && 0 <= x < width && 0 <= c < 3 ==> #[trigger] final(buffer)@[(y * width + x) * 3 + c] == (if on_border(
                *rect,
                thickness_spec(*rect, width as nat, height as nat) as int,
                x,
                y,
            ) {
                outline_channel(c)
            } else {
                old(buffer)@[(y * width + x) * 3 + c]
            }),
{
    let n = buffer.len();
    proof {
        lemma_pixel_index(width as nat, height as nat, 0, 0);
        assert(width * 3 * height == 3 * (width * height)) by (nonlinear_arith);
        assert(width <= width * height) by (nonlinear_arith)
            requires
                height >= 1,
        ;
    }
    let stride = width * 3;
    let ghost b0 = buffer@;
    let thickness = rect_thickness(rect, width, height);
    let color: [u8; 3] = [255, 64, 64];
    let mut next: usize = 0;
    while next < thickness
        invariant
            thickness == thickness_spec(*rect, width as nat, height as nat),
            next <= thickness,
            stride == width * 3,
            color@ == seq![255u8, 64u8, 64u8],
            n == buffer@.len(),
            buffer@.len() == 3 * (width * height),
            b0.len() == 3 * (width * height),
            rect_in_frame(*rect, width as nat, height as nat),
            forall|y: int, x: int, c: int|
                0 <= y < height && 0 <= x < width && 0 <= c < 3 ==> #[trigger] buffer@[(y * width + x) * 3 + c] == (if on_border(*rect, next as int, x, y) {
                    outline_channel(c)
                } else {
                    b0[(y * width + x) * 3 + c]
                }),
        ensures
            next == thickness,
        decreases thickness - next,
    {
        let offset = next;
        next = next + 1;
        proof {
            assert(rect.y0 + offset <= rect.y1 && rect.x0 + offset <= rect.x1);
        }
        let top = rect.y0.saturating_add(offset);
        if top > rect.y1 {
            break;
        }
        let bottom = rect.y1.saturating_sub(offset);
        let mut x = rect.x0;
        while x <= rect.x1
            invariant
                rect_in_frame(*rect, width as nat, height as nat),
                rect.x0 <= x <= rect.x1 + 1,
                stride == width * 3,
                color@ == seq![255u8, 64u8, 64u8],
                top == rect.y0 + offset,
                top <= rect.y1,
                bottom == rect.y1 - offset,
                n == buffer@.len(),
                buffer@.len() == 3 * (width * height),
                b0.len() == 3 * (width * height),
                forall|y: int, xx: int, c: int|
                    0 <= y < height && 0 <= xx < width && 0 <= c < 3 ==> #[trigger] buffer@[(y * width + xx) * 3 + c] == (if on_border(*rect, offset as int, xx, y)
                        || ((y == top || y == bottom) && rect.x0 <= xx < x) {
                        outline_channel(c)
                    } else {
                        b0[(y * width + xx) * 3 + c]
                    }),
            decreases rect.x1 + 1 - x,
        {
            if top < height {
                proof {
                    lemma_pixel_index(width as nat, height as nat, top as int, x as int);
                }
                let ghost before = buffer@;
                tint_pixel(buffer, stride, top, x, color);
                proof {
                    lemma_set_pixel(before, buffer@, width as nat, height as nat, top as int, x as int);
                }
            }
            if bottom < height {
                proof {
                    lemma_pixel_index(width as nat, height as nat, bottom as int, x as int);
                }
                let ghost before = buffer@;
                tint_pixel(buffer, stride, bottom, x, color);
                proof {
                    lemma_set_pixel(before, buffer@, width as nat, height as nat, bottom as int, x as int);
                }
            }
            x = x + 1;
        }
        let left = rect.x0.saturating_add(offset);
        if left > rect.x1 {
            break;
        }
        let right = rect.x1.saturating_sub(offset);
        let mut y = rect.y0;
        while y <= rect.y1
            invariant
                rect_in_frame(*rect, width as nat, height as nat),
                rect.y0 <= y <= rect.y1 + 1,
                stride == width * 3,
                color@ == seq![255u8, 64u8, 64u8],
                top == rect.y0 + offset,
                top <= rect.y1,
                bottom == rect.y1 - offset,
                left == rect.x0 + offset,
                left <= rect.x1,
                right == rect.x1 - offset,
                n == buffer@.len(),
                buffer@.len() == 3 * (width * height),
                b0.len() == 3 * (width * height),
                forall|yy: int, xx: int, c: int|
                    0 <= yy < height && 0 <= xx < width && 0 <= c < 3 ==> #[trigger] buffer@[(yy * width + xx) * 3 + c] == (if on_border(*rect, offset as int, xx, yy)
                        || ((yy == top || yy == bottom) && rect.x0 <= xx <= rect.x1)
                        || ((xx == left || xx == right) && rect.y0 <= yy < y) {
                        outline_channel(c)
                    } else {
                        b0[(yy * width + xx) * 3 + c]
                    }),
            decreases rect.y1 + 1 - y,
        {
            if y < height {
                proof {
                    lemma_pixel_index(width as nat, height as nat, y as int, left as int);
                }
                let ghost before = buffer@;
                tint_pixel(buffer, stride, y, left, color);
                proof {
                    lemma_set_pixel(before, buffer@, width as nat, height as nat, y as int, left as int);
                    lemma_pixel_index(width as nat, height as nat, y as int, right as int);
                }
                let ghost before2 = buffer@;
                tint_pixel(buffer, stride, y, right, color);
                proof {
                    lemma_set_pixel(before2, buffer@, width as nat, height as nat, y as int, right as int);
                }
            }
            y = y + 1;
        }
        proof {
            assert forall|yy: int, xx: int| 0 <= yy < height && 0 <= xx < width implies (on_border(*rect, offset + 1, xx, yy) <==> (on_border(*rect, offset as int, xx, yy)
                || ((yy == top || yy == bottom) && rect.x0 <= xx <= rect.x1)
                || ((xx == left || xx == right) && rect.y0 <= yy <= rect.y1))) by {}
        }
    }
}

/// Outlines every rectangle on a `width` by `height` RGB frame in light
/// red.
pub fn draw_rectangles_rgb(buffer: &mut [u8], width: usize, height: usize, rects: &[Rect])
    requires
        old(buffer)@.len() == 3 * (width * height),
        forall|k: int| 0 <= k < rects@.len() ==> #[trigger] rect_in_frame(rects@[k], width as nat, height as nat),
    ensures
        final(buffer)@.len() == old(buffer)@.len(),
        forall|y: int, x: int, c: int|
            0 <= y < height && 0 <= x < width && 0 <= c < 3 ==> #[trigger] final(buffer)@[(y * width + x) * 3 + c] == (if outlined(
                rects@,
                rects@.len() as int,
                width as nat,
                height as nat,
                x,
                y,
            ) {
                outline_channel(c)
            } else {
                old(buffer)@[(y * width + x) * 3 + c]
            }),
        forall|k: int, y: int, x: int, c: int|
            #![trigger rects@[k], final(buffer)@[(y * width + x) * 3 + c]]
            0 <= k < rects@.len() && 0 <= y < height && 0 <= x < width && 0 <= c < 3 && on_border(
                rects@[k],
                thickness_spec(rects@[k], width as nat, height as nat) as int,
                x,
                y,
            ) ==> final(buffer)@[(y * width + x) * 3 + c] == outline_channel(c),
{
    let ghost b0 = buffer@;
    let mut k: usize = 0;
    while k < rects.len()
        invariant
            k <= rects@.len(),
            buffer@.len() == 3 * (width * height),
            b0.len() == 3 * (width * height),
            forall|j: int| 0 <= j < rects@.len() ==> #[trigger] rect_in_frame(rects@[j], width as nat, height as nat),
            forall|y: int, x: int, c: int|
                0 <= y < height && 0 <= x < width && 0 <= c < 3 ==> #[trigger] buffer@[(y * width + x) * 3 + c] == (if outlined(
                    rects@,
                    k as int,
                    width as nat,
                    height as nat,
                    x,
                    y,
                ) {
                    outline_channel(c)
                } else {
                    b0[(y * width + x) * 3 + c]
                }),
        decreases rects@.len() - k,
    {
        let rect = rects[k];
        proof {
            assert(rect_in_frame(rects@[k as int], width as nat, height as nat));
        }
        draw_rect_rgb(buffer, width, height, &rect);
        k = k + 1;
    }
    proof {
        assert forall|j: int, y: int, x: int, c: int|
            #![trigger rects@[j], buffer@[(y * width + x) * 3 + c]]
            0 <= j < rects@.len() && 0 <= y < height && 0 <= x < width && 0 <= c < 3 && on_border(
                rects@[j],
                thickness_spec(rects@[j], width as nat, height as nat) as int,
                x,
                y,
            ) implies buffer@[(y * width + x) * 3 + c] == outline_channel(c) by {
            lemma_outlined_iff(rects@, rects@.len() as int, width as nat, height as nat, x, y);
        }
    }
}

/// A grey RGB image of a luma buffer: each value repeated on the three
/// channels.
pub fn luma_to_rgb(buffer: &[u8]) -> (rgb: Vec<u8>)
    requires
        buffer@.len() * 3 <= usize::MAX,
    ensures
        rgb@.len() == buffer@.len() * 3,
        forall|i: int, c: int| 0 <= i < buffer@.len() && 0 <= c < 3 ==> #[trigger] rgb@[i * 3 + c] == buffer@[i],
{
    let mut rgb: Vec<u8> = Vec::new();
    let mut i: usize = 0;
    while i < buffer.len()
        invariant
            i <= buffer@.len(),
            buffer@.len() * 3 <= usize::MAX,
            rgb@.len() == i * 3,
            forall|j: int, c: int| 0 <= j < i && 0 <= c < 3 ==> #[trigger] rgb@[j * 3 + c] == buffer@[j],
        decreases buffer@.len() - i,
    {
        let value = buffer[i];
        let ghost before = rgb@;
        rgb.push(value);
        rgb.push(value);
        rgb.push(value);
        proof {
            assert forall|j: int, c: int| 0 <= j < i + 1 && 0 <= c < 3 implies #[trigger] rgb@[j * 3 + c] == buffer@[j] by {
                if j < i {
                    assert(j * 3 + c < i * 3);
                    assert(rgb@[j * 3 + c] == before[j * 3 + c]);
                } else {
                    assert(j * 3 + c == i * 3 + c);
                }
            }
        }
        i = i + 1;
    }
    rgb
}

/// The rectangle covering pixel edges `(start_x, start_y, end_x, end_y)`
/// (ends exclusive) cut to a `fw` by `fh` frame, or none when nothing of
/// it is left; the frame sides are taken as `i32` like the edges.
pub open spec fn edge_rect(e: (i32, i32, i32, i32), fw: usize, fh: usize) -> Option<Rect> {
    let fwi = fw as i32;
    let fhi = fh as i32;
    if e.2 <= 0 || e.3 <= 0 {
        None
    } else {
        let sx: int = if e.0 >= 0 { e.0 as int } else { 0 };
        let sy: int = if e.1 >= 0 { e.1 as int } else { 0 };
        let ex: int = if e.2 <= fwi { e.2 as int } else { fwi as int };
        let ey: int = if e.3 <= fhi { e.3 as int } else { fhi as int };
        if sx >= fwi || sy >= fhi || ex <= sx || ey <= sy {
            None
        } else {
            Some(Rect { x0: sx as usize, y0: sy as usize, x1: (ex - 1) as usize, y1: (ey - 1) as usize })
        }
    }
}

/// The rectangles left of the first `k` edge boxes, in order.
pub open spec fn edge_rects(edges: Seq<(i32, i32, i32, i32)>, k: int, fw: usize, fh: usize) -> Seq<Rect>
    decreases k,
{
    if k <= 0 {
        Seq::empty()
    } else {
        edge_rects(edges, k - 1, fw, fh) + match edge_rect(edges[k - 1], fw, fh) {
            Some(r) => seq![r],
            None => Seq::empty(),
        }
    }
}

proof fn lemma_side_cast(n: usize)
    ensures
        (n as i32) as int <= n as int,
{
    assert((n as i32) as int <= n as int) by (bit_vector);
}

/// The frame rectangles of detected regions given by their pixel edges
/// `(floor(x), floor(y), ceil(x + width), ceil(y + height))`: each cut to
/// the frame, the empty ones dropped; none for an empty frame.
pub fn regions_to_rects(edges: &[(i32, i32, i32, i32)], frame_width: usize, frame_height: usize) -> (rects: Vec<Rect>)
    ensures
        (frame_width == 0 || frame_height == 0) ==> rects@.len() == 0,
        (frame_width > 0 && frame_height > 0) ==> rects@ == edge_rects(edges@, edges@.len() as int, frame_width, frame_height),
        forall|k: int| 0 <= k < rects@.len() ==> #[trigger] rect_in_frame(rects@[k], frame_width as nat, frame_height as nat),
{
    let mut rects: Vec<Rect> = Vec::new();
    if frame_width == 0 || frame_height == 0 {
        return rects;
    }
    proof {
        lemma_side_cast(frame_width);
        lemma_side_cast(frame_height);
    }
    let fw = frame_width as i32;
    let fh = frame_height as i32;
    let mut k: usize = 0;
    while k < edges.len()
        invariant
            k <= edges@.len(),
            fw == frame_width as i32,
            fh == frame_height as i32,
            fw as int <= frame_width,
            fh as int <= frame_height,
            rects@ == edge_rects(edges@, k as int, frame_width, frame_height),
            forall|j: int| 0 <= j < rects@.len() ==> #[trigger] rect_in_frame(rects@[j], frame_width as nat, frame_height as nat),
        decreases edges@.len() - k,
    {
        let (sx0, sy0, ex0, ey0) = edges[k];
        k = k + 1;
        if ex0 <= 0 || ey0 <= 0 {
            continue;
        }
        let start_x = if sx0 >= 0 { sx0 } else { 0 };
        let start_y = if sy0 >= 0 { sy0 } else { 0 };
        let end_x = if ex0 <= fw { ex0 } else { fw };
        let end_y = if ey0 <= fh { ey0 } else { fh };
        if start_x >= fw || start_y >= fh {
            continue;
        }
        if end_x <= start_x || end_y <= start_y {
            continue;
        }
        let ghost before = rects@;
        rects.push(Rect {
            x0: start_x as usize,
            y0: start_y as usize,
            x1: (end_x - 1) as usize,
            y1: (end_y - 1) as usize,
        });
        proof {
            assert forall|j: int| 0 <= j < rects@.len() implies #[trigger] rect_in_frame(rects@[j], frame_width as nat, frame_height as nat) by {
                if j < before.len() {
                    assert(rects@[j] == before[j]);
                }
            }
        }
    }
    rects
}

#[verifier::external_type_specification]
#[verifier::external_body]
pub struct ExImageError(image::ImageError);

/// Why a frame could not be prepared for writing.
#[derive(Debug)]
pub enum WriteFrameError {
    /// The image encoder refused the pixels.
    Encode(image::ImageError),
    /// The plane is shorter than `stride * height` bytes or than its last
    /// row needs, or that product overflows.
    PlaneBounds { stride: usize, width: usize, height: usize },
}

/// The bytes of the JPEG file that the `image` crate writes for these
/// pixels (grey, or RGB when `rgb`) at this quality.
pub uninterp spec fn jpeg_encoding(pixels: Seq<u8>, width: u32, height: u32, rgb: bool, quality: u8) -> Seq<u8>;

/// The bytes of the PNG file that the `image` crate writes for these pixels.
pub uninterp spec fn png_encoding(pixels: Seq<u8>, width: u32, height: u32, rgb: bool) -> Seq<u8>;

/// The bytes of the lossless WebP file that the `image` crate writes for
/// these pixels.
pub uninterp spec fn webp_encoding(pixels: Seq<u8>, width: u32, height: u32, rgb: bool) -> Seq<u8>;

/// The bytes per pixel of a grey or an RGB buffer.
pub open spec fn pixel_bytes(rgb: bool) -> int {
    if rgb { 3 } else { 1 }
}

/// The chosen format can encode a `width` by `height` picture: JPEG takes
/// sides of 1 to 65535 pixels, PNG any non-empty size, lossless WebP sides
/// of 1 to 16384 pixels, and raw planes any size.
pub open spec fn encoding_succeeds(format: ImageOutputFormat, width: u32, height: u32) -> bool {
    match format {
        ImageOutputFormat::Jpeg { .. } => 1 <= width <= 65535 && 1 <= height <= 65535,
        ImageOutputFormat::Png => width > 0 && height > 0,
        ImageOutputFormat::Webp => 1 <= width <= 16384 && 1 <= height <= 16384,
        ImageOutputFormat::Yuv => true,
    }
}

/// The plane of `len` bytes holds a `width` by `height` picture with rows
/// `stride` bytes apart: `stride * height` fits and is at most `len`, and
/// so is the end of the last row.
pub open spec fn plane_holds(len: nat, width: nat, height: nat, stride: nat) -> bool {
    &&& stride * height <= usize::MAX
    &&& len >= stride * height
    &&& height > 0 ==> (height - 1) * stride + width <= len
}

/// Encodes pixels with `image::codecs::jpeg::JpegEncoder::new_with_quality`
/// and `encode`. Claimed: a successful encoding is the named JPEG encoding
/// of the pixels, dimensions, layout and quality, and the encoding succeeds
/// exactly when both dimensions are 1 to 65535 (the encoder's size check;
/// writing into a `Vec` cannot fail); the buffer length the encoder asserts
/// is required.
#[verifier::external_body]
fn encode_jpeg(pixels: &[u8], width: u32, height: u32, rgb: bool, quality: u8) -> (r: Result<Vec<u8>, image::ImageError>)
    requires
        pixels@.len() == width * height * pixel_bytes(rgb),
    ensures
        r is Ok <==> encoding_succeeds(ImageOutputFormat::Jpeg { quality }, width, height),
        r matches Ok(bytes) ==> bytes@ == jpeg_encoding(pixels@, width, height, rgb, quality),
{
    let color = if rgb { image::ExtendedColorType::Rgb8 } else { image::ExtendedColorType::L8 };
    let mut encoded = Vec::new();
    JpegEncoder::new_with_quality(&mut encoded, quality).encode(pixels, width, height, color)?;
    Ok(encoded)
}

/// Encodes pixels with `image::codecs::png::PngEncoder::new` and
/// `ImageEncoder::write_image`. Claimed: a successful encoding is the named
/// PNG encoding of the pixels, dimensions and layout, and the encoding
/// succeeds exactly when neither dimension is 0 (the `png` writer's header
/// check; grey and RGB at 8 bits are valid, and writing into a `Vec` cannot
/// fail); the buffer length the encoder asserts is required.
#[verifier::external_body]
fn encode_png(pixels: &[u8], width: u32, height: u32, rgb: bool) -> (r: Result<Vec<u8>, image::ImageError>)
    requires
        pixels@.len() == width * height * pixel_bytes(rgb),
    ensures
        r is Ok <==> encoding_succeeds(ImageOutputFormat::Png, width, height),
        r matches Ok(bytes) ==> bytes@ == png_encoding(pixels@, width, height, rgb),
{
    let color = if rgb { image::ExtendedColorType::Rgb8 } else { image::ExtendedColorType::L8 };
    let mut encoded = Vec::new();
    PngEncoder::new(&mut encoded).write_image(pixels, width, height, color)?;
    Ok(encoded)
}

/// Encodes pixels with `image::codecs::webp::WebPEncoder::new_lossless` and
/// `encode`. Claimed: a successful encoding is the named WebP encoding of
/// the pixels, dimensions and layout, and the encoding succeeds exactly when
/// both dimensions are 1 to 16384 (the `image-webp` size check; writing into
/// a `Vec` cannot fail); the buffer length the encoder asserts is required.
#[verifier::external_body]
fn encode_webp(pixels: &[u8], width: u32, height: u32, rgb: bool) -> (r: Result<Vec<u8>, image::ImageError>)
    requires
        pixels@.len() == width * height * pixel_bytes(rgb),
    ensures
        r is Ok <==> encoding_succeeds(ImageOutputFormat::Webp, width, height),
        r matches Ok(bytes) ==> bytes@ == webp_encoding(pixels@, width, height, rgb),
{
    let color = if rgb { image::ExtendedColorType::Rgb8 } else { image::ExtendedColorType::L8 };
    let mut encoded = Vec::new();
    WebPEncoder::new_lossless(&mut encoded).encode(pixels, width, height, color)?;
    Ok(encoded)
}

/// The `width` by `height` luma plane with rows `stride` bytes apart packed
/// row after row; `PlaneBounds` when the plane does not hold the picture.
pub fn pack_luma(data: &[u8], width: usize, height: usize, stride: usize) -> (r: Result<Vec<u8>, WriteFrameError>)
    ensures
        !plane_holds(data@.len(), width as nat, height as nat, stride as nat) ==> r == Err::<Vec<u8>, WriteFrameError>(
            WriteFrameError::PlaneBounds { stride, width, height },
        ),
        plane_holds(data@.len(), width as nat, height as nat, stride as nat) ==> (r matches Ok(buf) && buf@ == copied_rows(
            data@,
            width as nat,
            stride as nat,
            height as nat,
        ) && buf@.len() == width * height),
{
    let required = match stride.checked_mul(height) {
        Some(v) => v,
        None => {
            return Err(WriteFrameError::PlaneBounds { stride, width, height });
        },
    };
    if data.len() < required {
        return Err(WriteFrameError::PlaneBounds { stride, width, height });
    }
    if height > 0 {
        proof {
            assert((height - 1) * stride <= stride * height) by (nonlinear_arith)
                requires
                    height > 0,
            ;
        }
        let last = (height - 1) * stride;
        match last.checked_add(width) {
            Some(end) => {
                if end > data.len() {
                    return Err(WriteFrameError::PlaneBounds { stride, width, height });
                }
            },
            None => {
                return Err(WriteFrameError::PlaneBounds { stride, width, height });
            },
        }
    }
    proof {
        lemma_copied_rows(data@, width as nat, stride as nat, height as nat);
    }
    let mut buffer: Vec<u8> = Vec::new();
    let mut row: usize = 0;
    while row < height
        invariant
            row <= height,
            height > 0 ==> (height - 1) * stride + width <= data@.len(),
            data@.len() <= usize::MAX,
            buffer@ == copied_rows(data@, width as nat, stride as nat, row as nat),
        decreases height - row,
    {
        proof {
            assert(row * stride <= (height - 1) * stride) by (nonlinear_arith)
                requires
                    row < height,
            ;
        }
        let start = row * stride;
        let end = start + width;
        let ghost before = buffer@;
        buffer.extend_from_slice(&data[start..end]);
        proof {
            assert(buffer@ =~= before + data@.subrange(start as int, end as int));
        }
        row = row + 1;
    }
    Ok(buffer)
}

/// A frame ready to be written: the file's bytes and its extension.
pub struct EncodedFrame {
    pub bytes: Vec<u8>,
    pub extension: &'static str,
}

/// Encodes pixels (grey, or RGB when `rgb`) in the chosen format; raw
/// pixels for `Yuv`.
fn encode_pixels(pixels: Vec<u8>, width: u32, height: u32, rgb: bool, format: ImageOutputFormat) -> (r: Result<EncodedFrame, WriteFrameError>)
    requires
        pixels@.len() == width * height * pixel_bytes(rgb),
    ensures
        r is Ok <==> encoding_succeeds(format, width, height),
        r matches Err(e) ==> e is Encode,
        format is Yuv ==> (r matches Ok(f) && f.bytes@ == pixels@ && f.extension@ == "yuv"@),
        format matches ImageOutputFormat::Jpeg { quality } ==> (r matches Ok(f) ==> f.bytes@ == jpeg_encoding(
            pixels@,
            width,
            height,
            rgb,
            quality,
        ) && f.extension@ == "jpg"@),
        format is Png ==> (r matches Ok(f) ==> f.bytes@ == png_encoding(pixels@, width, height, rgb) && f.extension@ == "png"@),
        format is Webp ==> (r matches Ok(f) ==> f.bytes@ == webp_encoding(pixels@, width, height, rgb) && f.extension@ == "webp"@),
{
    match format {
        ImageOutputFormat::Jpeg { quality } => match encode_jpeg(&pixels, width, height, rgb, quality) {
            Ok(bytes) => Ok(EncodedFrame { bytes, extension: "jpg" }),
            Err(e) => Err(WriteFrameError::Encode(e)),
        },
        ImageOutputFormat::Png => match encode_png(&pixels, width, height, rgb) {
            Ok(bytes) => Ok(EncodedFrame { bytes, extension: "png" }),
            Err(e) => Err(WriteFrameError::Encode(e)),
        },
        ImageOutputFormat::Webp => match encode_webp(&pixels, width, height, rgb) {
            Ok(bytes) => Ok(EncodedFrame { bytes, extension: "webp" }),
            Err(e) => Err(WriteFrameError::Encode(e)),
        },
        ImageOutputFormat::Yuv => Ok(EncodedFrame { bytes: pixels, extension: "yuv" }),
    }
}

/// A grey frame, for writing as it is: `None` for an empty frame, else the
/// plane packed and encoded in the chosen format.
pub fn encode_luma_frame(data: &[u8], width: u32, height: u32, stride: usize, format: ImageOutputFormat) -> (r: Result<Option<EncodedFrame>, WriteFrameError>)
    ensures
        (width == 0 || height == 0) ==> (r matches Ok(None)),
        (width > 0 && height > 0 && !plane_holds(data@.len(), width as nat, height as nat, stride as nat)) ==> r == Err::<
            Option<EncodedFrame>,
            WriteFrameError,
        >(WriteFrameError::PlaneBounds { stride, width: width as usize, height: height as usize }),
        (width > 0 && height > 0 && plane_holds(data@.len(), width as nat, height as nat, stride as nat)) ==> ({
            let packed = copied_rows(data@, width as nat, stride as nat, height as nat);
            &&& r is Ok <==> encoding_succeeds(format, width, height)
            &&& r matches Err(e) ==> e is Encode
            &&& r is Ok ==> r->Ok_0 is Some
            &&& format is Yuv ==> (r matches Ok(Some(f)) && f.bytes@ == packed && f.extension@ == "yuv"@)
            &&& format matches ImageOutputFormat::Jpeg { quality } ==> (r matches Ok(Some(f)) ==> f.bytes@ == jpeg_encoding(
                packed,
                width,
                height,
                false,
                quality,
            ) && f.extension@ == "jpg"@)
            &&& format is Png ==> (r matches Ok(Some(f)) ==> f.bytes@ == png_encoding(packed, width, height, false)
                && f.extension@ == "png"@)
            &&& format is Webp ==> (r matches Ok(Some(f)) ==> f.bytes@ == webp_encoding(packed, width, height, false)
                && f.extension@ == "webp"@)
        }),
{
    let w = width as usize;
    let h = height as usize;
    if w == 0 || h == 0 {
        return Ok(None);
    }
    let buffer = match pack_luma(data, w, h, stride) {
        Ok(b) => b,
        Err(e) => {
            return Err(e);
        },
    };
    match encode_pixels(buffer, width, height, false, format) {
        Ok(f) => Ok(Some(f)),
        Err(e) => Err(e),
    }
}

/// A packed grey plane with the rectangles outlined in white.
pub open spec fn luma_outlined(buf: Seq<u8>, rects: Seq<Rect>, w: nat, h: nat) -> Seq<u8> {
    Seq::new(buf.len(), |i: int| if outlined(rects, rects.len() as int, w, h, i % (w as int), i / (w as int)) { 255u8 } else { buf[i] })
}

/// A packed grey plane turned to RGB with the rectangles outlined in light
/// red.
pub open spec fn rgb_outlined(buf: Seq<u8>, rects: Seq<Rect>, w: nat, h: nat) -> Seq<u8> {
    Seq::new(
        buf.len() * 3,
        |j: int|
            {
                let i = j / 3;
                if outlined(rects, rects.len() as int, w, h, i % (w as int), i / (w as int)) {
                    outline_channel(j % 3)
                } else {
                    buf[i]
                }
            },
    )
}

proof fn lemma_cell_of(i: int, w: int, h: int)
    requires
        0 <= i < w * h,
        w > 0,
    ensures
        0 <= i / w < h,
        0 <= i % w < w,
        (i / w) * w + i % w == i,
{
    vstd::arithmetic::div_mod::lemma_fundamental_div_mod(i, w);
    assert(0 <= i / w < h && 0 <= i % w < w) by (nonlinear_arith)
        requires
            0 <= i < w * h,
            w > 0,
            i == w * (i / w) + i % w,
            0 <= i % w < w,
    ;
    assert((i / w) * w == w * (i / w)) by (nonlinear_arith);
}

/// A frame with the detected regions outlined, for writing: `None` for an
/// empty frame; else the plane packed, the regions (given by their pixel
/// edges) turned into frame rectangles and outlined, in white on the grey
/// plane for `Yuv`, in light red on its RGB copy for the encoded formats.
pub fn encode_annotated_frame(
    data: &[u8],
    width: u32,
    height: u32,
    stride: usize,
    edges: &[(i32, i32, i32, i32)],
    format: ImageOutputFormat,
) -> (r: Result<Option<EncodedFrame>, WriteFrameError>)
    requires
        !(format is Yuv) ==> width * height * 3 <= usize::MAX,
    ensures
        (width == 0 || height == 0) ==> (r matches Ok(None)),
        (width > 0 && height > 0 && !plane_holds(data@.len(), width as nat, height as nat, stride as nat)) ==> r == Err::<
            Option<EncodedFrame>,
            WriteFrameError,
        >(WriteFrameError::PlaneBounds { stride, width: width as usize, height: height as usize }),
        (width > 0 && height > 0 && plane_holds(data@.len(), width as nat, height as nat, stride as nat)) ==> ({
            let packed = copied_rows(data@, width as nat, stride as nat, height as nat);
            let rects = edge_rects(edges@, edges@.len() as int, width as usize, height as usize);
            let grey = luma_outlined(packed, rects, width as nat, height as nat);
            let rgb = rgb_outlined(packed, rects, width as nat, height as nat);
            &&& r is Ok <==> encoding_succeeds(format, width, height)
            &&& r matches Err(e) ==> e is Encode
            &&& r is Ok ==> r->Ok_0 is Some
            &&& format is Yuv ==> (r matches Ok(Some(f)) && f.bytes@ == grey && f.extension@ == "yuv"@)
            &&& format matches ImageOutputFormat::Jpeg { quality } ==> (r matches Ok(Some(f)) ==> f.bytes@ == jpeg_encoding(
                rgb,
                width,
                height,
                true,
                quality,
            ) && f.extension@ == "jpg"@)
            &&& format is Png ==> (r matches Ok(Some(f)) ==> f.bytes@ == png_encoding(rgb, width, height, true)
                && f.extension@ == "png"@)
            &&& format is Webp ==> (r matches Ok(Some(f)) ==> f.bytes@ == webp_encoding(rgb, width, height, true)
                && f.extension@ == "webp"@)
        }),
{
    let w = width as usize;
    let h = height as usize;
    if w == 0 || h == 0 {
        return Ok(None);
    }
    let mut buffer = match pack_luma(data, w, h, stride) {
        Ok(b) => b,
        Err(e) => {
            return Err(e);
        },
    };
    let ghost packed = buffer@;
    let rects = regions_to_rects(edges, w, h);
    let ghost rs = rects@;
    if let ImageOutputFormat::Yuv = format {
        if rects.len() > 0 {
            draw_rectangles_luma(&mut buffer, w, h, &rects);
        }
        proof {
            assert(buffer@ =~= luma_outlined(packed, rs, w as nat, h as nat)) by {
                assert forall|i: int| 0 <= i < buffer@.len() implies buffer@[i] == luma_outlined(packed, rs, w as nat, h as nat)[i] by {
                    lemma_cell_of(i, w as int, h as int);
                    let y = i / (w as int);
                    let x = i % (w as int);
                    assert(buffer@[y * w + x] == (if outlined(rs, rs.len() as int, w as nat, h as nat, x, y) { 255u8 } else { packed[y * w + x] }));
                }
            }
        }
        return Ok(Some(EncodedFrame { bytes: buffer, extension: "yuv" }));
    }
    let mut rgb_buffer = luma_to_rgb(&buffer);
    let ghost grey_rgb = rgb_buffer@;
    proof {
        assert(rgb_buffer@.len() == 3 * (w * h));
    }
    if rects.len() > 0 {
        draw_rectangles_rgb(&mut rgb_buffer, w, h, &rects);
    }
    proof {
        assert(rgb_buffer@ =~= rgb_outlined(packed, rs, w as nat, h as nat)) by {
            assert forall|j: int| 0 <= j < rgb_buffer@.len() implies rgb_buffer@[j] == rgb_outlined(packed, rs, w as nat, h as nat)[j] by {
                let i = j / 3;
                let c = j % 3;
                assert(i * 3 + c == j);
                assert(0 <= i < w * h);
                lemma_cell_of(i, w as int, h as int);
                let y = i / (w as int);
                let x = i % (w as int);
                assert(grey_rgb[i * 3 + c] == packed[i]);
                assert(rgb_buffer@[(y * w + x) * 3 + c] == (if outlined(rs, rs.len() as int, w as nat, h as nat, x, y) {
                    outline_channel(c)
                } else {
                    grey_rgb[(y * w + x) * 3 + c]
                }));
            }
        }
        assert(rgb_buffer@.len() == width * height * pixel_bytes(true)) by (nonlinear_arith)
            requires
                rgb_buffer@.len() == 3 * (w * h),
                w == width,
                h == height,
        ;
    }
    match encode_pixels(rgb_buffer, width, height, true, format) {
        Ok(f) => Ok(Some(f)),
        Err(e) => Err(e),
    }
}

} // verus!
