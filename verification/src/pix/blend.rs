//! Blending images: multiply, screen and overlay modes, tinting by a
//! color, compositing over a background color or through a gray mask, and
//! merging colormapped images.
//!
//! Blends with fractional weights round to the nearest integer; the exact
//! weighted value is never halfway between two integers, so the rounding
//! is unambiguous.

use vstd::prelude::*;
use super::{Pix, PixMut, PixelDepth, PixModel};
use super::model::{pmask, stored, new_ok};
use super::raster::{zip_new, map_new, lemma_stored_pixel, lemma_stored_small};
use super::graphics::Color;
use crate::color::{rgba_word, red_of, green_of, blue_of, alpha_of, compose_rgb, extract_rgb, extract_rgba};
use crate::colormap::{PixColormap, cmap_capacity};
use crate::error::{Error, Result, invalid_param};

verus! {

/// How a 1 bpp mask blends the pixels under it.
#[derive(Debug, Clone, Copy, PartialEq, Eq, Structural)]
pub enum MaskBlendType {
    /// Towards the inverse: `p -> (1 - f) p + f (1 - p)`.
    WithInverse,
    /// Towards white: `p -> p + f (1 - p)`.
    ToWhite,
    /// Towards black: `p -> (1 - f) p`.
    ToBlack,
}

/// How a gray image blends another.
#[derive(Debug, Clone, Copy, PartialEq, Eq, Structural)]
pub enum GrayBlendType {
    /// Linear interpolation: `(1 - f) base + f gray`.
    Gray,
    /// Towards the inverse, by the gray value: `d -> d + f (0.5 - d) (1 - c)`.
    GrayWithInverse,
}

/// Direction of fading by a gray image.
#[derive(Debug, Clone, Copy, PartialEq, Eq, Structural)]
pub enum FadeWithGrayType {
    /// Towards white.
    ToWhite,
    /// Towards black.
    ToBlack,
}

/// The edge from which a linear fade starts.
#[derive(Debug, Clone, Copy, PartialEq, Eq, Structural)]
pub enum FadeDirection {
    /// From the left edge.
    FromLeft,
    /// From the right edge.
    FromRight,
    /// From the top edge.
    FromTop,
    /// From the bottom edge.
    FromBottom,
}

/// What a linear edge fade fades to.
#[derive(Debug, Clone, Copy, PartialEq, Eq, Structural)]
pub enum FadeTarget {
    /// White.
    ToWhite,
    /// Black.
    ToBlack,
}

/// Blend modes.
#[derive(Debug, Clone, Copy, PartialEq, Eq, Structural)]
pub enum BlendMode {
    /// Weighted average: `(1 - f) base + f blend`.
    Normal,
    /// `base * blend / 255`: darkens; white leaves the base unchanged.
    Multiply,
    /// `255 - (255 - base) (255 - blend) / 255`: lightens; black leaves the
    /// base unchanged.
    Screen,
    /// Multiply below 128 and screen above, doubled.
    Overlay,
    /// Overlay decided by the blend layer.
    HardLight,
}

// ---------------------------------------------------------------------------
// Multiply, screen, overlay
// ---------------------------------------------------------------------------

/// One channel of a multiply, screen or overlay blend.
pub open spec fn blend_ch(mode: BlendMode, b: int, o: int) -> int {
    match mode {
        BlendMode::Multiply => b * o / 255,
        BlendMode::Screen => 255 - (255 - b) * (255 - o) / 255,
        BlendMode::Overlay => if b < 128 {
            2 * b * o / 255
        } else {
            255 - 2 * (255 - b) * (255 - o) / 255
        },
        _ => b,
    }
}

/// A pixel of a multiply, screen or overlay blend at depth `d` (8 or 32):
/// the gray value, or each color channel with alpha 0.
pub open spec fn blend_pixel(mode: BlendMode, d: PixelDepth, p: u32, q: u32) -> u32 {
    if d == PixelDepth::Bit8 {
        blend_ch(mode, p as int, q as int) as u32
    } else {
        rgba_word(
            blend_ch(mode, red_of(p) as int, red_of(q) as int) as u8,
            blend_ch(mode, green_of(p) as int, green_of(q) as int) as u8,
            blend_ch(mode, blue_of(p) as int, blue_of(q) as int) as u8,
            0,
        )
    }
}

proof fn lemma_blend_ch(mode: BlendMode, b: int, o: int)
    requires
        0 <= b <= 255,
        0 <= o <= 255,
    ensures
        0 <= blend_ch(mode, b, o) <= 255,
{
    assert(0 <= b * o <= 255 * 255) by (nonlinear_arith)
        requires
            0 <= b <= 255,
            0 <= o <= 255,
    ;
    assert(0 <= (255 - b) * (255 - o) <= 255 * 255) by (nonlinear_arith)
        requires
            0 <= b <= 255,
            0 <= o <= 255,
    ;
    if b < 128 {
        assert(0 <= 2 * b * o <= 254 * 255) by (nonlinear_arith)
            requires
                0 <= b <= 127,
                0 <= o <= 255,
        ;
    } else {
        assert(0 <= 2 * (255 - b) * (255 - o) <= 254 * 255) by (nonlinear_arith)
            requires
                128 <= b <= 255,
                0 <= o <= 255,
        ;
    }
}

/// One channel of a blend.
fn blend_channel(mode: BlendMode, b: u8, o: u8) -> (r: u8)
    requires
        mode == BlendMode::Multiply || mode == BlendMode::Screen || mode == BlendMode::Overlay,
    ensures
        r == blend_ch(mode, b as int, o as int),
{
    proof {
        lemma_blend_ch(mode, b as int, o as int);
    }
    let (b, o) = (b as u32, o as u32);
    let v: u32 = match mode {
        BlendMode::Multiply => b * o / 255,
        BlendMode::Screen => 255 - (255 - b) * (255 - o) / 255,
        _ => if b < 128 {
            2 * b * o / 255
        } else {
            255 - 2 * (255 - b) * (255 - o) / 255
        },
    };
    v as u8
}

/// A blended pixel.
fn blend_px(mode: BlendMode, d: PixelDepth, p: u32, q: u32) -> (r: u32)
    requires
        mode == BlendMode::Multiply || mode == BlendMode::Screen || mode == BlendMode::Overlay,
        d == PixelDepth::Bit8 ==> p <= 255 && q <= 255,
    ensures
        r == blend_pixel(mode, d, p, q),
{
    if d == PixelDepth::Bit8 {
        blend_channel(mode, p as u8, q as u8) as u32
    } else {
        let (pr, pg, pb) = extract_rgb(p);
        let (qr, qg, qb) = extract_rgb(q);
        compose_rgb(blend_channel(mode, pr, qr), blend_channel(mode, pg, qg), blend_channel(mode, pb, qb))
    }
}

/// The blend request is accepted.
pub open spec fn blend_accepted(a: PixModel, b: PixModel) -> bool {
    &&& a.width == b.width && a.height == b.height
    &&& a.depth == b.depth
    &&& a.depth == PixelDepth::Bit8 || a.depth == PixelDepth::Bit32
}

/// The error for a refused blend: sizes first, then depths.
pub open spec fn blend_error(a: PixModel, b: PixModel, e: Error) -> bool {
    if a.width != b.width || a.height != b.height {
        e == (Error::DimensionMismatch { expected: (a.width, a.height), actual: (b.width, b.height) })
    } else if a.depth != b.depth {
        e == Error::IncompatibleDepths(a.depth.nbits(), b.depth.nbits())
    } else {
        e == Error::UnsupportedDepth(a.depth.nbits())
    }
}

impl Pix {
    /// Blends two 8 bpp or two 32 bpp images of the same size pixel by
    /// pixel with `mode`.
    fn apply_blend(&self, other: &Pix, mode: BlendMode) -> (r: Result<Pix>)
        requires
            self@.wf(),
            other@.wf(),
            mode == BlendMode::Multiply || mode == BlendMode::Screen || mode == BlendMode::Overlay,
        ensures
            r is Ok <==> blend_accepted(self@, other@),
            r matches Ok(p) ==> p@.fresh_meta(self@.width, self@.height, self@.depth) && forall|x: int, y: int|
                p@.contains(x, y) ==> #[trigger] p@.pixel(x, y) == blend_pixel(mode, self@.depth, self@.pixel(x, y), other@.pixel(x, y)),
            r matches Err(e) ==> blend_error(self@, other@, e),
    {
        if self.width() != other.width() || self.height() != other.height() {
            return Err(Error::DimensionMismatch {
                expected: (self.width(), self.height()),
                actual: (other.width(), other.height()),
            });
        }
        let d = self.depth();
        if d != other.depth() {
            return Err(Error::IncompatibleDepths(d.bits(), other.depth().bits()));
        }
        if d != PixelDepth::Bit8 && d != PixelDepth::Bit32 {
            return Err(Error::UnsupportedDepth(d.bits()));
        }
        let f = |p: u32, q: u32| -> (o: u32)
            requires
                p <= pmask(d),
                q <= pmask(d),
            ensures
                o == blend_pixel(mode, d, p, q),
            { blend_px(mode, d, p, q) };
        proof {
            self@.lemma_new_ok();
        }
        let out = match zip_new(self, other, d, f, Ghost(|p: u32, q: u32| blend_pixel(mode, d, p, q))) {
            Ok(m) => m,
            Err(e) => {
                return Err(e);
            },
        };
        proof {
            assert forall|x: int, y: int| out@.contains(x, y) implies #[trigger] out@.pixel(x, y) == blend_pixel(
                mode,
                d,
                self@.pixel(x, y),
                other@.pixel(x, y),
            ) by {
                let v = blend_pixel(mode, d, self@.pixel(x, y), other@.pixel(x, y));
                if d == PixelDepth::Bit8 {
                    lemma_stored_pixel(self@, x, y);
                    lemma_stored_pixel(other@, x, y);
                    lemma_blend_ch(mode, self@.pixel(x, y) as int, other@.pixel(x, y) as int);
                }
                lemma_stored_small(d, v);
            }
        }
        Ok(out.into_pix())
    }

    /// Multiply blend of two 8 bpp or two 32 bpp images of the same size:
    /// `base * blend / 255` per gray value or color channel (alpha 0).
    ///
    /// # Errors
    ///
    /// [`Error::DimensionMismatch`], [`Error::IncompatibleDepths`], or
    /// [`Error::UnsupportedDepth`] for depths other than 8 and 32.
    pub fn blend_multiply(&self, other: &Pix) -> (r: Result<Pix>)
        requires
            self@.wf(),
            other@.wf(),
        ensures
            r is Ok <==> blend_accepted(self@, other@),
            r matches Ok(p) ==> p@.fresh_meta(self@.width, self@.height, self@.depth) && forall|x: int, y: int|
                p@.contains(x, y) ==> #[trigger] p@.pixel(x, y) == blend_pixel(BlendMode::Multiply, self@.depth, self@.pixel(x, y), other@.pixel(x, y)),
            r matches Err(e) ==> blend_error(self@, other@, e),
    {
        self.apply_blend(other, BlendMode::Multiply)
    }

    /// Screen blend: `255 - (255 - base) (255 - blend) / 255`.
    ///
    /// # Errors
    ///
    /// As [`Pix::blend_multiply`].
    pub fn blend_screen(&self, other: &Pix) -> (r: Result<Pix>)
        requires
            self@.wf(),
            other@.wf(),
        ensures
            r is Ok <==> blend_accepted(self@, other@),
            r matches Ok(p) ==> p@.fresh_meta(self@.width, self@.height, self@.depth) && forall|x: int, y: int|
                p@.contains(x, y) ==> #[trigger] p@.pixel(x, y) == blend_pixel(BlendMode::Screen, self@.depth, self@.pixel(x, y), other@.pixel(x, y)),
            r matches Err(e) ==> blend_error(self@, other@, e),
    {
        self.apply_blend(other, BlendMode::Screen)
    }

    /// Overlay blend: `2 base blend / 255` where the base is below 128,
    /// `255 - 2 (255 - base) (255 - blend) / 255` elsewhere.
    ///
    /// # Errors
    ///
    /// As [`Pix::blend_multiply`].
    pub fn blend_overlay(&self, other: &Pix) -> (r: Result<Pix>)
        requires
            self@.wf(),
            other@.wf(),
        ensures
            r is Ok <==> blend_accepted(self@, other@),
            r matches Ok(p) ==> p@.fresh_meta(self@.width, self@.height, self@.depth) && forall|x: int, y: int|
                p@.contains(x, y) ==> #[trigger] p@.pixel(x, y) == blend_pixel(BlendMode::Overlay, self@.depth, self@.pixel(x, y), other@.pixel(x, y)),
            r matches Err(e) ==> blend_error(self@, other@, e),
    {
        self.apply_blend(other, BlendMode::Overlay)
    }
}

// ---------------------------------------------------------------------------
// Tinting and compositing
// ---------------------------------------------------------------------------

/// `v * c / 255` rounded to the nearest integer.
pub open spec fn scale_ch(v: int, c: int) -> int {
    (2 * v * c + 255) / 510
}

/// `(a v + (255 - a) w) / 255` rounded to the nearest integer: `v` over
/// `w` at opacity `a / 255`.
pub open spec fn mix_ch(a: int, v: int, w: int) -> int {
    (2 * (a * v + (255 - a) * w) + 255) / 510
}

proof fn lemma_scale_ch(v: int, c: int)
    requires
        0 <= v <= 255,
        0 <= c <= 255,
    ensures
        0 <= scale_ch(v, c) <= 255,
{
    assert(0 <= 2 * v * c + 255 <= 2 * 255 * 255 + 255) by (nonlinear_arith)
        requires
            0 <= v <= 255,
            0 <= c <= 255,
    ;
}

proof fn lemma_mix_ch(a: int, v: int, w: int)
    requires
        0 <= a <= 255,
        0 <= v <= 255,
        0 <= w <= 255,
    ensures
        0 <= mix_ch(a, v, w) <= 255,
{
    assert(0 <= a * v + (255 - a) * w <= 255 * 255) by (nonlinear_arith)
        requires
            0 <= a <= 255,
            0 <= v <= 255,
            0 <= w <= 255,
    ;
}

/// `v * c / 255`, rounded.
fn scale_channel(v: u8, c: u8) -> (r: u8)
    ensures
        r == scale_ch(v as int, c as int),
{
    proof {
        lemma_scale_ch(v as int, c as int);
    }
    ((2 * (v as u32) * (c as u32) + 255) / 510) as u8
}

/// `v` over `w` at opacity `a / 255`, rounded.
fn mix_channel(a: u8, v: u8, w: u8) -> (r: u8)
    ensures
        r == mix_ch(a as int, v as int, w as int),
{
    proof {
        lemma_mix_ch(a as int, v as int, w as int);
    }
    let (a, v, w) = (a as u32, v as u32, w as u32);
    ((2 * (a * v + (255 - a) * w) + 255) / 510) as u8
}

/// A pixel tinted by a color.
pub open spec fn tint_pixel(p: u32, c: Color) -> u32 {
    rgba_word(
        scale_ch(red_of(p) as int, c.r as int) as u8,
        scale_ch(green_of(p) as int, c.g as int) as u8,
        scale_ch(blue_of(p) as int, c.b as int) as u8,
        0,
    )
}

/// A pixel composited by its own alpha over the background color `bg`.
pub open spec fn over_pixel(p: u32, bg: u32) -> u32 {
    let a = alpha_of(p) as int;
    rgba_word(
        mix_ch(a, red_of(p) as int, red_of(bg) as int) as u8,
        mix_ch(a, green_of(p) as int, green_of(bg) as int) as u8,
        mix_ch(a, blue_of(p) as int, blue_of(bg) as int) as u8,
        0,
    )
}

impl Pix {
    /// Multiplies each channel of a 32 bpp image by the matching channel
    /// of `color` divided by 255, rounding to the nearest integer; alpha
    /// is 0 in the result.
    ///
    /// # Errors
    ///
    /// [`Error::UnsupportedDepth`] for other depths.
    pub fn multiply_by_color(&self, color: Color) -> (r: Result<Pix>)
        requires
            self@.wf(),
        ensures
            r is Ok <==> self@.depth == PixelDepth::Bit32,
            r matches Ok(p) ==> p@.fresh_meta(self@.width, self@.height, PixelDepth::Bit32) && forall|x: int, y: int|
                p@.contains(x, y) ==> #[trigger] p@.pixel(x, y) == tint_pixel(self@.pixel(x, y), color),
            r matches Err(e) ==> e == Error::UnsupportedDepth(self@.depth.nbits()),
    {
        if self.depth() != PixelDepth::Bit32 {
            return Err(Error::UnsupportedDepth(self.depth().bits()));
        }
        let f = |p: u32| -> (o: u32)
            ensures
                o == tint_pixel(p, color),
            {
                let (r, g, b) = extract_rgb(p);
                compose_rgb(scale_channel(r, color.r), scale_channel(g, color.g), scale_channel(b, color.b))
            };
        proof {
            self@.lemma_new_ok();
        }
        let out = match map_new(self, PixelDepth::Bit32, f, Ghost(|p: u32| tint_pixel(p, color))) {
            Ok(m) => m,
            Err(e) => {
                return Err(e);
            },
        };
        proof {
            assert forall|x: int, y: int| out@.contains(x, y) implies #[trigger] out@.pixel(x, y) == tint_pixel(self@.pixel(x, y), color) by {
                lemma_stored_small(PixelDepth::Bit32, tint_pixel(self@.pixel(x, y), color));
            }
        }
        Ok(out.into_pix())
    }

    /// Composites a 32 bpp RGBA image over the uniform background color
    /// `bg_color`: each channel becomes `(a c + (255 - a) bg) / 255`
    /// rounded, with `a` the pixel's alpha; alpha is 0 in the result.
    ///
    /// # Errors
    ///
    /// [`Error::UnsupportedDepth`] for other depths.
    pub fn alpha_blend_uniform(&self, bg_color: u32) -> (r: Result<Pix>)
        requires
            self@.wf(),
        ensures
            r is Ok <==> self@.depth == PixelDepth::Bit32,
            r matches Ok(p) ==> p@.fresh_meta(self@.width, self@.height, PixelDepth::Bit32) && forall|x: int, y: int|
                p@.contains(x, y) ==> #[trigger] p@.pixel(x, y) == over_pixel(self@.pixel(x, y), bg_color),
            r matches Err(e) ==> e == Error::UnsupportedDepth(self@.depth.nbits()),
    {
        if self.depth() != PixelDepth::Bit32 {
            return Err(Error::UnsupportedDepth(self.depth().bits()));
        }
        let (br, bg, bb) = extract_rgb(bg_color);
        let f = |p: u32| -> (o: u32)
            ensures
                o == over_pixel(p, bg_color),
            {
                let (r, g, b, a) = extract_rgba(p);
                compose_rgb(mix_channel(a, r, br), mix_channel(a, g, bg), mix_channel(a, b, bb))
            };
        proof {
            self@.lemma_new_ok();
        }
        let out = match map_new(self, PixelDepth::Bit32, f, Ghost(|p: u32| over_pixel(p, bg_color))) {
            Ok(m) => m,
            Err(e) => {
                return Err(e);
            },
        };
        proof {
            assert forall|x: int, y: int| out@.contains(x, y) implies #[trigger] out@.pixel(x, y) == over_pixel(self@.pixel(x, y), bg_color) by {
                lemma_stored_small(PixelDepth::Bit32, over_pixel(self@.pixel(x, y), bg_color));
            }
        }
        Ok(out.into_pix())
    }
}

// ---------------------------------------------------------------------------
// Compositing through a gray mask
// ---------------------------------------------------------------------------

/// The smaller of two integers.
pub open spec fn min_int(a: int, b: int) -> int {
    if a < b {
        a
    } else {
        b
    }
}

/// The blended value of base pixel `b` and overlay pixel `o` at opacity
/// `m / 255`: per gray value at 8 bpp, per color channel with alpha 0 at
/// 32 bpp, and the base pixel at other depths.
pub open spec fn mask_mix(d: PixelDepth, m: int, b: u32, o: u32) -> u32 {
    if d == PixelDepth::Bit8 {
        mix_ch(m, o as int, b as int) as u32
    } else if d == PixelDepth::Bit32 {
        rgba_word(
            mix_ch(m, red_of(o) as int, red_of(b) as int) as u8,
            mix_ch(m, green_of(o) as int, green_of(b) as int) as u8,
            mix_ch(m, blue_of(o) as int, blue_of(b) as int) as u8,
            0,
        )
    } else {
        b
    }
}

/// Width of the blended area: that of the overlay and the mask (compared
/// as `i32`).
pub open spec fn gm_span_w(overlay: PixModel, mask: PixModel) -> int {
    min_int((overlay.width as i32) as int, (mask.width as i32) as int)
}

/// Height of the blended area.
pub open spec fn gm_span_h(overlay: PixModel, mask: PixModel) -> int {
    min_int((overlay.height as i32) as int, (mask.height as i32) as int)
}

/// Pixel `(px, py)` of the base after compositing the overlay through the
/// mask, both placed at `(x, y)`.
pub open spec fn gray_mask_pixel(base: PixModel, overlay: PixModel, mask: PixModel, x: i32, y: i32, px: int, py: int) -> u32 {
    let (bx, by) = (px - x, py - y);
    if 0 <= bx < gm_span_w(overlay, mask) && 0 <= by < gm_span_h(overlay, mask) && mask.pixel(bx, by) != 0 {
        mask_mix(base.depth, mask.pixel(bx, by) as int, base.pixel(px, py), overlay.pixel(bx, by))
    } else {
        base.pixel(px, py)
    }
}

/// The offsets of the blended area stay within `i32`.
pub open spec fn gray_mask_ok(overlay: PixModel, mask: PixModel, x: i32, y: i32) -> bool {
    &&& gm_span_w(overlay, mask) >= 1 ==> x + gm_span_w(overlay, mask) - 1 <= i32::MAX
    &&& gm_span_h(overlay, mask) >= 1 ==> y + gm_span_h(overlay, mask) - 1 <= i32::MAX
}

/// The composited value of one pixel.
fn mask_mix_px(d: PixelDepth, m: u32, b: u32, o: u32) -> (r: u32)
    requires
        m <= 255,
        d == PixelDepth::Bit8 ==> b <= 255 && o <= 255,
    ensures
        r == mask_mix(d, m as int, b, o),
{
    if d == PixelDepth::Bit8 {
        mix_channel(m as u8, o as u8, b as u8) as u32
    } else if d == PixelDepth::Bit32 {
        let (br, bg, bb) = extract_rgb(b);
        let (or, og, ob) = extract_rgb(o);
        compose_rgb(mix_channel(m as u8, or, br), mix_channel(m as u8, og, bg), mix_channel(m as u8, ob, bb))
    } else {
        b
    }
}

/// Composites `overlay` over `base` through the 8 bpp `mask`, both placed
/// at `(x, y)`: where the mask value `m` is not 0, the base pixel becomes
/// `(m * overlay + (255 - m) * base) / 255` rounded (per channel at
/// 32 bpp, with alpha 0). The blended area is the part of the overlay
/// also covered by the mask.
///
/// # Errors
///
/// [`Error::UnsupportedDepth`] for a mask that is not 8 bpp;
/// [`Error::IncompatibleDepths`] if base and overlay depths differ.
pub fn blend_with_gray_mask(base: &Pix, overlay: &Pix, mask: &Pix, x: i32, y: i32) -> (r: Result<Pix>)
    requires
        base@.wf(),
        overlay@.wf(),
        mask@.wf(),
        gray_mask_ok(overlay@, mask@, x, y),
    ensures
        r is Ok <==> mask@.depth == PixelDepth::Bit8 && base@.depth == overlay@.depth,
        r matches Ok(p) ==> p@.wf() && p@.same_meta(base@) && forall|px: int, py: int|
            p@.contains(px, py) ==> #[trigger] p@.pixel(px, py) == gray_mask_pixel(base@, overlay@, mask@, x, y, px, py),
        r matches Err(e) ==> (if mask@.depth != PixelDepth::Bit8 {
            e == Error::UnsupportedDepth(mask@.depth.nbits())
        } else {
            e == Error::IncompatibleDepths(base@.depth.nbits(), overlay@.depth.nbits())
        }),
{
    if mask.depth() != PixelDepth::Bit8 {
        return Err(Error::UnsupportedDepth(mask.depth().bits()));
    }
    if base.depth() != overlay.depth() {
        return Err(Error::IncompatibleDepths(base.depth().bits(), overlay.depth().bits()));
    }
    let d = base.depth();
    let mut out = base.to_mut();
    let bw = base.width() as i64;
    let bh = base.height() as i64;
    let ow = overlay.width() as i32;
    let oh = overlay.height() as i32;
    let mw = mask.width() as i32;
    let mh = mask.height() as i32;
    let span_w: i64 = if ow < mw {
        ow as i64
    } else {
        mw as i64
    };
    let span_h: i64 = if oh < mh {
        oh as i64
    } else {
        mh as i64
    };
    let mut by: i64 = 0;
    while by < span_h
        invariant
            base@.wf(),
            overlay@.wf(),
            mask@.wf(),
            mask@.depth == PixelDepth::Bit8,
            base@.depth == overlay@.depth,
            d == base@.depth,
            bw == base@.width,
            bh == base@.height,
            span_w == gm_span_w(overlay@, mask@),
            span_h == gm_span_h(overlay@, mask@),
            span_w <= overlay@.width && span_w <= mask@.width,
            span_h <= overlay@.height && span_h <= mask@.height,
            0 <= by,
            span_h >= 0 ==> by <= span_h,
            out@.wf(),
            out@.same_meta(base@),
            forall|px: int, py: int|
                out@.contains(px, py) ==> #[trigger] out@.pixel(px, py) == if 0 <= py - y < by {
                    gray_mask_pixel(base@, overlay@, mask@, x, y, px, py)
                } else {
                    base@.pixel(px, py)
                },
        decreases span_h - by,
    {
        let dy = by + y as i64;
        if dy >= 0 && dy < bh {
            let mut bx: i64 = 0;
            while bx < span_w
                invariant
                    base@.wf(),
                    overlay@.wf(),
                    mask@.wf(),
                    mask@.depth == PixelDepth::Bit8,
                    base@.depth == overlay@.depth,
                    d == base@.depth,
                    bw == base@.width,
                    bh == base@.height,
                    span_w == gm_span_w(overlay@, mask@),
                    span_h == gm_span_h(overlay@, mask@),
                    span_w <= overlay@.width && span_w <= mask@.width,
                    span_h <= overlay@.height && span_h <= mask@.height,
                    0 <= by < span_h,
                    dy == by + y,
                    0 <= dy < bh,
                    0 <= bx,
                    span_w >= 0 ==> bx <= span_w,
                    out@.wf(),
                    out@.same_meta(base@),
                    forall|px: int, py: int|
                        out@.contains(px, py) ==> #[trigger] out@.pixel(px, py) == if 0 <= py - y < by || (py - y == by && 0 <= px - x < bx) {
                            gray_mask_pixel(base@, overlay@, mask@, x, y, px, py)
                        } else {
                            base@.pixel(px, py)
                        },
                decreases span_w - bx,
            {
                let dx = bx + x as i64;
                if dx >= 0 && dx < bw {
                    let m = mask.get_pixel_unchecked(bx as u32, by as u32);
                    proof {
                        lemma_stored_pixel(mask@, bx as int, by as int);
                    }
                    if m != 0 {
                        let b = base.get_pixel_unchecked(dx as u32, dy as u32);
                        let o = overlay.get_pixel_unchecked(bx as u32, by as u32);
                        proof {
                            lemma_stored_pixel(base@, dx as int, dy as int);
                            lemma_stored_pixel(overlay@, bx as int, by as int);
                        }
                        let v = mask_mix_px(d, m, b, o);
                        proof {
                            if d == PixelDepth::Bit8 {
                                lemma_mix_ch(m as int, o as int, b as int);
                            }
                            if d == PixelDepth::Bit8 || d == PixelDepth::Bit32 {
                                lemma_stored_small(d, v);
                            } else {
                                lemma_stored_pixel(base@, dx as int, dy as int);
                            }
                        }
                        out.set_pixel_unchecked(dx as u32, dy as u32, v);
                    }
                }
                bx = bx + 1;
            }
        }
        by = by + 1;
    }
    Ok(out.into_pix())
}

// ---------------------------------------------------------------------------
// Merging colormapped images
// ---------------------------------------------------------------------------

/// Two colors with the same red, green and blue.
pub open spec fn same_rgb(a: (u8, u8, u8, u8), b: (u8, u8, u8, u8)) -> bool {
    a.0 == b.0 && a.1 == b.1 && a.2 == b.2
}

/// The first index of a color of `s` with the red, green and blue of `c`.
pub open spec fn rgb_index(s: Seq<(u8, u8, u8, u8)>, c: (u8, u8, u8, u8)) -> Option<int>
    decreases s.len(),
{
    if s.len() == 0 {
        None
    } else {
        match rgb_index(s.drop_last(), c) {
            Some(i) => Some(i),
            None => if same_rgb(s.last(), c) {
                Some(s.len() - 1)
            } else {
                None
            },
        }
    }
}

/// The colors of `dst` followed by those of `src` not found in it, in the
/// order of `src`, while fewer than `cap` colors are held (the added
/// colors are opaque).
pub open spec fn merged_colors(dst: Seq<(u8, u8, u8, u8)>, cap: nat, src: Seq<(u8, u8, u8, u8)>) -> Seq<(u8, u8, u8, u8)>
    decreases src.len(),
{
    if src.len() == 0 {
        dst
    } else {
        let m = merged_colors(dst, cap, src.drop_last());
        let c = src.last();
        if rgb_index(m, c) is Some || m.len() >= cap {
            m
        } else {
            m.push((c.0, c.1, c.2, 255u8))
        }
    }
}

/// The index that source color `i` gets in the merged colormap, or 0
/// when the colormap was full.
pub open spec fn merged_index(dst: Seq<(u8, u8, u8, u8)>, cap: nat, src: Seq<(u8, u8, u8, u8)>, i: int) -> int {
    match rgb_index(merged_colors(dst, cap, src.take(i + 1)), src[i]) {
        Some(j) => j,
        None => 0,
    }
}

proof fn lemma_rgb_index(s: Seq<(u8, u8, u8, u8)>, c: (u8, u8, u8, u8))
    ensures
        rgb_index(s, c) matches Some(i) ==> 0 <= i < s.len() && same_rgb(s[i], c) && forall|j: int| 0 <= j < i ==> !same_rgb(#[trigger] s[j], c),
        rgb_index(s, c) is None ==> forall|j: int| 0 <= j < s.len() ==> !same_rgb(#[trigger] s[j], c),
    decreases s.len(),
{
    if s.len() > 0 {
        let t = s.drop_last();
        lemma_rgb_index(t, c);
        assert(s.last() == s[s.len() - 1]);
        match rgb_index(t, c) {
            Some(i) => {
                assert forall|j: int| 0 <= j < i implies !same_rgb(#[trigger] s[j], c) by {
                    assert(s[j] == t[j]);
                }
                assert(s[i] == t[i]);
            },
            None => {
                assert forall|j: int| 0 <= j < s.len() - 1 implies !same_rgb(#[trigger] s[j], c) by {
                    assert(s[j] == t[j]);
                }
            },
        }
    }
}

proof fn lemma_merged_len(dst: Seq<(u8, u8, u8, u8)>, cap: nat, src: Seq<(u8, u8, u8, u8)>)
    requires
        dst.len() <= cap,
    ensures
        merged_colors(dst, cap, src).len() <= cap,
    decreases src.len(),
{
    if src.len() > 0 {
        lemma_merged_len(dst, cap, src.drop_last());
    }
}

/// The new pixel `(px, py)` of the destination after merging `src` placed
/// at `(x, y)`: source pixels with an index above `sindex` (and below the
/// number of source colors) are replaced by their merged index.
pub open spec fn cmap_blend_pixel(dst: PixModel, src: PixModel, x: i32, y: i32, sindex: usize, lut: spec_fn(int) -> int, px: int, py: int) -> u32 {
    let (bx, by) = (px - x, py - y);
    let ns = match src.cmap { Some(c) => c.colors.len() as int, None => 0 };
    if 0 <= bx < (src.width as i32) && 0 <= by < (src.height as i32) && sindex < src.pixel(bx, by) < ns {
        lut(src.pixel(bx, by) as int) as u32
    } else {
        dst.pixel(px, py)
    }
}

/// The offsets of the merged area stay within `i32`.
pub open spec fn cmap_blend_ok(src: PixModel, x: i32, y: i32) -> bool {
    &&& (src.width as i32) >= 1 ==> x + (src.width as i32) - 1 <= i32::MAX
    &&& (src.height as i32) >= 1 ==> y + (src.height as i32) - 1 <= i32::MAX
}

impl PixMut {
    /// Merges the colormapped image `other`, placed at `(x, y)`, into this
    /// colormapped image: the colors of `other` missing from this colormap
    /// are appended while there is room (see [`merged_colors`]), and every
    /// pixel of `other` whose index is above `sindex` replaces the pixel
    /// under it by the merged index of its color (0 when the colormap was
    /// full).
    ///
    /// # Errors
    ///
    /// [`Error::InvalidParameter`] unless both images have colormaps.
    pub fn blend_cmap(&mut self, other: &Pix, x: i32, y: i32, sindex: usize) -> (r: Result<()>)
        requires
            old(self)@.wf(),
            other@.wf(),
            cmap_blend_ok(other@, x, y),
        ensures
            r is Ok <==> old(self)@.cmap is Some && other@.cmap is Some,
            r is Err ==> final(self)@ == old(self)@,
            r matches Err(e) ==> e is InvalidParameter,
            r is Ok ==> {
                let dc = old(self)@.cmap->0;
                let sc = other@.cmap->0.colors;
                let merged = merged_colors(dc.colors, cmap_capacity(dc.depth), sc);
                &&& final(self)@.wf()
                &&& final(self)@.cmap == Some(crate::colormap::CmapModel { depth: dc.depth, colors: merged })
                &&& final(self)@.width == old(self)@.width && final(self)@.height == old(self)@.height
                &&& final(self)@.depth == old(self)@.depth
                &&& forall|px: int, py: int|
                    final(self)@.contains(px, py) ==> #[trigger] final(self)@.pixel(px, py) == cmap_blend_pixel(
                        old(self)@,
                        other@,
                        x,
                        y,
                        sindex,
                        |i: int| merged_index(dc.colors, cmap_capacity(dc.depth), sc, i),
                        px,
                        py,
                    )
            },
    {
        if !self.has_colormap() || !other.has_colormap() {
            return Err(invalid_param("blend_cmap: both images must have colormaps"));
        }
        let ghost m0 = self@;
        let dst_cmap = self.colormap().unwrap();
        let src_cmap = other.colormap().unwrap();
        let ghost dc = dst_cmap@;
        let ghost sc = src_cmap@.colors;
        let ghost cap = cmap_capacity(dc.depth);
        let src_len = src_cmap.len();
        let mut merged = dst_cmap.duplicate();
        let mut lut: Vec<u32> = Vec::new();
        let mut i: usize = 0;
        while i < src_len
            invariant
                i <= src_len,
                src_len == sc.len(),
                src_cmap@.colors == sc,
                dc.wf(),
                merged@.wf(),
                merged@.depth == dc.depth,
                cap == cmap_capacity(dc.depth),
                merged@.colors == merged_colors(dc.colors, cap, sc.take(i as int)),
                lut@.len() == i,
                forall|j: int| 0 <= j < i ==> #[trigger] lut@[j] == merged_index(dc.colors, cap, sc, j),
                forall|j: int| 0 <= j < i ==> #[trigger] lut@[j] < cap,
                cap >= 2,
            decreases src_len - i,
        {
            let (r, g, b) = src_cmap.get_rgb(i).unwrap();
            let ghost c = sc[i as int];
            let ghost mprev = merged@.colors;
            proof {
                lemma_rgb_index(mprev, c);
                let t = sc.take(i as int + 1);
                assert(t.drop_last() =~= sc.take(i as int));
                assert(t.last() == c);
            }
            let idx: usize = match merged.get_index(r, g, b) {
                Some(e) => {
                    proof {
                        match rgb_index(mprev, c) {
                            Some(k) => {
                                if k < e {
                                    assert(same_rgb(mprev[k], c));
                                } else if e < k {
                                    assert(same_rgb(mprev[e as int], c));
                                }
                            },
                            None => {
                                assert(same_rgb(mprev[e as int], c));
                            },
                        }
                    }
                    e
                },
                None => {
                    proof {
                        match rgb_index(mprev, c) {
                            Some(k) => {
                                assert(same_rgb(mprev[k], c));
                            },
                            None => {},
                        }
                    }
                    match merged.add_rgb(r, g, b) {
                        Ok(k) => {
                            proof {
                                lemma_rgb_index(merged@.colors, c);
                                let m2 = merged@.colors;
                                assert(m2.drop_last() =~= mprev);
                                assert(same_rgb(m2.last(), c));
                            }
                            k
                        },
                        Err(_) => 0,
                    }
                },
            };
            proof {
                assert(sc.take(i as int + 1).take(i as int + 1) =~= sc.take(i as int + 1));
            }
            lut.push(idx as u32);
            proof {
                assert forall|j: int| 0 <= j < i + 1 implies #[trigger] lut@[j] == merged_index(dc.colors, cap, sc, j) by {
                    if j == i {
                        assert(lut@[j] == idx as u32);
                    }
                }
                assert forall|j: int| 0 <= j < i + 1 implies #[trigger] lut@[j] < cap by {
                    if j == i {
                        assert(lut@[j] == idx as u32);
                    }
                }
            }
            i = i + 1;
        }
        assert(sc.take(src_len as int) =~= sc);
        proof {
            lemma_merged_len(dc.colors, cap, sc);
        }
        let set = self.set_colormap(Some(merged));
        assert(set is Ok);
        assert(cap == pmask(m0.depth) + 1) by {
            assert(dc.depth == m0.depth.nbits());
        }
        let ghost m1 = self@;
        let ws = other.width() as i32;
        let hs = other.height() as i32;
        let wd = self.width() as i64;
        let hd = self.height() as i64;
        let ghost lutf = |i: int| merged_index(dc.colors, cap, sc, i);
        let mut by: i32 = 0;
        while by < hs
            invariant
                m0.wf(),
                other@.wf(),
                other@.cmap == Some(src_cmap@),
                src_len == sc.len(),
                src_cmap@.colors == sc,
                cmap_blend_ok(other@, x, y),
                ws == (other@.width as i32),
                hs == (other@.height as i32),
                wd == m0.width,
                hd == m0.height,
                m1.wf(),
                m1.same_geometry(m0),
                m1.data == m0.data,
                lut@.len() == src_len,
                forall|j: int| 0 <= j < src_len ==> #[trigger] lut@[j] == lutf(j),
                forall|j: int| 0 <= j < src_len ==> #[trigger] lut@[j] <= pmask(m0.depth),
                0 <= by,
                by <= hs || hs < 0,
                self@.wf(),
                self@.same_meta(m1),
                forall|px: int, py: int|
                    self@.contains(px, py) ==> #[trigger] self@.pixel(px, py) == if 0 <= py - y < by {
                        cmap_blend_pixel(m0, other@, x, y, sindex, lutf, px, py)
                    } else {
                        m0.pixel(px, py)
                    },
            decreases hs - by,
        {
            let dy = by as i64 + y as i64;
            if dy >= 0 && dy < hd {
                let mut bx: i32 = 0;
                while bx < ws
                    invariant
                        m0.wf(),
                        other@.wf(),
                        other@.cmap == Some(src_cmap@),
                        src_len == sc.len(),
                        src_cmap@.colors == sc,
                        ws == (other@.width as i32),
                        hs == (other@.height as i32),
                        wd == m0.width,
                        hd == m0.height,
                        m1.wf(),
                        m1.same_geometry(m0),
                        m1.data == m0.data,
                        lut@.len() == src_len,
                        forall|j: int| 0 <= j < src_len ==> #[trigger] lut@[j] == lutf(j),
                        forall|j: int| 0 <= j < src_len ==> #[trigger] lut@[j] <= pmask(m0.depth),
                        0 <= by < hs,
                        dy == by + y,
                        0 <= dy < hd,
                        0 <= bx,
                        bx <= ws || ws < 0,
                        self@.wf(),
                        self@.same_meta(m1),
                        forall|px: int, py: int|
                            self@.contains(px, py) ==> #[trigger] self@.pixel(px, py) == if 0 <= py - y < by || (py - y == by && 0 <= px - x < bx) {
                                cmap_blend_pixel(m0, other@, x, y, sindex, lutf, px, py)
                            } else {
                                m0.pixel(px, py)
                            },
                    decreases ws - bx,
                {
                    let dx = bx as i64 + x as i64;
                    if dx >= 0 && dx < wd {
                        let s = other.get_pixel_unchecked(bx as u32, by as u32) as usize;
                        if s > sindex && s < src_len {
                            let v = lut[s];
                            proof {
                                lemma_stored_small(m0.depth, v);
                            }
                            self.set_pixel_unchecked(dx as u32, dy as u32, v);
                        }
                    }
                    bx = bx + 1;
                }
            }
            by = by + 1;
        }
        Ok(())
    }
}

// ---------------------------------------------------------------------------
// Laws
// ---------------------------------------------------------------------------

/// Multiply keeps black black, leaves the base unchanged under white and
/// never lightens; screen keeps white white, leaves the base unchanged
/// under black and never darkens.
pub proof fn law_blend_extremes(b: int, o: int)
    requires
        0 <= b <= 255,
        0 <= o <= 255,
    ensures
        blend_ch(BlendMode::Multiply, 0, o) == 0,
        blend_ch(BlendMode::Multiply, b, 255) == b,
        blend_ch(BlendMode::Multiply, b, o) <= b,
        blend_ch(BlendMode::Screen, 255, o) == 255,
        blend_ch(BlendMode::Screen, b, 0) == b,
        blend_ch(BlendMode::Screen, b, o) >= b,
{
    assert(b * o <= b * 255) by (nonlinear_arith)
        requires
            0 <= b,
            o <= 255,
    ;
    assert(b * 255 / 255 == b) by (nonlinear_arith);
    vstd::arithmetic::div_mod::lemma_div_is_ordered(b * o, b * 255, 255);
    assert((255 - b) * (255 - o) <= (255 - b) * 255) by (nonlinear_arith)
        requires
            b <= 255,
            0 <= o,
    ;
    assert((255 - b) * 255 / 255 == 255 - b) by (nonlinear_arith);
    vstd::arithmetic::div_mod::lemma_div_is_ordered((255 - b) * (255 - o), (255 - b) * 255, 255);
}

/// Compositing with a zero mask value keeps the base, and with a full mask
/// value gives the overlay.
pub proof fn law_mix_extremes(v: int, w: int)
    requires
        0 <= v <= 255,
        0 <= w <= 255,
    ensures
        mix_ch(0, v, w) == w,
        mix_ch(255, v, w) == v,
{
    assert(2 * (0 * v + 255 * w) + 255 == 510 * w + 255) by (nonlinear_arith);
    vstd::arithmetic::div_mod::lemma_fundamental_div_mod_converse(510 * w + 255, 510, w, 255);
    assert(2 * (255 * v + 0 * w) + 255 == 510 * v + 255) by (nonlinear_arith);
    vstd::arithmetic::div_mod::lemma_fundamental_div_mod_converse(510 * v + 255, 510, v, 255);
}

} // verus!
