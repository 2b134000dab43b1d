//! Pixel depth conversion functions
//!
//! Functions for converting between different pixel depths.
//!
//! Gray values of color pixels use the perceptual weights 0.3, 0.5 and
//! 0.2 for red, green and blue, rounded to the nearest integer: the
//! luminance of `(r, g, b)` is `(3 r + 5 g + 2 b + 5) / 10`.

use vstd::prelude::*;
use super::{Pix, PixMut, PixelDepth};
use super::model::{PixModel, pmask, stored, new_ok};
use super::raster::{map_new, lemma_stored_pixel, lemma_stored_small};
use crate::color::{self, rgba_word, red_of, green_of, blue_of, alpha_of, extract_rgb, compose_rgb};
use crate::colormap::{PixColormap, CmapModel};
use crate::error::{Error, Result, invalid_param};

verus! {

/// Selection type for min/max gray conversion.
#[derive(Debug, Clone, Copy, PartialEq, Eq, Structural)]
pub enum MinMaxType {
    /// Choose minimum of R, G, B
    Min,
    /// Choose maximum of R, G, B
    Max,
    /// Choose max - min (chroma)
    MaxDiff,
    /// Min boosted around neutral point
    MinBoost,
    /// Max boosted around neutral point
    MaxBoost,
}

/// Color selection type for general RGB-to-gray conversion.
#[derive(Debug, Clone, Copy, PartialEq, Eq, Structural)]
pub enum GrayConversionType {
    /// Use red channel only
    Red,
    /// Use green channel only
    Green,
    /// Use blue channel only
    Blue,
    /// Use minimum of R, G, B
    Min,
    /// Use maximum of R, G, B
    Max,
    /// Use average (equal weights)
    Average,
    /// Use custom weights
    Weighted,
}

/// Conversion type for 16 bpp to 8 bpp conversion.
#[derive(Debug, Clone, Copy, PartialEq, Eq, Structural)]
pub enum Convert16To8Type {
    /// Use least significant byte
    LsByte,
    /// Use most significant byte
    MsByte,
    /// Use LSB if max(val) < 256; else MSB
    AutoByte,
    /// Saturate to 255: min(val, 0xFF)
    ClipToFf,
}

/// Conversion type for 32 bpp to 16 bpp conversion.
#[derive(Debug, Clone, Copy, PartialEq, Eq, Structural)]
pub enum Convert32To16Type {
    /// Use lower 16 bits (least significant two bytes)
    LsTwoBytes,
    /// Use upper 16 bits (most significant two bytes)
    MsTwoBytes,
    /// If upper 16 bits nonzero, clamp to 0xFFFF; else use lower 16 bits
    ClipToFfff,
}

/// Target type for colormap removal.
#[derive(Debug, Clone, Copy, PartialEq, Eq, Structural)]
pub enum RemoveColormapTarget {
    /// Convert to 1 bpp binary (only for 1 bpp images)
    ToBinary,
    /// Convert to 8 bpp grayscale
    ToGrayscale,
    /// Convert to 32 bpp RGB (spp=3)
    ToFullColor,
    /// Convert to 32 bpp RGBA (spp=4)
    WithAlpha,
    /// Auto-detect best target based on colormap content
    BasedOnSrc,
}

/// The gray value of a color: `0.3 r + 0.5 g + 0.2 b`, rounded.
pub open spec fn luminance(r: u8, g: u8, b: u8) -> u32 {
    ((3 * r + 5 * g + 2 * b + 5) / 10) as u32
}

/// The gray value of a 32 bpp pixel.
pub open spec fn pixel_luminance(p: u32) -> u32 {
    luminance(red_of(p), green_of(p), blue_of(p))
}

/// A 32 bpp pixel with all three color channels `g` and alpha 0.
pub open spec fn gray_rgb(g: u8) -> u32 {
    rgba_word(g, g, g, 0)
}

/// `r` is a fresh image of depth `d` of the size of `p`, with the
/// resolution of `p` when `keep_res` holds, whose pixel is `g` of the
/// pixel of `p`, stored at depth `d`.
pub open spec fn converted(r: PixModel, p: PixModel, d: PixelDepth, keep_res: bool, g: spec_fn(u32) -> u32) -> bool {
    &&& r.created(
        p.width,
        p.height,
        d,
        if keep_res { p.xres } else { 0 },
        if keep_res { p.yres } else { 0 },
    )
    &&& forall|x: int, y: int| r.contains(x, y) ==> #[trigger] r.pixel(x, y) == stored(d, g(p.pixel(x, y)))
}

/// The 8 bpp value `convert_to_8` gives a pixel `v` of depth `d`.
pub open spec fn to8_value(d: PixelDepth, v: u32) -> u32 {
    match d {
        PixelDepth::Bit1 => if v == 0 { 255 } else { 0 },
        PixelDepth::Bit2 => (v * 85) as u32,
        PixelDepth::Bit4 => (v * 17) as u32,
        PixelDepth::Bit8 => v,
        PixelDepth::Bit16 => v / 256,
        PixelDepth::Bit32 => pixel_luminance(v),
    }
}

/// The 32 bpp value `convert_to_32` gives a pixel `v` of depth `d`.
pub open spec fn to32_value(d: PixelDepth, v: u32) -> u32 {
    match d {
        PixelDepth::Bit1 => if v == 0 { gray_rgb(255) } else { gray_rgb(0) },
        PixelDepth::Bit2 => gray_rgb((v * 85) as u8),
        PixelDepth::Bit4 => gray_rgb((v * 17) as u8),
        PixelDepth::Bit8 => gray_rgb(v as u8),
        PixelDepth::Bit16 => gray_rgb((v / 256) as u8),
        PixelDepth::Bit32 => v,
    }
}

fn lum(r: u8, g: u8, b: u8) -> (v: u32)
    ensures
        v == luminance(r, g, b),
        v <= 255,
{
    (3 * r as u32 + 5 * g as u32 + 2 * b as u32 + 5) / 10
}

fn pixel_lum(p: u32) -> (v: u32)
    ensures
        v == pixel_luminance(p),
        v <= 255,
{
    let (r, g, b) = color::extract_rgb(p);
    lum(r, g, b)
}

/// The 8 bpp value of a pixel fits in a byte.
pub proof fn lemma_to8_bound(d: PixelDepth, v: u32)
    requires
        v <= pmask(d),
    ensures
        to8_value(d, v) <= 255,
{
}

fn to8(d: PixelDepth, v: u32) -> (r: u32)
    requires
        v <= pmask(d),
    ensures
        r == to8_value(d, v),
        r <= 255,
{
    match d {
        PixelDepth::Bit1 => if v == 0 {
            255
        } else {
            0
        },
        PixelDepth::Bit2 => v * 85,
        PixelDepth::Bit4 => v * 17,
        PixelDepth::Bit8 => v,
        PixelDepth::Bit16 => v / 256,
        PixelDepth::Bit32 => pixel_lum(v),
    }
}

fn to32(d: PixelDepth, v: u32) -> (r: u32)
    requires
        v <= pmask(d),
    ensures
        r == to32_value(d, v),
{
    match d {
        PixelDepth::Bit1 => if v == 0 {
            color::compose_rgb(255, 255, 255)
        } else {
            color::compose_rgb(0, 0, 0)
        },
        PixelDepth::Bit2 => {
            let g = (v * 85) as u8;
            color::compose_rgb(g, g, g)
        },
        PixelDepth::Bit4 => {
            let g = (v * 17) as u8;
            color::compose_rgb(g, g, g)
        },
        PixelDepth::Bit8 => {
            let g = v as u8;
            color::compose_rgb(g, g, g)
        },
        PixelDepth::Bit16 => {
            let g = (v / 256) as u8;
            color::compose_rgb(g, g, g)
        },
        PixelDepth::Bit32 => v,
    }
}

impl Pix {
    /// A new image of depth `d` whose pixel is `f` of the pixel of this
    /// image, with this image's resolution when `keep_res` is set.
    fn convert_map<F: Fn(u32) -> u32>(
        &self,
        d: PixelDepth,
        keep_res: bool,
        f: F,
        Ghost(g): Ghost<spec_fn(u32) -> u32>,
    ) -> (r: Result<Pix>)
        requires
            self@.wf(),
            forall|v: u32| v <= pmask(self@.depth) ==> f.requires((v,)),
            forall|v: u32, o: u32| f.ensures((v,), o) ==> o == g(v),
        ensures
            r is Ok <==> new_ok(self@.width, self@.height, d),
            r matches Ok(p) ==> converted(p@, self@, d, keep_res, g),
            r matches Err(e) ==> e is InvalidDimension,
    {
        let mut m = match map_new(self, d, f, Ghost(g)) {
            Ok(m) => m,
            Err(e) => {
                return Err(e);
            },
        };
        if keep_res {
            let ghost m1 = m@;
            m.set_resolution(self.xres(), self.yres());
            proof {
                assert forall|x: int, y: int| m@.contains(x, y) implies #[trigger] m@.pixel(x, y)
                    == m1.pixel(x, y) by {}
            }
        }
        Ok(m.into_pix())
    }

    /// Convert any-depth image to 8-bit grayscale.
    ///
    /// This is a top-level conversion function with simple default values.
    /// It always creates a new image (never a clone).
    ///
    /// Conversion rules:
    /// - **1 bpp**: 0 -> 255 (white), 1 -> 0 (black)
    /// - **2 bpp**: evenly spaced values (0, 85, 170, 255)
    /// - **4 bpp**: evenly spaced values (0, 17, 34, ... 255)
    /// - **8 bpp**: copy (lossless)
    /// - **16 bpp**: use most significant byte
    /// - **32 bpp**: convert to luminance using perceptual weights (0.3R + 0.5G + 0.2B)
    ///
    /// # Errors
    ///
    /// [`Error::InvalidDimension`] if the 8 bpp image is too large.
    pub fn convert_to_8(&self) -> (r: Result<Pix>)
        requires
            self@.wf(),
        ensures
            self@.depth == PixelDepth::Bit8 ==> (r matches Ok(p) && p@ == self@),
            self@.depth != PixelDepth::Bit8 ==> (r is Ok <==> new_ok(self@.width, self@.height, PixelDepth::Bit8)),
            self@.depth != PixelDepth::Bit8 ==> (r matches Ok(p) ==> converted(
                p@,
                self@,
                PixelDepth::Bit8,
                false,
                |v: u32| to8_value(self@.depth, v),
            )),
            r matches Err(e) ==> e is InvalidDimension,
    {
        let d = self.depth();
        if d == PixelDepth::Bit8 {
            return Ok(self.deep_clone());
        }
        let f = |v: u32| -> (o: u32)
            requires
                v <= pmask(d),
            ensures
                o == to8_value(d, v),
            { to8(d, v) };
        self.convert_map(PixelDepth::Bit8, false, f, Ghost(|v: u32| to8_value(d, v)))
    }

    /// Convert any-depth image to 32-bit RGB.
    ///
    /// Conversion rules:
    /// - **1 bpp**: 0 -> white (R=G=B=255), 1 -> black (R=G=B=0)
    /// - **2 bpp**: map 0->0, 1->85, 2->170, 3->255, then pack as R=G=B
    /// - **4 bpp**: map linearly (val * 255 / 15), then pack as R=G=B
    /// - **8 bpp**: pack gray value as R=G=B
    /// - **16 bpp**: use MSB as gray, pack as R=G=B
    /// - **32 bpp**: return deep clone (identity)
    ///
    /// The alpha byte of the packed pixels is 0.
    ///
    /// # Errors
    ///
    /// [`Error::InvalidDimension`] if the 32 bpp image is too large.
    pub fn convert_to_32(&self) -> (r: Result<Pix>)
        requires
            self@.wf(),
        ensures
            self@.depth == PixelDepth::Bit32 ==> (r matches Ok(p) && p@ == self@),
            self@.depth != PixelDepth::Bit32 ==> (r is Ok <==> new_ok(self@.width, self@.height, PixelDepth::Bit32)),
            self@.depth != PixelDepth::Bit32 ==> (r matches Ok(p) ==> converted(
                p@,
                self@,
                PixelDepth::Bit32,
                false,
                |v: u32| to32_value(self@.depth, v),
            )),
            r matches Err(e) ==> e is InvalidDimension,
    {
        let d = self.depth();
        if d == PixelDepth::Bit32 {
            return Ok(self.deep_clone());
        }
        let f = |v: u32| -> (o: u32)
            requires
                v <= pmask(d),
            ensures
                o == to32_value(d, v),
            { to32(d, v) };
        self.convert_map(PixelDepth::Bit32, false, f, Ghost(|v: u32| to32_value(d, v)))
    }
}

/// The smallest of three channel values.
pub open spec fn min3(r: u8, g: u8, b: u8) -> u8 {
    if r <= g && r <= b {
        r
    } else if g <= b {
        g
    } else {
        b
    }
}

/// The largest of three channel values.
pub open spec fn max3(r: u8, g: u8, b: u8) -> u8 {
    if r >= g && r >= b {
        r
    } else if g >= b {
        g
    } else {
        b
    }
}

/// The gray value that `convert_rgb_to_gray_min_max` gives a pixel.
pub open spec fn min_max_value(p: u32, t: MinMaxType) -> u32 {
    let mn = min3(red_of(p), green_of(p), blue_of(p)) as int;
    let mx = max3(red_of(p), green_of(p), blue_of(p)) as int;
    (match t {
        MinMaxType::Min => mn,
        MinMaxType::Max => mx,
        MinMaxType::MaxDiff => mx - mn,
        MinMaxType::MinBoost => if mn * mn / 180 < 255 { mn * mn / 180 } else { 255 },
        MinMaxType::MaxBoost => if mx * mx / 180 < 255 { mx * mx / 180 } else { 255 },
    }) as u32
}

/// The pairs `(max, delta)` with `255 delta / max` exactly halfway between
/// two integers for which the single-precision evaluation of the
/// saturation rounds down rather than up.
pub open spec fn sat_rounds_down(mx: int, delta: int) -> bool {
    ||| mx == 82 && delta == 41
    ||| mx == 94 && delta == 47
    ||| mx == 110 && delta == 55
    ||| mx == 122 && delta == 61
    ||| mx == 164 && delta == 82
    ||| mx == 166 && delta == 83
    ||| mx == 188 && delta == 94
    ||| mx == 194 && delta == 97
    ||| mx == 214 && delta == 107
    ||| mx == 218 && delta == 109
    ||| mx == 220 && delta == 110
    ||| mx == 230 && (delta == 23 || delta == 115 || delta == 161 || delta == 207)
    ||| mx == 242 && delta == 121
    ||| mx == 244 && delta == 122
    ||| mx == 246 && (delta == 123 || delta == 205)
}

/// The saturation `255 (max - min) / max`, rounded to nearest.
pub open spec fn saturation(mn: int, mx: int) -> int {
    let delta = mx - mn;
    if delta == 0 {
        0
    } else {
        (510 * delta + mx) / (2 * mx) - if sat_rounds_down(mx, delta) { 1int } else { 0 }
    }
}

/// The gray value that `convert_rgb_to_gray_sat_boost` gives a pixel: the
/// largest channel, pulled towards `255 max / refval` (at most 255) in
/// proportion to the saturation.
pub open spec fn sat_boost_value(p: u32, refval: int) -> u32 {
    let mn = min3(red_of(p), green_of(p), blue_of(p)) as int;
    let mx = max3(red_of(p), green_of(p), blue_of(p)) as int;
    let sval = saturation(mn, mx);
    let fullsat = if 255 * mx / refval < 255 { 255 * mx / refval } else { 255 };
    ((sval * fullsat + (255 - sval) * mx) / 255) as u32
}

fn min_max_pixel(p: u32, t: MinMaxType) -> (v: u32)
    ensures
        v == min_max_value(p, t),
        v <= 255,
{
    let (r, g, b) = color::extract_rgb(p);
    let mn: u32 = if r <= g && r <= b {
        r as u32
    } else if g <= b {
        g as u32
    } else {
        b as u32
    };
    let mx: u32 = if r >= g && r >= b {
        r as u32
    } else if g >= b {
        g as u32
    } else {
        b as u32
    };
    match t {
        MinMaxType::Min => mn,
        MinMaxType::Max => mx,
        MinMaxType::MaxDiff => mx - mn,
        MinMaxType::MinBoost => {
            assert(mn * mn <= 255 * 255) by (nonlinear_arith)
                requires
                    mn <= 255,
            ;
            let v = mn * mn / 180;
            if v < 255 {
                v
            } else {
                255
            }
        },
        MinMaxType::MaxBoost => {
            assert(mx * mx <= 255 * 255) by (nonlinear_arith)
                requires
                    mx <= 255,
            ;
            let v = mx * mx / 180;
            if v < 255 {
                v
            } else {
                255
            }
        },
    }
}

fn rounds_down(mx: i32, delta: i32) -> (b: bool)
    ensures
        b == sat_rounds_down(mx as int, delta as int),
{
    (mx == 82 && delta == 41) || (mx == 94 && delta == 47) || (mx == 110 && delta == 55) || (mx
        == 122 && delta == 61) || (mx == 164 && delta == 82) || (mx == 166 && delta == 83) || (mx
        == 188 && delta == 94) || (mx == 194 && delta == 97) || (mx == 214 && delta == 107) || (mx
        == 218 && delta == 109) || (mx == 220 && delta == 110) || (mx == 230 && (delta == 23
        || delta == 115 || delta == 161 || delta == 207)) || (mx == 242 && delta == 121) || (mx
        == 244 && delta == 122) || (mx == 246 && (delta == 123 || delta == 205))
}

fn sat_boost_pixel(p: u32, refval: i32) -> (v: u32)
    requires
        1 <= refval <= 255,
    ensures
        v == sat_boost_value(p, refval as int),
        v <= 255,
{
    let (r, g, b) = color::extract_rgb(p);
    let (r, g, b) = (r as i32, g as i32, b as i32);
    let mn: i32 = if r <= g && r <= b {
        r
    } else if g <= b {
        g
    } else {
        b
    };
    let mx: i32 = if r >= g && r >= b {
        r
    } else if g >= b {
        g
    } else {
        b
    };
    let delta = mx - mn;
    let sval: i32 = if delta == 0 {
        0
    } else {
        assert((510 * delta + mx) / (2 * mx) <= 255) by (nonlinear_arith)
            requires
                0 < delta <= mx,
                mx <= 255,
        ;
        assert((510 * delta + mx) / (2 * mx) >= 1) by (nonlinear_arith)
            requires
                0 < delta <= mx,
                mx <= 255,
        ;
        let base = (510 * delta + mx) / (2 * mx);
        if rounds_down(mx, delta) {
            base - 1
        } else {
            base
        }
    };
    let fs = 255 * mx / refval;
    let fullsat: i32 = if fs < 255 {
        fs
    } else {
        255
    };
    assert(0 <= sval * fullsat + (255 - sval) * mx <= 255 * 255) by (nonlinear_arith)
        requires
            0 <= sval <= 255,
            0 <= fullsat <= 255,
            0 <= mx <= 255,
    ;
    ((sval * fullsat + (255 - sval) * mx) / 255) as u32
}

/// The index of a pixel read as a colormap entry: `f` of the entry, or 0
/// when the colormap has no such entry.
pub open spec fn lut_value(c: CmapModel, i: u32, f: spec_fn((u8, u8, u8, u8)) -> u32) -> u32 {
    if i < c.colors.len() {
        f(c.colors[i as int])
    } else {
        0
    }
}

impl Pix {
    /// The 8 bpp gray of a 32 bpp image, with this image's resolution.
    fn rgb_to_gray_map<F: Fn(u32) -> u32>(&self, f: F, Ghost(g): Ghost<spec_fn(u32) -> u32>) -> (r: Result<Pix>)
        requires
            self@.wf(),
            self@.depth == PixelDepth::Bit32,
            forall|v: u32| f.requires((v,)),
            forall|v: u32, o: u32| f.ensures((v,), o) ==> o == g(v),
        ensures
            r matches Ok(p) && converted(p@, self@, PixelDepth::Bit8, true, g),
    {
        proof {
            self@.lemma_new_ok_depth(PixelDepth::Bit8);
        }
        self.convert_map(PixelDepth::Bit8, true, f, Ghost(g))
    }

    /// Convert 32 bpp RGB to 8 bpp grayscale using standard luminance weights.
    ///
    /// Uses the default perceptual weights: 0.3R + 0.5G + 0.2B.
    ///
    /// # Errors
    ///
    /// Returns [`Error::UnsupportedDepth`] if the image is not 32 bpp.
    pub fn convert_rgb_to_luminance(&self) -> (r: Result<Pix>)
        requires
            self@.wf(),
        ensures
            r is Ok <==> self@.depth == PixelDepth::Bit32,
            r matches Err(e) ==> e == Error::UnsupportedDepth(self@.depth.nbits()),
            r matches Ok(p) ==> converted(p@, self@, PixelDepth::Bit8, true, |v: u32| pixel_luminance(v)),
    {
        if self.depth() != PixelDepth::Bit32 {
            return Err(Error::UnsupportedDepth(self.depth().bits()));
        }
        let f = |v: u32| -> (o: u32)
            ensures
                o == pixel_luminance(v),
            { pixel_lum(v) };
        self.rgb_to_gray_map(f, Ghost(|v: u32| pixel_luminance(v)))
    }

    /// Convert 32 bpp RGB to 8 bpp grayscale using the green channel.
    ///
    /// # Errors
    ///
    /// Returns [`Error::UnsupportedDepth`] if the image is not 32 bpp.
    pub fn convert_rgb_to_gray_fast(&self) -> (r: Result<Pix>)
        requires
            self@.wf(),
        ensures
            r is Ok <==> self@.depth == PixelDepth::Bit32,
            r matches Err(e) ==> e == Error::UnsupportedDepth(self@.depth.nbits()),
            r matches Ok(p) ==> converted(p@, self@, PixelDepth::Bit8, true, |v: u32| green_of(v) as u32),
    {
        if self.depth() != PixelDepth::Bit32 {
            return Err(Error::UnsupportedDepth(self.depth().bits()));
        }
        let f = |v: u32| -> (o: u32)
            ensures
                o == green_of(v) as u32,
            { color::green(v) as u32 };
        self.rgb_to_gray_map(f, Ghost(|v: u32| green_of(v) as u32))
    }

    /// Convert 32 bpp RGB to 8 bpp grayscale using min/max channel selection.
    ///
    /// # Errors
    ///
    /// Returns [`Error::UnsupportedDepth`] if the image is not 32 bpp.
    pub fn convert_rgb_to_gray_min_max(&self, mm_type: MinMaxType) -> (r: Result<Pix>)
        requires
            self@.wf(),
        ensures
            r is Ok <==> self@.depth == PixelDepth::Bit32,
            r matches Err(e) ==> e == Error::UnsupportedDepth(self@.depth.nbits()),
            r matches Ok(p) ==> converted(p@, self@, PixelDepth::Bit8, true, |v: u32| min_max_value(v, mm_type)),
    {
        if self.depth() != PixelDepth::Bit32 {
            return Err(Error::UnsupportedDepth(self.depth().bits()));
        }
        let f = |v: u32| -> (o: u32)
            ensures
                o == min_max_value(v, mm_type),
                o <= 255,
            { min_max_pixel(v, mm_type) };
        self.rgb_to_gray_map(f, Ghost(|v: u32| min_max_value(v, mm_type)))
    }

    /// Convert 32 bpp RGB to 8 bpp grayscale with saturation boost.
    ///
    /// Returns the max component value, boosted by the saturation.
    /// The maximum boost occurs where the max component value equals `refval`.
    ///
    /// # Errors
    ///
    /// Returns [`Error::UnsupportedDepth`] if the image is not 32 bpp, and
    /// [`Error::InvalidParameter`] if `refval` is not in `[1, 255]`.
    pub fn convert_rgb_to_gray_sat_boost(&self, refval: i32) -> (r: Result<Pix>)
        requires
            self@.wf(),
        ensures
            r is Ok <==> self@.depth == PixelDepth::Bit32 && 1 <= refval <= 255,
            r matches Err(e) ==> if self@.depth != PixelDepth::Bit32 {
                e == Error::UnsupportedDepth(self@.depth.nbits())
            } else {
                e is InvalidParameter
            },
            r matches Ok(p) ==> converted(
                p@,
                self@,
                PixelDepth::Bit8,
                true,
                |v: u32| sat_boost_value(v, refval as int),
            ),
    {
        if self.depth() != PixelDepth::Bit32 {
            return Err(Error::UnsupportedDepth(self.depth().bits()));
        }
        if refval < 1 || refval > 255 {
            return Err(invalid_param("refval must be in [1, 255]"));
        }
        let f = |v: u32| -> (o: u32)
            ensures
                o == sat_boost_value(v, refval as int),
                o <= 255,
            { sat_boost_pixel(v, refval) };
        self.rgb_to_gray_map(f, Ghost(|v: u32| sat_boost_value(v, refval as int)))
    }
}

/// The colormap of an image, seen as entries.
pub open spec fn cmap_opaque(c: CmapModel) -> bool {
    forall|j: int| 0 <= j < c.colors.len() ==> #[trigger] c.colors[j].3 == 255
}

/// Some entry of the colormap is not a shade of gray.
pub open spec fn cmap_has_color(c: CmapModel) -> bool {
    exists|j: int| 0 <= j < c.colors.len() && !crate::colormap::is_gray(#[trigger] c.colors[j])
}

/// The colormap is exactly black and white, in either order.
pub open spec fn cmap_black_white(c: CmapModel) -> bool {
    c.colors.len() == 2 && ((crate::colormap::is_black(c.colors[0]) && crate::colormap::is_white(
        c.colors[1],
    )) || (crate::colormap::is_white(c.colors[0]) && crate::colormap::is_black(c.colors[1])))
}

/// What `remove_colormap` turns `t` into for a colormapped image `p`.
pub open spec fn removal_target(p: PixModel, t: RemoveColormapTarget) -> RemoveColormapTarget {
    let c = p.cmap->Some_0;
    match t {
        RemoveColormapTarget::BasedOnSrc => if !cmap_opaque(c) {
            RemoveColormapTarget::WithAlpha
        } else if cmap_has_color(c) {
            RemoveColormapTarget::ToFullColor
        } else if p.depth == PixelDepth::Bit1 && cmap_black_white(c) {
            RemoveColormapTarget::ToBinary
        } else {
            RemoveColormapTarget::ToGrayscale
        },
        _ => t,
    }
}

/// The sum of the color channels of entry `i`, or `dflt` when there is no
/// such entry.
pub open spec fn entry_sum(c: CmapModel, i: int, dflt: int) -> int {
    if i < c.colors.len() {
        c.colors[i].0 + c.colors[i].1 + c.colors[i].2
    } else {
        dflt
    }
}

/// Whether removing the colormap of a 1 bpp image inverts its bits:
/// entry 0 is darker than entry 1.
pub open spec fn binary_inverts(c: CmapModel) -> bool {
    entry_sum(c, 0, 0) < entry_sum(c, 1, 765)
}

/// The value a lookup table built from entry `e` holds for a target.
pub open spec fn entry_value(t: RemoveColormapTarget, e: (u8, u8, u8, u8)) -> u32 {
    match t {
        RemoveColormapTarget::ToGrayscale => luminance(e.0, e.1, e.2),
        RemoveColormapTarget::WithAlpha => rgba_word(e.0, e.1, e.2, e.3),
        _ => rgba_word(e.0, e.1, e.2, 0),
    }
}

/// What `remove_colormap` gives for the colormapped image `p` when it
/// converts to `t`.
pub open spec fn colormap_removed(r: Result<Pix>, p: PixModel, t: RemoveColormapTarget) -> bool {
    let c = p.cmap->Some_0;
    match t {
        RemoveColormapTarget::ToBinary => r matches Ok(q) && q@.wf() && q@.same_meta(
            PixModel { cmap: None, ..p },
        ) && forall|x: int, y: int|
            q@.contains(x, y) ==> #[trigger] q@.pixel(x, y) == if binary_inverts(c) {
                (1 - p.pixel(x, y)) as u32
            } else {
                p.pixel(x, y)
            },
        RemoveColormapTarget::ToGrayscale => {
            &&& (r is Ok <==> new_ok(p.width, p.height, PixelDepth::Bit8))
            &&& (r matches Ok(q) ==> converted(
                q@,
                p,
                PixelDepth::Bit8,
                true,
                |v: u32| lut_value(c, v, |e: (u8, u8, u8, u8)| entry_value(t, e)),
            ))
            &&& (r matches Err(e) ==> e is InvalidDimension)
        },
        _ => {
            &&& (r is Ok <==> new_ok(p.width, p.height, PixelDepth::Bit32))
            &&& (r matches Ok(q) ==> q@.spp == (if t == RemoveColormapTarget::WithAlpha { 4u32 } else { 3u32 })
                && converted(
                PixModel { spp: 3, ..q@ },
                p,
                PixelDepth::Bit32,
                true,
                |v: u32| lut_value(c, v, |e: (u8, u8, u8, u8)| entry_value(t, e)),
            ))
            &&& (r matches Err(e) ==> e is InvalidDimension)
        },
    }
}

/// The lookup table from pixel values `0..n` to `entry_value(t, ..)` of
/// the colormap entries.
fn build_lut(cmap: &PixColormap, n: usize, t: RemoveColormapTarget) -> (lut: Vec<u32>)
    requires
        n <= 256,
    ensures
        lut@.len() == n,
        forall|i: int|
            0 <= i < n ==> #[trigger] lut@[i] == lut_value(
                cmap@,
                i as u32,
                |e: (u8, u8, u8, u8)| entry_value(t, e),
            ),
{
    let mut lut: Vec<u32> = Vec::new();
    let mut i: usize = 0;
    while i < n
        invariant
            n <= 256,
            i <= n,
            lut@.len() == i,
            forall|j: int|
                0 <= j < i ==> #[trigger] lut@[j] == lut_value(
                    cmap@,
                    j as u32,
                    |e: (u8, u8, u8, u8)| entry_value(t, e),
                ),
        decreases n - i,
    {
        let v = match cmap.get_rgba(i) {
            Some((r, g, b, a)) => match t {
                RemoveColormapTarget::ToGrayscale => lum(r, g, b),
                RemoveColormapTarget::WithAlpha => color::compose_rgba(r, g, b, a),
                _ => color::compose_rgb(r, g, b),
            },
            None => 0,
        };
        lut.push(v);
        i = i + 1;
    }
    lut
}

impl Pix {
    /// Remove colormap and convert to specified target format.
    ///
    /// An image without a colormap is copied whole. Otherwise the target
    /// `BasedOnSrc` is chosen from the colormap: with alpha if some entry is
    /// not opaque, full color if some entry is not gray, binary for a
    /// black-and-white colormap of a 1 bpp image, and grayscale otherwise.
    /// Pixel values with no colormap entry give 0.
    ///
    /// # Errors
    ///
    /// [`Error::InvalidDimension`] if the converted image is too large.
    pub fn remove_colormap(&self, target: RemoveColormapTarget) -> (r: Result<Pix>)
        requires
            self@.wf(),
            self@.cmap is Some && target == RemoveColormapTarget::ToBinary ==> self@.depth
                == PixelDepth::Bit1,
        ensures
            self@.cmap is None ==> (r matches Ok(p) && p@ == self@),
            self@.cmap is Some ==> colormap_removed(r, self@, removal_target(self@, target)),
    {
        let cmap = match self.colormap() {
            Some(c) => c,
            None => {
                return Ok(self.deep_clone());
            },
        };
        let d = self.depth();
        if !(d == PixelDepth::Bit1 || d == PixelDepth::Bit2 || d == PixelDepth::Bit4 || d
            == PixelDepth::Bit8) {
            return Err(Error::UnsupportedDepth(d.bits()));
        }
        let t = match target {
            RemoveColormapTarget::BasedOnSrc => {
                if !cmap.is_opaque() {
                    RemoveColormapTarget::WithAlpha
                } else if cmap.has_color() {
                    RemoveColormapTarget::ToFullColor
                } else if d == PixelDepth::Bit1 && cmap.is_black_and_white() {
                    RemoveColormapTarget::ToBinary
                } else {
                    RemoveColormapTarget::ToGrayscale
                }
            },
            other => other,
        };
        proof {
            assert(t == removal_target(self@, target));
        }
        match t {
            RemoveColormapTarget::ToBinary => {
                let (r0, g0, b0) = match cmap.get_rgb(0) {
                    Some(c) => c,
                    None => (0, 0, 0),
                };
                let (r1, g1, b1) = match cmap.get_rgb(1) {
                    Some(c) => c,
                    None => (255, 255, 255),
                };
                let val0 = r0 as u32 + g0 as u32 + b0 as u32;
                let val1 = r1 as u32 + g1 as u32 + b1 as u32;
                let mut m = if val0 < val1 {
                    self.invert().to_mut()
                } else {
                    self.to_mut()
                };
                let ghost m0 = m@;
                let _ = m.set_colormap(None);
                let res = Ok(m.into_pix());
                proof {
                    let c = self@.cmap->Some_0;
                    assert(val0 < val1 <==> binary_inverts(c));
                    assert forall|x: int, y: int| m@.contains(x, y) implies #[trigger] m@.pixel(x, y)
                        == if binary_inverts(c) {
                        (1 - self@.pixel(x, y)) as u32
                    } else {
                        self@.pixel(x, y)
                    } by {
                        assert(m@.pixel(x, y) == m0.pixel(x, y));
                    }
                    assert(colormap_removed(res, self@, t));
                }
                res
            },
            RemoveColormapTarget::ToGrayscale => {
                let n = (d.max_value() + 1) as usize;
                let lut = build_lut(cmap, n, t);
                let f = |v: u32| -> (o: u32)
                    requires
                        v < lut@.len(),
                    ensures
                        o == lut@[v as int],
                    { lut[v as usize] };
                let r = self.convert_map(PixelDepth::Bit8, true, f, Ghost(|v: u32| lut@[v as int]));
                proof {
                    if r is Ok {
                        let q = r->Ok_0;
                        assert forall|x: int, y: int| q@.contains(x, y) implies #[trigger] q@.pixel(x, y)
                            == stored(PixelDepth::Bit8, lut_value(cmap@, self@.pixel(x, y), |e: (u8, u8, u8, u8)| entry_value(t, e))) by {
                            lemma_stored_pixel(self@, x, y);
                        }
                    }
                }
                proof {
                    assert(colormap_removed(r, self@, t));
                }
                r
            },
            _ => {
                let n = (d.max_value() + 1) as usize;
                let lut = build_lut(cmap, n, t);
                let f = |v: u32| -> (o: u32)
                    requires
                        v < lut@.len(),
                    ensures
                        o == lut@[v as int],
                    { lut[v as usize] };
                let r = self.convert_map(PixelDepth::Bit32, true, f, Ghost(|v: u32| lut@[v as int]));
                proof {
                    if r is Ok {
                        let q = r->Ok_0;
                        assert forall|x: int, y: int| q@.contains(x, y) implies #[trigger] q@.pixel(x, y)
                            == stored(PixelDepth::Bit32, lut_value(cmap@, self@.pixel(x, y), |e: (u8, u8, u8, u8)| entry_value(t, e))) by {
                            lemma_stored_pixel(self@, x, y);
                        }
                    }
                }
                let res = match r {
                    Ok(p) => {
                        if t == RemoveColormapTarget::WithAlpha {
                            let mut m = p.to_mut();
                            m.set_spp(4);
                            Ok(m.into_pix())
                        } else {
                            Ok(p)
                        }
                    },
                    Err(e) => Err(e),
                };
                proof {
                    assert(colormap_removed(res, self@, t));
                }
                res
            },
        }
    }
}

/// The 8 bpp value `convert_16_to_8` gives a pixel with the byte choice
/// resolved.
pub open spec fn to8_from16(t: Convert16To8Type, v: u32) -> u32 {
    match t {
        Convert16To8Type::LsByte => v % 256,
        Convert16To8Type::ClipToFf => if v < 255 { v } else { 255 },
        _ => (v / 256) % 256,
    }
}

/// The largest pixel value of an image is at most `m`.
pub open spec fn max_at_most(p: PixModel, m: u32) -> bool {
    forall|x: int, y: int| p.contains(x, y) ==> #[trigger] p.pixel(x, y) <= m
}

/// The 16 bpp value `convert_8_to_16` gives a gray value.
pub open spec fn to16_value(shift: u32, v: u32) -> u32 {
    if shift == 8 {
        (v * 257) as u32
    } else {
        (v * vstd::arithmetic::power2::pow2(shift as nat)) as u32
    }
}

/// The colormap of `n` opaque grays `f(0), f(1), ...`.
pub open spec fn gray_entries(n: nat, f: spec_fn(int) -> u8) -> Seq<(u8, u8, u8, u8)> {
    Seq::new(n, |i: int| (f(i), f(i), f(i), 255u8))
}

/// The pixel over a white background: `a c + (255 - a) 255`, divided by
/// 255.
pub open spec fn over_white(c: u8, a: u8) -> u8 {
    ((a * c + (255 - a) * 255) / 255) as u8
}

/// A 32 bpp pixel with its alpha blended over white.
pub open spec fn alpha_removed(p: u32) -> u32 {
    rgba_word(
        over_white(red_of(p), alpha_of(p)),
        over_white(green_of(p), alpha_of(p)),
        over_white(blue_of(p), alpha_of(p)),
        0,
    )
}

/// `colors` lists, in increasing order, the gray values that occur in `p`,
/// and each pixel of `r` is the index in `colors` of the value of the
/// pixel of `p`.
pub open spec fn indexed_by_levels(r: PixModel, p: PixModel, colors: Seq<(u8, u8, u8, u8)>) -> bool {
    &&& forall|i: int| 0 <= i < colors.len() ==> #[trigger] colors[i].0 == colors[i].1 && colors[i].1 == colors[i].2
        && colors[i].3 == 255
    &&& forall|i: int, j: int| 0 <= i < j < colors.len() ==> #[trigger] colors[i].0 < #[trigger] colors[j].0
    &&& forall|i: int| #![trigger colors[i]] 0 <= i < colors.len() ==> value_occurs(p, colors[i].0 as u32)
    &&& forall|x: int, y: int| r.contains(x, y) ==> #[trigger] r.pixel(x, y) < colors.len()
        && colors[r.pixel(x, y) as int].0 as u32 == p.pixel(x, y)
}

/// Some pixel of `p` has the value `v`.
pub open spec fn value_occurs(p: PixModel, v: u32) -> bool {
    exists|x: int, y: int| p.contains(x, y) && #[trigger] p.pixel(x, y) == v
}

/// Every value of `levels` is the value of some pixel of `p`.
pub open spec fn levels_occur(p: PixModel, levels: Seq<u8>) -> bool {
    forall|i: int| #![trigger levels[i]] 0 <= i < levels.len() ==> value_occurs(p, levels[i] as u32)
}

/// The gray levels of an 8 bpp image in increasing order, and for each
/// gray value its index among them.
fn gray_levels(pix: &Pix) -> (res: (Vec<u8>, Vec<u32>))
    requires
        pix@.wf(),
        pix@.depth == PixelDepth::Bit8,
    ensures
        res.1@.len() == 256,
        forall|i: int, j: int| 0 <= i < j < res.0@.len() ==> #[trigger] res.0@[i] < #[trigger] res.0@[j],
        levels_occur(pix@, res.0@),
        forall|x: int, y: int| pix@.contains(x, y) ==> res.1@[#[trigger] pix@.pixel(x, y) as int] < res.0@.len()
            && res.0@[res.1@[pix@.pixel(x, y) as int] as int] as u32 == pix@.pixel(x, y),
{
    let w = pix.width();
    let h = pix.height();
    let mut used: Vec<bool> = vec![false; 256];
    let mut y: u32 = 0;
    while y < h
        invariant
            pix@.wf(),
            pix@.depth == PixelDepth::Bit8,
            w == pix@.width,
            h == pix@.height,
            y <= h,
            used@.len() == 256,
            forall|v: int| #![trigger used@[v]] 0 <= v < 256 && used@[v] ==> exists|x: int, yy: int|
                pix@.contains(x, yy) && #[trigger] pix@.pixel(x, yy) == v as u32,
            forall|x: int, yy: int| pix@.contains(x, yy) && yy < y ==> #[trigger] used@[pix@.pixel(x, yy) as int],
        decreases h - y,
    {
        let mut x: u32 = 0;
        while x < w
            invariant
                pix@.wf(),
                pix@.depth == PixelDepth::Bit8,
                w == pix@.width,
                h == pix@.height,
                y < h,
                x <= w,
                used@.len() == 256,
                forall|v: int| #![trigger used@[v]] 0 <= v < 256 && used@[v] ==> exists|xx: int, yy: int|
                    pix@.contains(xx, yy) && #[trigger] pix@.pixel(xx, yy) == v as u32,
                forall|xx: int, yy: int| pix@.contains(xx, yy) && (yy < y || (yy == y && xx < x)) ==> #[trigger] used@[pix@.pixel(xx, yy) as int],
            decreases w - x,
        {
            let v = pix.get_pixel_unchecked(x, y);
            proof {
                lemma_stored_pixel(pix@, x as int, y as int);
            }
            let ghost u0 = used@;
            used.set(v as usize, true);
            proof {
                assert forall|xx: int, yy: int| pix@.contains(xx, yy) && (yy < y || (yy == y && xx < x + 1)) implies #[trigger] used@[pix@.pixel(xx, yy) as int] by {
                    lemma_stored_pixel(pix@, xx, yy);
                    if !(xx == x && yy == y) {
                        assert(u0[pix@.pixel(xx, yy) as int]);
                    }
                }
                assert forall|k: int| #![trigger used@[k]] 0 <= k < 256 && used@[k] implies exists|xx: int, yy: int|
                    pix@.contains(xx, yy) && #[trigger] pix@.pixel(xx, yy) == k as u32 by {
                    if k != v {
                        assert(u0[k]);
                    } else {
                        assert(pix@.contains(x as int, y as int) && pix@.pixel(x as int, y as int) == k as u32);
                    }
                }
            }
            x = x + 1;
        }
        y = y + 1;
    }
    let mut levels: Vec<u8> = Vec::new();
    let mut index: Vec<u32> = Vec::new();
    let mut v: usize = 0;
    while v < 256
        invariant
            used@.len() == 256,
            v <= 256,
            index@.len() == v,
            levels@.len() <= v,
            forall|u: int| #![trigger used@[u]] 0 <= u < 256 && used@[u] ==> exists|x: int, yy: int|
                pix@.contains(x, yy) && #[trigger] pix@.pixel(x, yy) == u as u32,
            forall|i: int, j: int| 0 <= i < j < levels@.len() ==> #[trigger] levels@[i] < #[trigger] levels@[j],
            forall|i: int| 0 <= i < levels@.len() ==> #[trigger] levels@[i] < v && used@[levels@[i] as int],
            forall|u: int| 0 <= u < v && #[trigger] used@[u] ==> index@[u] < levels@.len() && levels@[index@[u] as int] == u,
        decreases 256 - v,
    {
        if used[v] {
            index.push(levels.len() as u32);
            levels.push(v as u8);
        } else {
            index.push(0);
        }
        v = v + 1;
    }
    proof {
        assert forall|x: int, y: int| pix@.contains(x, y) implies index@[#[trigger] pix@.pixel(x, y) as int] < levels@.len()
            && levels@[index@[pix@.pixel(x, y) as int] as int] as u32 == pix@.pixel(x, y) by {
            lemma_stored_pixel(pix@, x, y);
            assert(used@[pix@.pixel(x, y) as int]);
        }
    }
    proof {
        assert forall|i: int| #![trigger levels@[i]] 0 <= i < levels@.len() implies value_occurs(pix@, levels@[i] as u32) by {
            let u = levels@[i] as int;
            assert(used@[u]);
        }
    }
    (levels, index)
}

/// A colormap of depth `d` holding the opaque grays `levels`.
fn gray_cmap(d: u32, levels: &Vec<u8>) -> (c: PixColormap)
    requires
        d == 2 || d == 4 || d == 8,
        levels@.len() <= crate::colormap::cmap_capacity(d),
    ensures
        c@.depth == d,
        c@.wf(),
        c@.colors == gray_entries(levels@.len(), |i: int| levels@[i]),
{
    let mut c = PixColormap::empty(d);
    let n = levels.len();
    let mut i: usize = 0;
    while i < n
        invariant
            n == levels@.len(),
            n <= crate::colormap::cmap_capacity(d),
            i <= n,
            c@.wf(),
            c@.depth == d,
            c@.colors == gray_entries(i as nat, |k: int| levels@[k]),
        decreases n - i,
    {
        let v = levels[i];
        let _ = c.add_rgb(v, v, v);
        proof {
            assert(c@.colors =~= gray_entries((i + 1) as nat, |k: int| levels@[k]));
        }
        i = i + 1;
    }
    c
}

/// The 8 bpp gray value of pixel value `v` of `p`: through the colormap,
/// when there is one.
pub open spec fn gray8_of(p: PixModel, v: u32) -> u32 {
    match p.cmap {
        Some(c) => stored(
            PixelDepth::Bit8,
            lut_value(c, v, |e: (u8, u8, u8, u8)| entry_value(RemoveColormapTarget::ToGrayscale, e)),
        ),
        None => v,
    }
}

/// The mask of the largest value of depth `d`, for the depths of
/// `unpack_binary`.
pub open spec fn depth_of_bits(bits: u32) -> PixelDepth {
    if bits == 2 {
        PixelDepth::Bit2
    } else if bits == 4 {
        PixelDepth::Bit4
    } else if bits == 8 {
        PixelDepth::Bit8
    } else if bits == 16 {
        PixelDepth::Bit16
    } else {
        PixelDepth::Bit32
    }
}

impl Pix {
    /// Convert 1 bpp to the specified depth with value mapping.
    ///
    /// Each 0-bit in the source becomes `val0` in the output,
    /// and each 1-bit becomes `val1`.
    fn convert_1_to(&self, target_depth: PixelDepth, val0: u32, val1: u32) -> (r: Result<Pix>)
        requires
            self@.wf(),
        ensures
            self@.depth != PixelDepth::Bit1 ==> (r matches Err(e) && e == Error::UnsupportedDepth(self@.depth.nbits())),
            self@.depth == PixelDepth::Bit1 ==> (r is Ok <==> new_ok(self@.width, self@.height, target_depth)),
            self@.depth == PixelDepth::Bit1 ==> (r matches Err(e) ==> e is InvalidDimension),
            r matches Ok(p) ==> converted(p@, self@, target_depth, true, |v: u32| if v == 0 { val0 } else { val1 }),
    {
        if self.depth() != PixelDepth::Bit1 {
            return Err(Error::UnsupportedDepth(self.depth().bits()));
        }
        let f = |v: u32| -> (o: u32)
            ensures
                o == if v == 0 { val0 } else { val1 },
            {
                if v == 0 {
                    val0
                } else {
                    val1
                }
            };
        self.convert_map(target_depth, true, f, Ghost(|v: u32| if v == 0 { val0 } else { val1 }))
    }

    /// Convert 1 bpp to 2 bpp with value mapping.
    ///
    /// Each 0-bit in the source becomes `val0` (0-3) in the output,
    /// and each 1-bit becomes `val1` (0-3); other bits of the values are
    /// dropped.
    ///
    /// # Errors
    ///
    /// [`Error::UnsupportedDepth`] if the image is not 1 bpp;
    /// [`Error::InvalidDimension`] if the result is too large.
    pub fn convert_1_to_2(&self, val0: u32, val1: u32) -> (r: Result<Pix>)
        requires
            self@.wf(),
        ensures
            r is Ok <==> self@.depth == PixelDepth::Bit1 && new_ok(self@.width, self@.height, PixelDepth::Bit2),
            r matches Err(e) ==> if self@.depth != PixelDepth::Bit1 {
                e == Error::UnsupportedDepth(self@.depth.nbits())
            } else {
                e is InvalidDimension
            },
            r matches Ok(p) ==> converted(p@, self@, PixelDepth::Bit2, true, |v: u32| if v == 0 { val0 } else { val1 }),
    {
        self.convert_1_to(PixelDepth::Bit2, val0, val1)
    }

    /// Convert 1 bpp to 4 bpp with value mapping.
    ///
    /// Each 0-bit in the source becomes `val0` (0-15) in the output,
    /// and each 1-bit becomes `val1` (0-15).
    ///
    /// # Errors
    ///
    /// [`Error::UnsupportedDepth`] if the image is not 1 bpp;
    /// [`Error::InvalidDimension`] if the result is too large.
    pub fn convert_1_to_4(&self, val0: u32, val1: u32) -> (r: Result<Pix>)
        requires
            self@.wf(),
        ensures
            r is Ok <==> self@.depth == PixelDepth::Bit1 && new_ok(self@.width, self@.height, PixelDepth::Bit4),
            r matches Err(e) ==> if self@.depth != PixelDepth::Bit1 {
                e == Error::UnsupportedDepth(self@.depth.nbits())
            } else {
                e is InvalidDimension
            },
            r matches Ok(p) ==> converted(p@, self@, PixelDepth::Bit4, true, |v: u32| if v == 0 { val0 } else { val1 }),
    {
        self.convert_1_to(PixelDepth::Bit4, val0, val1)
    }

    /// Convert 1 bpp to 8 bpp with value mapping.
    ///
    /// Each 0-bit in the source becomes `val0` (0-255) in the output,
    /// and each 1-bit becomes `val1` (0-255).
    ///
    /// # Errors
    ///
    /// [`Error::UnsupportedDepth`] if the image is not 1 bpp;
    /// [`Error::InvalidDimension`] if the result is too large.
    pub fn convert_1_to_8(&self, val0: u32, val1: u32) -> (r: Result<Pix>)
        requires
            self@.wf(),
        ensures
            r is Ok <==> self@.depth == PixelDepth::Bit1 && new_ok(self@.width, self@.height, PixelDepth::Bit8),
            r matches Err(e) ==> if self@.depth != PixelDepth::Bit1 {
                e == Error::UnsupportedDepth(self@.depth.nbits())
            } else {
                e is InvalidDimension
            },
            r matches Ok(p) ==> converted(p@, self@, PixelDepth::Bit8, true, |v: u32| if v == 0 { val0 } else { val1 }),
    {
        self.convert_1_to(PixelDepth::Bit8, val0, val1)
    }

    /// Convert 1 bpp to 16 bpp with value mapping.
    ///
    /// Each 0-bit becomes `val0` and each 1-bit becomes `val1`.
    ///
    /// # Errors
    ///
    /// [`Error::UnsupportedDepth`] if the image is not 1 bpp;
    /// [`Error::InvalidDimension`] if the result is too large.
    pub fn convert_1_to_16(&self, val0: u32, val1: u32) -> (r: Result<Pix>)
        requires
            self@.wf(),
        ensures
            r is Ok <==> self@.depth == PixelDepth::Bit1 && new_ok(self@.width, self@.height, PixelDepth::Bit16),
            r matches Err(e) ==> if self@.depth != PixelDepth::Bit1 {
                e == Error::UnsupportedDepth(self@.depth.nbits())
            } else {
                e is InvalidDimension
            },
            r matches Ok(p) ==> converted(p@, self@, PixelDepth::Bit16, true, |v: u32| if v == 0 { val0 } else { val1 }),
    {
        self.convert_1_to(PixelDepth::Bit16, val0, val1)
    }

    /// Convert 1 bpp to 32 bpp with value mapping.
    ///
    /// Each 0-bit becomes `val0` and each 1-bit becomes `val1`.
    ///
    /// # Errors
    ///
    /// [`Error::UnsupportedDepth`] if the image is not 1 bpp;
    /// [`Error::InvalidDimension`] if the result is too large.
    pub fn convert_1_to_32(&self, val0: u32, val1: u32) -> (r: Result<Pix>)
        requires
            self@.wf(),
        ensures
            r is Ok <==> self@.depth == PixelDepth::Bit1 && new_ok(self@.width, self@.height, PixelDepth::Bit32),
            r matches Err(e) ==> if self@.depth != PixelDepth::Bit1 {
                e == Error::UnsupportedDepth(self@.depth.nbits())
            } else {
                e is InvalidDimension
            },
            r matches Ok(p) ==> converted(p@, self@, PixelDepth::Bit32, true, |v: u32| if v == 0 { val0 } else { val1 }),
    {
        self.convert_1_to(PixelDepth::Bit32, val0, val1)
    }

    /// Unpack 1 bpp binary image to a higher depth.
    ///
    /// Maps 0-bits to 0 and 1-bits to the largest value of the target
    /// depth; if `invert` is true, the mapping is reversed.
    ///
    /// # Errors
    ///
    /// [`Error::UnsupportedDepth`] if the image is not 1 bpp;
    /// [`Error::InvalidParameter`] if `depth` is not 2, 4, 8, 16 or 32;
    /// [`Error::InvalidDimension`] if the result is too large.
    pub fn unpack_binary(&self, depth: u32, invert: bool) -> (r: Result<Pix>)
        requires
            self@.wf(),
        ensures
            r is Ok <==> self@.depth == PixelDepth::Bit1 && (depth == 2 || depth == 4 || depth == 8
                || depth == 16 || depth == 32) && new_ok(self@.width, self@.height, depth_of_bits(depth)),
            r matches Err(e) ==> if self@.depth != PixelDepth::Bit1 {
                e == Error::UnsupportedDepth(self@.depth.nbits())
            } else if !(depth == 2 || depth == 4 || depth == 8 || depth == 16 || depth == 32) {
                e is InvalidParameter
            } else {
                e is InvalidDimension
            },
            r matches Ok(p) ==> converted(
                p@,
                self@,
                depth_of_bits(depth),
                true,
                |v: u32| if (v == 0) != invert { 0 } else { pmask(depth_of_bits(depth)) },
            ),
    {
        if self.depth() != PixelDepth::Bit1 {
            return Err(Error::UnsupportedDepth(self.depth().bits()));
        }
        let target = if depth == 2 {
            PixelDepth::Bit2
        } else if depth == 4 {
            PixelDepth::Bit4
        } else if depth == 8 {
            PixelDepth::Bit8
        } else if depth == 16 {
            PixelDepth::Bit16
        } else if depth == 32 {
            PixelDepth::Bit32
        } else {
            return Err(invalid_param("target depth must be 2, 4, 8, 16, or 32"));
        };
        let m = target.max_value();
        let (v0, v1) = if invert {
            (m, 0)
        } else {
            (0, m)
        };
        let r = self.convert_1_to(target, v0, v1);
        proof {
            if r is Ok {
                let q = r->Ok_0;
                assert forall|x: int, y: int| q@.contains(x, y) implies #[trigger] q@.pixel(x, y)
                    == stored(target, if (self@.pixel(x, y) == 0) != invert { 0 } else { pmask(target) }) by {}
            }
        }
        r
    }

    /// Convert 2 bpp to 8 bpp with custom value mapping.
    ///
    /// Each 2-bit pixel value (0-3) is mapped to the corresponding 8-bit value:
    /// `val0`, `val1`, `val2` or `val3`.
    ///
    /// If `add_colormap` is true, the result has a 4-entry colormap using the
    /// specified values, and its pixels are the 2-bit values. Otherwise, the
    /// values are written directly as 8-bit pixels.
    ///
    /// # Errors
    ///
    /// [`Error::UnsupportedDepth`] if the image is not 2 bpp;
    /// [`Error::InvalidDimension`] if the result is too large.
    pub fn convert_2_to_8(&self, val0: u8, val1: u8, val2: u8, val3: u8, add_colormap: bool) -> (r: Result<Pix>)
        requires
            self@.wf(),
        ensures
            r is Ok <==> self@.depth == PixelDepth::Bit2 && new_ok(self@.width, self@.height, PixelDepth::Bit8),
            r matches Err(e) ==> if self@.depth != PixelDepth::Bit2 {
                e == Error::UnsupportedDepth(self@.depth.nbits())
            } else {
                e is InvalidDimension
            },
            r matches Ok(p) ==> {
                let vals = seq![val0, val1, val2, val3];
                if add_colormap {
                    &&& p@.cmap == Some(CmapModel { depth: 8, colors: gray_entries(4, |i: int| vals[i]) })
                    &&& converted(PixModel { cmap: None, ..p@ }, self@, PixelDepth::Bit8, true, |v: u32| v)
                } else {
                    converted(p@, self@, PixelDepth::Bit8, true, |v: u32| vals[v as int] as u32)
                }
            },
    {
        if self.depth() != PixelDepth::Bit2 {
            return Err(Error::UnsupportedDepth(self.depth().bits()));
        }
        let vals: Vec<u8> = vec![val0, val1, val2, val3];
        if add_colormap {
            let f = |v: u32| -> (o: u32)
                ensures
                    o == v,
                { v };
            let p = self.convert_map(PixelDepth::Bit8, true, f, Ghost(|v: u32| v))?;
            let cmap = gray_cmap(8, &vals);
            let mut m = p.to_mut();
            let ghost m0 = m@;
            let _ = m.set_colormap(Some(cmap));
            proof {
                assert(vals@ == seq![val0, val1, val2, val3]);
                assert(PixModel { cmap: None, ..m@ } == m0);
            }
            Ok(m.into_pix())
        } else {
            let f = |v: u32| -> (o: u32)
                requires
                    v < 4,
                ensures
                    o == vals@[v as int] as u32,
                { vals[v as usize] as u32 };
            let r = self.convert_map(PixelDepth::Bit8, true, f, Ghost(|v: u32| vals@[v as int] as u32));
            proof {
                assert(vals@ == seq![val0, val1, val2, val3]);
            }
            r
        }
    }
}

/// The 16 gray levels `0, 17, ..., 255`.
pub open spec fn levels_16() -> Seq<(u8, u8, u8, u8)> {
    gray_entries(16, |i: int| (i * 17) as u8)
}

impl Pix {
    /// Convert 4 bpp to 8 bpp.
    ///
    /// If `add_colormap` is true, the result is an 8-bit image with a 16-entry
    /// linear colormap (0, 17, 34, ..., 255) whose pixels are the 4-bit
    /// values. Otherwise, each 4-bit value is expanded to 8 bits by
    /// replication: `(val << 4) | val`.
    ///
    /// # Errors
    ///
    /// [`Error::UnsupportedDepth`] if the image is not 4 bpp;
    /// [`Error::InvalidDimension`] if the result is too large.
    pub fn convert_4_to_8(&self, add_colormap: bool) -> (r: Result<Pix>)
        requires
            self@.wf(),
        ensures
            r is Ok <==> self@.depth == PixelDepth::Bit4 && new_ok(self@.width, self@.height, PixelDepth::Bit8),
            r matches Err(e) ==> if self@.depth != PixelDepth::Bit4 {
                e == Error::UnsupportedDepth(self@.depth.nbits())
            } else {
                e is InvalidDimension
            },
            r matches Ok(p) ==> if add_colormap {
                &&& p@.cmap == Some(CmapModel { depth: 8, colors: levels_16() })
                &&& converted(PixModel { cmap: None, ..p@ }, self@, PixelDepth::Bit8, true, |v: u32| v)
            } else {
                converted(p@, self@, PixelDepth::Bit8, true, |v: u32| (v * 17) as u32)
            },
    {
        if self.depth() != PixelDepth::Bit4 {
            return Err(Error::UnsupportedDepth(self.depth().bits()));
        }
        if add_colormap {
            let f = |v: u32| -> (o: u32)
                ensures
                    o == v,
                { v };
            let p = self.convert_map(PixelDepth::Bit8, true, f, Ghost(|v: u32| v))?;
            let mut levels: Vec<u8> = Vec::new();
            let mut i: u32 = 0;
            while i < 16
                invariant
                    i <= 16,
                    levels@.len() == i,
                    forall|k: int| 0 <= k < i ==> #[trigger] levels@[k] == (k * 17) as u8,
                decreases 16 - i,
            {
                levels.push((i * 255 / 15) as u8);
                i = i + 1;
            }
            let cmap = gray_cmap(8, &levels);
            let mut m = p.to_mut();
            let ghost m0 = m@;
            let _ = m.set_colormap(Some(cmap));
            proof {
                assert(gray_entries(16, |k: int| levels@[k]) =~= levels_16());
                assert(PixModel { cmap: None, ..m@ } == m0);
            }
            Ok(m.into_pix())
        } else {
            let f = |v: u32| -> (o: u32)
                requires
                    v < 16,
                ensures
                    o == (v * 17) as u32,
                { v * 17 };
            self.convert_map(PixelDepth::Bit8, true, f, Ghost(|v: u32| (v * 17) as u32))
        }
    }

    /// Convert 8 bpp grayscale to 2 bpp by taking the top 2 bits.
    ///
    /// # Errors
    ///
    /// [`Error::UnsupportedDepth`] if the image is not 8 bpp.
    pub fn convert_8_to_2(&self) -> (r: Result<Pix>)
        requires
            self@.wf(),
        ensures
            r is Ok <==> self@.depth == PixelDepth::Bit8,
            r matches Err(e) ==> e == Error::UnsupportedDepth(self@.depth.nbits()),
            r matches Ok(p) ==> converted(p@, self@, PixelDepth::Bit2, true, |v: u32| v / 64),
    {
        if self.depth() != PixelDepth::Bit8 {
            return Err(Error::UnsupportedDepth(self.depth().bits()));
        }
        proof {
            self@.lemma_new_ok_depth(PixelDepth::Bit2);
        }
        let f = |v: u32| -> (o: u32)
            ensures
                o == v / 64,
            { v / 64 };
        self.convert_map(PixelDepth::Bit2, true, f, Ghost(|v: u32| v / 64))
    }

    /// Convert 8 bpp grayscale to 4 bpp by taking the top 4 bits.
    ///
    /// # Errors
    ///
    /// [`Error::UnsupportedDepth`] if the image is not 8 bpp.
    pub fn convert_8_to_4(&self) -> (r: Result<Pix>)
        requires
            self@.wf(),
        ensures
            r is Ok <==> self@.depth == PixelDepth::Bit8,
            r matches Err(e) ==> e == Error::UnsupportedDepth(self@.depth.nbits()),
            r matches Ok(p) ==> converted(p@, self@, PixelDepth::Bit4, true, |v: u32| v / 16),
    {
        if self.depth() != PixelDepth::Bit8 {
            return Err(Error::UnsupportedDepth(self.depth().bits()));
        }
        proof {
            self@.lemma_new_ok_depth(PixelDepth::Bit4);
        }
        let f = |v: u32| -> (o: u32)
            ensures
                o == v / 16,
            { v / 16 };
        self.convert_map(PixelDepth::Bit4, true, f, Ghost(|v: u32| v / 16))
    }

    /// The largest pixel value of the image.
    fn max_pixel(&self) -> (m: u32)
        requires
            self@.wf(),
        ensures
            max_at_most(self@, m),
            exists|x: int, y: int| self@.contains(x, y) && #[trigger] self@.pixel(x, y) == m,
    {
        let w = self.width();
        let h = self.height();
        let mut m: u32 = self.get_pixel_unchecked(0, 0);
        let mut y: u32 = 0;
        while y < h
            invariant
                self@.wf(),
                w == self@.width,
                h == self@.height,
                y <= h,
                forall|xx: int, yy: int| self@.contains(xx, yy) && yy < y ==> #[trigger] self@.pixel(xx, yy) <= m,
                exists|xx: int, yy: int| self@.contains(xx, yy) && #[trigger] self@.pixel(xx, yy) == m,
            decreases h - y,
        {
            let mut x: u32 = 0;
            while x < w
                invariant
                    self@.wf(),
                    w == self@.width,
                    h == self@.height,
                    y < h,
                    x <= w,
                    forall|xx: int, yy: int| self@.contains(xx, yy) && (yy < y || (yy == y && xx < x)) ==> #[trigger] self@.pixel(xx, yy) <= m,
                    exists|xx: int, yy: int| self@.contains(xx, yy) && #[trigger] self@.pixel(xx, yy) == m,
                decreases w - x,
            {
                let v = self.get_pixel_unchecked(x, y);
                if v > m {
                    m = v;
                }
                x = x + 1;
            }
            y = y + 1;
        }
        m
    }

    /// Convert 16 bpp to 8 bpp using the specified extraction strategy.
    ///
    /// `AutoByte` takes the least significant byte when every pixel is at
    /// most 255, and the most significant byte otherwise.
    ///
    /// # Errors
    ///
    /// [`Error::UnsupportedDepth`] if the image is not 16 bpp.
    pub fn convert_16_to_8(&self, conversion_type: Convert16To8Type) -> (r: Result<Pix>)
        requires
            self@.wf(),
        ensures
            r is Ok <==> self@.depth == PixelDepth::Bit16,
            r matches Err(e) ==> e == Error::UnsupportedDepth(self@.depth.nbits()),
            r matches Ok(p) ==> converted(
                p@,
                self@,
                PixelDepth::Bit8,
                true,
                |v: u32| to8_from16(
                    if conversion_type == Convert16To8Type::AutoByte {
                        if max_at_most(self@, 255) { Convert16To8Type::LsByte } else { Convert16To8Type::MsByte }
                    } else {
                        conversion_type
                    },
                    v,
                ),
            ),
    {
        if self.depth() != PixelDepth::Bit16 {
            return Err(Error::UnsupportedDepth(self.depth().bits()));
        }
        let t = match conversion_type {
            Convert16To8Type::AutoByte => {
                let mx = self.max_pixel();
                if mx <= 255 {
                    Convert16To8Type::LsByte
                } else {
                    proof {
                        let (x, y) = choose|x: int, y: int| self@.contains(x, y) && #[trigger] self@.pixel(x, y) == mx;
                        assert(!max_at_most(self@, 255));
                    }
                    Convert16To8Type::MsByte
                }
            },
            other => other,
        };
        proof {
            self@.lemma_new_ok_depth(PixelDepth::Bit8);
        }
        let f = |v: u32| -> (o: u32)
            ensures
                o == to8_from16(t, v),
            {
                match t {
                    Convert16To8Type::LsByte => v % 256,
                    Convert16To8Type::ClipToFf => if v < 255 {
                        v
                    } else {
                        255
                    },
                    _ => (v / 256) % 256,
                }
            };
        self.convert_map(PixelDepth::Bit8, true, f, Ghost(|v: u32| to8_from16(t, v)))
    }
}

impl Pix {
    /// Convert 8 bpp grayscale to 16 bpp with configurable shift.
    ///
    /// - `left_shift == 8`: proportional mapping (val | val << 8)
    /// - `left_shift < 8`: simple left shift (val << left_shift)
    ///
    /// A colormap is first removed to grayscale.
    ///
    /// # Errors
    ///
    /// [`Error::UnsupportedDepth`] if the image is not 8 bpp;
    /// [`Error::InvalidParameter`] if `left_shift` is not in `[0, 8]`;
    /// [`Error::InvalidDimension`] if the result is too large.
    pub fn convert_8_to_16(&self, left_shift: u32) -> (r: Result<Pix>)
        requires
            self@.wf(),
        ensures
            r is Ok <==> self@.depth == PixelDepth::Bit8 && left_shift <= 8 && new_ok(self@.width, self@.height, PixelDepth::Bit16),
            r matches Err(e) ==> if self@.depth != PixelDepth::Bit8 {
                e == Error::UnsupportedDepth(self@.depth.nbits())
            } else if left_shift > 8 {
                e is InvalidParameter
            } else {
                e is InvalidDimension
            },
            r matches Ok(p) ==> converted(p@, self@, PixelDepth::Bit16, true, |v: u32| to16_value(left_shift, gray8_of(self@, v))),
    {
        if self.depth() != PixelDepth::Bit8 {
            return Err(Error::UnsupportedDepth(self.depth().bits()));
        }
        if left_shift > 8 {
            return Err(invalid_param("left_shift must be in [0, 8]"));
        }
        let src = if self.has_colormap() {
            proof {
                self@.lemma_new_ok_depth(PixelDepth::Bit8);
            }
            match self.remove_colormap(RemoveColormapTarget::ToGrayscale) {
                Ok(p) => p,
                Err(e) => {
                    return Err(e);
                },
            }
        } else {
            self.deep_clone()
        };
        let ghost sm = src@;
        proof {
            assert forall|x: int, y: int| self@.contains(x, y) implies #[trigger] sm.pixel(x, y) == gray8_of(self@, self@.pixel(x, y))
                && sm.pixel(x, y) <= 255 by {
                lemma_stored_pixel(sm, x, y);
            }
        }
        let f = |v: u32| -> (o: u32)
            requires
                v <= 255,
            ensures
                o == to16_value(left_shift, v),
            {
                if left_shift == 8 {
                    v * 257
                } else {
                    proof {
                        assert(vstd::arithmetic::power2::pow2(left_shift as nat) <= 128) by {
                            vstd::arithmetic::power2::lemma2_to64();
                            if left_shift == 0 {
                            } else if left_shift == 1 {
                            } else if left_shift == 2 {
                            } else if left_shift == 3 {
                            } else if left_shift == 4 {
                            } else if left_shift == 5 {
                            } else if left_shift == 6 {
                            } else {
                            }
                        }
                        assert(v * vstd::arithmetic::power2::pow2(left_shift as nat) <= 255 * 128) by (nonlinear_arith)
                            requires
                                v <= 255,
                                vstd::arithmetic::power2::pow2(left_shift as nat) <= 128,
                        ;
                        vstd::bits::lemma_u32_shl_is_mul(v, left_shift);
                    }
                    v << left_shift
                }
            };
        let r = src.convert_map(PixelDepth::Bit16, false, f, Ghost(|v: u32| to16_value(left_shift, v)));
        match r {
            Ok(p) => {
                let mut m = p.to_mut();
                let ghost m0 = m@;
                m.set_resolution(self.xres(), self.yres());
                proof {
                    assert forall|x: int, y: int| m@.contains(x, y) implies #[trigger] m@.pixel(x, y)
                        == stored(PixelDepth::Bit16, to16_value(left_shift, gray8_of(self@, self@.pixel(x, y)))) by {
                        assert(m@.pixel(x, y) == m0.pixel(x, y));
                    }
                }
                Ok(m.into_pix())
            },
            Err(e) => Err(e),
        }
    }

    /// Convert any 1 or 8 bpp image to 16 bpp.
    ///
    /// - **1 bpp**: 0 -> 0xffff (white), 1 -> 0 (black)
    /// - **8 bpp**: replicate value in both MSB and LSB (val | val << 8)
    ///
    /// # Errors
    ///
    /// [`Error::UnsupportedDepth`] for other depths;
    /// [`Error::InvalidDimension`] if the result is too large.
    pub fn convert_to_16(&self) -> (r: Result<Pix>)
        requires
            self@.wf(),
        ensures
            r is Ok <==> (self@.depth == PixelDepth::Bit1 || self@.depth == PixelDepth::Bit8) && new_ok(self@.width, self@.height, PixelDepth::Bit16),
            r matches Err(e) ==> if !(self@.depth == PixelDepth::Bit1 || self@.depth == PixelDepth::Bit8) {
                e == Error::UnsupportedDepth(self@.depth.nbits())
            } else {
                e is InvalidDimension
            },
            r matches Ok(p) ==> converted(
                p@,
                self@,
                PixelDepth::Bit16,
                true,
                |v: u32| if self@.depth == PixelDepth::Bit1 {
                    if v == 0 { 0xffffu32 } else { 0u32 }
                } else {
                    to16_value(8, gray8_of(self@, v))
                },
            ),
    {
        match self.depth() {
            PixelDepth::Bit1 => {
                let f = |v: u32| -> (o: u32)
                    ensures
                        o == if v == 0 { 0xffffu32 } else { 0u32 },
                    {
                        if v == 0 {
                            0xffff
                        } else {
                            0
                        }
                    };
                self.convert_map(PixelDepth::Bit16, true, f, Ghost(|v: u32| if v == 0 { 0xffffu32 } else { 0u32 }))
            },
            PixelDepth::Bit8 => self.convert_8_to_16(8),
            _ => Err(Error::UnsupportedDepth(self.depth().bits())),
        }
    }

    /// Convert 8 bpp grayscale to 32 bpp RGB.
    ///
    /// Replicates gray into R=G=B channels with alpha 255. If a colormap
    /// is present, it is removed to full color instead.
    ///
    /// # Errors
    ///
    /// [`Error::UnsupportedDepth`] if the image is not 8 bpp;
    /// [`Error::InvalidDimension`] if the result is too large.
    pub fn convert_8_to_32(&self) -> (r: Result<Pix>)
        requires
            self@.wf(),
        ensures
            r is Ok <==> self@.depth == PixelDepth::Bit8 && new_ok(self@.width, self@.height, PixelDepth::Bit32),
            r matches Err(e) ==> if self@.depth != PixelDepth::Bit8 {
                e == Error::UnsupportedDepth(self@.depth.nbits())
            } else {
                e is InvalidDimension
            },
            self@.depth == PixelDepth::Bit8 && self@.cmap is Some ==> colormap_removed(r, self@, RemoveColormapTarget::ToFullColor),
            self@.cmap is None ==> (r matches Ok(p) ==> converted(p@, self@, PixelDepth::Bit32, true, |v: u32| rgba_word(v as u8, v as u8, v as u8, 255))),
    {
        if self.depth() != PixelDepth::Bit8 {
            return Err(Error::UnsupportedDepth(self.depth().bits()));
        }
        if self.has_colormap() {
            return self.remove_colormap(RemoveColormapTarget::ToFullColor);
        }
        let f = |v: u32| -> (o: u32)
            requires
                v <= 255,
            ensures
                o == rgba_word(v as u8, v as u8, v as u8, 255),
            { color::compose_rgba(v as u8, v as u8, v as u8, 255) };
        self.convert_map(PixelDepth::Bit32, true, f, Ghost(|v: u32| rgba_word(v as u8, v as u8, v as u8, 255)))
    }

    /// Lossless depth expansion from lower to higher depth.
    ///
    /// Only expands 1/2/4 bpp to a higher depth (2/4/8 bpp); the pixel
    /// values are kept. An image already of the target depth is copied.
    ///
    /// # Errors
    ///
    /// [`Error::InvalidDepth`] if `target_depth` is not a depth;
    /// [`Error::InvalidParameter`] if it is not 2, 4 or 8, if it is less
    /// than the source depth, or if the source has a colormap;
    /// [`Error::InvalidDimension`] if the result is too large.
    pub fn convert_lossless(&self, target_depth: u32) -> (r: Result<Pix>)
        requires
            self@.wf(),
        ensures
            r is Ok <==> (target_depth == 2 || target_depth == 4 || target_depth == 8) && self@.depth.nbits() <= target_depth
                && self@.cmap is None && (self@.depth.nbits() < target_depth ==> new_ok(self@.width, self@.height, depth_of_bits(target_depth))),
            r matches Err(e) ==> if !(target_depth == 1 || target_depth == 2 || target_depth == 4 || target_depth == 8 || target_depth == 16 || target_depth == 32) {
                e is InvalidDepth
            } else if !(target_depth == 2 || target_depth == 4 || target_depth == 8) || target_depth < self@.depth.nbits() || self@.cmap is Some {
                e is InvalidParameter
            } else {
                e is InvalidDimension
            },
            r matches Ok(p) ==> if self@.depth.nbits() == target_depth {
                p@ == self@
            } else {
                converted(p@, self@, depth_of_bits(target_depth), true, |v: u32| v)
            },
    {
        let src_d = self.depth().bits();
        let target = PixelDepth::from_bits(target_depth)?;
        if !(target == PixelDepth::Bit2 || target == PixelDepth::Bit4 || target == PixelDepth::Bit8) {
            return Err(invalid_param("target depth must be 2, 4, or 8"));
        }
        if target_depth < src_d {
            return Err(invalid_param("lossy conversion not allowed"));
        }
        if self.has_colormap() {
            return Err(invalid_param("source must not have a colormap"));
        }
        if target_depth == src_d {
            return Ok(self.deep_clone());
        }
        let f = |v: u32| -> (o: u32)
            ensures
                o == v,
            { v };
        self.convert_map(target, true, f, Ghost(|v: u32| v))
    }

    /// Remove alpha channel by blending over white background.
    ///
    /// If the image is 32 bpp RGBA (spp=4), blends each pixel over white;
    /// the result has spp 3 and alpha bytes 0. Otherwise returns a deep
    /// clone unchanged.
    ///
    /// # Errors
    ///
    /// None occurs.
    pub fn remove_alpha(&self) -> (r: Result<Pix>)
        requires
            self@.wf(),
        ensures
            !(self@.depth == PixelDepth::Bit32 && self@.spp == 4) ==> (r matches Ok(p) && p@ == self@),
            self@.depth == PixelDepth::Bit32 && self@.spp == 4 ==> (r matches Ok(p) && converted(
                p@,
                self@,
                PixelDepth::Bit32,
                true,
                |v: u32| alpha_removed(v),
            )),
    {
        if self.depth() != PixelDepth::Bit32 || self.spp() != 4 {
            return Ok(self.deep_clone());
        }
        proof {
            self@.lemma_new_ok();
        }
        let f = |v: u32| -> (o: u32)
            ensures
                o == alpha_removed(v),
            {
                let (r, g, b, a) = color::extract_rgba(v);
                let a32 = a as u32;
                let inv_a = 255 - a32;
                assert(a32 * r as u32 + inv_a * 255 <= 255 * 255) by (nonlinear_arith)
                    requires
                        a32 <= 255,
                        r <= 255,
                        inv_a == 255 - a32,
                ;
                assert(a32 * g as u32 + inv_a * 255 <= 255 * 255) by (nonlinear_arith)
                    requires
                        a32 <= 255,
                        g <= 255,
                        inv_a == 255 - a32,
                ;
                assert(a32 * b as u32 + inv_a * 255 <= 255 * 255) by (nonlinear_arith)
                    requires
                        a32 <= 255,
                        b <= 255,
                        inv_a == 255 - a32,
                ;
                let nr = ((a32 * r as u32 + inv_a * 255) / 255) as u8;
                let ng = ((a32 * g as u32 + inv_a * 255) / 255) as u8;
                let nb = ((a32 * b as u32 + inv_a * 255) / 255) as u8;
                color::compose_rgb(nr, ng, nb)
            };
        self.convert_map(PixelDepth::Bit32, true, f, Ghost(|v: u32| alpha_removed(v)))
    }
}

/// What `convert_to_2` (`quarter` false) or `convert_to_4` (`quarter`
/// true) gives an image: the result of the conversion that the depth and
/// colormap of `p` select.
pub open spec fn reduced_gray(r: PixModel, p: PixModel, quarter: bool) -> bool {
    let d = if quarter { PixelDepth::Bit4 } else { PixelDepth::Bit2 };
    let div: u32 = if quarter { 16 } else { 64 };
    if p.cmap is Some {
        converted(r, p, d, true, |v: u32| gray8_of(p, v) / div)
    } else if p.depth == d {
        r == p
    } else {
        match p.depth {
            PixelDepth::Bit1 => converted(r, p, d, true, |v: u32| if v == 0 { 0u32 } else { pmask(d) }),
            PixelDepth::Bit8 => converted(r, p, d, true, |v: u32| v / div),
            PixelDepth::Bit2 => converted(r, p, d, true, |v: u32| (v * 85) as u32 / div),
            _ => converted(r, p, d, false, |v: u32| stored(PixelDepth::Bit8, to8_value(p.depth, v)) / div),
        }
    }
}

/// Whether `convert_to_2` (`quarter` false) or `convert_to_4` (`quarter`
/// true) can make the images it needs on the way.
pub open spec fn reduce_ok(p: PixModel, quarter: bool) -> bool {
    let d = if quarter { PixelDepth::Bit4 } else { PixelDepth::Bit2 };
    if p.cmap is Some {
        new_ok(p.width, p.height, PixelDepth::Bit8)
    } else if p.depth == d {
        true
    } else if p.depth == PixelDepth::Bit1 {
        new_ok(p.width, p.height, d)
    } else if p.depth == PixelDepth::Bit4 || (quarter && p.depth == PixelDepth::Bit2) {
        new_ok(p.width, p.height, PixelDepth::Bit8)
    } else {
        true
    }
}

impl Pix {
    /// Reduces an 8 bpp image without colormap by `convert_8_to_2` or
    /// `convert_8_to_4`.
    fn reduce_8(&self, quarter: bool) -> (r: Result<Pix>)
        requires
            self@.wf(),
            self@.depth == PixelDepth::Bit8,
        ensures
            r matches Ok(p) && converted(
                p@,
                self@,
                if quarter { PixelDepth::Bit4 } else { PixelDepth::Bit2 },
                true,
                |v: u32| v / (if quarter { 16u32 } else { 64u32 }),
            ),
    {
        let r = if quarter {
            self.convert_8_to_4()
        } else {
            self.convert_8_to_2()
        };
        proof {
            if r is Ok {
                let q = r->Ok_0;
                assert forall|x: int, y: int| q@.contains(x, y) implies #[trigger] q@.pixel(x, y)
                    == stored(if quarter { PixelDepth::Bit4 } else { PixelDepth::Bit2 }, self@.pixel(x, y) / (if quarter { 16u32 } else { 64u32 })) by {}
            }
        }
        r
    }

    /// Converts an image to 2 or 4 bpp gray.
    fn convert_to_reduced(&self, quarter: bool) -> (r: Result<Pix>)
        requires
            self@.wf(),
        ensures
            r is Ok <==> reduce_ok(self@, quarter),
            r matches Ok(p) ==> reduced_gray(p@, self@, quarter),
            r matches Err(e) ==> e is InvalidDimension,
    {
        let d = if quarter {
            PixelDepth::Bit4
        } else {
            PixelDepth::Bit2
        };
        if self.has_colormap() {
            let gray = self.remove_colormap(RemoveColormapTarget::ToGrayscale)?;
            let r = gray.reduce_8(quarter);
            proof {
                let q = r->Ok_0;
                assert forall|x: int, y: int| q@.contains(x, y) implies #[trigger] q@.pixel(x, y)
                    == stored(d, gray8_of(self@, self@.pixel(x, y)) / (if quarter { 16u32 } else { 64u32 })) by {
                    assert(gray@.pixel(x, y) == gray8_of(self@, self@.pixel(x, y)));
                }
            }
            return r;
        }
        if self.depth() == d {
            return Ok(self.deep_clone());
        }
        match self.depth() {
            PixelDepth::Bit1 => if quarter {
                self.convert_1_to_4(0, 15)
            } else {
                self.convert_1_to_2(0, 3)
            },
            PixelDepth::Bit8 => self.reduce_8(quarter),
            PixelDepth::Bit2 => {
                let gray8 = self.convert_2_to_8(0, 0x55, 0xaa, 0xff, false)?;
                let r = gray8.reduce_8(quarter);
                proof {
                    let q = r->Ok_0;
                    assert forall|x: int, y: int| q@.contains(x, y) implies #[trigger] q@.pixel(x, y)
                        == stored(d, (self@.pixel(x, y) * 85) as u32 / (if quarter { 16u32 } else { 64u32 })) by {
                        lemma_stored_pixel(self@, x, y);
                        assert(gray8@.pixel(x, y) == stored(PixelDepth::Bit8, seq![0u8, 0x55, 0xaa, 0xff][self@.pixel(x, y) as int] as u32));
                        lemma_stored_small(PixelDepth::Bit8, seq![0u8, 0x55, 0xaa, 0xff][self@.pixel(x, y) as int] as u32);
                    }
                }
                r
            },
            _ => {
                proof {
                    if self@.depth != PixelDepth::Bit4 {
                        self@.lemma_new_ok_depth(PixelDepth::Bit8);
                    }
                }
                let gray8 = self.convert_to_8()?;
                let r = gray8.reduce_8(quarter);
                proof {
                    let q = r->Ok_0;
                    assert forall|x: int, y: int| q@.contains(x, y) implies #[trigger] q@.pixel(x, y)
                        == stored(d, stored(PixelDepth::Bit8, to8_value(self@.depth, self@.pixel(x, y))) / (if quarter { 16u32 } else { 64u32 })) by {
                        assert(gray8@.pixel(x, y) == stored(PixelDepth::Bit8, to8_value(self@.depth, self@.pixel(x, y))));
                    }
                }
                r
            },
        }
    }

    /// Convert any-depth image to 2 bpp grayscale.
    ///
    /// Conversion rules:
    /// - **1 bpp**: 0→0, 1→3
    /// - **2 bpp**: identity (deep clone)
    /// - **4 bpp**: convert via 8 bpp intermediate
    /// - **8 bpp**: take top 2 bits
    /// - **16 bpp**: convert to 8 bpp, then take top 2 bits
    /// - **32 bpp**: convert to 8 bpp, then take top 2 bits
    ///
    /// If the source has a colormap, it is removed to grayscale first.
    ///
    /// # Errors
    ///
    /// [`Error::InvalidDimension`] if an image made on the way is too
    /// large.
    pub fn convert_to_2(&self) -> (r: Result<Pix>)
        requires
            self@.wf(),
        ensures
            r is Ok <==> reduce_ok(self@, false),
            r matches Ok(p) ==> reduced_gray(p@, self@, false),
            r matches Err(e) ==> e is InvalidDimension,
    {
        self.convert_to_reduced(false)
    }

    /// Convert any-depth image to 4 bpp grayscale.
    ///
    /// Conversion rules:
    /// - **1 bpp**: 0→0, 1→15
    /// - **2 bpp**: convert via 8 bpp intermediate (0→0, 1→0x55, 2→0xaa, 3→0xff)
    /// - **4 bpp**: identity (deep clone)
    /// - **8 bpp**: take top 4 bits
    /// - **16 bpp**: convert to 8 bpp, then take top 4 bits
    /// - **32 bpp**: convert to 8 bpp, then take top 4 bits
    ///
    /// If the source has a colormap, it is removed to grayscale first.
    ///
    /// # Errors
    ///
    /// [`Error::InvalidDimension`] if an image made on the way is too
    /// large.
    pub fn convert_to_4(&self) -> (r: Result<Pix>)
        requires
            self@.wf(),
        ensures
            r is Ok <==> reduce_ok(self@, true),
            r matches Ok(p) ==> reduced_gray(p@, self@, true),
            r matches Err(e) ==> e is InvalidDimension,
    {
        self.convert_to_reduced(true)
    }

    /// Convert any depth to 8 or 32 bpp, removing colormap if present.
    ///
    /// A colormap is removed according to its content; 8 and 32 bpp
    /// images are copied; other depths are converted to 8 bpp.
    ///
    /// # Errors
    ///
    /// [`Error::InvalidDimension`] if the result is too large.
    pub fn convert_to_8_or_32(&self) -> (r: Result<Pix>)
        requires
            self@.wf(),
        ensures
            self@.cmap is Some ==> colormap_removed(r, self@, removal_target(self@, RemoveColormapTarget::BasedOnSrc)),
            self@.cmap is None && (self@.depth == PixelDepth::Bit8 || self@.depth == PixelDepth::Bit32) ==> (r matches Ok(p) && p@ == self@),
            self@.cmap is None && !(self@.depth == PixelDepth::Bit8 || self@.depth == PixelDepth::Bit32) ==> {
                &&& (r is Ok <==> new_ok(self@.width, self@.height, PixelDepth::Bit8))
                &&& (r matches Ok(p) ==> converted(p@, self@, PixelDepth::Bit8, false, |v: u32| to8_value(self@.depth, v)))
                &&& (r matches Err(e) ==> e is InvalidDimension)
            },
    {
        if self.has_colormap() {
            return self.remove_colormap(RemoveColormapTarget::BasedOnSrc);
        }
        if self.depth() == PixelDepth::Bit8 || self.depth() == PixelDepth::Bit32 {
            return Ok(self.deep_clone());
        }
        self.convert_to_8()
    }
}

/// The depth `convert_gray_to_colormap_8` picks for `n` gray levels.
pub open spec fn levels_depth(n: int, min_depth: u32) -> u32 {
    if n <= 4 && min_depth <= 2 {
        2
    } else if n <= 16 && min_depth <= 4 {
        4
    } else {
        8
    }
}

/// `r` holds the gray levels of `p` as a colormap of depth `d`, and the
/// index of each pixel's level as the pixel; size and resolution are those
/// of `p`.
pub open spec fn levels_indexed(r: PixModel, p: PixModel, d: PixelDepth) -> bool {
    &&& r.cmap matches Some(c) && c.depth == d.nbits() && indexed_by_levels(r, p, c.colors)
    &&& PixModel { cmap: None, ..r }.created(p.width, p.height, d, p.xres, p.yres)
    &&& r.wf()
}

impl Pix {
    /// Makes the image of indices of the gray levels of this 8 bpp image,
    /// with those levels as a colormap of depth `d`.
    fn index_levels(&self, levels: &Vec<u8>, index: &Vec<u32>, d: PixelDepth) -> (r: Result<Pix>)
        requires
            self@.wf(),
            self@.depth == PixelDepth::Bit8,
            d == PixelDepth::Bit2 || d == PixelDepth::Bit4 || d == PixelDepth::Bit8,
            levels@.len() <= pmask(d) + 1,
            index@.len() == 256,
            forall|i: int, j: int| 0 <= i < j < levels@.len() ==> #[trigger] levels@[i] < #[trigger] levels@[j],
            levels_occur(self@, levels@),
            forall|x: int, y: int| self@.contains(x, y) ==> index@[#[trigger] self@.pixel(x, y) as int] < levels@.len()
                && levels@[index@[self@.pixel(x, y) as int] as int] as u32 == self@.pixel(x, y),
        ensures
            r matches Ok(p) && levels_indexed(p@, self@, d) && p@.cmap->Some_0.colors.len() == levels@.len(),
    {
        proof {
            self@.lemma_new_ok_depth(d);
        }
        let f = |v: u32| -> (o: u32)
            requires
                v < 256,
            ensures
                o == index@[v as int],
            { index[v as usize] };
        let p = self.convert_map(d, true, f, Ghost(|v: u32| index@[v as int]))?;
        let cmap = gray_cmap(d.bits(), levels);
        let mut m = p.to_mut();
        let ghost m0 = m@;
        let _ = m.set_colormap(Some(cmap));
        proof {
            let colors = gray_entries(levels@.len(), |i: int| levels@[i]);
            assert forall|x: int, y: int| m@.contains(x, y) implies #[trigger] m@.pixel(x, y) < colors.len()
                && colors[m@.pixel(x, y) as int].0 as u32 == self@.pixel(x, y) by {
                lemma_stored_pixel(self@, x, y);
                assert(m@.pixel(x, y) == m0.pixel(x, y));
                let k = index@[self@.pixel(x, y) as int];
                assert(k <= pmask(d));
                lemma_stored_small(d, k);
            }
            assert forall|i: int| #![trigger colors[i]] 0 <= i < colors.len() implies value_occurs(self@, colors[i].0 as u32) by {
                assert(colors[i].0 == levels@[i]);
            }
            assert forall|i: int, j: int| 0 <= i < j < colors.len() implies #[trigger] colors[i].0 < #[trigger] colors[j].0 by {
                assert(colors[i].0 == levels@[i]);
                assert(colors[j].0 == levels@[j]);
            }
            assert(PixModel { cmap: None, ..m@ } == m0);
        }
        Ok(m.into_pix())
    }

    /// Add a full 256-entry grayscale colormap to an 8 bpp image.
    ///
    /// An image that already has a colormap is copied unchanged.
    ///
    /// # Errors
    ///
    /// [`Error::UnsupportedDepth`] if the image is not 8 bpp.
    pub fn add_gray_colormap_8(&self) -> (r: Result<Pix>)
        requires
            self@.wf(),
        ensures
            r is Ok <==> self@.depth == PixelDepth::Bit8,
            r matches Err(e) ==> e == Error::UnsupportedDepth(self@.depth.nbits()),
            r matches Ok(p) ==> if self@.cmap is Some {
                p@ == self@
            } else {
                p@ == PixModel {
                    cmap: Some(CmapModel { depth: 8, colors: gray_entries(256, |i: int| i as u8) }),
                    ..self@
                }
            },
    {
        if self.depth() != PixelDepth::Bit8 {
            return Err(Error::UnsupportedDepth(self.depth().bits()));
        }
        if self.has_colormap() {
            return Ok(self.deep_clone());
        }
        let mut levels: Vec<u8> = Vec::new();
        let mut i: u32 = 0;
        while i < 256
            invariant
                i <= 256,
                levels@.len() == i,
                forall|k: int| 0 <= k < i ==> #[trigger] levels@[k] == k as u8,
            decreases 256 - i,
        {
            levels.push(i as u8);
            i = i + 1;
        }
        let cmap = gray_cmap(8, &levels);
        let mut m = self.to_mut();
        let _ = m.set_colormap(Some(cmap));
        proof {
            assert(gray_entries(256, |k: int| levels@[k]) =~= gray_entries(256, |k: int| k as u8));
        }
        Ok(m.into_pix())
    }

    /// Add a minimal grayscale colormap containing only used gray values.
    ///
    /// The result has a colormap of the gray values that occur, in
    /// increasing order, and each pixel is the index of its value.
    ///
    /// # Errors
    ///
    /// [`Error::UnsupportedDepth`] if the image is not 8 bpp.
    pub fn add_minimal_gray_colormap_8(&self) -> (r: Result<Pix>)
        requires
            self@.wf(),
        ensures
            r is Ok <==> self@.depth == PixelDepth::Bit8,
            r matches Err(e) ==> e == Error::UnsupportedDepth(self@.depth.nbits()),
            r matches Ok(p) ==> levels_indexed(p@, self@, PixelDepth::Bit8),
    {
        if self.depth() != PixelDepth::Bit8 {
            return Err(Error::UnsupportedDepth(self.depth().bits()));
        }
        let (levels, index) = gray_levels(self);
        proof {
            lemma_levels_count(levels@);
        }
        self.index_levels(&levels, &index, PixelDepth::Bit8)
    }

    /// Lossless conversion of 8 bpp grayscale to colormapped image.
    ///
    /// Determines the optimal output depth based on the number of unique
    /// gray values in the image:
    /// - ≤ 4 unique values: 2 bpp (if `min_depth` ≤ 2)
    /// - ≤ 16 unique values: 4 bpp (if `min_depth` ≤ 4)
    /// - Otherwise: 8 bpp
    ///
    /// The pixel values are remapped to colormap indices, and a colormap
    /// is created with the actual gray values used, in increasing order.
    /// An image that already has a colormap is copied unchanged.
    ///
    /// # Errors
    ///
    /// [`Error::UnsupportedDepth`] if the image is not 8 bpp.
    pub fn convert_gray_to_colormap_8(&self, min_depth: u32) -> (r: Result<Pix>)
        requires
            self@.wf(),
        ensures
            r is Ok <==> self@.depth == PixelDepth::Bit8,
            r matches Err(e) ==> e == Error::UnsupportedDepth(self@.depth.nbits()),
            r matches Ok(p) ==> if self@.cmap is Some {
                p@ == self@
            } else {
                levels_indexed(p@, self@, depth_of_bits(levels_depth(p@.cmap->Some_0.colors.len() as int, min_depth)))
            },
    {
        if self.depth() != PixelDepth::Bit8 {
            return Err(Error::UnsupportedDepth(self.depth().bits()));
        }
        if self.has_colormap() {
            return Ok(self.deep_clone());
        }
        let (levels, index) = gray_levels(self);
        proof {
            lemma_levels_count(levels@);
        }
        let n = levels.len();
        let d = if n <= 4 && min_depth <= 2 {
            PixelDepth::Bit2
        } else if n <= 16 && min_depth <= 4 {
            PixelDepth::Bit4
        } else {
            PixelDepth::Bit8
        };
        self.index_levels(&levels, &index, d)
    }

    /// Add a colormap to a grayscale image without quantization loss.
    ///
    /// Works for 2, 4, and 8 bpp grayscale images. For 8 bpp, delegates
    /// to [`convert_gray_to_colormap_8`](Self::convert_gray_to_colormap_8)
    /// with `min_depth = 2`. For 2 and 4 bpp, adds a linear colormap
    /// spanning the full 8-bit range (e.g., for 2 bpp: 0, 85, 170, 255).
    /// An image that already has a colormap is copied unchanged.
    ///
    /// # Errors
    ///
    /// [`Error::UnsupportedDepth`] for other depths.
    pub fn convert_gray_to_colormap(&self) -> (r: Result<Pix>)
        requires
            self@.wf(),
        ensures
            self@.cmap is Some ==> (r matches Ok(p) && p@ == self@),
            self@.cmap is None ==> (r is Ok <==> (self@.depth == PixelDepth::Bit2 || self@.depth == PixelDepth::Bit4 || self@.depth == PixelDepth::Bit8)),
            self@.cmap is None ==> (r matches Err(e) ==> e == Error::UnsupportedDepth(self@.depth.nbits())),
            self@.cmap is None && (self@.depth == PixelDepth::Bit2 || self@.depth == PixelDepth::Bit4) ==> (r matches Ok(p) ==> p@ == PixModel {
                cmap: Some(CmapModel {
                    depth: self@.depth.nbits(),
                    colors: gray_entries((pmask(self@.depth) + 1) as nat, |i: int| (i * 255 / (pmask(self@.depth) as int)) as u8),
                }),
                ..self@
            }),
            self@.cmap is None && self@.depth == PixelDepth::Bit8 ==> (r matches Ok(p) ==> levels_indexed(
                p@,
                self@,
                depth_of_bits(levels_depth(p@.cmap->Some_0.colors.len() as int, 2)),
            )),
    {
        if self.has_colormap() {
            return Ok(self.deep_clone());
        }
        let d = self.depth();
        if d == PixelDepth::Bit2 || d == PixelDepth::Bit4 {
            let n = d.max_value() + 1;
            let mut levels: Vec<u8> = Vec::new();
            let mut i: u32 = 0;
            while i < n
                invariant
                    n == pmask(d) + 1,
                    d == PixelDepth::Bit2 || d == PixelDepth::Bit4,
                    i <= n,
                    levels@.len() == i,
                    forall|k: int| 0 <= k < i ==> #[trigger] levels@[k] == (k * 255 / (pmask(d) as int)) as u8,
                decreases n - i,
            {
                levels.push((i * 255 / (n - 1)) as u8);
                i = i + 1;
            }
            let cmap = gray_cmap(d.bits(), &levels);
            let mut m = self.to_mut();
            let _ = m.set_colormap(Some(cmap));
            proof {
                assert(gray_entries(n as nat, |k: int| levels@[k]) =~= gray_entries((pmask(d) + 1) as nat, |k: int| (k * 255 / (pmask(d) as int)) as u8));
            }
            Ok(m.into_pix())
        } else if d == PixelDepth::Bit8 {
            self.convert_gray_to_colormap_8(2)
        } else {
            Err(Error::UnsupportedDepth(d.bits()))
        }
    }
}

/// Strictly increasing byte values number at most 256.
proof fn lemma_levels_count(levels: Seq<u8>)
    requires
        forall|i: int, j: int| 0 <= i < j < levels.len() ==> #[trigger] levels[i] < #[trigger] levels[j],
    ensures
        levels.len() <= 256,
        forall|i: int| 0 <= i < levels.len() ==> #[trigger] levels[i] >= i,
    decreases levels.len(),
{
    if levels.len() > 0 {
        let init = levels.drop_last();
        assert forall|i: int, j: int| 0 <= i < j < init.len() implies #[trigger] init[i] < #[trigger] init[j] by {
            assert(init[i] == levels[i]);
            assert(init[j] == levels[j]);
        }
        lemma_levels_count(init);
        assert forall|i: int| 0 <= i < levels.len() implies #[trigger] levels[i] >= i by {
            if i < init.len() {
                assert(init[i] == levels[i]);
            } else if i > 0 {
                assert(init[i - 1] == levels[i - 1]);
                assert(levels[i - 1] < levels[i]);
            }
        }
        let last = levels.len() - 1;
        assert(levels[last] >= last);
    }
}

// ---------------------------------------------------------------------------
// Label, alpha, tint and output conversions
// ---------------------------------------------------------------------------

/// The 16-bit value `convert_32_to_16` gives a 32-bit pixel `v`.
pub open spec fn to16_from32(t: Convert32To16Type, v: u32) -> u32 {
    match t {
        Convert32To16Type::LsTwoBytes => v % 0x10000,
        Convert32To16Type::MsTwoBytes => v / 0x10000,
        Convert32To16Type::ClipToFfff => if v / 0x10000 != 0 {
            0xffff
        } else {
            v % 0x10000
        },
    }
}

/// The colormap of `add_alpha_to_1bpp`: transparent white, then opaque
/// black.
pub open spec fn alpha_1bpp_colors() -> Seq<(u8, u8, u8, u8)> {
    seq![(255u8, 255u8, 255u8, 0u8), (0u8, 0u8, 0u8, 255u8)]
}

/// The colormap that tints gray `i` with `color`: entry `i` is
/// `(r i / 255, g i / 255, b i / 255)`, opaque.
pub open spec fn tint_colors(color: u32) -> Seq<(u8, u8, u8, u8)> {
    Seq::new(
        256,
        |i: int|
            (
                (red_of(color) * i / 255) as u8,
                (green_of(color) * i / 255) as u8,
                (blue_of(color) * i / 255) as u8,
                255u8,
            ),
    )
}

/// The gray value of pixel `v` of an 8 bpp or colormapped image.
pub open spec fn gray_of_pixel(p: PixModel, v: u32) -> u32 {
    match p.cmap {
        Some(c) => lut_value(c, v, |e: (u8, u8, u8, u8)| entry_value(RemoveColormapTarget::ToGrayscale, e)),
        None => v,
    }
}

/// The average of the channels of a colormap color.
pub open spec fn entry_average(e: (u8, u8, u8, u8)) -> int {
    (e.0 + e.1 + e.2) / 3
}

/// The index of the first darkest (`dark`) or lightest color among the
/// first `n`, by average of the channels.
pub open spec fn extreme_index(colors: Seq<(u8, u8, u8, u8)>, n: int, dark: bool) -> int
    decreases n,
{
    if n <= 1 {
        0
    } else {
        let k = extreme_index(colors, n - 1, dark);
        let a = entry_average(colors[n - 1]);
        let b = entry_average(colors[k]);
        if (dark && a < b) || (!dark && a > b) {
            n - 1
        } else {
            k
        }
    }
}

/// Squared distance between two colors.
pub open spec fn color_dist(a: (u8, u8, u8, u8), b: (u8, u8, u8, u8)) -> int {
    (a.0 - b.0) * (a.0 - b.0) + (a.1 - b.1) * (a.1 - b.1) + (a.2 - b.2) * (a.2 - b.2)
}

/// Whether colormap entry `i` is foreground: strictly closer to the
/// darkest color than to the lightest; indices without a color are
/// background.
pub open spec fn cmap_fg(c: CmapModel, i: u32) -> bool {
    let n = c.colors.len() as int;
    let dk = c.colors[extreme_index(c.colors, n, true)];
    let lt = c.colors[extreme_index(c.colors, n, false)];
    (i as int) < n && color_dist(c.colors[i as int], dk) < color_dist(c.colors[i as int], lt)
}

proof fn lemma_extreme_index(colors: Seq<(u8, u8, u8, u8)>, n: int, dark: bool)
    requires
        1 <= n <= colors.len(),
    ensures
        0 <= extreme_index(colors, n, dark) < n,
    decreases n,
{
    if n > 1 {
        lemma_extreme_index(colors, n - 1, dark);
    }
}

/// The first darkest or lightest color of a non-empty colormap.
fn find_extreme(cmap: &PixColormap, dark: bool) -> (k: usize)
    requires
        cmap@.colors.len() >= 1,
    ensures
        k == extreme_index(cmap@.colors, cmap@.colors.len() as int, dark),
        k < cmap@.colors.len(),
{
    let n = cmap.len();
    let mut k: usize = 0;
    let mut i: usize = 1;
    while i < n
        invariant
            n == cmap@.colors.len(),
            1 <= i <= n,
            k == extreme_index(cmap@.colors, i as int, dark),
            k < i,
        decreases n - i,
    {
        let (r, g, b, _a) = cmap.get_rgba(i).unwrap();
        let (kr, kg, kb, _ka) = cmap.get_rgba(k).unwrap();
        let a = (r as u32 + g as u32 + b as u32) / 3;
        let bk = (kr as u32 + kg as u32 + kb as u32) / 3;
        if (dark && a < bk) || (!dark && a > bk) {
            k = i;
        }
        i = i + 1;
    }
    k
}

/// Squared distance between two colors, computed.
fn dist(a: (u8, u8, u8, u8), b: (u8, u8, u8, u8)) -> (d: u32)
    ensures
        d == color_dist(a, b),
{
    let dr = a.0 as i32 - b.0 as i32;
    let dg = a.1 as i32 - b.1 as i32;
    let db = a.2 as i32 - b.2 as i32;
    assert(dr * dr <= 65025 && dg * dg <= 65025 && db * db <= 65025) by (nonlinear_arith)
        requires
            -255 <= dr <= 255,
            -255 <= dg <= 255,
            -255 <= db <= 255,
    ;
    assert(dr * dr >= 0 && dg * dg >= 0 && db * db >= 0) by (nonlinear_arith);
    (dr * dr + dg * dg + db * db) as u32
}

impl Pix {
    /// Converts a 32 bpp label image to 16 bpp: the low or high 16 bits
    /// of each word, or the low bits clipped to `0xffff` when the high
    /// bits are not all 0. The resolution is kept.
    ///
    /// # Errors
    ///
    /// [`Error::UnsupportedDepth`] for other depths.
    pub fn convert_32_to_16(&self, conversion_type: Convert32To16Type) -> (r: Result<Pix>)
        requires
            self@.wf(),
        ensures
            r is Ok <==> self@.depth == PixelDepth::Bit32,
            r matches Ok(p) ==> converted(p@, self@, PixelDepth::Bit16, true, |v: u32| to16_from32(conversion_type, v)),
            r matches Err(e) ==> e == Error::UnsupportedDepth(self@.depth.nbits()),
    {
        if self.depth() != PixelDepth::Bit32 {
            return Err(Error::UnsupportedDepth(self.depth().bits()));
        }
        let f = |v: u32| -> (o: u32)
            ensures
                o == to16_from32(conversion_type, v),
            {
                match conversion_type {
                    Convert32To16Type::LsTwoBytes => v % 0x10000,
                    Convert32To16Type::MsTwoBytes => v / 0x10000,
                    Convert32To16Type::ClipToFfff => if v / 0x10000 != 0 {
                        0xffff
                    } else {
                        v % 0x10000
                    },
                }
            };
        proof {
            self@.lemma_new_ok_depth(PixelDepth::Bit16);
        }
        self.convert_map(PixelDepth::Bit16, true, f, Ghost(|v: u32| to16_from32(conversion_type, v)))
    }

    /// A copy of a 1 bpp image with the colormap of transparent white for
    /// 0 and opaque black for 1 (replacing any colormap).
    ///
    /// # Errors
    ///
    /// [`Error::UnsupportedDepth`] for other depths.
    pub fn add_alpha_to_1bpp(&self) -> (r: Result<Pix>)
        requires
            self@.wf(),
        ensures
            r is Ok <==> self@.depth == PixelDepth::Bit1,
            r matches Ok(p) ==> p@ == (PixModel {
                cmap: Some(CmapModel { depth: 1, colors: alpha_1bpp_colors() }),
                ..self@
            }),
            r matches Err(e) ==> e == Error::UnsupportedDepth(self@.depth.nbits()),
    {
        if self.depth() != PixelDepth::Bit1 {
            return Err(Error::UnsupportedDepth(self.depth().bits()));
        }
        let mut cmap = match PixColormap::new(1) {
            Ok(c) => c,
            Err(e) => {
                return Err(e);
            },
        };
        let _ = cmap.add_rgba(255, 255, 255, 0);
        let _ = cmap.add_rgba(0, 0, 0, 255);
        assert(cmap@.colors =~= alpha_1bpp_colors());
        let mut m = self.to_mut();
        let set = m.set_colormap(Some(cmap));
        assert(set is Ok);
        Ok(m.into_pix())
    }

    /// Converts a colormapped image to 1 bpp: a pixel is foreground (1)
    /// when its color is strictly closer to the darkest colormap color
    /// than to the lightest (by average of the channels), and background
    /// (0) otherwise. The resolution is kept.
    ///
    /// # Errors
    ///
    /// [`Error::InvalidParameter`] without a colormap or with an empty
    /// one.
    pub fn convert_cmap_to_1(&self) -> (r: Result<Pix>)
        requires
            self@.wf(),
        ensures
            r is Ok <==> (self@.cmap matches Some(c) && c.colors.len() >= 1),
            r matches Ok(p) ==> converted(p@, self@, PixelDepth::Bit1, true, |v: u32| if cmap_fg(self@.cmap->0, v) { 1u32 } else { 0u32 }),
            r matches Err(e) ==> e is InvalidParameter,
    {
        let cmap = match self.colormap() {
            Some(c) => c,
            None => {
                return Err(invalid_param("image has no colormap"));
            },
        };
        if cmap.len() == 0 {
            return Err(invalid_param("colormap is empty"));
        }
        let ghost c = cmap@;
        let dk = find_extreme(cmap, true);
        let lt = find_extreme(cmap, false);
        let dark = cmap.get_rgba(dk).unwrap();
        let light = cmap.get_rgba(lt).unwrap();
        let n = cmap.len();
        let mut lut: Vec<u32> = Vec::new();
        let mut i: usize = 0;
        while i < 256
            invariant
                i <= 256,
                n == c.colors.len(),
                c == cmap@,
                dark == c.colors[extreme_index(c.colors, n as int, true)],
                light == c.colors[extreme_index(c.colors, n as int, false)],
                lut@.len() == i,
                forall|j: int| 0 <= j < i ==> #[trigger] lut@[j] == if cmap_fg(c, j as u32) { 1u32 } else { 0u32 },
            decreases 256 - i,
        {
            let v: u32 = if i < n {
                let e = cmap.get_rgba(i).unwrap();
                if dist(e, dark) < dist(e, light) {
                    1
                } else {
                    0
                }
            } else {
                0
            };
            lut.push(v);
            i = i + 1;
        }
        let ghost g = |v: u32| if cmap_fg(c, v) { 1u32 } else { 0u32 };
        let f = |v: u32| -> (o: u32)
            requires
                v < 256,
            ensures
                o == g(v),
            { lut[v as usize] };
        proof {
            assert(self@.depth.cmap_ok());
            self@.lemma_new_ok_depth(PixelDepth::Bit1);
        }
        self.convert_map(PixelDepth::Bit1, true, f, Ghost(g))
    }

    /// Tints an 8 bpp gray image (or the gray of a colormapped image, see
    /// [`gray_of_pixel`]) with `color`: gray `i` becomes
    /// `(r i / 255, g i / 255, b i / 255)`. With `cmapflag` the result is
    /// the 8 bpp gray with that colormap attached; otherwise it is 32 bpp
    /// (alpha 0). The resolution is kept.
    ///
    /// # Errors
    ///
    /// [`Error::UnsupportedDepth`] for images neither 8 bpp nor
    /// colormapped.
    pub fn colorize_gray(&self, color: u32, cmapflag: bool) -> (r: Result<Pix>)
        requires
            self@.wf(),
        ensures
            r is Ok <==> (self@.cmap is Some || self@.depth == PixelDepth::Bit8) && new_ok(
                self@.width,
                self@.height,
                if cmapflag { PixelDepth::Bit8 } else { PixelDepth::Bit32 },
            ),
            r matches Ok(p) ==> cmapflag ==> {
                &&& p@.cmap == Some(CmapModel { depth: 8, colors: tint_colors(color) })
                &&& converted(PixModel { cmap: None, ..p@ }, self@, PixelDepth::Bit8, true, |v: u32| gray_of_pixel(self@, v))
            },
            r matches Ok(p) ==> !cmapflag ==> converted(
                p@,
                self@,
                PixelDepth::Bit32,
                true,
                |v: u32| {
                    let e = tint_colors(color)[gray_of_pixel(self@, v) as int];
                    rgba_word(e.0, e.1, e.2, 0)
                },
            ),
            r matches Err(e) ==> if self@.cmap is Some || self@.depth == PixelDepth::Bit8 {
                e is InvalidDimension
            } else {
                e == Error::UnsupportedDepth(self@.depth.nbits())
            },
    {
        if !self.has_colormap() && self.depth() != PixelDepth::Bit8 {
            return Err(Error::UnsupportedDepth(self.depth().bits()));
        }
        let nlut: usize = match self.colormap() {
            Some(c) => 256,
            None => 0,
        };
        let glut: Vec<u32> = match self.colormap() {
            Some(c) => build_lut(c, 256, RemoveColormapTarget::ToGrayscale),
            None => Vec::new(),
        };
        let ghost gg = |v: u32| gray_of_pixel(self@, v);
        let ghost has_cmap = self@.cmap is Some;
        proof {
            if has_cmap {
                assert forall|v: u32| v < 256 implies #[trigger] glut@[v as int] == gg(v) && gg(v) <= 255 by {
                    let c = self@.cmap->0;
                    if v < c.colors.len() {
                        let e = c.colors[v as int];
                        assert(luminance(e.0, e.1, e.2) <= 255);
                    }
                }
            }
        }
        let (cr, cg, cb) = extract_rgb(color);
        let mut tint: Vec<(u8, u8, u8)> = Vec::new();
        let mut i: u32 = 0;
        while i < 256
            invariant
                i <= 256,
                (cr, cg, cb) == (red_of(color), green_of(color), blue_of(color)),
                tint@.len() == i,
                forall|j: int| 0 <= j < i ==> #[trigger] tint@[j] == (tint_colors(color)[j].0, tint_colors(color)[j].1, tint_colors(color)[j].2),
            decreases 256 - i,
        {
            assert(cr as u32 * i <= 255 * 255 && cg as u32 * i <= 255 * 255 && cb as u32 * i <= 255 * 255) by (nonlinear_arith)
                requires
                    cr <= 255,
                    cg <= 255,
                    cb <= 255,
                    i <= 255,
            ;
            tint.push((((cr as u32) * i / 255) as u8, ((cg as u32) * i / 255) as u8, ((cb as u32) * i / 255) as u8));
            i = i + 1;
        }
        if cmapflag {
            let f = |v: u32| -> (o: u32)
                requires
                    v <= 255,
                ensures
                    o == gg(v),
                {
                    if has_cmap_exec(nlut) {
                        glut[v as usize]
                    } else {
                        v
                    }
                };
            let p = match self.convert_map(PixelDepth::Bit8, true, f, Ghost(gg)) {
                Ok(p) => p,
                Err(e) => {
                    return Err(e);
                },
            };
            let mut cmap = match PixColormap::new(8) {
                Ok(c) => c,
                Err(e) => {
                    return Err(e);
                },
            };
            let mut k: usize = 0;
            while k < 256
                invariant
                    k <= 256,
                    cmap@.wf(),
                    cmap@.depth == 8,
                    cmap@.colors == tint_colors(color).take(k as int),
                    tint@.len() == 256,
                    forall|j: int| 0 <= j < 256 ==> #[trigger] tint@[j] == (tint_colors(color)[j].0, tint_colors(color)[j].1, tint_colors(color)[j].2),
                decreases 256 - k,
            {
                let (r, g, b) = tint[k];
                let _ = cmap.add_rgb(r, g, b);
                assert(cmap@.colors =~= tint_colors(color).take(k as int + 1));
                k = k + 1;
            }
            assert(tint_colors(color).take(256) =~= tint_colors(color));
            let mut m = p.to_mut();
            let set = m.set_colormap(Some(cmap));
            assert(set is Ok);
            Ok(m.into_pix())
        } else {
            let ghost h = |v: u32| {
                let e = tint_colors(color)[gray_of_pixel(self@, v) as int];
                rgba_word(e.0, e.1, e.2, 0)
            };
            let f = |v: u32| -> (o: u32)
                requires
                    v <= 255,
                ensures
                    o == h(v),
                {
                    let gv = if has_cmap_exec(nlut) {
                        glut[v as usize]
                    } else {
                        v
                    };
                    let (r, g, b) = tint[gv as usize];
                    compose_rgb(r, g, b)
                };
            let r = self.convert_map(PixelDepth::Bit32, true, f, Ghost(h));
            proof {
                if r is Ok {
                    let q = r->Ok_0;
                    assert forall|x: int, y: int| q@.contains(x, y) implies #[trigger] q@.pixel(x, y) == stored(PixelDepth::Bit32, h(self@.pixel(x, y))) by {}
                }
            }
            r
        }
    }

    /// Converts an image to 1, 8 or 32 bpp for PostScript output: 1 and
    /// 32 bpp are copied; colormaps at 2, 4 and 8 bpp are removed by the
    /// source's colors; 2 and 4 bpp gray are spread over `0..=255`; 8 bpp
    /// gray is copied; 16 bpp keeps the most significant byte.
    pub fn convert_for_ps_wrap(&self) -> (r: Result<Pix>)
        requires
            self@.wf(),
        ensures
            (self@.depth == PixelDepth::Bit1 || self@.depth == PixelDepth::Bit32
                || (self@.depth == PixelDepth::Bit8 && self@.cmap is None)) ==> (r matches Ok(p) && p@ == self@),
            (self@.depth != PixelDepth::Bit1 && self@.depth != PixelDepth::Bit32 && self@.depth != PixelDepth::Bit16
                && self@.cmap is Some) ==> colormap_removed(r, self@, removal_target(self@, RemoveColormapTarget::BasedOnSrc)),
            (self@.depth == PixelDepth::Bit2 && self@.cmap is None) ==> (r is Ok <==> new_ok(self@.width, self@.height, PixelDepth::Bit8)),
            (self@.depth == PixelDepth::Bit2 && self@.cmap is None) ==> (r matches Ok(p) ==> converted(p@, self@, PixelDepth::Bit8, true, |v: u32| (v * 0x55) as u32)),
            (self@.depth == PixelDepth::Bit4 && self@.cmap is None) ==> (r is Ok <==> new_ok(self@.width, self@.height, PixelDepth::Bit8)),
            (self@.depth == PixelDepth::Bit4 && self@.cmap is None) ==> (r matches Ok(p) ==> converted(p@, self@, PixelDepth::Bit8, true, |v: u32| (v * 17) as u32)),
            self@.depth == PixelDepth::Bit16 ==> (r matches Ok(p) && converted(p@, self@, PixelDepth::Bit8, true, |v: u32| v / 256)),
    {
        let d = self.depth();
        if d == PixelDepth::Bit1 || d == PixelDepth::Bit32 {
            return Ok(self.deep_clone());
        }
        if d == PixelDepth::Bit16 {
            let r = self.convert_16_to_8(Convert16To8Type::MsByte);
            proof {
                if r is Ok {
                    let q = r->Ok_0;
                    assert forall|x: int, y: int| q@.contains(x, y) implies #[trigger] q@.pixel(x, y) == stored(PixelDepth::Bit8, self@.pixel(x, y) / 256) by {
                        super::raster::lemma_stored_pixel(self@, x, y);
                    }
                }
            }
            return r;
        }
        if self.has_colormap() {
            return self.remove_colormap(RemoveColormapTarget::BasedOnSrc);
        }
        if d == PixelDepth::Bit2 {
            let r = self.convert_2_to_8(0, 0x55, 0xaa, 0xff, false);
            proof {
                if r is Ok {
                    let q = r->Ok_0;
                    assert forall|x: int, y: int| q@.contains(x, y) implies #[trigger] q@.pixel(x, y) == stored(PixelDepth::Bit8, (self@.pixel(x, y) * 0x55) as u32) by {
                        super::raster::lemma_stored_pixel(self@, x, y);
                        let v = self@.pixel(x, y);
                        assert(seq![0u8, 0x55u8, 0xaau8, 0xffu8][v as int] as u32 == (v * 0x55) as u32);
                    }
                }
            }
            return r;
        }
        if d == PixelDepth::Bit4 {
            return self.convert_4_to_8(false);
        }
        Ok(self.deep_clone())
    }
}

/// Whether a gray lookup table was built (it has 256 entries then).
fn has_cmap_exec(nlut: usize) -> (b: bool)
    ensures
        b == (nlut != 0),
{
    nlut != 0
}

/// Converting an 8 bpp gray image to 32 bpp and back to 8 bpp gives back
/// every pixel: the luminance of the gray `(v, v, v)` is `v`.
pub proof fn law_gray_32_roundtrip(p: PixModel, q: PixModel, r: PixModel)
    requires
        p.wf(),
        p.depth == PixelDepth::Bit8,
        converted(q, p, PixelDepth::Bit32, false, |v: u32| to32_value(PixelDepth::Bit8, v)),
        converted(r, q, PixelDepth::Bit8, false, |v: u32| to8_value(PixelDepth::Bit32, v)),
    ensures
        r.same_pixels(p),
{
    assert forall|x: int, y: int| r.contains(x, y) implies #[trigger] r.pixel(x, y) == p.pixel(x, y) by {
        super::raster::lemma_stored_pixel(p, x, y);
        let v = p.pixel(x, y);
        crate::color::lemma_rgba_roundtrip(v as u8, v as u8, v as u8, 0, 0);
        assert(stored(PixelDepth::Bit32, gray_rgb(v as u8)) == gray_rgb(v as u8)) by {
            super::raster::lemma_stored_small(PixelDepth::Bit32, gray_rgb(v as u8));
        }
        assert(luminance(v as u8, v as u8, v as u8) == v);
        super::raster::lemma_stored_small(PixelDepth::Bit8, v);
    }
}

/// Saturation boost never darkens: the gray of a pixel is at least each of
/// its channels and at most 255; a gray pixel keeps its value; and a fully
/// saturated color (one channel 0) whose brightest channel reaches
/// `refval` becomes white.
pub proof fn law_sat_boost(p: u32, refval: int)
    requires
        1 <= refval <= 255,
    ensures
        red_of(p) <= sat_boost_value(p, refval) <= 255,
        green_of(p) <= sat_boost_value(p, refval),
        blue_of(p) <= sat_boost_value(p, refval),
        red_of(p) == green_of(p) && green_of(p) == blue_of(p) ==> sat_boost_value(p, refval) == red_of(p),
        (red_of(p) == 0 || green_of(p) == 0 || blue_of(p) == 0) && (red_of(p) >= refval || green_of(p) >= refval
            || blue_of(p) >= refval) ==> sat_boost_value(p, refval) == 255,
{
    let r = red_of(p) as int;
    let g = green_of(p) as int;
    let b = blue_of(p) as int;
    let mn = min3(red_of(p), green_of(p), blue_of(p)) as int;
    let mx = max3(red_of(p), green_of(p), blue_of(p)) as int;
    assert(r <= mx && g <= mx && b <= mx && mn <= r && mn <= g && mn <= b);
    assert(mn == r || mn == g || mn == b);
    assert(mx == r || mx == g || mx == b);
    let delta = mx - mn;
    let sval = saturation(mn, mx);
    if delta > 0 {
        assert(1 <= (510 * delta + mx) / (2 * mx) <= 255) by (nonlinear_arith)
            requires
                0 < delta <= mx,
                mx <= 255,
        ;
    }
    assert(0 <= sval <= 255);
    let fs = 255 * mx / refval;
    assert(mx <= fs) by (nonlinear_arith)
        requires
            0 <= mx <= 255,
            1 <= refval <= 255,
            fs == 255 * mx / refval,
    ;
    let fullsat = if fs < 255 { fs } else { 255 };
    assert(mx <= fullsat <= 255);
    assert(mx * 255 <= sval * fullsat + (255 - sval) * mx <= 255 * 255) by (nonlinear_arith)
        requires
            0 <= sval <= 255,
            mx <= fullsat <= 255,
            0 <= mx,
    ;
    assert(mx <= (sval * fullsat + (255 - sval) * mx) / 255 <= 255) by (nonlinear_arith)
        requires
            mx * 255 <= sval * fullsat + (255 - sval) * mx <= 255 * 255,
    ;
    if mn == 0 && mx >= refval {
        assert(mx > 0);
        assert((510 * mx + mx) / (2 * mx) == 255) by (nonlinear_arith)
            requires
                mx > 0,
        ;
        assert(!sat_rounds_down(mx, mx));
        assert(sval == 255);
        assert(fs >= 255) by (nonlinear_arith)
            requires
                mx >= refval,
                refval >= 1,
                fs == 255 * mx / refval,
        ;
        assert((255 * 255 + 0 * mx) / 255 == 255);
    }
}

} // verus!
