//! RGB component operations
//!
//! Functions for extracting, setting, and composing individual color
//! channels of 32 bpp images, and for reordering the bytes of the data
//! words.

use vstd::prelude::*;
use super::{Pix, PixMut, PixelDepth};
use super::model::{PixModel, pmask, stored};
use super::raster::{map_new, lemma_stored_pixel, lemma_stored_small};
use crate::color::{self, rgba_word, red_of, green_of, blue_of, alpha_of, lemma_rgba_roundtrip};
use crate::colormap::{CmapModel, nearest_index};
use crate::error::{Error, Result, invalid_param};

verus! {

/// Color component selector for RGB channel operations.
#[derive(Debug, Clone, Copy, PartialEq, Eq, Structural)]
pub enum RgbComponent {
    /// Red channel (bits 24-31)
    Red,
    /// Green channel (bits 16-23)
    Green,
    /// Blue channel (bits 8-15)
    Blue,
    /// Alpha channel (bits 0-7)
    Alpha,
}

/// The channel `comp` of a 32 bpp pixel.
pub open spec fn component_of(p: u32, comp: RgbComponent) -> u8 {
    match comp {
        RgbComponent::Red => red_of(p),
        RgbComponent::Green => green_of(p),
        RgbComponent::Blue => blue_of(p),
        RgbComponent::Alpha => alpha_of(p),
    }
}

/// A 32 bpp pixel with its channel `comp` replaced by `v`.
pub open spec fn with_component(p: u32, comp: RgbComponent, v: u8) -> u32 {
    match comp {
        RgbComponent::Red => rgba_word(v, green_of(p), blue_of(p), alpha_of(p)),
        RgbComponent::Green => rgba_word(red_of(p), v, blue_of(p), alpha_of(p)),
        RgbComponent::Blue => rgba_word(red_of(p), green_of(p), v, alpha_of(p)),
        RgbComponent::Alpha => rgba_word(red_of(p), green_of(p), blue_of(p), v),
    }
}

/// The channel `comp` of a colormap entry.
pub open spec fn entry_component(c: (u8, u8, u8, u8), comp: RgbComponent) -> u8 {
    match comp {
        RgbComponent::Red => c.0,
        RgbComponent::Green => c.1,
        RgbComponent::Blue => c.2,
        RgbComponent::Alpha => c.3,
    }
}

/// A word with its four bytes in reverse order.
pub open spec fn byte_swapped(w: u32) -> u32 {
    rgba_word(alpha_of(w), blue_of(w), green_of(w), red_of(w))
}

/// A word with its two 16-bit halves exchanged.
pub open spec fn halves_swapped(w: u32) -> u32 {
    ((w % 0x10000) * 0x10000 + w / 0x10000) as u32
}

/// `r` is a fresh 8 bpp image of the size and resolution of `p`, whose
/// pixel is `g` of the pixel of `p`.
pub open spec fn gray_from(r: PixModel, p: PixModel, g: spec_fn(u32) -> u8) -> bool {
    &&& r.created(p.width, p.height, PixelDepth::Bit8, p.xres, p.yres)
    &&& forall|x: int, y: int| r.contains(x, y) ==> #[trigger] r.pixel(x, y) == g(p.pixel(x, y)) as u32
}

/// `r` is `p` with every data word replaced by `f` of it.
pub open spec fn words_mapped(r: PixModel, p: PixModel, f: spec_fn(u32) -> u32) -> bool {
    &&& r == PixModel { data: r.data, ..p }
    &&& r.data.len() == p.data.len()
    &&& forall|i: int| 0 <= i < p.data.len() ==> #[trigger] r.data[i] == f(p.data[i])
}

fn component(pixel: u32, comp: RgbComponent) -> (v: u8)
    ensures
        v == component_of(pixel, comp),
{
    match comp {
        RgbComponent::Red => color::red(pixel),
        RgbComponent::Green => color::green(pixel),
        RgbComponent::Blue => color::blue(pixel),
        RgbComponent::Alpha => color::alpha(pixel),
    }
}

fn replace_component(pixel: u32, comp: RgbComponent, v: u8) -> (r: u32)
    ensures
        r == with_component(pixel, comp, v),
{
    let (mut r, mut g, mut b, mut a) = color::extract_rgba(pixel);
    match comp {
        RgbComponent::Red => r = v,
        RgbComponent::Green => g = v,
        RgbComponent::Blue => b = v,
        RgbComponent::Alpha => a = v,
    }
    color::compose_rgba(r, g, b, a)
}

/// Byte and half-word reorderings in terms of the channel digits.
proof fn lemma_swap_bits(w: u32)
    ensures
        ((w & 0xff) << 24) | (((w >> 8) & 0xff) << 16) | (((w >> 16) & 0xff) << 8) | (w >> 24) == (w
            % 0x100) * 0x1000000 + ((w / 0x100) % 0x100) * 0x10000 + ((w / 0x10000) % 0x100) * 0x100
            + w / 0x1000000,
        (w >> 16) | (w << 16) == (w % 0x10000) * 0x10000 + w / 0x10000,
{
    assert({
        &&& ((w & 0xff) << 24) | (((w >> 8) & 0xff) << 16) | (((w >> 16) & 0xff) << 8) | (w >> 24)
            == (w % 0x100) * 0x1000000 + ((w / 0x100) % 0x100) * 0x10000 + ((w / 0x10000) % 0x100)
            * 0x100 + w / 0x1000000
        &&& (w >> 16) | (w << 16) == (w % 0x10000) * 0x10000 + w / 0x10000
    }) by (bit_vector);
}

fn swap_bytes(w: u32) -> (r: u32)
    ensures
        r == byte_swapped(w),
{
    proof {
        lemma_swap_bits(w);
    }
    ((w & 0xff) << 24) | (((w >> 8) & 0xff) << 16) | (((w >> 16) & 0xff) << 8) | (w >> 24)
}

fn swap_halves(w: u32) -> (r: u32)
    ensures
        r == halves_swapped(w),
{
    proof {
        lemma_swap_bits(w);
    }
    (w >> 16) | (w << 16)
}

impl Pix {
    /// The raster as bytes. At 32 bpp: the red, green and blue bytes of
    /// each pixel (alpha dropped), row by row. At other depths: every
    /// word of every row, most significant byte first, with the pad bits
    /// past the last pixel of a row cleared.
    pub fn get_raster_data(&self) -> (r: Result<Vec<u8>>)
        requires
            self@.wf(),
            raster_len(self@) <= usize::MAX,
        ensures
            r matches Ok(v) && v@.len() == raster_len(self@) && forall|k: int|
                0 <= k < v@.len() ==> #[trigger] v@[k] == raster_byte(self@, k),
    {
        let data = self.data();
        let n = data.len();
        let mut out: Vec<u8> = Vec::new();
        if self.depth() == PixelDepth::Bit32 {
            let mut i: usize = 0;
            while i < n
                invariant
                    self@.depth == PixelDepth::Bit32,
                    data@ == self@.data,
                    n == data@.len(),
                    raster_len(self@) == 3 * n,
                    3 * n <= usize::MAX,
                    i <= n,
                    out@.len() == 3 * i,
                    forall|k: int| 0 <= k < out@.len() ==> #[trigger] out@[k] == raster_byte(self@, k),
                decreases n - i,
            {
                let (cr, cg, cb) = color::extract_rgb(data[i]);
                let ghost o = out@;
                out.push(cr);
                out.push(cg);
                out.push(cb);
                proof {
                    assert forall|k: int| 0 <= k < out@.len() implies #[trigger] out@[k] == raster_byte(self@, k) by {
                        if k >= 3 * i {
                            vstd::arithmetic::div_mod::lemma_fundamental_div_mod_converse(k, 3, i as int, k - 3 * i);
                        } else {
                            assert(out@[k] == o[k]);
                        }
                    }
                }
                i = i + 1;
            }
        } else {
            let wpl = self.wpl() as usize;
            let mask = pad_mask_exec(self.width(), self.depth());
            proof {
                let wd = self@.width * self@.depth.nbits();
                assert(wd >= 1) by (nonlinear_arith)
                    requires
                        self@.width >= 1,
                        self@.depth.nbits() >= 1,
                        wd == self@.width * self@.depth.nbits(),
                ;
                assert(wpl >= 1);
            }
            let mut i: usize = 0;
            let mut j: usize = 0;
            while i < n
                invariant
                    self@.depth != PixelDepth::Bit32,
                    self@.wf(),
                    data@ == self@.data,
                    n == data@.len(),
                    wpl == self@.wpl,
                    mask == pad_mask(self@),
                    raster_len(self@) == 4 * n,
                    4 * n <= usize::MAX,
                    i <= n,
                    j < wpl,
                    j == (i as int) % (wpl as int),
                    out@.len() == 4 * i,
                    forall|k: int| 0 <= k < out@.len() ==> #[trigger] out@[k] == raster_byte(self@, k),
                decreases n - i,
            {
                let w = if j + 1 == wpl {
                    data[i] & mask
                } else {
                    data[i]
                };
                assert(w == raster_word(self@, i as int));
                let ghost o = out@;
                out.push((w >> 24) as u8);
                out.push(((w >> 16) & 0xff) as u8);
                out.push(((w >> 8) & 0xff) as u8);
                out.push((w & 0xff) as u8);
                proof {
                    assert forall|k: int| 0 <= k < out@.len() implies #[trigger] out@[k] == raster_byte(self@, k) by {
                        if k >= 4 * i {
                            vstd::arithmetic::div_mod::lemma_fundamental_div_mod_converse(k, 4, i as int, k - 4 * i);
                        } else {
                            assert(out@[k] == o[k]);
                        }
                    }
                    vstd::arithmetic::div_mod::lemma_fundamental_div_mod(i as int, wpl as int);
                    let q = (i as int) / (wpl as int);
                    assert((q + 1) * wpl == q * wpl + wpl && q * wpl == wpl * q) by (nonlinear_arith);
                    vstd::arithmetic::div_mod::lemma_fundamental_div_mod_converse(
                        i as int + 1,
                        wpl as int,
                        (i as int) / (wpl as int) + if j + 1 == wpl { 1int } else { 0int },
                        if j + 1 == wpl { 0int } else { j + 1 },
                    );
                }
                i = i + 1;
                j = if j + 1 == wpl { 0 } else { j + 1 };
            }
        }
        Ok(out)
    }

    /// Extract a single color component as an 8 bpp grayscale image.
    ///
    /// # Errors
    ///
    /// [`Error::UnsupportedDepth`] if the image is not 32 bpp.
    pub fn get_rgb_component(&self, comp: RgbComponent) -> (r: Result<Pix>)
        requires
            self@.wf(),
        ensures
            r is Ok <==> self@.depth == PixelDepth::Bit32,
            r matches Err(e) ==> e == Error::UnsupportedDepth(self@.depth.nbits()),
            r matches Ok(p) ==> gray_from(p@, self@, |v: u32| component_of(v, comp)),
    {
        if self.depth() != PixelDepth::Bit32 {
            return Err(Error::UnsupportedDepth(self.depth().bits()));
        }
        proof {
            self@.lemma_new_ok_depth(PixelDepth::Bit8);
        }
        let f = |pixel: u32| -> (o: u32)
            ensures
                o == component_of(pixel, comp) as u32,
            { component(pixel, comp) as u32 };
        let mut m = match map_new(self, PixelDepth::Bit8, f, Ghost(|v: u32| component_of(v, comp) as u32)) {
            Ok(m) => m,
            Err(e) => {
                return Err(e);
            },
        };
        proof {
            assert forall|x: int, y: int| m@.contains(x, y) implies #[trigger] m@.pixel(x, y)
                == component_of(self@.pixel(x, y), comp) as u32 by {
                lemma_stored_small(PixelDepth::Bit8, component_of(self@.pixel(x, y), comp) as u32);
            }
        }
        let ghost m1 = m@;
        m.set_resolution(self.xres(), self.yres());
        proof {
            assert forall|x: int, y: int| m@.contains(x, y) implies #[trigger] m@.pixel(x, y)
                == m1.pixel(x, y) by {}
        }
        Ok(m.into_pix())
    }

    /// Create a 32 bpp RGB image from three 8 bpp component images.
    ///
    /// All three images must have the same dimensions. The alpha byte of
    /// each pixel is 0, and the resolution is that of the red image.
    ///
    /// # Errors
    ///
    /// [`Error::UnsupportedDepth`] if an image is not 8 bpp (checked in
    /// the order red, green, blue); [`Error::InvalidParameter`] if the
    /// sizes differ.
    pub fn create_rgb_image(pix_r: &Pix, pix_g: &Pix, pix_b: &Pix) -> (r: Result<Pix>)
        requires
            pix_r@.wf(),
            pix_g@.wf(),
            pix_b@.wf(),
        ensures
            r is Ok <==> pix_r@.depth == PixelDepth::Bit8 && pix_g@.depth == PixelDepth::Bit8
                && pix_b@.depth == PixelDepth::Bit8 && pix_g@.width == pix_r@.width && pix_g@.height
                == pix_r@.height && pix_b@.width == pix_r@.width && pix_b@.height == pix_r@.height
                && super::model::new_ok(pix_r@.width, pix_r@.height, PixelDepth::Bit32),
            r matches Err(e) ==> if pix_r@.depth != PixelDepth::Bit8 {
                e == Error::UnsupportedDepth(pix_r@.depth.nbits())
            } else if pix_g@.depth != PixelDepth::Bit8 {
                e == Error::UnsupportedDepth(pix_g@.depth.nbits())
            } else if pix_b@.depth != PixelDepth::Bit8 {
                e == Error::UnsupportedDepth(pix_b@.depth.nbits())
            } else if !(pix_g@.width == pix_r@.width && pix_g@.height == pix_r@.height && pix_b@.width
                == pix_r@.width && pix_b@.height == pix_r@.height) {
                e is InvalidParameter
            } else {
                e is InvalidDimension
            },
            r matches Ok(p) ==> p@.created(
                pix_r@.width,
                pix_r@.height,
                PixelDepth::Bit32,
                pix_r@.xres,
                pix_r@.yres,
            ) && forall|x: int, y: int|
                p@.contains(x, y) ==> #[trigger] p@.pixel(x, y) == rgba_word(
                    pix_r@.pixel(x, y) as u8,
                    pix_g@.pixel(x, y) as u8,
                    pix_b@.pixel(x, y) as u8,
                    0,
                ),
    {
        if pix_r.depth() != PixelDepth::Bit8 {
            return Err(Error::UnsupportedDepth(pix_r.depth().bits()));
        }
        if pix_g.depth() != PixelDepth::Bit8 {
            return Err(Error::UnsupportedDepth(pix_g.depth().bits()));
        }
        if pix_b.depth() != PixelDepth::Bit8 {
            return Err(Error::UnsupportedDepth(pix_b.depth().bits()));
        }
        let w = pix_r.width();
        let h = pix_r.height();
        if pix_g.width() != w || pix_g.height() != h || pix_b.width() != w || pix_b.height() != h {
            return Err(invalid_param("all component images must have the same dimensions"));
        }
        let mut m = match PixMut::new(w, h, PixelDepth::Bit32) {
            Ok(m) => m,
            Err(e) => {
                return Err(e);
            },
        };
        m.set_resolution(pix_r.xres(), pix_r.yres());
        let ghost m0 = m@;
        let mut y: u32 = 0;
        while y < h
            invariant
                pix_r@.wf(),
                pix_g@.wf(),
                pix_b@.wf(),
                w == pix_r@.width,
                h == pix_r@.height,
                w == pix_g@.width,
                h == pix_g@.height,
                w == pix_b@.width,
                h == pix_b@.height,
                m0.created(w, h, PixelDepth::Bit32, pix_r@.xres, pix_r@.yres),
                y <= h,
                m@.wf(),
                m@.same_meta(m0),
                forall|x: int, yy: int|
                    m@.contains(x, yy) && yy < y ==> #[trigger] m@.pixel(x, yy) == rgba_word(
                        pix_r@.pixel(x, yy) as u8,
                        pix_g@.pixel(x, yy) as u8,
                        pix_b@.pixel(x, yy) as u8,
                        0,
                    ),
            decreases h - y,
        {
            let mut x: u32 = 0;
            while x < w
                invariant
                    pix_r@.wf(),
                    pix_g@.wf(),
                    pix_b@.wf(),
                    w == pix_r@.width,
                    h == pix_r@.height,
                    w == pix_g@.width,
                    h == pix_g@.height,
                    w == pix_b@.width,
                    h == pix_b@.height,
                    m0.created(w, h, PixelDepth::Bit32, pix_r@.xres, pix_r@.yres),
                    y < h,
                    x <= w,
                    m@.wf(),
                    m@.same_meta(m0),
                    forall|xx: int, yy: int|
                        m@.contains(xx, yy) && (yy < y || (yy == y && xx < x)) ==> #[trigger] m@.pixel(
                            xx,
                            yy,
                        ) == rgba_word(
                            pix_r@.pixel(xx, yy) as u8,
                            pix_g@.pixel(xx, yy) as u8,
                            pix_b@.pixel(xx, yy) as u8,
                            0,
                        ),
                decreases w - x,
            {
                let r = pix_r.get_pixel_unchecked(x, y) as u8;
                let g = pix_g.get_pixel_unchecked(x, y) as u8;
                let b = pix_b.get_pixel_unchecked(x, y) as u8;
                let v = color::compose_rgb(r, g, b);
                proof {
                    lemma_stored_small(PixelDepth::Bit32, v);
                }
                m.set_pixel_unchecked(x, y, v);
                x = x + 1;
            }
            y = y + 1;
        }
        Ok(m.into_pix())
    }

    /// Extract a single RGB component from a colormapped image.
    ///
    /// Returns an 8 bpp grayscale image where each pixel value is the
    /// specified component from the colormap lookup; pixels whose index
    /// has no colormap entry give 0.
    ///
    /// # Errors
    ///
    /// [`Error::InvalidParameter`] if the image has no colormap.
    pub fn get_rgb_component_cmap(&self, comp: RgbComponent) -> (r: Result<Pix>)
        requires
            self@.wf(),
        ensures
            r is Ok <==> self@.cmap is Some && super::model::new_ok(self@.width, self@.height, PixelDepth::Bit8),
            r matches Err(e) ==> if self@.cmap is None {
                e is InvalidParameter
            } else {
                e is InvalidDimension
            },
            r matches Ok(p) ==> gray_from(p@, self@, |v: u32| cmap_component(self@.cmap->Some_0, v, comp)),
    {
        let cmap = match self.colormap() {
            Some(c) => c,
            None => {
                return Err(invalid_param("image has no colormap"));
            },
        };
        let f = |pixel: u32| -> (o: u32)
            ensures
                o == cmap_component(cmap@, pixel, comp) as u32,
            {
                match cmap.get(pixel as usize) {
                    Some(rgba) => match comp {
                        RgbComponent::Red => rgba.red as u32,
                        RgbComponent::Green => rgba.green as u32,
                        RgbComponent::Blue => rgba.blue as u32,
                        RgbComponent::Alpha => rgba.alpha as u32,
                    },
                    None => 0,
                }
            };
        let mut m = match map_new(self, PixelDepth::Bit8, f, Ghost(|v: u32| cmap_component(cmap@, v, comp) as u32)) {
            Ok(m) => m,
            Err(e) => {
                return Err(e);
            },
        };
        proof {
            assert forall|x: int, y: int| m@.contains(x, y) implies #[trigger] m@.pixel(x, y)
                == cmap_component(cmap@, self@.pixel(x, y), comp) as u32 by {
                lemma_stored_small(PixelDepth::Bit8, cmap_component(cmap@, self@.pixel(x, y), comp) as u32);
            }
        }
        let ghost m1 = m@;
        m.set_resolution(self.xres(), self.yres());
        proof {
            assert forall|x: int, y: int| m@.contains(x, y) implies #[trigger] m@.pixel(x, y)
                == m1.pixel(x, y) by {}
        }
        Ok(m.into_pix())
    }

    /// Extract R, G, B values from a single row of a 32 bpp image.
    ///
    /// Returns three vectors of length `width`, one for each channel.
    ///
    /// # Errors
    ///
    /// [`Error::UnsupportedDepth`] if the image is not 32 bpp;
    /// [`Error::IndexOutOfBounds`] if the row is outside the image.
    pub fn get_rgb_line(&self, row: u32) -> (r: Result<(Vec<u8>, Vec<u8>, Vec<u8>)>)
        requires
            self@.wf(),
        ensures
            r is Ok <==> self@.depth == PixelDepth::Bit32 && row < self@.height,
            r matches Err(e) ==> if self@.depth != PixelDepth::Bit32 {
                e == Error::UnsupportedDepth(self@.depth.nbits())
            } else {
                e == Error::IndexOutOfBounds { index: row as usize, len: self@.height as usize }
            },
            r matches Ok((rv, gv, bv)) ==> rv@.len() == self@.width && gv@.len() == self@.width
                && bv@.len() == self@.width && forall|x: int|
                0 <= x < self@.width ==> #[trigger] rv@[x] == red_of(self@.pixel(x, row as int))
                    && gv@[x] == green_of(self@.pixel(x, row as int)) && bv@[x] == blue_of(
                    self@.pixel(x, row as int),
                ),
    {
        if self.depth() != PixelDepth::Bit32 {
            return Err(Error::UnsupportedDepth(self.depth().bits()));
        }
        if row >= self.height() {
            return Err(Error::IndexOutOfBounds { index: row as usize, len: self.height() as usize });
        }
        let w = self.width();
        let mut buf_r: Vec<u8> = Vec::new();
        let mut buf_g: Vec<u8> = Vec::new();
        let mut buf_b: Vec<u8> = Vec::new();
        let mut x: u32 = 0;
        while x < w
            invariant
                self@.wf(),
                w == self@.width,
                row < self@.height,
                x <= w,
                buf_r@.len() == x,
                buf_g@.len() == x,
                buf_b@.len() == x,
                forall|i: int|
                    0 <= i < x ==> #[trigger] buf_r@[i] == red_of(self@.pixel(i, row as int))
                        && buf_g@[i] == green_of(self@.pixel(i, row as int)) && buf_b@[i] == blue_of(
                        self@.pixel(i, row as int),
                    ),
            decreases w - x,
        {
            let pixel = self.get_pixel_unchecked(x, row);
            let (r, g, b) = color::extract_rgb(pixel);
            buf_r.push(r);
            buf_g.push(g);
            buf_b.push(b);
            x = x + 1;
        }
        Ok((buf_r, buf_g, buf_b))
    }

    /// Check if all alpha values are 255 (fully opaque).
    ///
    /// # Errors
    ///
    /// [`Error::UnsupportedDepth`] if the image is not 32 bpp;
    /// [`Error::InvalidParameter`] if it has no alpha channel (spp is not
    /// 4).
    pub fn alpha_is_opaque(&self) -> (r: Result<bool>)
        requires
            self@.wf(),
        ensures
            r is Ok <==> self@.depth == PixelDepth::Bit32 && self@.spp == 4,
            r matches Err(e) ==> if self@.depth != PixelDepth::Bit32 {
                e == Error::UnsupportedDepth(self@.depth.nbits())
            } else {
                e is InvalidParameter
            },
            r matches Ok(b) ==> b == forall|x: int, y: int|
                self@.contains(x, y) ==> alpha_of(#[trigger] self@.pixel(x, y)) == 255,
    {
        if self.depth() != PixelDepth::Bit32 {
            return Err(Error::UnsupportedDepth(self.depth().bits()));
        }
        if self.spp() != 4 {
            return Err(invalid_param("alpha_is_opaque requires 32 bpp with spp == 4"));
        }
        let w = self.width();
        let h = self.height();
        let mut y: u32 = 0;
        while y < h
            invariant
                self@.wf(),
                self@.depth == PixelDepth::Bit32,
                self@.spp == 4,
                w == self@.width,
                h == self@.height,
                y <= h,
                forall|xx: int, yy: int|
                    self@.contains(xx, yy) && yy < y ==> alpha_of(#[trigger] self@.pixel(xx, yy)) == 255,
            decreases h - y,
        {
            let mut x: u32 = 0;
            while x < w
                invariant
                    self@.wf(),
                    self@.depth == PixelDepth::Bit32,
                    self@.spp == 4,
                    w == self@.width,
                    h == self@.height,
                    y < h,
                    x <= w,
                    forall|xx: int, yy: int|
                        self@.contains(xx, yy) && (yy < y || (yy == y && xx < x)) ==> alpha_of(
                            #[trigger] self@.pixel(xx, yy),
                        ) == 255,
                decreases w - x,
            {
                let pixel = self.get_pixel_unchecked(x, y);
                if color::alpha(pixel) != 255 {
                    return Ok(false);
                }
                x = x + 1;
            }
            y = y + 1;
        }
        Ok(true)
    }

    /// Create a new image with its data words byte-swapped: ABCD -> DCBA.
    pub fn endian_byte_swap_new(&self) -> (r: Pix)
        requires
            self@.wf(),
        ensures
            words_mapped(r@, self@, |w: u32| byte_swapped(w)),
    {
        let mut m = self.to_mut();
        m.endian_byte_swap();
        m.into_pix()
    }

    /// Create a new image with the 16-bit halves of its data words
    /// exchanged: AABB -> BBAA.
    pub fn endian_two_byte_swap_new(&self) -> (r: Pix)
        requires
            self@.wf(),
        ensures
            words_mapped(r@, self@, |w: u32| halves_swapped(w)),
    {
        let mut m = self.to_mut();
        m.endian_two_byte_swap();
        m.into_pix()
    }
}

/// The channel `comp` of the colormap entry at index `v`, or 0 when there
/// is no such entry.
pub open spec fn cmap_component(c: CmapModel, v: u32, comp: RgbComponent) -> u8 {
    if v < c.colors.len() {
        entry_component(c.colors[v as int], comp)
    } else {
        0
    }
}

impl PixMut {
    /// Sets pixel `(x, y)` of a colormapped image to the index of the
    /// colormap color nearest to `(r, g, b)` (the first such index, by
    /// squared distance over the three channels).
    ///
    /// # Errors
    ///
    /// [`Error::InvalidParameter`] without a colormap or with an empty
    /// one; [`Error::IndexOutOfBounds`] for a position outside the image.
    /// The image is unchanged on error.
    pub fn set_cmap_pixel(&mut self, x: u32, y: u32, r: u8, g: u8, b: u8) -> (res: Result<()>)
        requires
            old(self)@.wf(),
        ensures
            final(self)@.wf(),
            res is Ok <==> (old(self)@.cmap matches Some(c) && c.colors.len() > 0
                && old(self)@.contains(x as int, y as int)),
            res is Ok ==> final(self)@ == old(self)@.with_pixel(
                x as int,
                y as int,
                nearest_index(old(self)@.cmap->0.colors, old(self)@.cmap->0.colors.len() as int, r, g, b) as u32,
            ),
            res matches Err(e) ==> final(self)@ == old(self)@ && if old(self)@.cmap matches Some(c) && c.colors.len() > 0 {
                e is IndexOutOfBounds
            } else {
                e is InvalidParameter
            },
    {
        let index = match self.colormap() {
            Some(c) => match c.find_nearest(r, g, b) {
                Some(k) => k,
                None => {
                    return Err(invalid_param("colormap is empty"));
                },
            },
            None => {
                return Err(invalid_param("image has no colormap"));
            },
        };
        self.set_pixel(x, y, index as u32)
    }

    /// Copy a single color component from source to destination.
    ///
    /// Both images must be 32 bpp. Only the specified component is
    /// copied, in the part the images share; other components are
    /// preserved. Copying the alpha component sets spp to 4.
    ///
    /// # Errors
    ///
    /// [`Error::UnsupportedDepth`] if either image is not 32 bpp; the
    /// image is then unchanged.
    pub fn copy_rgb_component(&mut self, src: &Pix, comp: RgbComponent) -> (r: Result<()>)
        requires
            old(self)@.wf(),
            src@.wf(),
        ensures
            r is Ok <==> old(self)@.depth == PixelDepth::Bit32 && src@.depth == PixelDepth::Bit32,
            r matches Err(e) ==> final(self)@ == old(self)@ && if old(self)@.depth != PixelDepth::Bit32 {
                e == Error::UnsupportedDepth(old(self)@.depth.nbits())
            } else {
                e == Error::UnsupportedDepth(src@.depth.nbits())
            },
            r is Ok ==> component_set(final(self)@, old(self)@, src@, comp, |v: u32| component_of(v, comp)),
    {
        if self.depth() != PixelDepth::Bit32 {
            return Err(Error::UnsupportedDepth(self.depth().bits()));
        }
        if src.depth() != PixelDepth::Bit32 {
            return Err(Error::UnsupportedDepth(src.depth().bits()));
        }
        let f = |v: u32| -> (o: u8)
            ensures
                o == component_of(v, comp),
            { component(v, comp) };
        self.set_component_from(src, comp, f, Ghost(|v: u32| component_of(v, comp)));
        Ok(())
    }

    /// Replaces channel `comp` of each pixel in the part shared with `src`
    /// by `f` of the pixel of `src`; for the alpha channel spp becomes 4.
    fn set_component_from<F: Fn(u32) -> u8>(
        &mut self,
        src: &Pix,
        comp: RgbComponent,
        f: F,
        Ghost(g): Ghost<spec_fn(u32) -> u8>,
    )
        requires
            old(self)@.wf(),
            src@.wf(),
            old(self)@.depth == PixelDepth::Bit32,
            forall|v: u32| f.requires((v,)),
            forall|v: u32, o: u8| f.ensures((v,), o) ==> o == g(v),
        ensures
            component_set(final(self)@, old(self)@, src@, comp, g),
    {
        if comp == RgbComponent::Alpha {
            self.set_spp(4);
        }
        let ghost m0 = self@;
        let w = if self.width() < src.width() {
            self.width()
        } else {
            src.width()
        };
        let h = if self.height() < src.height() {
            self.height()
        } else {
            src.height()
        };
        let mut y: u32 = 0;
        while y < h
            invariant
                m0.wf(),
                src@.wf(),
                m0.depth == PixelDepth::Bit32,
                forall|v: u32| f.requires((v,)),
                forall|v: u32, o: u8| f.ensures((v,), o) ==> o == g(v),
                w <= m0.width,
                w <= src@.width,
                h <= m0.height,
                h <= src@.height,
                w == m0.width || w == src@.width,
                h == m0.height || h == src@.height,
                y <= h,
                self@.wf(),
                self@.same_meta(m0),
                forall|xx: int, yy: int|
                    self@.contains(xx, yy) ==> #[trigger] self@.pixel(xx, yy) == if xx < w && yy < y {
                        with_component(m0.pixel(xx, yy), comp, g(src@.pixel(xx, yy)))
                    } else {
                        m0.pixel(xx, yy)
                    },
            decreases h - y,
        {
            let mut x: u32 = 0;
            while x < w
                invariant
                    m0.wf(),
                    src@.wf(),
                    m0.depth == PixelDepth::Bit32,
                    forall|v: u32| f.requires((v,)),
                    forall|v: u32, o: u8| f.ensures((v,), o) ==> o == g(v),
                    w <= m0.width,
                    w <= src@.width,
                    h <= m0.height,
                    h <= src@.height,
                    y < h,
                    x <= w,
                    self@.wf(),
                    self@.same_meta(m0),
                    forall|xx: int, yy: int|
                        self@.contains(xx, yy) ==> #[trigger] self@.pixel(xx, yy) == if (xx < w && yy
                            < y) || (yy == y && xx < x) {
                            with_component(m0.pixel(xx, yy), comp, g(src@.pixel(xx, yy)))
                        } else {
                            m0.pixel(xx, yy)
                        },
                decreases w - x,
            {
                let sv = f(src.get_pixel_unchecked(x, y));
                let pixel = self.get_pixel_unchecked(x, y);
                let v = replace_component(pixel, comp, sv);
                proof {
                    lemma_stored_small(PixelDepth::Bit32, v);
                }
                self.set_pixel_unchecked(x, y, v);
                x = x + 1;
            }
            y = y + 1;
        }
    }

    /// Swap bytes within each 32-bit word in-place: ABCD -> DCBA.
    pub fn endian_byte_swap(&mut self)
        ensures
            words_mapped(final(self)@, old(self)@, |w: u32| byte_swapped(w)),
    {
        let words = self.data_mut();
        let n = words.len();
        let ghost d0 = words@;
        let mut i: usize = 0;
        while i < n
            invariant
                n == words@.len(),
                n == d0.len(),
                i <= n,
                forall|j: int| 0 <= j < n ==> #[trigger] words@[j] == if j < i { byte_swapped(d0[j]) } else { d0[j] },
            decreases n - i,
        {
            let w = words[i];
            words[i] = swap_bytes(w);
            i = i + 1;
        }
    }

    /// Swap 16-bit half-words within each 32-bit word in-place: AABB -> BBAA.
    pub fn endian_two_byte_swap(&mut self)
        ensures
            words_mapped(final(self)@, old(self)@, |w: u32| halves_swapped(w)),
    {
        let words = self.data_mut();
        let n = words.len();
        let ghost d0 = words@;
        let mut i: usize = 0;
        while i < n
            invariant
                n == words@.len(),
                n == d0.len(),
                i <= n,
                forall|j: int| 0 <= j < n ==> #[trigger] words@[j] == if j < i { halves_swapped(d0[j]) } else { d0[j] },
            decreases n - i,
        {
            let w = words[i];
            words[i] = swap_halves(w);
            i = i + 1;
        }
    }

    /// Set a single color component from an 8 bpp source image.
    ///
    /// The source image values replace the specified component channel
    /// in this 32 bpp image. If the source image is smaller than this
    /// image, only the overlapping region is modified; pixels outside
    /// the source bounds are left unchanged. If setting the alpha
    /// component, spp is automatically set to 4.
    ///
    /// # Errors
    ///
    /// [`Error::UnsupportedDepth`] if this image is not 32 bpp or the
    /// source is not 8 bpp; the image is then unchanged.
    pub fn set_rgb_component(&mut self, src: &Pix, comp: RgbComponent) -> (r: Result<()>)
        requires
            old(self)@.wf(),
            src@.wf(),
        ensures
            r is Ok <==> old(self)@.depth == PixelDepth::Bit32 && src@.depth == PixelDepth::Bit8,
            r matches Err(e) ==> final(self)@ == old(self)@ && if old(self)@.depth != PixelDepth::Bit32 {
                e == Error::UnsupportedDepth(old(self)@.depth.nbits())
            } else {
                e == Error::UnsupportedDepth(src@.depth.nbits())
            },
            r is Ok ==> component_set(final(self)@, old(self)@, src@, comp, |v: u32| v as u8),
    {
        if self.depth() != PixelDepth::Bit32 {
            return Err(Error::UnsupportedDepth(self.depth().bits()));
        }
        if src.depth() != PixelDepth::Bit8 {
            return Err(Error::UnsupportedDepth(src.depth().bits()));
        }
        let f = |v: u32| -> (o: u8)
            ensures
                o == v as u8,
            { v as u8 };
        self.set_component_from(src, comp, f, Ghost(|v: u32| v as u8));
        Ok(())
    }
}

/// `r` is `p` with channel `comp` of each pixel in the part shared with
/// `src` replaced by `g` of the pixel of `src`; setting the alpha channel
/// also sets spp to 4.
pub open spec fn component_set(r: PixModel, p: PixModel, src: PixModel, comp: RgbComponent, g: spec_fn(u32) -> u8) -> bool {
    &&& r.wf()
    &&& r.same_meta(PixModel { spp: if comp == RgbComponent::Alpha { 4 } else { p.spp }, ..p })
    &&& forall|x: int, y: int|
        r.contains(x, y) ==> #[trigger] r.pixel(x, y) == if x < src.width && y < src.height {
            with_component(p.pixel(x, y), comp, g(src.pixel(x, y)))
        } else {
            p.pixel(x, y)
        }
}

/// Splitting a 32 bpp image into its red, green and blue components and
/// joining them again gives back the color of every pixel.
pub proof fn law_components_roundtrip(p: PixModel, r: PixModel, g: PixModel, b: PixModel, q: PixModel)
    requires
        p.wf(),
        p.depth == PixelDepth::Bit32,
        gray_from(r, p, |v: u32| component_of(v, RgbComponent::Red)),
        gray_from(g, p, |v: u32| component_of(v, RgbComponent::Green)),
        gray_from(b, p, |v: u32| component_of(v, RgbComponent::Blue)),
        q.width == r.width && q.height == r.height,
        forall|x: int, y: int|
            q.contains(x, y) ==> #[trigger] q.pixel(x, y) == rgba_word(r.pixel(x, y) as u8, g.pixel(x, y) as u8, b.pixel(x, y) as u8, 0),
    ensures
        forall|x: int, y: int|
            p.contains(x, y) ==> {
                &&& red_of(#[trigger] q.pixel(x, y)) == red_of(p.pixel(x, y))
                &&& green_of(q.pixel(x, y)) == green_of(p.pixel(x, y))
                &&& blue_of(q.pixel(x, y)) == blue_of(p.pixel(x, y))
            },
{
    assert forall|x: int, y: int| p.contains(x, y) implies {
        &&& red_of(#[trigger] q.pixel(x, y)) == red_of(p.pixel(x, y))
        &&& green_of(q.pixel(x, y)) == green_of(p.pixel(x, y))
        &&& blue_of(q.pixel(x, y)) == blue_of(p.pixel(x, y))
    } by {
        let v = p.pixel(x, y);
        assert(r.pixel(x, y) == red_of(v) as u32);
        assert(g.pixel(x, y) == green_of(v) as u32);
        assert(b.pixel(x, y) == blue_of(v) as u32);
        crate::color::lemma_rgba_roundtrip(red_of(v), green_of(v), blue_of(v), 0, v);
    }
}

/// Swapping the bytes of every word twice gives back the word.
pub proof fn law_byte_swap_twice(w: u32)
    ensures
        byte_swapped(byte_swapped(w)) == w,
        halves_swapped(halves_swapped(w)) == w,
{
    assert(byte_swapped(byte_swapped(w)) == w && halves_swapped(halves_swapped(w)) == w) by (bit_vector);
}

/// The number of bytes `get_raster_data` gives.
pub open spec fn raster_len(p: PixModel) -> int {
    if p.depth == PixelDepth::Bit32 { 3 * p.data.len() as int } else { 4 * p.data.len() as int }
}

/// The bits of the last word of a row that hold pixels.
pub open spec fn pad_mask(p: PixModel) -> u32 {
    let rem = (p.width * p.depth.nbits()) % 32;
    if rem == 0 { 0xffff_ffffu32 } else { (0xffff_ffffu32 << (32 - rem) as u32) as u32 }
}

/// Word `i` of the raster with the pad bits of a row's last word cleared.
pub open spec fn raster_word(p: PixModel, i: int) -> u32 {
    if i % (p.wpl as int) == p.wpl - 1 { p.data[i] & pad_mask(p) } else { p.data[i] }
}

/// Byte `b` of a word, most significant first.
pub open spec fn word_byte(w: u32, b: int) -> u8 {
    if b == 0 {
        (w >> 24) as u8
    } else if b == 1 {
        ((w >> 16) & 0xff) as u8
    } else if b == 2 {
        ((w >> 8) & 0xff) as u8
    } else {
        (w & 0xff) as u8
    }
}

/// Byte `k` of what `get_raster_data` gives.
pub open spec fn raster_byte(p: PixModel, k: int) -> u8 {
    if p.depth == PixelDepth::Bit32 {
        let w = p.data[k / 3];
        if k % 3 == 0 {
            red_of(w)
        } else if k % 3 == 1 {
            green_of(w)
        } else {
            blue_of(w)
        }
    } else {
        word_byte(raster_word(p, k / 4), k % 4)
    }
}

fn pad_mask_exec(width: u32, d: PixelDepth) -> (m: u32)
    ensures
        forall|p: PixModel| p.width == width && p.depth == d ==> m == pad_mask(p),
{
    let bits = d.bits();
    assert(width as u64 * bits as u64 <= 0xffff_ffff * 32) by (nonlinear_arith)
        requires
            bits <= 32,
    ;
    let rem = ((width as u64 * bits as u64) % 32) as u32;
    if rem == 0 {
        0xffff_ffff
    } else {
        0xffff_ffffu32 << (32 - rem)
    }
}

} // verus!
