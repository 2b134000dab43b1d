//! Mask operations for images
//!
//! Setting pixels through a 1 bpp mask, combining images through a mask,
//! and making masks from pixel values.

use vstd::prelude::*;
use super::{Pix, PixMut, PixelDepth, InitColor};
use super::model::{PixModel, pmask, stored};
use super::raster::{map_new, lemma_stored_pixel, lemma_stored_small};
use super::border::black_or_white_val;
use crate::box_::{Box, Boxa, imin};
use crate::color::{rgba_word, red_of, green_of, blue_of, alpha_of};
use crate::error::{Error, Result, invalid_param};

verus! {

/// A value reduced to the bits that a pixel of depth `d` holds.
pub open spec fn masked_value(d: PixelDepth, v: u32) -> u32 {
    v & pmask(d)
}

/// The mask pixel `(mx, my)` lies in the first `mw` columns and `mh` rows
/// of the mask and is on.
pub open spec fn mask_on(mask: PixModel, mx: int, my: int, mw: int, mh: int) -> bool {
    &&& 0 <= mx < mw
    &&& 0 <= my < mh
    &&& mask.contains(mx, my)
    &&& mask.pixel(mx, my) != 0
}

/// `r` is `p` with the pixels whose offset by `(-x, -y)` falls on an on
/// pixel of the first `mw` by `mh` part of `mask` set to `v`, and the other
/// pixels unchanged.
pub open spec fn painted(r: PixModel, p: PixModel, mask: PixModel, x: int, y: int, mw: int, mh: int, v: u32) -> bool {
    &&& r.wf()
    &&& r.same_meta(p)
    &&& forall|px: int, py: int|
        r.contains(px, py) ==> #[trigger] r.pixel(px, py) == if mask_on(mask, px - x, py - y, mw, mh) {
            v
        } else {
            p.pixel(px, py)
        }
}

/// `r` is `p` with the pixels whose offset by `(-x, -y)` falls on an on
/// pixel of the first `mw` by `mh` part of `mask` copied from `src` at that
/// offset, and the other pixels unchanged.
pub open spec fn combined(r: PixModel, p: PixModel, src: PixModel, mask: PixModel, x: int, y: int, mw: int, mh: int) -> bool {
    &&& r.wf()
    &&& r.same_meta(p)
    &&& forall|px: int, py: int|
        r.contains(px, py) ==> #[trigger] r.pixel(px, py) == if mask_on(mask, px - x, py - y, mw, mh) {
            src.pixel(px - x, py - y)
        } else {
            p.pixel(px, py)
        }
}

/// Mask a pixel value to the valid range for a given depth.
fn mask_val(val: u32, depth: PixelDepth) -> (r: u32)
    ensures
        r == masked_value(depth, val),
        stored(depth, r) == r,
{
    proof {
        super::model::lemma_pixel_field(depth, 0);
        super::model::lemma_mask_facts(0, val, pmask(depth), depth.nbits(), super::model::pshift(depth, 0));
        lemma_stored_small(depth, val & pmask(depth));
    }
    val & depth.max_value()
}

impl PixMut {
    /// Sets the pixel at `(dx0 + mx, dy0 + my)` to `val` for every on pixel
    /// `(mx, my)` of the first `mw` by `mh` part of `mask`; `val` is stored
    /// unchanged, and positions outside the image are skipped.
    fn paint_mask(&mut self, mask: &Pix, x: i32, y: i32, mw: i32, mh: i32, val: u32)
        requires
            old(self)@.wf(),
            mask@.wf(),
            mw <= mask@.width,
            mh <= mask@.height,
            stored(old(self)@.depth, val) == val,
        ensures
            painted(final(self)@, old(self)@, mask@, x as int, y as int, mw as int, mh as int, val),
    {
        let ghost m0 = self@;
        let dw = self.width() as i64;
        let dh = self.height() as i64;
        let mut my: i32 = 0;
        while my < mh
            invariant
                m0.wf(),
                mask@.wf(),
                mw <= mask@.width,
                mh <= mask@.height,
                stored(m0.depth, val) == val,
                dw == m0.width,
                dh == m0.height,
                0 <= my,
                mh <= 0 ==> my == 0,
                mh > 0 ==> my <= mh,
                self@.wf(),
                self@.same_meta(m0),
                forall|px: int, py: int|
                    self@.contains(px, py) ==> #[trigger] self@.pixel(px, py) == if mask_on(
                        mask@,
                        px - x,
                        py - y,
                        mw as int,
                        imin(my as int, mh as int),
                    ) {
                        val
                    } else {
                        m0.pixel(px, py)
                    },
            decreases mh - my,
        {
            let dy: i64 = y as i64 + my as i64;
            if 0 <= dy && dy < dh {
                let mut mx: i32 = 0;
                while mx < mw
                    invariant
                        m0.wf(),
                        mask@.wf(),
                        mw <= mask@.width,
                        mh <= mask@.height,
                        stored(m0.depth, val) == val,
                        dw == m0.width,
                        dh == m0.height,
                        0 <= my < mh,
                        dy == y + my,
                        0 <= dy < dh,
                        0 <= mx,
                        mw <= 0 ==> mx == 0,
                        mw > 0 ==> mx <= mw,
                        self@.wf(),
                        self@.same_meta(m0),
                        forall|px: int, py: int|
                            self@.contains(px, py) ==> #[trigger] self@.pixel(px, py) == if mask_on(
                                mask@,
                                px - x,
                                py - y,
                                mw as int,
                                my as int,
                            ) || (py == dy && mask_on(mask@, px - x, my as int, mx as int, mh as int)) {
                                val
                            } else {
                                m0.pixel(px, py)
                            },
                    decreases mw - mx,
                {
                    let dx: i64 = x as i64 + mx as i64;
                    if 0 <= dx && dx < dw {
                        if mask.get_pixel_unchecked(mx as u32, my as u32) != 0 {
                            self.set_pixel_unchecked(dx as u32, dy as u32, val);
                        }
                    }
                    mx = mx + 1;
                }
            }
            my = my + 1;
        }
    }

    /// Set pixels to a value where a 1 bpp mask is ON.
    ///
    /// The mask is aligned to the upper-left corner. Only the
    /// overlapping region is processed.
    ///
    /// # Errors
    ///
    /// Returns an error if the mask is not 1 bpp; the image is then
    /// unchanged.
    pub fn set_masked(&mut self, mask: &Pix, val: u32) -> (r: Result<()>)
        requires
            old(self)@.wf(),
            mask@.wf(),
        ensures
            r is Ok <==> mask@.depth == PixelDepth::Bit1,
            r matches Err(e) ==> e == Error::UnsupportedDepth(mask@.depth.nbits()) && final(self)@ == old(self)@,
            r is Ok ==> painted(
                final(self)@,
                old(self)@,
                mask@,
                0,
                0,
                mask@.width as int,
                mask@.height as int,
                masked_value(old(self)@.depth, val),
            ),
    {
        if mask.depth() != PixelDepth::Bit1 {
            return Err(Error::UnsupportedDepth(mask.depth().bits()));
        }
        let val = mask_val(val, self.depth());
        let ghost m0 = self@;
        let w = if self.width() < mask.width() {
            self.width()
        } else {
            mask.width()
        };
        let h = if self.height() < mask.height() {
            self.height()
        } else {
            mask.height()
        };
        let mut y: u32 = 0;
        while y < h
            invariant
                m0.wf(),
                mask@.wf(),
                w <= m0.width,
                w <= mask@.width,
                h <= m0.height,
                h <= mask@.height,
                w == imin(m0.width as int, mask@.width as int),
                h == imin(m0.height as int, mask@.height as int),
                stored(m0.depth, val) == val,
                y <= h,
                self@.wf(),
                self@.same_meta(m0),
                forall|px: int, py: int|
                    self@.contains(px, py) ==> #[trigger] self@.pixel(px, py) == if mask_on(
                        mask@,
                        px,
                        py,
                        mask@.width as int,
                        y as int,
                    ) {
                        val
                    } else {
                        m0.pixel(px, py)
                    },
            decreases h - y,
        {
            let mut x: u32 = 0;
            while x < w
                invariant
                    m0.wf(),
                    mask@.wf(),
                    w <= m0.width,
                    w <= mask@.width,
                    h <= m0.height,
                    h <= mask@.height,
                    w == imin(m0.width as int, mask@.width as int),
                    stored(m0.depth, val) == val,
                    y < h,
                    x <= w,
                    self@.wf(),
                    self@.same_meta(m0),
                    forall|px: int, py: int|
                        self@.contains(px, py) ==> #[trigger] self@.pixel(px, py) == if mask_on(
                            mask@,
                            px,
                            py,
                            mask@.width as int,
                            y as int,
                        ) || (py == y && mask_on(mask@, px, py, x as int, mask@.height as int)) {
                            val
                        } else {
                            m0.pixel(px, py)
                        },
                decreases w - x,
            {
                if mask.get_pixel_unchecked(x, y) != 0 {
                    self.set_pixel_unchecked(x, y, val);
                }
                x = x + 1;
            }
            y = y + 1;
        }
        Ok(())
    }

    /// Copy pixels from a source image where a 1 bpp mask is ON.
    ///
    /// The mask, source, and destination are aligned at the upper-left
    /// corner. Only the overlapping region is processed.
    ///
    /// # Errors
    ///
    /// Returns an error if the mask is not 1 bpp or if the depths of the
    /// source and this image differ; the image is then unchanged.
    pub fn combine_masked(&mut self, src: &Pix, mask: &Pix) -> (r: Result<()>)
        requires
            old(self)@.wf(),
            src@.wf(),
            mask@.wf(),
        ensures
            r is Ok <==> mask@.depth == PixelDepth::Bit1 && old(self)@.depth == src@.depth,
            r matches Err(e) ==> final(self)@ == old(self)@ && if mask@.depth != PixelDepth::Bit1 {
                e == Error::UnsupportedDepth(mask@.depth.nbits())
            } else {
                e is InvalidParameter
            },
            r is Ok ==> combined(
                final(self)@,
                old(self)@,
                src@,
                mask@,
                0,
                0,
                imin(src@.width as int, mask@.width as int),
                imin(src@.height as int, mask@.height as int),
            ),
    {
        if mask.depth() != PixelDepth::Bit1 {
            return Err(Error::UnsupportedDepth(mask.depth().bits()));
        }
        if self.depth() != src.depth() {
            return Err(invalid_param("source and destination depths must match"));
        }
        let sw = if src.width() < mask.width() {
            src.width()
        } else {
            mask.width()
        };
        let sh = if src.height() < mask.height() {
            src.height()
        } else {
            mask.height()
        };
        self.combine_block(src, mask, 0, 0, sw as i64, sh as i64);
        Ok(())
    }

    /// Copies `src` at `(mx, my)` to `(x + mx, y + my)` for every on pixel
    /// `(mx, my)` of the first `mw` by `mh` part of `mask`, skipping
    /// positions outside the image.
    fn combine_block(&mut self, src: &Pix, mask: &Pix, x: i32, y: i32, mw: i64, mh: i64)
        requires
            old(self)@.wf(),
            src@.wf(),
            mask@.wf(),
            src@.depth == old(self)@.depth,
            mw <= mask@.width,
            mh <= mask@.height,
            mw <= src@.width,
            mh <= src@.height,
        ensures
            combined(final(self)@, old(self)@, src@, mask@, x as int, y as int, mw as int, mh as int),
    {
        let ghost m0 = self@;
        let dw = self.width() as i64;
        let dh = self.height() as i64;
        let mut my: i64 = 0;
        while my < mh
            invariant
                m0.wf(),
                src@.wf(),
                mask@.wf(),
                src@.depth == m0.depth,
                mw <= mask@.width,
                mh <= mask@.height,
                mw <= src@.width,
                mh <= src@.height,
                dw == m0.width,
                dh == m0.height,
                0 <= my,
                mh <= 0 ==> my == 0,
                mh > 0 ==> my <= mh,
                self@.wf(),
                self@.same_meta(m0),
                forall|px: int, py: int|
                    self@.contains(px, py) ==> #[trigger] self@.pixel(px, py) == if mask_on(
                        mask@,
                        px - x,
                        py - y,
                        mw as int,
                        imin(my as int, mh as int),
                    ) {
                        src@.pixel(px - x, py - y)
                    } else {
                        m0.pixel(px, py)
                    },
            decreases mh - my,
        {
            let dy: i64 = y as i64 + my;
            if 0 <= dy && dy < dh {
                let mut mx: i64 = 0;
                while mx < mw
                    invariant
                        m0.wf(),
                        src@.wf(),
                        mask@.wf(),
                        src@.depth == m0.depth,
                        mw <= mask@.width,
                        mh <= mask@.height,
                        mw <= src@.width,
                        mh <= src@.height,
                        dw == m0.width,
                        dh == m0.height,
                        0 <= my < mh,
                        dy == y + my,
                        0 <= dy < dh,
                        0 <= mx,
                        mw <= 0 ==> mx == 0,
                        mw > 0 ==> mx <= mw,
                        self@.wf(),
                        self@.same_meta(m0),
                        forall|px: int, py: int|
                            self@.contains(px, py) ==> #[trigger] self@.pixel(px, py) == if mask_on(
                                mask@,
                                px - x,
                                py - y,
                                mw as int,
                                my as int,
                            ) || (py == dy && mask_on(mask@, px - x, my as int, mx as int, mh as int)) {
                                src@.pixel(px - x, py - y)
                            } else {
                                m0.pixel(px, py)
                            },
                    decreases mw - mx,
                {
                    let dx: i64 = x as i64 + mx;
                    if 0 <= dx && dx < dw {
                        if mask.get_pixel_unchecked(mx as u32, my as u32) != 0 {
                            let v = src.get_pixel_unchecked(mx as u32, my as u32);
                            proof {
                                lemma_stored_pixel(src@, mx as int, my as int);
                            }
                            self.set_pixel_unchecked(dx as u32, dy as u32, v);
                        }
                    }
                    mx = mx + 1;
                }
            }
            my = my + 1;
        }
    }

    /// Paint a value through a mask at a specified offset.
    ///
    /// Like `set_masked` but the mask is placed at position `(x, y)`
    /// relative to the destination image.
    ///
    /// # Errors
    ///
    /// Returns an error if the mask is not 1 bpp; the image is then
    /// unchanged.
    pub fn paint_through_mask(&mut self, mask: &Pix, x: i32, y: i32, val: u32) -> (r: Result<()>)
        requires
            old(self)@.wf(),
            mask@.wf(),
        ensures
            r is Ok <==> mask@.depth == PixelDepth::Bit1,
            r matches Err(e) ==> e == Error::UnsupportedDepth(mask@.depth.nbits()) && final(self)@ == old(self)@,
            r is Ok ==> painted(
                final(self)@,
                old(self)@,
                mask@,
                x as int,
                y as int,
                (mask@.width as i32) as int,
                (mask@.height as i32) as int,
                masked_value(old(self)@.depth, val),
            ),
    {
        if mask.depth() != PixelDepth::Bit1 {
            return Err(Error::UnsupportedDepth(mask.depth().bits()));
        }
        let val = mask_val(val, self.depth());
        let mw = mask.width() as i32;
        let mh = mask.height() as i32;
        proof {
            super::clip::lemma_i32_cast(mask@.width);
            super::clip::lemma_i32_cast(mask@.height);
        }
        self.paint_mask(mask, x, y, mw, mh, val);
        Ok(())
    }

    /// Set pixels to a value where a 1 bpp mask is ON, with explicit alignment.
    ///
    /// Like `set_masked`, but the mask is placed at `(x, y)` relative to the
    /// destination, and only 8, 16, or 32 bpp destinations are supported.
    ///
    /// # Errors
    ///
    /// [`Error::UnsupportedDepth`] for a destination of another depth or a
    /// mask that is not 1 bpp; the image is then unchanged.
    pub fn set_masked_general(&mut self, mask: &Pix, val: u32, x: i32, y: i32) -> (r: Result<()>)
        requires
            old(self)@.wf(),
            mask@.wf(),
        ensures
            r is Ok <==> (old(self)@.depth == PixelDepth::Bit8 || old(self)@.depth == PixelDepth::Bit16
                || old(self)@.depth == PixelDepth::Bit32) && mask@.depth == PixelDepth::Bit1,
            r matches Err(e) ==> final(self)@ == old(self)@ && if !(old(self)@.depth == PixelDepth::Bit8
                || old(self)@.depth == PixelDepth::Bit16 || old(self)@.depth == PixelDepth::Bit32) {
                e == Error::UnsupportedDepth(old(self)@.depth.nbits())
            } else {
                e == Error::UnsupportedDepth(mask@.depth.nbits())
            },
            r is Ok ==> painted(
                final(self)@,
                old(self)@,
                mask@,
                x as int,
                y as int,
                (mask@.width as i32) as int,
                (mask@.height as i32) as int,
                masked_value(old(self)@.depth, val),
            ),
    {
        let d = self.depth();
        if d != PixelDepth::Bit8 && d != PixelDepth::Bit16 && d != PixelDepth::Bit32 {
            return Err(Error::UnsupportedDepth(d.bits()));
        }
        if mask.depth() != PixelDepth::Bit1 {
            return Err(Error::UnsupportedDepth(mask.depth().bits()));
        }
        let val = mask_val(val, d);
        let mw = mask.width() as i32;
        let mh = mask.height() as i32;
        proof {
            super::clip::lemma_i32_cast(mask@.width);
            super::clip::lemma_i32_cast(mask@.height);
        }
        self.paint_mask(mask, x, y, mw, mh, val);
        Ok(())
    }

    /// Copy pixels from a source image where a 1 bpp mask is ON, with explicit alignment.
    ///
    /// Both source and mask are aligned to `(x, y)` relative to the destination.
    ///
    /// # Errors
    ///
    /// [`Error::InvalidParameter`] if the depths of the source and this
    /// image differ; [`Error::UnsupportedDepth`] if the mask is not 1 bpp or
    /// the depth is not 8 or 32. The image is then unchanged.
    pub fn combine_masked_general(&mut self, src: &Pix, mask: &Pix, x: i32, y: i32) -> (r: Result<()>)
        requires
            old(self)@.wf(),
            src@.wf(),
            mask@.wf(),
        ensures
            r is Ok <==> old(self)@.depth == src@.depth && mask@.depth == PixelDepth::Bit1 && (
            old(self)@.depth == PixelDepth::Bit8 || old(self)@.depth == PixelDepth::Bit32),
            r matches Err(e) ==> final(self)@ == old(self)@ && if old(self)@.depth != src@.depth {
                e is InvalidParameter
            } else if mask@.depth != PixelDepth::Bit1 {
                e == Error::UnsupportedDepth(mask@.depth.nbits())
            } else {
                e == Error::UnsupportedDepth(old(self)@.depth.nbits())
            },
            r is Ok ==> combined(
                final(self)@,
                old(self)@,
                src@,
                mask@,
                x as int,
                y as int,
                imin((src@.width as i32) as int, (mask@.width as i32) as int),
                imin((src@.height as i32) as int, (mask@.height as i32) as int),
            ),
    {
        let d = self.depth();
        if d != src.depth() {
            return Err(invalid_param("source and destination depths must match"));
        }
        if mask.depth() != PixelDepth::Bit1 {
            return Err(Error::UnsupportedDepth(mask.depth().bits()));
        }
        if d != PixelDepth::Bit8 && d != PixelDepth::Bit32 {
            return Err(Error::UnsupportedDepth(d.bits()));
        }
        let sw = src.width() as i32;
        let sh = src.height() as i32;
        let mw = mask.width() as i32;
        let mh = mask.height() as i32;
        proof {
            super::clip::lemma_i32_cast(mask@.width);
            super::clip::lemma_i32_cast(mask@.height);
            super::clip::lemma_i32_cast(src@.width);
            super::clip::lemma_i32_cast(src@.height);
        }
        let h_min = if sh < mh {
            sh
        } else {
            mh
        };
        let w_min = if sw < mw {
            sw
        } else {
            mw
        };
        self.combine_block(src, mask, x, y, w_min as i64, h_min as i64);
        Ok(())
    }
}

/// `r` is a fresh 1 bpp image of the size of `p` whose pixel is 1 exactly
/// where `on` holds of the pixel of `p`.
pub open spec fn mask_of(r: PixModel, p: PixModel, on: spec_fn(u32) -> bool) -> bool {
    &&& r.fresh_meta(p.width, p.height, PixelDepth::Bit1)
    &&& forall|x: int, y: int|
        r.contains(x, y) ==> #[trigger] r.pixel(x, y) == if on(p.pixel(x, y)) {
            1u32
        } else {
            0u32
        }
}

/// Whether `d` is 2, 4 or 8.
pub open spec fn small_gray(d: PixelDepth) -> bool {
    d == PixelDepth::Bit2 || d == PixelDepth::Bit4 || d == PixelDepth::Bit8
}

impl Pix {
    /// Makes a 1 bpp image of this size, 1 where `f` gives 1.
    fn mask_by<F: Fn(u32) -> u32>(&self, f: F, Ghost(on): Ghost<spec_fn(u32) -> bool>) -> (r: Result<Pix>)
        requires
            self@.wf(),
            forall|v: u32| v <= pmask(self@.depth) ==> f.requires((v,)),
            forall|v: u32, o: u32| f.ensures((v,), o) ==> o == if on(v) { 1u32 } else { 0u32 },
        ensures
            r matches Ok(m) && mask_of(m@, self@, on),
    {
        proof {
            self@.lemma_new_ok_depth(PixelDepth::Bit1);
        }
        let m = match map_new(self, PixelDepth::Bit1, f, Ghost(|v: u32| if on(v) { 1u32 } else { 0u32 })) {
            Ok(m) => m,
            Err(e) => {
                return Err(e);
            },
        };
        Ok(m.into_pix())
    }

    /// Create a 1 bpp mask where pixels equal a given value.
    ///
    /// # Errors
    ///
    /// Returns an error if the image depth is not 2, 4, or 8 bpp.
    pub fn make_mask_from_val(&self, val: u32) -> (r: Result<Pix>)
        requires
            self@.wf(),
        ensures
            r is Ok <==> small_gray(self@.depth),
            r matches Ok(m) ==> mask_of(m@, self@, |v: u32| v == val),
            r matches Err(e) ==> e == Error::UnsupportedDepth(self@.depth.nbits()),
    {
        let d = self.depth();
        if d != PixelDepth::Bit2 && d != PixelDepth::Bit4 && d != PixelDepth::Bit8 {
            return Err(Error::UnsupportedDepth(d.bits()));
        }
        let f = |v: u32| -> (o: u32)
            ensures
                o == if v == val { 1u32 } else { 0u32 },
            {
                if v == val {
                    1
                } else {
                    0
                }
            };
        self.mask_by(f, Ghost(|v: u32| v == val))
    }

    /// Create a 1 bpp mask using a lookup table.
    ///
    /// The LUT maps pixel values to mask values: a nonzero entry sets the
    /// mask bit.
    ///
    /// # Errors
    ///
    /// Returns an error if the image depth is not 2, 4, or 8 bpp,
    /// or if the LUT has fewer than 256 entries.
    pub fn make_mask_from_lut(&self, lut: &[u8]) -> (r: Result<Pix>)
        requires
            self@.wf(),
        ensures
            r is Ok <==> small_gray(self@.depth) && lut@.len() >= 256,
            r matches Ok(m) ==> mask_of(m@, self@, |v: u32| lut@[v as int] != 0),
            r matches Err(e) ==> if !small_gray(self@.depth) {
                e == Error::UnsupportedDepth(self@.depth.nbits())
            } else {
                e is InvalidParameter
            },
    {
        let d = self.depth();
        if d != PixelDepth::Bit2 && d != PixelDepth::Bit4 && d != PixelDepth::Bit8 {
            return Err(Error::UnsupportedDepth(d.bits()));
        }
        if lut.len() < 256 {
            return Err(invalid_param("LUT must have at least 256 entries"));
        }
        let f = |v: u32| -> (o: u32)
            requires
                v < 256,
            ensures
                o == if lut@[v as int] != 0 { 1u32 } else { 0u32 },
            {
                if lut[v as usize] != 0 {
                    1
                } else {
                    0
                }
            };
        self.mask_by(f, Ghost(|v: u32| lut@[v as int] != 0))
    }

    /// Copy pixels from box regions, filling the rest with a background color.
    ///
    /// Creates a new image of the same size and depth, filled with the
    /// background color, then copies pixels from `self` that fall within
    /// any of the boxes in `boxa`.
    pub fn copy_with_boxa(&self, boxa: &Boxa, background: InitColor) -> (r: Result<Pix>)
        requires
            self@.wf(),
            forall|i: int|
                0 <= i < boxa@.len() ==> i32::MIN <= #[trigger] boxa@[i].x + boxa@[i].w <= i32::MAX
                    && i32::MIN <= boxa@[i].y + boxa@[i].h <= i32::MAX,
        ensures
            r matches Ok(p) && p@.fresh_meta(self@.width, self@.height, self@.depth) && forall|x: int, y: int|
                p@.contains(x, y) ==> #[trigger] p@.pixel(x, y) == if in_some_box(boxa@, self@, x, y) {
                    self@.pixel(x, y)
                } else {
                    stored(self@.depth, black_or_white_val(self@, background))
                },
    {
        let w = self.width();
        let h = self.height();
        let d = self.depth();
        let bg_val = PixMut::get_black_or_white_val(self, background);
        proof {
            self@.lemma_new_ok();
        }
        let mut dm = match PixMut::new(w, h, d) {
            Ok(m) => m,
            Err(e) => {
                return Err(e);
            },
        };
        super::raster::fill_block(&mut dm, 0, 0, w, h, bg_val);
        let ghost m1 = dm@;
        let n = boxa.len();
        let mut i: usize = 0;
        while i < n
            invariant
                self@.wf(),
                n == boxa@.len(),
                w == self@.width,
                h == self@.height,
                d == self@.depth,
                forall|k: int|
                    0 <= k < boxa@.len() ==> i32::MIN <= #[trigger] boxa@[k].x + boxa@[k].w <= i32::MAX
                        && i32::MIN <= boxa@[k].y + boxa@[k].h <= i32::MAX,
                i <= n,
                dm@.fresh_meta(w, h, d),
                forall|x: int, y: int|
                    dm@.contains(x, y) ==> #[trigger] dm@.pixel(x, y) == if in_some_box(
                        boxa@.take(i as int),
                        self@,
                        x,
                        y,
                    ) {
                        self@.pixel(x, y)
                    } else {
                        stored(d, bg_val)
                    },
            decreases n - i,
        {
            let b = boxa.get(i).unwrap();
            let x0: u32 = if b.x > 0 {
                b.x as u32
            } else {
                0
            };
            let y0: u32 = if b.y > 0 {
                b.y as u32
            } else {
                0
            };
            let xe = ((b.x + b.w) as u32);
            let ye = ((b.y + b.h) as u32);
            let x1 = if xe < w {
                xe
            } else {
                w
            };
            let y1 = if ye < h {
                ye
            } else {
                h
            };
            if x0 < x1 && y0 < y1 {
                super::raster::copy_block(&mut dm, x0, y0, self, x0, y0, x1 - x0, y1 - y0);
            }
            proof {
                assert(boxa@.take(i + 1) == boxa@.take(i as int).push(b));
                assert forall|x: int, y: int| dm@.contains(x, y) implies #[trigger] dm@.pixel(x, y)
                    == if in_some_box(boxa@.take(i + 1), self@, x, y) {
                    self@.pixel(x, y)
                } else {
                    stored(d, bg_val)
                } by {
                    lemma_in_some_box_push(boxa@.take(i as int), b, self@, x, y);
                }
            }
            i = i + 1;
        }
        proof {
            assert(boxa@.take(n as int) == boxa@);
        }
        Ok(dm.into_pix())
    }

    /// Set RGB values under fully transparent (alpha == 0) pixels.
    ///
    /// Returns a new 32 bpp image with RGB replaced where alpha is 0.
    /// The alpha channel is preserved.
    ///
    /// # Errors
    ///
    /// [`Error::UnsupportedDepth`] if the image is not 32 bpp.
    pub fn set_under_transparency(&self, val: u32) -> (r: Result<Pix>)
        requires
            self@.wf(),
        ensures
            r is Ok <==> self@.depth == PixelDepth::Bit32,
            r matches Err(e) ==> e == Error::UnsupportedDepth(self@.depth.nbits()),
            r matches Ok(p) ==> p@.same_meta(self@) && forall|x: int, y: int|
                p@.contains(x, y) ==> #[trigger] p@.pixel(x, y) == if alpha_of(self@.pixel(x, y)) == 0 {
                    rgba_word(red_of(val), green_of(val), blue_of(val), 0)
                } else {
                    self@.pixel(x, y)
                },
    {
        if self.depth() != PixelDepth::Bit32 {
            return Err(Error::UnsupportedDepth(self.depth().bits()));
        }
        let mut rm = self.to_mut();
        let (new_r, new_g, new_b, _) = crate::color::extract_rgba(val);
        let replacement = crate::color::compose_rgba(new_r, new_g, new_b, 0);
        let f = |pixel: u32| -> (o: u32)
            ensures
                o == if alpha_of(pixel) == 0 { replacement } else { pixel },
            {
                if crate::color::alpha(pixel) == 0 {
                    replacement
                } else {
                    pixel
                }
            };
        let ghost m0 = rm@;
        super::raster::map_into(&mut rm, f, Ghost(|pixel: u32| if alpha_of(pixel) == 0 { replacement } else { pixel }));
        proof {
            assert forall|x: int, y: int| rm@.contains(x, y) implies #[trigger] rm@.pixel(x, y) == if alpha_of(
                m0.pixel(x, y),
            ) == 0 {
                replacement
            } else {
                m0.pixel(x, y)
            } by {
                lemma_stored_pixel(m0, x, y);
                lemma_stored_small(PixelDepth::Bit32, replacement);
            }
        }
        Ok(rm.into_pix())
    }
}

/// The column range `x0..x1` that `copy_with_boxa` copies for box `b` in
/// an image `w` wide.
pub open spec fn box_cols(b: Box, w: u32) -> (int, int) {
    (
        if b.x > 0 { b.x as int } else { 0 },
        if (((b.x + b.w) as i32) as u32) < w { (((b.x + b.w) as i32) as u32) as int } else { w as int },
    )
}

/// The row range `y0..y1` that `copy_with_boxa` copies for box `b` in an
/// image `h` high.
pub open spec fn box_rows(b: Box, h: u32) -> (int, int) {
    (
        if b.y > 0 { b.y as int } else { 0 },
        if (((b.y + b.h) as i32) as u32) < h { (((b.y + b.h) as i32) as u32) as int } else { h as int },
    )
}

/// Pixel `(x, y)` of `p` lies in the copied part of one of the boxes.
pub open spec fn in_some_box(boxes: Seq<Box>, p: PixModel, x: int, y: int) -> bool {
    exists|i: int|
        0 <= i < boxes.len() && box_cols(#[trigger] boxes[i], p.width).0 <= x < box_cols(boxes[i], p.width).1
            && box_rows(boxes[i], p.height).0 <= y < box_rows(boxes[i], p.height).1
}

proof fn lemma_in_some_box_push(boxes: Seq<Box>, b: Box, p: PixModel, x: int, y: int)
    ensures
        in_some_box(boxes.push(b), p, x, y) == (in_some_box(boxes, p, x, y) || (box_cols(b, p.width).0
            <= x < box_cols(b, p.width).1 && box_rows(b, p.height).0 <= y < box_rows(b, p.height).1)),
{
    let s = boxes.push(b);
    if in_some_box(boxes, p, x, y) {
        let i = choose|i: int|
            0 <= i < boxes.len() && box_cols(#[trigger] boxes[i], p.width).0 <= x < box_cols(boxes[i], p.width).1
                && box_rows(boxes[i], p.height).0 <= y < box_rows(boxes[i], p.height).1;
        assert(s[i] == boxes[i]);
    }
    if box_cols(b, p.width).0 <= x < box_cols(b, p.width).1 && box_rows(b, p.height).0 <= y < box_rows(b, p.height).1 {
        assert(s[boxes.len() as int] == b);
    }
    if in_some_box(s, p, x, y) {
        let i = choose|i: int|
            0 <= i < s.len() && box_cols(#[trigger] s[i], p.width).0 <= x < box_cols(s[i], p.width).1
                && box_rows(s[i], p.height).0 <= y < box_rows(s[i], p.height).1;
        if i < boxes.len() {
            assert(s[i] == boxes[i]);
        }
    }
}

} // verus!
