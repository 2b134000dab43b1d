//! Pixel access: getting and setting single pixels.
//!
//! The `get_data_*` / `set_data_*` functions read and write one field of
//! a row of words. Within a row, pixel `x` of depth `d` lives in word `x / (32 / d)`,
//! counted from the most significant bits.

use vstd::prelude::*;
use super::{Pix, PixMut, PixelDepth};
use super::model::{PixModel, ppw, pmask, pshift, word_pixel, word_set, stored, line_pixel};
use crate::color::{rgba_word, red_of, green_of, blue_of, alpha_of, compose_rgb, compose_rgba,
    extract_rgb, extract_rgba};
use crate::error::{Error, Result};

verus! {

// ---------------------------------------------------------------------------
// Reading and writing one field of a word
// ---------------------------------------------------------------------------

/// Bit-level facts about pixel positions within a word.
pub proof fn lemma_index_bits(x: u32)
    ensures
        x & 31 == x % 32,
        x & 15 == x % 16,
        x & 7 == x % 8,
        x & 3 == x % 4,
        x & 1 == x % 2,
        x >> 5 == x / 32,
        x >> 4 == x / 16,
        x >> 3 == x / 8,
        x >> 2 == x / 4,
        x >> 1 == x / 2,
{
    assert({
        &&& x & 31 == x % 32
        &&& x & 15 == x % 16
        &&& x & 7 == x % 8
        &&& x & 3 == x % 4
        &&& x & 1 == x % 2
        &&& x >> 5 == x / 32
        &&& x >> 4 == x / 16
        &&& x >> 3 == x / 8
        &&& x >> 2 == x / 4
        &&& x >> 1 == x / 2
    }) by (bit_vector);
}

/// Setting or clearing one bit is writing a 1-bit field.
proof fn lemma_single_bit(w: u32, s: u32)
    requires
        s < 32,
    ensures
        w | (1u32 << s) == (w & !(1u32 << s)) | (1u32 << s),
        w & !(1u32 << s) == (w & !(1u32 << s)) | (0u32 << s),
{
    assert({
        &&& w | (1u32 << s) == (w & !(1u32 << s)) | (1u32 << s)
        &&& w & !(1u32 << s) == (w & !(1u32 << s)) | (0u32 << s)
    }) by (bit_vector)
        requires
            s < 32,
    ;
}

/// The shift of pixel `x`, computed with masks and shifts.
fn shift_of(d: PixelDepth, x: u32) -> (s: u32)
    ensures
        s == pshift(d, x as int),
{
    proof {
        lemma_index_bits(x);
        assert((x as int) % 32 == (x % 32) as int);
        assert((x as int) % 16 == (x % 16) as int);
        assert((x as int) % 8 == (x % 8) as int);
        assert((x as int) % 4 == (x % 4) as int);
        assert((x as int) % 2 == (x % 2) as int);
        assert((x as int) % 1 == 0);
    }
    match d {
        PixelDepth::Bit1 => 31 - (x & 31),
        PixelDepth::Bit2 => 2 * (15 - (x & 15)),
        PixelDepth::Bit4 => 4 * (7 - (x & 7)),
        PixelDepth::Bit8 => (3 - (x & 3)) * 8,
        PixelDepth::Bit16 => (1 - (x & 1)) * 16,
        PixelDepth::Bit32 => 0,
    }
}

/// The value of pixel `x` in word `w`.
fn word_get(w: u32, d: PixelDepth, x: u32) -> (r: u32)
    ensures
        r == word_pixel(w, d, x as int),
{
    let s = shift_of(d, x);
    proof {
        super::model::lemma_pixel_field(d, x as int);
    }
    (w >> s) & d.max_value()
}

/// Word `w` with pixel `x` replaced by `val`.
fn word_put(w: u32, d: PixelDepth, x: u32, val: u32) -> (r: u32)
    ensures
        r == word_set(w, d, x as int, val),
{
    let s = shift_of(d, x);
    proof {
        super::model::lemma_pixel_field(d, x as int);
        super::model::lemma_mask_facts(w, val, pmask(d), d.nbits(), s);
    }
    match d {
        PixelDepth::Bit1 => {
            proof {
                lemma_single_bit(w, s);
            }
            if val != 0 {
                w | (1u32 << s)
            } else {
                w & !(1u32 << s)
            }
        },
        PixelDepth::Bit32 => val,
        _ => {
            let m = d.max_value();
            (w & !(m << s)) | ((val & m) << s)
        },
    }
}

/// Index of the word holding pixel `x` in a row.
fn word_of(d: PixelDepth, x: u32) -> (i: usize)
    ensures
        i == x as int / ppw(d),
{
    proof {
        lemma_index_bits(x);
    }
    match d {
        PixelDepth::Bit1 => (x >> 5) as usize,
        PixelDepth::Bit2 => (x >> 4) as usize,
        PixelDepth::Bit4 => (x >> 3) as usize,
        PixelDepth::Bit8 => (x >> 2) as usize,
        PixelDepth::Bit16 => (x >> 1) as usize,
        PixelDepth::Bit32 => x as usize,
    }
}

/// Replaces pixel `x` of depth `d` in a row.
fn line_put(line: &mut [u32], x: u32, val: u32, d: PixelDepth)
    requires
        (x as int) / ppw(d) < old(line)@.len(),
    ensures
        final(line)@ == old(line)@.update(
            x as int / ppw(d),
            word_set(old(line)@[x as int / ppw(d)], d, x as int, val),
        ),
{
    let i = word_of(d, x);
    let w = line[i];
    line[i] = word_put(w, d, x, val);
}

// ---------------------------------------------------------------------------
// Public per-depth accessors
// ---------------------------------------------------------------------------

/// Get a 1-bit pixel value.
///
/// Pixels are packed MSB to LSB within each 32-bit word.
pub fn get_data_bit(line: &[u32], x: u32) -> (r: u32)
    requires
        x / 32 < line@.len(),
    ensures
        r == line_pixel(line@, x as int, PixelDepth::Bit1),
{
    word_get(line[word_of(PixelDepth::Bit1, x)], PixelDepth::Bit1, x)
}

/// Set a 1-bit pixel value: any nonzero `val` sets the bit.
pub fn set_data_bit(line: &mut [u32], x: u32, val: u32)
    requires
        x / 32 < old(line)@.len(),
    ensures
        final(line)@ == old(line)@.update(
            x as int / 32,
            word_set(old(line)@[x as int / 32], PixelDepth::Bit1, x as int, val),
        ),
{
    line_put(line, x, val, PixelDepth::Bit1);
}

/// Set a 1-bit pixel to 1.
pub fn set_data_bit_val(line: &mut [u32], x: u32)
    requires
        x / 32 < old(line)@.len(),
    ensures
        final(line)@ == old(line)@.update(
            x as int / 32,
            word_set(old(line)@[x as int / 32], PixelDepth::Bit1, x as int, 1),
        ),
{
    line_put(line, x, 1, PixelDepth::Bit1);
}

/// Clear a 1-bit pixel to 0.
pub fn clear_data_bit(line: &mut [u32], x: u32)
    requires
        x / 32 < old(line)@.len(),
    ensures
        final(line)@ == old(line)@.update(
            x as int / 32,
            word_set(old(line)@[x as int / 32], PixelDepth::Bit1, x as int, 0),
        ),
{
    line_put(line, x, 0, PixelDepth::Bit1);
}

/// Get a 2-bit pixel value.
pub fn get_data_dibit(line: &[u32], x: u32) -> (r: u32)
    requires
        x / 16 < line@.len(),
    ensures
        r == line_pixel(line@, x as int, PixelDepth::Bit2),
{
    word_get(line[word_of(PixelDepth::Bit2, x)], PixelDepth::Bit2, x)
}

/// Set a 2-bit pixel value (the low 2 bits of `val`).
pub fn set_data_dibit(line: &mut [u32], x: u32, val: u32)
    requires
        x / 16 < old(line)@.len(),
    ensures
        final(line)@ == old(line)@.update(
            x as int / 16,
            word_set(old(line)@[x as int / 16], PixelDepth::Bit2, x as int, val),
        ),
{
    line_put(line, x, val, PixelDepth::Bit2);
}

/// Get a 4-bit pixel value.
pub fn get_data_qbit(line: &[u32], x: u32) -> (r: u32)
    requires
        x / 8 < line@.len(),
    ensures
        r == line_pixel(line@, x as int, PixelDepth::Bit4),
{
    word_get(line[word_of(PixelDepth::Bit4, x)], PixelDepth::Bit4, x)
}

/// Set a 4-bit pixel value (the low 4 bits of `val`).
pub fn set_data_qbit(line: &mut [u32], x: u32, val: u32)
    requires
        x / 8 < old(line)@.len(),
    ensures
        final(line)@ == old(line)@.update(
            x as int / 8,
            word_set(old(line)@[x as int / 8], PixelDepth::Bit4, x as int, val),
        ),
{
    line_put(line, x, val, PixelDepth::Bit4);
}

/// Get an 8-bit pixel value.
pub fn get_data_byte(line: &[u32], x: u32) -> (r: u32)
    requires
        x / 4 < line@.len(),
    ensures
        r == line_pixel(line@, x as int, PixelDepth::Bit8),
{
    word_get(line[word_of(PixelDepth::Bit8, x)], PixelDepth::Bit8, x)
}

/// Set an 8-bit pixel value (the low byte of `val`).
pub fn set_data_byte(line: &mut [u32], x: u32, val: u32)
    requires
        x / 4 < old(line)@.len(),
    ensures
        final(line)@ == old(line)@.update(
            x as int / 4,
            word_set(old(line)@[x as int / 4], PixelDepth::Bit8, x as int, val),
        ),
{
    line_put(line, x, val, PixelDepth::Bit8);
}

/// Get a 16-bit pixel value.
pub fn get_data_two_bytes(line: &[u32], x: u32) -> (r: u32)
    requires
        x / 2 < line@.len(),
    ensures
        r == line_pixel(line@, x as int, PixelDepth::Bit16),
{
    word_get(line[word_of(PixelDepth::Bit16, x)], PixelDepth::Bit16, x)
}

/// Set a 16-bit pixel value (the low 16 bits of `val`).
pub fn set_data_two_bytes(line: &mut [u32], x: u32, val: u32)
    requires
        x / 2 < old(line)@.len(),
    ensures
        final(line)@ == old(line)@.update(
            x as int / 2,
            word_set(old(line)@[x as int / 2], PixelDepth::Bit16, x as int, val),
        ),
{
    line_put(line, x, val, PixelDepth::Bit16);
}

/// Get a pixel value of any depth from a row of words.
pub fn get_pixel_from_line(line: &[u32], x: u32, depth: PixelDepth) -> (r: u32)
    requires
        (x as int) / ppw(depth) < line@.len(),
    ensures
        r == line_pixel(line@, x as int, depth),
{
    word_get(line[word_of(depth, x)], depth, x)
}

/// Set a pixel value of any depth in a row of words.
pub fn set_pixel_in_line(line: &mut [u32], x: u32, val: u32, depth: PixelDepth)
    requires
        (x as int) / ppw(depth) < old(line)@.len(),
    ensures
        final(line)@ == old(line)@.update(
            x as int / ppw(depth),
            word_set(old(line)@[x as int / ppw(depth)], depth, x as int, val),
        ),
{
    line_put(line, x, val, depth);
}

// ---------------------------------------------------------------------------
// Pixel access on images
// ---------------------------------------------------------------------------

impl Pix {
    /// Get a pixel value at (x, y), or `None` if outside the image.
    pub fn get_pixel(&self, x: u32, y: u32) -> (r: Option<u32>)
        requires
            self@.wf(),
        ensures
            self@.contains(x as int, y as int) ==> r == Some(self@.pixel(x as int, y as int)),
            !self@.contains(x as int, y as int) ==> r is None,
    {
        if x >= self.width() || y >= self.height() {
            return None;
        }
        Some(self.get_pixel_unchecked(x, y))
    }

    /// Get a pixel value; the caller guarantees that (x, y) is inside.
    pub fn get_pixel_unchecked(&self, x: u32, y: u32) -> (r: u32)
        requires
            self@.wf(),
            self@.contains(x as int, y as int),
        ensures
            r == self@.pixel(x as int, y as int),
    {
        proof {
            self@.lemma_pixel_index(x as int, y as int);
        }
        let line = self.row_data(y);
        get_pixel_from_line(line, x, self.depth())
    }
}

impl PixMut {
    /// Get a pixel value at (x, y), or `None` if outside the image.
    pub fn get_pixel(&self, x: u32, y: u32) -> (r: Option<u32>)
        requires
            self@.wf(),
        ensures
            self@.contains(x as int, y as int) ==> r == Some(self@.pixel(x as int, y as int)),
            !self@.contains(x as int, y as int) ==> r is None,
    {
        if x >= self.width() || y >= self.height() {
            return None;
        }
        Some(self.get_pixel_unchecked(x, y))
    }

    /// Get a pixel value; the caller guarantees that (x, y) is inside.
    pub fn get_pixel_unchecked(&self, x: u32, y: u32) -> (r: u32)
        requires
            self@.wf(),
            self@.contains(x as int, y as int),
        ensures
            r == self@.pixel(x as int, y as int),
    {
        proof {
            self@.lemma_pixel_index(x as int, y as int);
        }
        let n = self.inner.data.len();
        let i = (y as usize) * (self.inner.wpl as usize) + word_of(self.inner.depth, x);
        word_get(self.inner.data[i], self.inner.depth, x)
    }

    /// Set a pixel value at (x, y).
    ///
    /// # Errors
    ///
    /// [`Error::IndexOutOfBounds`] if x or y is outside the image; the
    /// image is then unchanged.
    pub fn set_pixel(&mut self, x: u32, y: u32, val: u32) -> (r: Result<()>)
        requires
            old(self)@.wf(),
        ensures
            r is Ok <==> old(self)@.contains(x as int, y as int),
            r is Ok ==> final(self)@ == old(self)@.with_pixel(x as int, y as int, val),
            r is Err ==> final(self)@ == old(self)@,
            r matches Err(e) ==> e is IndexOutOfBounds,
            final(self)@.wf(),
            final(self)@.same_meta(old(self)@),
            r is Ok ==> final(self)@.pixel(x as int, y as int) == stored(old(self)@.depth, val),
            forall|x2: int, y2: int|
                #![trigger final(self)@.pixel(x2, y2)]
                old(self)@.contains(x2, y2) && !(x2 == x && y2 == y) ==> final(self)@.pixel(x2, y2)
                    == old(self)@.pixel(x2, y2),
    {
        let width = self.width();
        let height = self.height();
        if x >= width {
            return Err(Error::IndexOutOfBounds { index: x as usize, len: width as usize });
        }
        if y >= height {
            return Err(Error::IndexOutOfBounds { index: y as usize, len: height as usize });
        }
        self.set_pixel_unchecked(x, y, val);
        Ok(())
    }

    /// Set a pixel value; the caller guarantees that (x, y) is inside.
    ///
    /// The stored value is `val` masked to the depth (at 1 bpp, any nonzero
    /// value stores 1); every other pixel keeps its value.
    pub fn set_pixel_unchecked(&mut self, x: u32, y: u32, val: u32)
        requires
            old(self)@.wf(),
            old(self)@.contains(x as int, y as int),
        ensures
            final(self)@ == old(self)@.with_pixel(x as int, y as int, val),
            final(self)@.wf(),
            final(self)@.same_meta(old(self)@),
            final(self)@.pixel(x as int, y as int) == stored(old(self)@.depth, val),
            forall|x2: int, y2: int|
                #![trigger final(self)@.pixel(x2, y2)]
                old(self)@.contains(x2, y2) && !(x2 == x && y2 == y) ==> final(self)@.pixel(x2, y2)
                    == old(self)@.pixel(x2, y2),
    {
        proof {
            self@.lemma_pixel_index(x as int, y as int);
            self@.lemma_with_pixel(x as int, y as int, val);
        }
        let n = self.inner.data.len();
        let i = (y as usize) * (self.inner.wpl as usize) + word_of(self.inner.depth, x);
        let w = self.inner.data[i];
        let nw = word_put(w, self.inner.depth, x, val);
        self.inner.data[i] = nw;
    }

    /// Set an RGB pixel at (x, y); the alpha byte becomes 0.
    ///
    /// # Errors
    ///
    /// [`Error::IncompatibleDepths`] unless the image is 32 bpp;
    /// [`Error::IndexOutOfBounds`] if (x, y) is outside the image.
    pub fn set_rgb(&mut self, x: u32, y: u32, r: u8, g: u8, b: u8) -> (res: Result<()>)
        requires
            old(self)@.wf(),
        ensures
            res is Ok <==> (old(self)@.depth == PixelDepth::Bit32 && old(self)@.contains(
                x as int,
                y as int,
            )),
            res is Ok ==> final(self)@ == old(self)@.with_pixel(
                x as int,
                y as int,
                rgba_word(r, g, b, 0),
            ),
            res is Err ==> final(self)@ == old(self)@,
            old(self)@.depth != PixelDepth::Bit32 ==> (res matches Err(e) && e is IncompatibleDepths),
            final(self)@.wf(),
    {
        if self.depth() != PixelDepth::Bit32 {
            return Err(Error::IncompatibleDepths(self.depth().bits(), 32));
        }
        let pixel = compose_rgb(r, g, b);
        self.set_pixel(x, y, pixel)
    }

    /// Set an RGBA pixel at (x, y).
    ///
    /// Does not change `spp`; set it to 4 with [`PixMut::set_spp`] when
    /// writing alpha data.
    ///
    /// # Errors
    ///
    /// [`Error::IncompatibleDepths`] unless the image is 32 bpp;
    /// [`Error::IndexOutOfBounds`] if (x, y) is outside the image.
    pub fn set_rgba(&mut self, x: u32, y: u32, r: u8, g: u8, b: u8, a: u8) -> (res: Result<()>)
        requires
            old(self)@.wf(),
        ensures
            res is Ok <==> (old(self)@.depth == PixelDepth::Bit32 && old(self)@.contains(
                x as int,
                y as int,
            )),
            res is Ok ==> final(self)@ == old(self)@.with_pixel(
                x as int,
                y as int,
                rgba_word(r, g, b, a),
            ),
            res is Err ==> final(self)@ == old(self)@,
            old(self)@.depth != PixelDepth::Bit32 ==> (res matches Err(e) && e is IncompatibleDepths),
            final(self)@.wf(),
    {
        if self.depth() != PixelDepth::Bit32 {
            return Err(Error::IncompatibleDepths(self.depth().bits(), 32));
        }
        let pixel = compose_rgba(r, g, b, a);
        self.set_pixel(x, y, pixel)
    }
}

impl Pix {
    /// Get the RGB values at (x, y) of a 32 bpp image.
    pub fn get_rgb(&self, x: u32, y: u32) -> (r: Option<(u8, u8, u8)>)
        requires
            self@.wf(),
        ensures
            r is Some <==> (self@.depth == PixelDepth::Bit32 && self@.contains(x as int, y as int)),
            r matches Some(c) ==> c == (
                red_of(self@.pixel(x as int, y as int)),
                green_of(self@.pixel(x as int, y as int)),
                blue_of(self@.pixel(x as int, y as int)),
            ),
    {
        if self.depth() != PixelDepth::Bit32 {
            return None;
        }
        match self.get_pixel(x, y) {
            Some(p) => Some(extract_rgb(p)),
            None => None,
        }
    }

    /// Get the RGBA values at (x, y) of a 32 bpp image.
    pub fn get_rgba(&self, x: u32, y: u32) -> (r: Option<(u8, u8, u8, u8)>)
        requires
            self@.wf(),
        ensures
            r is Some <==> (self@.depth == PixelDepth::Bit32 && self@.contains(x as int, y as int)),
            r matches Some(c) ==> c == (
                red_of(self@.pixel(x as int, y as int)),
                green_of(self@.pixel(x as int, y as int)),
                blue_of(self@.pixel(x as int, y as int)),
                alpha_of(self@.pixel(x as int, y as int)),
            ),
    {
        if self.depth() != PixelDepth::Bit32 {
            return None;
        }
        match self.get_pixel(x, y) {
            Some(p) => Some(extract_rgba(p)),
            None => None,
        }
    }
}

/// Reading back a pixel just written gives the stored value, and every
/// other pixel keeps its value.
pub proof fn law_set_then_get(p: PixModel, x: int, y: int, v: u32, x2: int, y2: int)
    requires
        p.wf(),
        p.contains(x, y),
        p.contains(x2, y2),
    ensures
        p.with_pixel(x, y, v).wf(),
        p.with_pixel(x, y, v).pixel(x2, y2) == if x2 == x && y2 == y {
            stored(p.depth, v)
        } else {
            p.pixel(x2, y2)
        },
{
    p.lemma_with_pixel(x, y, v);
}

/// Writing a pixel twice keeps only the last value.
pub proof fn law_set_set(p: PixModel, x: int, y: int, v1: u32, v2: u32)
    requires
        p.wf(),
        p.contains(x, y),
    ensures
        p.with_pixel(x, y, v1).with_pixel(x, y, v2).same_pixels(p.with_pixel(x, y, v2)),
{
    let p1 = p.with_pixel(x, y, v1);
    p.lemma_with_pixel(x, y, v1);
    p1.lemma_with_pixel(x, y, v2);
    p.lemma_with_pixel(x, y, v2);
}

/// Writing back the value a pixel already holds changes no pixel.
pub proof fn law_set_own_value(p: PixModel, x: int, y: int)
    requires
        p.wf(),
        p.contains(x, y),
    ensures
        p.with_pixel(x, y, p.pixel(x, y)).same_pixels(p),
{
    p.lemma_with_pixel(x, y, p.pixel(x, y));
    super::raster::lemma_stored_pixel(p, x, y);
}

} // verus!
