//! Image raster operations (logical operations)
//!
//! Pixel-wise logical operations between two images of the same size and
//! depth (AND, OR, XOR and the other binary raster operations), inversion,
//! and clearing or setting rectangular regions.
//!
//! At 32 bpp the binary operations act on the red, green and blue channels
//! separately and leave the alpha byte 0; inversion keeps the alpha byte.

use vstd::prelude::*;
use super::{Pix, PixMut, PixelDepth};
use super::model::{PixModel, pmask, pshift, word_pixel, stored, field_mask, new_ok};
use super::raster::{zip_new, zip_into, fill_block, in_block, lemma_stored_pixel, lemma_stored_small, shift_block, shifted_pixel};
use crate::color::{self, rgba_word, red_of, green_of, blue_of, alpha_of};
use crate::error::{Error, Result};

verus! {

/// A raster word after inversion at depth `d`: every bit flipped,
/// padding included, except that at 32 bpp the alpha byte is kept.
pub open spec fn inverted_word(d: PixelDepth, w: u32) -> u32 {
    if d == PixelDepth::Bit32 {
        (!w & 0xFFFFFF00u32) | (w & 0xFFu32)
    } else {
        !w
    }
}

/// `r` holds the words of `p`, each inverted.
pub open spec fn words_inverted(r: PixModel, p: PixModel) -> bool {
    r.data == p.data.map_values(|w: u32| inverted_word(p.depth, w))
}

/// Color to fill when shifting or translating image regions.
#[derive(Debug, Clone, Copy, PartialEq, Eq, Structural)]
pub enum InColor {
    /// Fill exposed areas with white (max pixel value)
    White,
    /// Fill exposed areas with black (zero pixel value)
    Black,
}

/// Raster operation type
#[derive(Debug, Clone, Copy, PartialEq, Eq, Structural)]
pub enum RopOp {
    /// Clear: d = 0
    Clear,
    /// Set: d = 1 (all bits set)
    SetAll,
    /// Copy source: d = s
    Src,
    /// Invert destination: d = ~d
    NotDst,
    /// Invert source: d = ~s
    NotSrc,
    /// AND: d = s & d
    And,
    /// OR: d = s | d
    Or,
    /// XOR: d = s ^ d
    Xor,
    /// NAND: d = ~(s & d)
    Nand,
    /// NOR: d = ~(s | d)
    Nor,
    /// XNOR: d = ~(s ^ d)
    Xnor,
    /// AND with inverted source: d = ~s & d
    AndNotSrc,
    /// AND with inverted dest: d = s & ~d
    AndNotDst,
    /// OR with inverted source: d = ~s | d
    OrNotSrc,
    /// OR with inverted dest: d = s | ~d
    OrNotDst,
}

/// Whether `op` reads a source image.
pub open spec fn needs_source(op: RopOp) -> bool {
    !(op is Clear || op is SetAll || op is NotDst)
}

impl RopOp {
    /// Check if this operation requires a source image
    pub fn requires_source(self) -> (r: bool)
        ensures
            r == needs_source(self),
    {
        !matches!(self, RopOp::Clear | RopOp::SetAll | RopOp::NotDst)
    }
}

/// The result of `op` on a destination value `d` and a source value `s`
/// of a field whose all-ones value is `m`; "not" is `m` minus the value.
pub open spec fn rop_value(d: u32, s: u32, op: RopOp, m: u32) -> u32 {
    match op {
        RopOp::Clear => 0,
        RopOp::SetAll => m,
        RopOp::Src => s,
        RopOp::NotDst => (m - d) as u32,
        RopOp::NotSrc => (m - s) as u32,
        RopOp::And => s & d,
        RopOp::Or => s | d,
        RopOp::Xor => s ^ d,
        RopOp::Nand => (m - (s & d)) as u32,
        RopOp::Nor => (m - (s | d)) as u32,
        RopOp::Xnor => (m - (s ^ d)) as u32,
        RopOp::AndNotSrc => ((m - s) as u32) & d,
        RopOp::AndNotDst => s & ((m - d) as u32),
        RopOp::OrNotSrc => ((m - s) as u32) | d,
        RopOp::OrNotDst => s | ((m - d) as u32),
    }
}

/// The result of a binary `op` on two 32 bpp pixels: each color channel
/// is combined on its own, and the alpha byte is 0.
pub open spec fn rgb_rop(d: u32, s: u32, op: RopOp) -> u32 {
    rgba_word(
        rop_value(red_of(d) as u32, red_of(s) as u32, op, 255) as u8,
        rop_value(green_of(d) as u32, green_of(s) as u32, op, 255) as u8,
        rop_value(blue_of(d) as u32, blue_of(s) as u32, op, 255) as u8,
        0,
    )
}

/// The pixel that a binary `op` gives at depth `depth`.
pub open spec fn binary_pixel(op: RopOp, depth: PixelDepth, d: u32, s: u32) -> u32 {
    if depth == PixelDepth::Bit32 {
        rgb_rop(d, s, op)
    } else {
        rop_value(d, s, op, pmask(depth))
    }
}

/// A 32 bpp pixel with its color channels inverted and its alpha kept.
pub open spec fn invert_rgb(v: u32) -> u32 {
    rgba_word(
        (255 - red_of(v)) as u8,
        (255 - green_of(v)) as u8,
        (255 - blue_of(v)) as u8,
        alpha_of(v),
    )
}

/// The pixel that a unary `op` (one that reads no source) gives.
pub open spec fn unary_pixel(op: RopOp, depth: PixelDepth, v: u32) -> u32 {
    match op {
        RopOp::Clear => 0,
        RopOp::SetAll => pmask(depth),
        _ => if depth == PixelDepth::Bit32 {
            invert_rgb(v)
        } else {
            (pmask(depth) - v) as u32
        },
    }
}

/// The pixel that `op` gives from destination `d` and source `s`.
pub open spec fn rop_pixel(op: RopOp, depth: PixelDepth, d: u32, s: u32) -> u32 {
    if needs_source(op) {
        binary_pixel(op, depth, d, s)
    } else {
        unary_pixel(op, depth, d)
    }
}

/// `r` has the size and depth of `p`, and each pixel is `op` applied to
/// the pixels of `p` and `q` at the same place.
pub open spec fn rop_result(r: PixModel, p: PixModel, q: PixModel, op: RopOp) -> bool {
    &&& r.wf()
    &&& r.same_geometry(p)
    &&& forall|x: int, y: int|
        r.contains(x, y) ==> #[trigger] r.pixel(x, y) == rop_pixel(
            op,
            p.depth,
            p.pixel(x, y),
            q.pixel(x, y),
        )
}

/// The error that a binary operation reports for two images, if any.
pub open spec fn rop_mismatch(p: PixModel, q: PixModel) -> Option<Error> {
    if p.width != q.width || p.height != q.height {
        Some(Error::DimensionMismatch { expected: (p.width, p.height), actual: (q.width, q.height) })
    } else if p.depth != q.depth {
        Some(Error::IncompatibleDepths(p.depth.nbits(), q.depth.nbits()))
    } else {
        None
    }
}

/// Field masks narrower than a word.
spec fn small_mask(m: u32) -> bool {
    m == 1 || m == 3 || m == 15 || m == 255 || m == 0xffff
}

proof fn lemma_small_mask(m: u32) -> (d: u32)
    requires
        small_mask(m),
    ensures
        field_mask(m, d),
{
    if m == 1 {
        1
    } else if m == 3 {
        2
    } else if m == 15 {
        4
    } else if m == 255 {
        8
    } else {
        16
    }
}

/// Bit `k` (from the least significant end) of bitwise combinations.
proof fn lemma_bit_ops(a: u32, b: u32, k: u32)
    requires
        k < 32,
    ensures
        ((a & b) >> k) & 1 == ((a >> k) & 1) & ((b >> k) & 1),
        ((a | b) >> k) & 1 == ((a >> k) & 1) | ((b >> k) & 1),
        ((a ^ b) >> k) & 1 == ((a >> k) & 1) ^ ((b >> k) & 1),
        ((!a) >> k) & 1 == 1 - ((a >> k) & 1),
        (0u32 >> k) & 1 == 0,
        (0xffff_ffffu32 >> k) & 1 == 1,
        (a >> k) & 1 <= 1,
{
    assert({
        &&& ((a & b) >> k) & 1 == ((a >> k) & 1) & ((b >> k) & 1)
        &&& ((a | b) >> k) & 1 == ((a >> k) & 1) | ((b >> k) & 1)
        &&& ((a ^ b) >> k) & 1 == ((a >> k) & 1) ^ ((b >> k) & 1)
        &&& ((!a) >> k) & 1 == 1 - ((a >> k) & 1)
        &&& (0u32 >> k) & 1 == 0
        &&& (0xffff_ffffu32 >> k) & 1 == 1
        &&& (a >> k) & 1 <= 1
    }) by (bit_vector)
        requires
            k < 32,
    ;
}

/// Inverting the color bytes of a word and keeping its low byte.
proof fn lemma_invert_rgb_bits(w: u32)
    ensures
        (!w & 0xFFFFFF00u32) | (w & 0xFFu32) == invert_rgb(w),
{
    let v: u32 = (!w & 0xFFFFFF00u32) | (w & 0xFFu32);
    assert(v == (255 - w / 0x1000000) * 0x1000000 + (255 - (w / 0x10000) % 0x100) * 0x10000 + (255
        - (w / 0x100) % 0x100) * 0x100 + w % 0x100) by (bit_vector)
        requires
            v == (!w & 0xFFFFFF00u32) | (w & 0xFFu32),
    ;
}

/// Apply a raster operation to a 32-bit word of a 1 bpp image: each of
/// its 32 pixels gets `op` of the pixels of `d` and `s` at its place.
fn apply_rop_word(d: u32, s: u32, op: RopOp) -> (r: u32)
    ensures
        forall|x: int|
            0 <= x < 32 ==> #[trigger] word_pixel(r, PixelDepth::Bit1, x) == rop_value(
                word_pixel(d, PixelDepth::Bit1, x),
                word_pixel(s, PixelDepth::Bit1, x),
                op,
                1,
            ),
{
    let r = match op {
        RopOp::Clear => 0,
        RopOp::SetAll => 0xFFFFFFFF,
        RopOp::Src => s,
        RopOp::NotDst => !d,
        RopOp::NotSrc => !s,
        RopOp::And => s & d,
        RopOp::Or => s | d,
        RopOp::Xor => s ^ d,
        RopOp::Nand => !(s & d),
        RopOp::Nor => !(s | d),
        RopOp::Xnor => !(s ^ d),
        RopOp::AndNotSrc => !s & d,
        RopOp::AndNotDst => s & !d,
        RopOp::OrNotSrc => !s | d,
        RopOp::OrNotDst => s | !d,
    };
    proof {
        assert forall|x: int| 0 <= x < 32 implies #[trigger] word_pixel(r, PixelDepth::Bit1, x)
            == rop_value(
            word_pixel(d, PixelDepth::Bit1, x),
            word_pixel(s, PixelDepth::Bit1, x),
            op,
            1,
        ) by {
            let k = pshift(PixelDepth::Bit1, x);
            super::model::lemma_pshift(PixelDepth::Bit1, x);
            assert(k < 32);
            let bd = word_pixel(d, PixelDepth::Bit1, x);
            let bs = word_pixel(s, PixelDepth::Bit1, x);
            assert(bd == (d >> k) & 1);
            lemma_bit_ops(s, d, k);
            lemma_bit_ops(d, s, k);
            lemma_bit_ops(!s, d, k);
            lemma_bit_ops(s, !d, k);
            lemma_bit_ops(s & d, d, k);
            lemma_bit_ops(s | d, d, k);
            lemma_bit_ops(s ^ d, d, k);
            match op {
                RopOp::Clear => {},
                RopOp::SetAll => {},
                RopOp::Src => {},
                RopOp::NotDst => {},
                RopOp::NotSrc => {},
                RopOp::And => {},
                RopOp::Or => {},
                RopOp::Xor => {},
                RopOp::Nand => {},
                RopOp::Nor => {},
                RopOp::Xnor => {},
                RopOp::AndNotSrc => {},
                RopOp::AndNotDst => {},
                RopOp::OrNotSrc => {},
                RopOp::OrNotDst => {},
            }
        }
    }
    r
}

/// Apply a raster operation to two field values whose all-ones value is
/// `max_val`.
fn apply_rop_value(d: u32, s: u32, op: RopOp, max_val: u32) -> (r: u32)
    requires
        small_mask(max_val),
        d <= max_val,
        s <= max_val,
    ensures
        r == rop_value(d, s, op, max_val),
        r <= max_val,
{
    proof {
        let k = lemma_small_mask(max_val);
        super::model::lemma_field_ops(s, d, max_val, k);
        super::model::lemma_field_ops((max_val - s) as u32, d, max_val, k);
        super::model::lemma_field_ops(s, (max_val - d) as u32, max_val, k);
    }
    match op {
        RopOp::Clear => 0,
        RopOp::SetAll => max_val,
        RopOp::Src => s,
        RopOp::NotDst => max_val - d,
        RopOp::NotSrc => max_val - s,
        RopOp::And => s & d,
        RopOp::Or => s | d,
        RopOp::Xor => s ^ d,
        RopOp::Nand => max_val - (s & d),
        RopOp::Nor => max_val - (s | d),
        RopOp::Xnor => max_val - (s ^ d),
        RopOp::AndNotSrc => (max_val - s) & d,
        RopOp::AndNotDst => s & (max_val - d),
        RopOp::OrNotSrc => (max_val - s) | d,
        RopOp::OrNotDst => s | (max_val - d),
    }
}

/// A binary raster operation on two 32 bpp pixels, channel by channel.
fn apply_rop_rgb(d_pixel: u32, s_pixel: u32, op: RopOp) -> (r: u32)
    ensures
        r == rgb_rop(d_pixel, s_pixel, op),
{
    let (dr, dg, db) = color::extract_rgb(d_pixel);
    let (sr, sg, sb) = color::extract_rgb(s_pixel);
    let rr = apply_rop_value(dr as u32, sr as u32, op, 255) as u8;
    let rg = apply_rop_value(dg as u32, sg as u32, op, 255) as u8;
    let rb = apply_rop_value(db as u32, sb as u32, op, 255) as u8;
    color::compose_rgb(rr, rg, rb)
}

/// A binary raster operation on two pixels of depth `depth`.
fn apply_rop_pixel(d: u32, s: u32, op: RopOp, depth: PixelDepth) -> (r: u32)
    requires
        depth != PixelDepth::Bit1,
        d <= pmask(depth),
        s <= pmask(depth),
    ensures
        r == binary_pixel(op, depth, d, s),
        r <= pmask(depth),
{
    if depth == PixelDepth::Bit32 {
        apply_rop_rgb(d, s, op)
    } else {
        apply_rop_value(d, s, op, depth.max_value())
    }
}

impl PixModel {
    /// Giving an image of the size of two 1 bpp images `self` and `q` the
    /// words `out`, each `apply_rop_word` of their words, gives it the
    /// pixels of the operation.
    proof fn lemma_rop_words(self, q: PixModel, base: PixModel, out: Seq<u32>, op: RopOp)
        requires
            self.wf(),
            q.wf(),
            base.wf(),
            self.depth == PixelDepth::Bit1,
            q.same_geometry(self),
            base.same_geometry(self),
            out.len() == self.data.len(),
            forall|i: int, x: int|
                0 <= i < out.len() && 0 <= x < 32 ==> #[trigger] word_pixel(out[i], PixelDepth::Bit1, x)
                        == rop_value(
                        word_pixel(self.data[i], PixelDepth::Bit1, x),
                        word_pixel(q.data[i], PixelDepth::Bit1, x),
                        op,
                        1,
                    ),
        ensures
            (PixModel { data: out, ..base }).wf(),
            (PixModel { data: out, ..base }).same_meta(base),
            rop_result(PixModel { data: out, ..base }, self, q, op),
    {
        let r = PixModel { data: out, ..base };
        assert forall|x: int, y: int| r.contains(x, y) implies #[trigger] r.pixel(x, y)
            == rop_pixel(op, self.depth, self.pixel(x, y), q.pixel(x, y)) by {
            self.lemma_pixel_index(x, y);
            let i = self.word_index(x, y);
            let k = x % 32;
            assert(word_pixel(out[i], PixelDepth::Bit1, k) == word_pixel(out[i], PixelDepth::Bit1, x));
            assert(word_pixel(self.data[i], PixelDepth::Bit1, k) == word_pixel(self.data[i], PixelDepth::Bit1, x));
            assert(word_pixel(q.data[i], PixelDepth::Bit1, k) == word_pixel(q.data[i], PixelDepth::Bit1, x));
            if !needs_source(op) {
                lemma_stored_pixel(self, x, y);
            }
        }
    }
}

/// The words of `a` and `b`, combined word by word with `op`.
fn rop_words(a: &[u32], b: &[u32], op: RopOp) -> (r: Vec<u32>)
    requires
        a@.len() == b@.len(),
    ensures
        r@.len() == a@.len(),
        forall|i: int, x: int|
            0 <= i < r@.len() && 0 <= x < 32 ==> #[trigger] word_pixel(r@[i], PixelDepth::Bit1, x) == rop_value(
                    word_pixel(a@[i], PixelDepth::Bit1, x),
                    word_pixel(b@[i], PixelDepth::Bit1, x),
                    op,
                    1,
                ),
{
    let n = a.len();
    let mut r: Vec<u32> = Vec::with_capacity(n);
    let mut i: usize = 0;
    while i < n
        invariant
            n == a@.len(),
            a@.len() == b@.len(),
            i <= n,
            r@.len() == i,
            forall|j: int, x: int|
                0 <= j < i && 0 <= x < 32 ==> #[trigger] word_pixel(r@[j], PixelDepth::Bit1, x) == rop_value(
                        word_pixel(a@[j], PixelDepth::Bit1, x),
                        word_pixel(b@[j], PixelDepth::Bit1, x),
                        op,
                        1,
                    ),
        decreases n - i,
    {
        r.push(apply_rop_word(a[i], b[i], op));
        i = i + 1;
    }
    r
}

impl Pix {
    /// Perform AND operation with another image.
    ///
    /// Returns a new image where each pixel is the bitwise AND of
    /// the corresponding pixels in self and other.
    ///
    /// # Errors
    ///
    /// Returns error if images have different dimensions or depths.
    pub fn and(&self, other: &Pix) -> (r: Result<Pix>)
        requires
            self@.wf(),
            other@.wf(),
        ensures
            r is Ok <==> rop_mismatch(self@, other@) is None,
            r matches Ok(p) ==> p@.fresh_meta(self@.width, self@.height, self@.depth) && rop_result(
                p@,
                self@,
                other@,
                RopOp::And,
            ),
            r matches Err(e) ==> rop_mismatch(self@, other@) == Some(e),
    {
        self.rop(other, RopOp::And)
    }

    /// Perform OR operation with another image.
    ///
    /// # Errors
    ///
    /// Returns error if images have different dimensions or depths.
    pub fn or(&self, other: &Pix) -> (r: Result<Pix>)
        requires
            self@.wf(),
            other@.wf(),
        ensures
            r is Ok <==> rop_mismatch(self@, other@) is None,
            r matches Ok(p) ==> p@.fresh_meta(self@.width, self@.height, self@.depth) && rop_result(
                p@,
                self@,
                other@,
                RopOp::Or,
            ),
            r matches Err(e) ==> rop_mismatch(self@, other@) == Some(e),
    {
        self.rop(other, RopOp::Or)
    }

    /// Perform XOR operation with another image.
    ///
    /// # Errors
    ///
    /// Returns error if images have different dimensions or depths.
    pub fn xor(&self, other: &Pix) -> (r: Result<Pix>)
        requires
            self@.wf(),
            other@.wf(),
        ensures
            r is Ok <==> rop_mismatch(self@, other@) is None,
            r matches Ok(p) ==> p@.fresh_meta(self@.width, self@.height, self@.depth) && rop_result(
                p@,
                self@,
                other@,
                RopOp::Xor,
            ),
            r matches Err(e) ==> rop_mismatch(self@, other@) == Some(e),
    {
        self.rop(other, RopOp::Xor)
    }

    /// Invert all pixels in the image.
    ///
    /// For binary images, foreground becomes background and vice versa.
    /// For grayscale, each pixel value v becomes (max_value - v).
    /// For RGB, each channel is inverted independently.
    pub fn invert(&self) -> (r: Pix)
        requires
            self@.wf(),
        ensures
            r@.same_meta(self@),
            rop_result(r@, self@, self@, RopOp::NotDst),
            words_inverted(r@, self@),
    {
        let mut m = self.to_mut();
        m.invert_inplace();
        m.into_pix()
    }

    /// Apply a general raster operation with another image.
    ///
    /// Operations that read no source (`Clear`, `Set`, `NotDst`) act on a
    /// copy of this image, metadata included, and ignore `other`.
    ///
    /// # Errors
    ///
    /// Returns error if:
    /// - Images have different dimensions (for binary operations)
    /// - Images have different depths (for binary operations)
    pub fn rop(&self, other: &Pix, op: RopOp) -> (r: Result<Pix>)
        requires
            self@.wf(),
            other@.wf(),
        ensures
            !needs_source(op) ==> (r matches Ok(p) && p@.same_meta(self@) && rop_result(
                p@,
                self@,
                other@,
                op,
            )),
            needs_source(op) ==> (r is Ok <==> rop_mismatch(self@, other@) is None),
            needs_source(op) ==> (r matches Ok(p) ==> p@.fresh_meta(
                self@.width,
                self@.height,
                self@.depth,
            ) && rop_result(p@, self@, other@, op)),
            r matches Err(e) ==> rop_mismatch(self@, other@) == Some(e),
    {
        if !op.requires_source() {
            let mut m = self.to_mut();
            m.rop_unary_inplace(op);
            return Ok(m.into_pix());
        }
        if self.width() != other.width() || self.height() != other.height() {
            return Err(
                Error::DimensionMismatch {
                    expected: (self.width(), self.height()),
                    actual: (other.width(), other.height()),
                },
            );
        }
        if self.depth() != other.depth() {
            return Err(Error::IncompatibleDepths(self.depth().bits(), other.depth().bits()));
        }
        match self.depth() {
            PixelDepth::Bit1 => self.rop_binary(other, op),
            _ => self.rop_generic(other, op),
        }
    }

    /// Binary image raster operation (1-bit, word at a time)
    fn rop_binary(&self, other: &Pix, op: RopOp) -> (r: Result<Pix>)
        requires
            self@.wf(),
            other@.wf(),
            self@.depth == PixelDepth::Bit1,
            other@.same_geometry(self@),
        ensures
            r matches Ok(p) && p@.fresh_meta(self@.width, self@.height, self@.depth)
                && rop_result(p@, self@, other@, op),
    {
        proof {
            self@.lemma_new_ok();
        }
        let mut m = match PixMut::new(self.width(), self.height(), PixelDepth::Bit1) {
            Ok(m) => m,
            Err(e) => {
                return Err(e);
            },
        };
        let words = rop_words(self.data(), other.data(), op);
        let ghost m0 = m@;
        m.replace_data(words);
        proof {
            self@.lemma_rop_words(other@, m0, words@, op);
        }
        Ok(m.into_pix())
    }

    /// Raster operation at depths other than 1, pixel by pixel
    fn rop_generic(&self, other: &Pix, op: RopOp) -> (r: Result<Pix>)
        requires
            self@.wf(),
            other@.wf(),
            self@.depth != PixelDepth::Bit1,
            other@.same_geometry(self@),
            needs_source(op),
        ensures
            r matches Ok(p) && p@.fresh_meta(self@.width, self@.height, self@.depth)
                && rop_result(p@, self@, other@, op),
    {
        let depth = self.depth();
        proof {
            self@.lemma_new_ok();
        }
        let f = |d: u32, s: u32| -> (o: u32)
            requires
                d <= pmask(depth),
                s <= pmask(depth),
            ensures
                o == binary_pixel(op, depth, d, s),
            { apply_rop_pixel(d, s, op, depth) };
        let m = match zip_new(self, other, depth, f, Ghost(|d: u32, s: u32| binary_pixel(op, depth, d, s))) {
            Ok(m) => m,
            Err(e) => {
                return Err(e);
            },
        };
        proof {
            assert forall|x: int, y: int| m@.contains(x, y) implies #[trigger] m@.pixel(x, y)
                == rop_pixel(op, self@.depth, self@.pixel(x, y), other@.pixel(x, y)) by {
                lemma_stored_pixel(self@, x, y);
                lemma_stored_pixel(other@, x, y);
                lemma_binary_pixel_small(op, depth, self@.pixel(x, y), other@.pixel(x, y));
            }
        }
        Ok(m.into_pix())
    }
}

/// A binary operation on two field values of a depth other than 1 gives a
/// value that is stored unchanged.
proof fn lemma_binary_pixel_small(op: RopOp, depth: PixelDepth, d: u32, s: u32)
    requires
        depth != PixelDepth::Bit1,
        d <= pmask(depth),
        s <= pmask(depth),
    ensures
        stored(depth, binary_pixel(op, depth, d, s)) == binary_pixel(op, depth, d, s),
{
    if depth == PixelDepth::Bit32 {
        lemma_stored_small(depth, binary_pixel(op, depth, d, s));
    } else {
        let m = pmask(depth);
        let k = lemma_small_mask(m);
        super::model::lemma_field_ops(s, d, m, k);
        super::model::lemma_field_ops((m - s) as u32, d, m, k);
        super::model::lemma_field_ops(s, (m - d) as u32, m, k);
        lemma_stored_small(depth, binary_pixel(op, depth, d, s));
    }
}

impl PixMut {
    /// In-place AND operation with another image.
    ///
    /// # Errors
    ///
    /// Returns error if images have different dimensions or depths; the
    /// image is then unchanged.
    pub fn and_inplace(&mut self, other: &Pix) -> (r: Result<()>)
        requires
            old(self)@.wf(),
            other@.wf(),
        ensures
            r is Ok <==> rop_mismatch(old(self)@, other@) is None,
            r is Ok ==> final(self)@.same_meta(old(self)@) && rop_result(
                final(self)@,
                old(self)@,
                other@,
                RopOp::And,
            ),
            r matches Err(e) ==> rop_mismatch(old(self)@, other@) == Some(e) && final(self)@ == old(
                self,
            )@,
    {
        self.rop_inplace(other, RopOp::And)
    }

    /// In-place OR operation with another image.
    ///
    /// # Errors
    ///
    /// Returns error if images have different dimensions or depths; the
    /// image is then unchanged.
    pub fn or_inplace(&mut self, other: &Pix) -> (r: Result<()>)
        requires
            old(self)@.wf(),
            other@.wf(),
        ensures
            r is Ok <==> rop_mismatch(old(self)@, other@) is None,
            r is Ok ==> final(self)@.same_meta(old(self)@) && rop_result(
                final(self)@,
                old(self)@,
                other@,
                RopOp::Or,
            ),
            r matches Err(e) ==> rop_mismatch(old(self)@, other@) == Some(e) && final(self)@ == old(
                self,
            )@,
    {
        self.rop_inplace(other, RopOp::Or)
    }

    /// In-place XOR operation with another image.
    ///
    /// # Errors
    ///
    /// Returns error if images have different dimensions or depths; the
    /// image is then unchanged.
    pub fn xor_inplace(&mut self, other: &Pix) -> (r: Result<()>)
        requires
            old(self)@.wf(),
            other@.wf(),
        ensures
            r is Ok <==> rop_mismatch(old(self)@, other@) is None,
            r is Ok ==> final(self)@.same_meta(old(self)@) && rop_result(
                final(self)@,
                old(self)@,
                other@,
                RopOp::Xor,
            ),
            r matches Err(e) ==> rop_mismatch(old(self)@, other@) == Some(e) && final(self)@ == old(
                self,
            )@,
    {
        self.rop_inplace(other, RopOp::Xor)
    }

    /// Invert all pixels in place.
    ///
    /// For binary images, foreground becomes background and vice versa.
    /// For grayscale, each pixel value v becomes (max_value - v).
    /// For RGB, each channel is inverted independently.
    pub fn invert_inplace(&mut self)
        requires
            old(self)@.wf(),
        ensures
            final(self)@.same_meta(old(self)@),
            rop_result(final(self)@, old(self)@, old(self)@, RopOp::NotDst),
            words_inverted(final(self)@, old(self)@),
    {
        self.rop_unary_inplace(RopOp::NotDst);
    }

    /// Apply a unary raster operation in place (Clear, Set, NotDst)
    fn rop_unary_inplace(&mut self, op: RopOp)
        requires
            old(self)@.wf(),
            !needs_source(op),
        ensures
            final(self)@.same_meta(old(self)@),
            final(self)@.wf(),
            forall|x: int, y: int|
                old(self)@.contains(x, y) ==> #[trigger] final(self)@.pixel(x, y) == unary_pixel(
                    op,
                    old(self)@.depth,
                    old(self)@.pixel(x, y),
                ),
            op == RopOp::NotDst ==> words_inverted(final(self)@, old(self)@),
    {
        match op {
            RopOp::Clear => {
                self.clear();
            },
            RopOp::SetAll => {
                self.set_all();
            },
            _ => {
                self.invert_words();
            },
        }
    }

    /// Inverts every pixel by inverting the data words; at 32 bpp the
    /// alpha byte is kept.
    fn invert_words(&mut self)
        requires
            old(self)@.wf(),
        ensures
            final(self)@.same_meta(old(self)@),
            final(self)@.wf(),
            forall|x: int, y: int|
                old(self)@.contains(x, y) ==> #[trigger] final(self)@.pixel(x, y) == unary_pixel(
                    RopOp::NotDst,
                    old(self)@.depth,
                    old(self)@.pixel(x, y),
                ),
            words_inverted(final(self)@, old(self)@),
    {
        let ghost m0 = self@;
        let keep_alpha = self.depth() == PixelDepth::Bit32;
        let words = self.data_mut();
        let n = words.len();
        let mut i: usize = 0;
        while i < n
            invariant
                n == words@.len(),
                n == m0.data.len(),
                i <= n,
                keep_alpha == (m0.depth == PixelDepth::Bit32),
                forall|j: int|
                    0 <= j < n ==> #[trigger] words@[j] == if j < i {
                        if keep_alpha {
                            (!m0.data[j] & 0xFFFFFF00u32) | (m0.data[j] & 0xFFu32)
                        } else {
                            !m0.data[j]
                        }
                    } else {
                        m0.data[j]
                    },
            decreases n - i,
        {
            let w = words[i];
            if keep_alpha {
                let alpha = w & 0xFF;
                words[i] = (!w & 0xFFFFFF00) | alpha;
            } else {
                words[i] = !w;
            }
            i = i + 1;
        }
        proof {
            let m1 = self@;
            assert(m1.data =~= m0.data.map_values(|w: u32| inverted_word(m0.depth, w)));
            assert forall|x: int, y: int| m0.contains(x, y) implies #[trigger] m1.pixel(x, y)
                == unary_pixel(RopOp::NotDst, m0.depth, m0.pixel(x, y)) by {
                m0.lemma_pixel_index(x, y);
                let w = m0.data[m0.word_index(x, y)];
                if keep_alpha {
                    lemma_invert_rgb_bits(w);
                    super::model::lemma_pixel_field(m0.depth, x);
                    super::model::lemma_mask_facts(w, 0, pmask(m0.depth), 32, pshift(m0.depth, x));
                    super::model::lemma_mask_facts(
                        (!w & 0xFFFFFF00u32) | (w & 0xFFu32),
                        0,
                        pmask(m0.depth),
                        32,
                        pshift(m0.depth, x),
                    );
                } else {
                    super::model::lemma_pixel_field(m0.depth, x);
                    super::model::lemma_field_not(w, pmask(m0.depth), m0.depth.nbits(), pshift(m0.depth, x));
                }
            }
        }
    }

    /// Apply a general raster operation in place.
    ///
    /// Operations that read no source (`Clear`, `Set`, `NotDst`) ignore
    /// `other`.
    ///
    /// # Errors
    ///
    /// Returns error if images have different dimensions or depths (for
    /// binary operations); the image is then unchanged.
    pub fn rop_inplace(&mut self, other: &Pix, op: RopOp) -> (r: Result<()>)
        requires
            old(self)@.wf(),
            other@.wf(),
        ensures
            r is Ok <==> (!needs_source(op) || rop_mismatch(old(self)@, other@) is None),
            r is Ok ==> final(self)@.same_meta(old(self)@) && rop_result(
                final(self)@,
                old(self)@,
                other@,
                op,
            ),
            r matches Err(e) ==> rop_mismatch(old(self)@, other@) == Some(e) && final(self)@ == old(
                self,
            )@,
    {
        if !op.requires_source() {
            self.rop_unary_inplace(op);
            return Ok(());
        }
        if self.width() != other.width() || self.height() != other.height() {
            return Err(
                Error::DimensionMismatch {
                    expected: (self.width(), self.height()),
                    actual: (other.width(), other.height()),
                },
            );
        }
        if self.depth() != other.depth() {
            return Err(Error::IncompatibleDepths(self.depth().bits(), other.depth().bits()));
        }
        match self.depth() {
            PixelDepth::Bit1 => self.rop_binary_inplace(other, op),
            _ => self.rop_generic_inplace(other, op),
        }
        Ok(())
    }

    /// Binary image raster operation in place (1-bit, word at a time)
    fn rop_binary_inplace(&mut self, other: &Pix, op: RopOp)
        requires
            old(self)@.wf(),
            other@.wf(),
            old(self)@.depth == PixelDepth::Bit1,
            other@.same_geometry(old(self)@),
        ensures
            final(self)@.same_meta(old(self)@),
            rop_result(final(self)@, old(self)@, other@, op),
    {
        let ghost m0 = self@;
        let words = rop_words(self.data(), other.data(), op);
        self.replace_data(words);
        proof {
            m0.lemma_rop_words(other@, m0, words@, op);
        }
    }

    /// Raster operation in place at depths other than 1, pixel by pixel
    fn rop_generic_inplace(&mut self, other: &Pix, op: RopOp)
        requires
            old(self)@.wf(),
            other@.wf(),
            old(self)@.depth != PixelDepth::Bit1,
            other@.same_geometry(old(self)@),
            needs_source(op),
        ensures
            final(self)@.same_meta(old(self)@),
            rop_result(final(self)@, old(self)@, other@, op),
    {
        let ghost m0 = self@;
        let depth = self.depth();
        let f = |d: u32, s: u32| -> (o: u32)
            requires
                d <= pmask(depth),
                s <= pmask(depth),
            ensures
                o == binary_pixel(op, depth, d, s),
            { apply_rop_pixel(d, s, op, depth) };
        zip_into(self, other, f, Ghost(|d: u32, s: u32| binary_pixel(op, depth, d, s)));
        proof {
            assert forall|x: int, y: int| self@.contains(x, y) implies #[trigger] self@.pixel(x, y)
                == rop_pixel(op, m0.depth, m0.pixel(x, y), other@.pixel(x, y)) by {
                lemma_stored_pixel(m0, x, y);
                lemma_stored_pixel(other@, x, y);
                lemma_binary_pixel_small(op, depth, m0.pixel(x, y), other@.pixel(x, y));
            }
        }
    }

    /// Clear a rectangular region to zero.
    ///
    /// The region is clipped to the image.
    pub fn clear_region(&mut self, x: u32, y: u32, w: u32, h: u32)
        requires
            old(self)@.wf(),
            x + w <= u32::MAX,
            y + h <= u32::MAX,
        ensures
            final(self)@.wf(),
            final(self)@.same_meta(old(self)@),
            forall|px: int, py: int|
                final(self)@.contains(px, py) ==> #[trigger] final(self)@.pixel(px, py) == if in_block(
                    px,
                    py,
                    x as int,
                    y as int,
                    w as int,
                    h as int,
                ) {
                    0
                } else {
                    old(self)@.pixel(px, py)
                },
    {
        self.fill_region(x, y, w, h, 0);
        proof {
            lemma_stored_small(self@.depth, 0);
        }
    }

    /// Set a rectangular region to all ones.
    ///
    /// The region is clipped to the image.
    pub fn set_region(&mut self, x: u32, y: u32, w: u32, h: u32)
        requires
            old(self)@.wf(),
            x + w <= u32::MAX,
            y + h <= u32::MAX,
        ensures
            final(self)@.wf(),
            final(self)@.same_meta(old(self)@),
            forall|px: int, py: int|
                final(self)@.contains(px, py) ==> #[trigger] final(self)@.pixel(px, py) == if in_block(
                    px,
                    py,
                    x as int,
                    y as int,
                    w as int,
                    h as int,
                ) {
                    pmask(old(self)@.depth)
                } else {
                    old(self)@.pixel(px, py)
                },
    {
        let max_val = self.depth().max_value();
        self.fill_region(x, y, w, h, max_val);
        proof {
            lemma_stored_small(self@.depth, max_val);
        }
    }

    /// Fill a rectangular region, clipped to the image, with a constant
    /// value.
    fn fill_region(&mut self, x: u32, y: u32, w: u32, h: u32, value: u32)
        requires
            old(self)@.wf(),
            x + w <= u32::MAX,
            y + h <= u32::MAX,
        ensures
            final(self)@.wf(),
            final(self)@.same_meta(old(self)@),
            forall|px: int, py: int|
                final(self)@.contains(px, py) ==> #[trigger] final(self)@.pixel(px, py) == if in_block(
                    px,
                    py,
                    x as int,
                    y as int,
                    w as int,
                    h as int,
                ) {
                    stored(old(self)@.depth, value)
                } else {
                    old(self)@.pixel(px, py)
                },
    {
        let img_w = self.width();
        let img_h = self.height();
        let x_end = if x + w < img_w {
            x + w
        } else {
            img_w
        };
        let y_end = if y + h < img_h {
            y + h
        } else {
            img_h
        };
        if x >= img_w || y >= img_h {
            return;
        }
        fill_block(self, x, y, x_end - x, y_end - y, value);
    }
}

/// The value brought into exposed areas: the largest pixel value for
/// white, 0 for black.
pub open spec fn incolor_value(m: PixModel, c: InColor) -> u32 {
    match c {
        InColor::White => pmask(m.depth),
        InColor::Black => 0,
    }
}

/// The fill value for `incolor` at depth `d`.
fn fill_value(d: PixelDepth, incolor: InColor) -> (v: u32)
    ensures
        v == match incolor {
            InColor::White => pmask(d),
            InColor::Black => 0u32,
        },
{
    match incolor {
        InColor::White => d.max_value(),
        InColor::Black => 0,
    }
}

impl Pix {
    /// A copy of the image shifted by `(hshift, vshift)` (right and down
    /// for positive values); exposed pixels get the `incolor` value.
    pub fn translate(&self, hshift: i32, vshift: i32, incolor: InColor) -> (r: Pix)
        requires
            self@.wf(),
        ensures
            r@.wf(),
            r@.same_meta(self@),
            forall|x: int, y: int|
                r@.contains(x, y) ==> #[trigger] r@.pixel(x, y) == shifted_pixel(
                    self@,
                    x,
                    y,
                    hshift as int,
                    vshift as int,
                    incolor_value(self@, incolor),
                ),
    {
        let src = self.to_mut();
        let mut out = self.to_mut();
        let fill = fill_value(self.depth(), incolor);
        shift_block(&mut out, &src, 0, self.width(), 0, self.height(), hshift as i64, vshift as i64, fill);
        out.into_pix()
    }
}

impl PixMut {
    /// Shifts the vertical band of columns `bx..bx + bw` by `vshift` rows
    /// (down for positive values), in place; exposed pixels get the
    /// `incolor` value and pixels outside the band are unchanged.
    pub fn rasterop_vip(&mut self, bx: i32, bw: i32, vshift: i32, incolor: InColor)
        requires
            old(self)@.wf(),
        ensures
            final(self)@.wf(),
            final(self)@.same_meta(old(self)@),
            forall|x: int, y: int|
                final(self)@.contains(x, y) ==> #[trigger] final(self)@.pixel(x, y) == if bx <= x < bx + bw {
                    shifted_pixel(old(self)@, x, y, 0, vshift as int, incolor_value(old(self)@, incolor))
                } else {
                    old(self)@.pixel(x, y)
                },
    {
        let w = self.width() as i64;
        let x0: i64 = if bx < 0 {
            0
        } else {
            bx as i64
        };
        let x1: i64 = if (bx as i64 + bw as i64) < w {
            bx as i64 + bw as i64
        } else {
            w
        };
        if x0 >= x1 {
            return;
        }
        let fill = fill_value(self.depth(), incolor);
        let src = self.duplicate();
        let h = self.height();
        shift_block(self, &src, x0 as u32, x1 as u32, 0, h, 0, vshift as i64, fill);
    }

    /// Shifts the horizontal band of rows `by..by + bh` by `hshift` columns
    /// (right for positive values), in place; exposed pixels get the
    /// `incolor` value and pixels outside the band are unchanged.
    pub fn rasterop_hip(&mut self, by: i32, bh: i32, hshift: i32, incolor: InColor)
        requires
            old(self)@.wf(),
        ensures
            final(self)@.wf(),
            final(self)@.same_meta(old(self)@),
            forall|x: int, y: int|
                final(self)@.contains(x, y) ==> #[trigger] final(self)@.pixel(x, y) == if by <= y < by + bh {
                    shifted_pixel(old(self)@, x, y, hshift as int, 0, incolor_value(old(self)@, incolor))
                } else {
                    old(self)@.pixel(x, y)
                },
    {
        let h = self.height() as i64;
        let y0: i64 = if by < 0 {
            0
        } else {
            by as i64
        };
        let y1: i64 = if (by as i64 + bh as i64) < h {
            by as i64 + bh as i64
        } else {
            h
        };
        if y0 >= y1 {
            return;
        }
        let fill = fill_value(self.depth(), incolor);
        let src = self.duplicate();
        let w = self.width();
        shift_block(self, &src, 0, w, y0 as u32, y1 as u32, hshift as i64, 0, fill);
    }
}

// ---------------------------------------------------------------------------
// Laws
// ---------------------------------------------------------------------------

/// Inverting an image twice gives back every pixel.
pub proof fn law_invert_twice(p: PixModel, r1: PixModel, r2: PixModel)
    requires
        p.wf(),
        rop_result(r1, p, p, RopOp::NotDst),
        rop_result(r2, r1, r1, RopOp::NotDst),
    ensures
        r2.same_pixels(p),
{
    assert forall|x: int, y: int| r2.contains(x, y) implies #[trigger] r2.pixel(x, y) == p.pixel(x, y) by {
        let v = p.pixel(x, y);
        lemma_stored_pixel(p, x, y);
        assert(r1.pixel(x, y) == unary_pixel(RopOp::NotDst, p.depth, v));
        if p.depth == PixelDepth::Bit32 {
            crate::color::lemma_rgba_roundtrip(
                (255 - red_of(v)) as u8,
                (255 - green_of(v)) as u8,
                (255 - blue_of(v)) as u8,
                alpha_of(v),
                v,
            );
            let w = invert_rgb(v);
            crate::color::lemma_rgba_roundtrip(
                (255 - red_of(w)) as u8,
                (255 - green_of(w)) as u8,
                (255 - blue_of(w)) as u8,
                alpha_of(w),
                w,
            );
        }
    }
}

/// Translating by `(0, 0)` keeps every pixel.
pub proof fn law_translate_zero(p: PixModel, fill: u32)
    requires
        p.wf(),
    ensures
        forall|x: int, y: int| p.contains(x, y) ==> #[trigger] shifted_pixel(p, x, y, 0, 0, fill) == p.pixel(x, y),
{
}

/// Translating by `(h, v)` and then by `(-h, -v)` gives back every pixel
/// that stayed inside the image; the others get the fill value.
pub proof fn law_translate_back(p: PixModel, h: int, v: int, fill: u32, q: PixModel)
    requires
        p.wf(),
        q.same_geometry(p),
        forall|x: int, y: int| q.contains(x, y) ==> #[trigger] q.pixel(x, y) == shifted_pixel(p, x, y, h, v, fill),
    ensures
        forall|x: int, y: int|
            p.contains(x, y) ==> #[trigger] shifted_pixel(q, x, y, -h, -v, fill) == if p.contains(x + h, y + v) {
                p.pixel(x, y)
            } else {
                fill
            },
{
    assert forall|x: int, y: int| p.contains(x, y) implies #[trigger] shifted_pixel(q, x, y, -h, -v, fill) == if p.contains(x + h, y + v) {
        p.pixel(x, y)
    } else {
        fill
    } by {
        if q.contains(x + h, y + v) {
            assert(q.pixel(x + h, y + v) == shifted_pixel(p, x + h, y + v, h, v, fill));
        }
    }
}

} // verus!
