//! The abstract model of an image and the facts about its packed layout.
//!
//! Pixels of depth `d` are packed `32 / d` to a word, the leftmost pixel
//! in the most significant bits. Each row starts on a word boundary.

use vstd::prelude::*;
use super::{PixelDepth, ImageFormat};
use crate::colormap::CmapModel;

verus! {

/// Pixels per 32-bit word at depth `d`.
pub open spec fn ppw(d: PixelDepth) -> int {
    match d {
        PixelDepth::Bit1 => 32,
        PixelDepth::Bit2 => 16,
        PixelDepth::Bit4 => 8,
        PixelDepth::Bit8 => 4,
        PixelDepth::Bit16 => 2,
        PixelDepth::Bit32 => 1,
    }
}

/// The largest value a pixel of depth `d` holds; also the field mask.
pub open spec fn pmask(d: PixelDepth) -> u32 {
    match d {
        PixelDepth::Bit1 => 1,
        PixelDepth::Bit2 => 3,
        PixelDepth::Bit4 => 15,
        PixelDepth::Bit8 => 255,
        PixelDepth::Bit16 => 0xffff,
        PixelDepth::Bit32 => 0xffff_ffff,
    }
}

/// Right shift that brings pixel `x` to the low bits of its word.
pub open spec fn pshift(d: PixelDepth, x: int) -> u32 {
    (32 - d.nbits() * (x % ppw(d) + 1)) as u32
}

/// The value of pixel `x` held in word `w`.
pub open spec fn word_pixel(w: u32, d: PixelDepth, x: int) -> u32 {
    (w >> pshift(d, x)) & pmask(d)
}

/// The value stored when `v` is written to a pixel of depth `d`: at 1 bpp
/// any nonzero value sets the bit; otherwise the low bits of `v` are kept.
pub open spec fn stored(d: PixelDepth, v: u32) -> u32 {
    if d == PixelDepth::Bit1 {
        if v != 0 {
            1
        } else {
            0
        }
    } else {
        v & pmask(d)
    }
}

/// Word `w` with pixel `x` replaced by `v`.
pub open spec fn word_set(w: u32, d: PixelDepth, x: int, v: u32) -> u32 {
    (w & !(pmask(d) << pshift(d, x))) | (stored(d, v) << pshift(d, x))
}

/// Words per row for an image `width` pixels wide.
pub open spec fn wpl_for(width: int, d: PixelDepth) -> int {
    (width * d.nbits() + 31) / 32
}

/// Whether `Pix::new(width, height, depth)` succeeds.
pub open spec fn new_ok(width: u32, height: u32, depth: PixelDepth) -> bool {
    width > 0 && height > 0 && wpl_for(width as int, depth) * height <= usize::MAX
}

/// The value of pixel `x` within a row of words.
pub open spec fn line_pixel(line: Seq<u32>, x: int, d: PixelDepth) -> u32 {
    word_pixel(line[x / ppw(d)], d, x)
}

/// The abstract content of an image.
pub struct PixModel {
    pub width: u32,
    pub height: u32,
    pub depth: PixelDepth,
    pub spp: u32,
    pub wpl: u32,
    pub xres: i32,
    pub yres: i32,
    pub informat: ImageFormat,
    pub special: i32,
    pub text: Option<Seq<char>>,
    pub cmap: Option<CmapModel>,
    pub data: Seq<u32>,
}

impl PixModel {
    /// The layout invariant of every image.
    pub open spec fn wf(self) -> bool {
        &&& self.width > 0
        &&& self.height > 0
        &&& self.wpl == wpl_for(self.width as int, self.depth)
        &&& self.data.len() == self.wpl as int * self.height as int
        &&& self.data.len() <= usize::MAX
        &&& self.cmap matches Some(c) ==> c.wf() && c.depth == self.depth.nbits()
            && self.depth.colormap_allowed()
    }

    /// Whether `(x, y)` lies inside the image.
    pub open spec fn contains(self, x: int, y: int) -> bool {
        0 <= x < self.width && 0 <= y < self.height
    }

    /// Index in `data` of the word holding pixel `(x, y)`.
    pub open spec fn word_index(self, x: int, y: int) -> int {
        y * self.wpl + x / ppw(self.depth)
    }

    /// The value of pixel `(x, y)`.
    pub open spec fn pixel(self, x: int, y: int) -> u32 {
        word_pixel(self.data[self.word_index(x, y)], self.depth, x)
    }

    /// The image with pixel `(x, y)` set to `v`.
    pub open spec fn with_pixel(self, x: int, y: int, v: u32) -> PixModel {
        let i = self.word_index(x, y);
        PixModel { data: self.data.update(i, word_set(self.data[i], self.depth, x, v)), ..self }
    }

    /// Same size and depth.
    pub open spec fn same_geometry(self, other: PixModel) -> bool {
        &&& self.width == other.width
        &&& self.height == other.height
        &&& self.depth == other.depth
    }

    /// Same pixel values everywhere.
    pub open spec fn same_pixels(self, other: PixModel) -> bool {
        &&& self.same_geometry(other)
        &&& forall|x: int, y: int|
            self.contains(x, y) ==> #[trigger] self.pixel(x, y) == other.pixel(x, y)
    }

    /// Every pixel is 0.
    pub open spec fn all_zero(self) -> bool {
        forall|x: int, y: int| self.contains(x, y) ==> #[trigger] self.pixel(x, y) == 0
    }

    /// A fresh image as made by `Pix::new`: zero data, default metadata.
    pub open spec fn is_fresh(self, width: u32, height: u32, depth: PixelDepth) -> bool {
        &&& self.fresh_meta(width, height, depth)
        &&& forall|i: int| 0 <= i < self.data.len() ==> #[trigger] self.data[i] == 0
    }

    /// The metadata of a fresh image of this size and depth.
    pub open spec fn fresh_meta(self, width: u32, height: u32, depth: PixelDepth) -> bool {
        self.created(width, height, depth, 0, 0)
    }

    /// The metadata of a fresh image of this size and depth whose
    /// resolution was then set to `(xres, yres)`.
    pub open spec fn created(self, width: u32, height: u32, depth: PixelDepth, xres: i32, yres: i32) -> bool {
        &&& self.wf()
        &&& self.width == width
        &&& self.height == height
        &&& self.depth == depth
        &&& self.spp == (if depth == PixelDepth::Bit32 { 3u32 } else { 1u32 })
        &&& self.xres == xres
        &&& self.yres == yres
        &&& self.informat == ImageFormat::Unknown
        &&& self.special == 0
        &&& self.text is None
        &&& self.cmap is None
    }

    /// Same metadata apart from the pixel data.
    pub open spec fn same_meta(self, other: PixModel) -> bool {
        &&& self.width == other.width
        &&& self.height == other.height
        &&& self.depth == other.depth
        &&& self.spp == other.spp
        &&& self.wpl == other.wpl
        &&& self.xres == other.xres
        &&& self.yres == other.yres
        &&& self.informat == other.informat
        &&& self.special == other.special
        &&& self.text == other.text
        &&& self.cmap == other.cmap
    }
}

// ---------------------------------------------------------------------------
// Arithmetic facts about the layout
// ---------------------------------------------------------------------------

/// A pixel inside a row lies in a word of that row.
pub proof fn lemma_word_in_row(width: int, d: PixelDepth, x: int)
    requires
        0 <= x < width,
    ensures
        0 <= x / ppw(d) < wpl_for(width, d),
{
    match d {
        PixelDepth::Bit1 => {},
        PixelDepth::Bit2 => {},
        PixelDepth::Bit4 => {},
        PixelDepth::Bit8 => {},
        PixelDepth::Bit16 => {},
        PixelDepth::Bit32 => {},
    }
}

/// A row of at least one pixel needs at least one word, and never more
/// words than pixels.
pub proof fn lemma_wpl_bounds(width: int, d: PixelDepth)
    requires
        width >= 1,
    ensures
        1 <= wpl_for(width, d) <= width,
{
    match d {
        PixelDepth::Bit1 => {},
        PixelDepth::Bit2 => {},
        PixelDepth::Bit4 => {},
        PixelDepth::Bit8 => {},
        PixelDepth::Bit16 => {},
        PixelDepth::Bit32 => {},
    }
}

/// A wider row never needs fewer words.
pub proof fn lemma_wpl_mono(a: int, b: int, d: PixelDepth)
    requires
        0 <= a <= b,
    ensures
        wpl_for(a, d) <= wpl_for(b, d),
{
    let k = d.nbits() as int;
    assert(1 <= k <= 32);
    assert(a * k <= b * k) by (nonlinear_arith)
        requires
            a <= b,
            k >= 1,
    ;
    vstd::arithmetic::div_mod::lemma_div_is_ordered(a * k + 31, b * k + 31, 32);
}

/// Word indices of distinct rows, or of distinct words of a row, differ.
pub proof fn lemma_index_split(wpl: int, y1: int, a1: int, y2: int, a2: int)
    requires
        0 <= a1 < wpl,
        0 <= a2 < wpl,
        0 <= y1,
        0 <= y2,
        y1 * wpl + a1 == y2 * wpl + a2,
    ensures
        y1 == y2,
        a1 == a2,
{
    if y1 < y2 {
        assert(y1 * wpl + wpl <= y2 * wpl) by (nonlinear_arith)
            requires
                y1 < y2,
                wpl >= 0,
        ;
    } else if y2 < y1 {
        assert(y2 * wpl + wpl <= y1 * wpl) by (nonlinear_arith)
            requires
                y2 < y1,
                wpl >= 0,
        ;
    }
}

/// The word index of a pixel inside the image lies inside the data.
pub proof fn lemma_index_in_data(wpl: int, height: int, y: int, a: int)
    requires
        0 <= a < wpl,
        0 <= y < height,
    ensures
        0 <= y * wpl + a < wpl * height,
        y * wpl + wpl <= wpl * height,
{
    assert(0 <= y * wpl) by (nonlinear_arith)
        requires
            0 <= y,
            0 <= wpl,
    ;
    assert(y * wpl + wpl <= wpl * height) by (nonlinear_arith)
        requires
            y < height,
            0 <= wpl,
    ;
}

impl PixModel {
    /// The word of a pixel inside the image lies in the data.
    pub proof fn lemma_pixel_index(self, x: int, y: int)
        requires
            self.wf(),
            self.contains(x, y),
        ensures
            0 <= x / ppw(self.depth) < self.wpl,
            0 <= self.word_index(x, y) < self.data.len(),
            0 <= y * self.wpl,
            y * self.wpl + self.wpl <= self.data.len(),
    {
        lemma_word_in_row(self.width as int, self.depth, x);
        lemma_wpl_bounds(self.width as int, self.depth);
        lemma_index_in_data(self.wpl as int, self.height as int, y, x / ppw(self.depth));
    }
}

// ---------------------------------------------------------------------------
// Bit-level facts about reading and writing a field of a word
// ---------------------------------------------------------------------------

/// The shift of pixel `x` in terms of its position within the word.
pub proof fn lemma_pshift(d: PixelDepth, x: int)
    requires
        0 <= x,
    ensures
        0 <= x % ppw(d) < ppw(d),
        pshift(d, x) as int == 32 - d.nbits() * (x % ppw(d) + 1),
{
    match d {
        PixelDepth::Bit1 => {},
        PixelDepth::Bit2 => {},
        PixelDepth::Bit4 => {},
        PixelDepth::Bit8 => {},
        PixelDepth::Bit16 => {},
        PixelDepth::Bit32 => {},
    }
}

/// Whether `m` is the mask of a `d`-bit field.
pub open spec fn field_mask(m: u32, d: u32) -> bool {
    ||| d == 1 && m == 1
    ||| d == 2 && m == 3
    ||| d == 4 && m == 15
    ||| d == 8 && m == 255
    ||| d == 16 && m == 0xffff
    ||| d == 32 && m == 0xffff_ffff
}

/// Reading and writing a `d`-bit field at shift `s1` of a word: writing
/// then reading gives the value written, and fields that do not overlap
/// are untouched.
pub proof fn lemma_field_write(w: u32, f: u32, m: u32, d: u32, s1: u32, s2: u32)
    requires
        field_mask(m, d),
        s1 + d <= 32,
        s2 + d <= 32,
        f <= m,
    ensures
        (((w & !(m << s1)) | (f << s1)) >> s1) & m == f,
        (s1 + d <= s2 || s2 + d <= s1) ==> (((w & !(m << s1)) | (f << s1)) >> s2) & m == (w >> s2)
            & m,
{
    assert({
        &&& (((w & !(m << s1)) | (f << s1)) >> s1) & m == f
        &&& (s1 + d <= s2 || s2 + d <= s1) ==> (((w & !(m << s1)) | (f << s1)) >> s2) & m == (w
            >> s2) & m
    }) by (bit_vector)
        requires
            field_mask(m, d),
            s1 + d <= 32,
            s2 + d <= 32,
            f <= m,
    ;
}

/// Facts about masking with a field mask.
pub proof fn lemma_mask_facts(w: u32, v: u32, m: u32, d: u32, s: u32)
    requires
        field_mask(m, d),
        s + d <= 32,
    ensures
        (w >> s) & m <= m,
        ((w >> s) & m) & m == (w >> s) & m,
        v & m <= m,
        v <= m ==> v & m == v,
        (0u32 >> s) & m == 0,
        (0xffff_ffffu32 >> s) & m == m,
        d == 32 ==> s == 0 && (w >> s) & m == w && (w & !(m << s)) | (v << s) == v,
{
    assert({
        &&& (w >> s) & m <= m
        &&& ((w >> s) & m) & m == (w >> s) & m
        &&& v & m <= m
        &&& v <= m ==> v & m == v
        &&& (0u32 >> s) & m == 0
        &&& (0xffff_ffffu32 >> s) & m == m
        &&& d == 32 ==> s == 0 && (w >> s) & m == w && (w & !(m << s)) | (v << s) == v
    }) by (bit_vector)
        requires
            field_mask(m, d),
            s + d <= 32,
    ;
}

/// The mask and shift of every pixel describe a field inside the word.
pub proof fn lemma_pixel_field(d: PixelDepth, x: int)
    requires
        0 <= x,
    ensures
        field_mask(pmask(d), d.nbits()),
        pshift(d, x) + d.nbits() <= 32,
{
    lemma_pshift(d, x);
    match d {
        PixelDepth::Bit1 => {},
        PixelDepth::Bit2 => {},
        PixelDepth::Bit4 => {},
        PixelDepth::Bit8 => {},
        PixelDepth::Bit16 => {},
        PixelDepth::Bit32 => {},
    }
}

/// Writing a field and reading it back, at each depth.
pub proof fn lemma_word_set_get(w: u32, d: PixelDepth, x: int, x2: int, v: u32)
    requires
        0 <= x,
        0 <= x2,
        x / ppw(d) == x2 / ppw(d),
    ensures
        x2 == x ==> word_pixel(word_set(w, d, x, v), d, x2) == stored(d, v),
        x2 != x ==> word_pixel(word_set(w, d, x, v), d, x2) == word_pixel(w, d, x2),
{
    lemma_pshift(d, x);
    lemma_pshift(d, x2);
    lemma_pixel_field(d, x);
    let m = pmask(d);
    let n = d.nbits();
    let s1 = pshift(d, x);
    let s2 = pshift(d, x2);
    lemma_mask_facts(w, v, m, n, s1);
    let f = stored(d, v);
    assert(f <= m);
    if x2 != x {
        let k1 = x % ppw(d);
        let k2 = x2 % ppw(d);
        assert(k1 != k2);
        assert(s1 + n <= s2 || s2 + n <= s1) by {
            match d {
                PixelDepth::Bit1 => {},
                PixelDepth::Bit2 => {},
                PixelDepth::Bit4 => {},
                PixelDepth::Bit8 => {},
                PixelDepth::Bit16 => {},
                PixelDepth::Bit32 => {},
            }
        }
    }
    lemma_field_write(w, f, m, n, s1, s2);
}

impl PixModel {
    /// Writing pixel `(x, y)` keeps the layout, stores the value there and
    /// leaves every other pixel as it was.
    pub proof fn lemma_with_pixel(self, x: int, y: int, v: u32)
        requires
            self.wf(),
            self.contains(x, y),
        ensures
            self.with_pixel(x, y, v).wf(),
            self.with_pixel(x, y, v).same_meta(self),
            self.with_pixel(x, y, v).pixel(x, y) == stored(self.depth, v),
            forall|x2: int, y2: int|
                #![trigger self.with_pixel(x, y, v).pixel(x2, y2)]
                self.contains(x2, y2) && !(x2 == x && y2 == y) ==> self.with_pixel(x, y, v).pixel(
                    x2,
                    y2,
                ) == self.pixel(x2, y2),
    {
        let m2 = self.with_pixel(x, y, v);
        self.lemma_pixel_index(x, y);
        lemma_word_set_get(self.data[self.word_index(x, y)], self.depth, x, x, v);
        assert forall|x2: int, y2: int|
            #![trigger m2.pixel(x2, y2)]
            self.contains(x2, y2) && !(x2 == x && y2 == y) implies m2.pixel(x2, y2) == self.pixel(
            x2,
            y2,
        ) by {
            self.lemma_pixel_index(x2, y2);
            let i = self.word_index(x, y);
            let i2 = self.word_index(x2, y2);
            if i == i2 {
                lemma_index_split(
                    self.wpl as int,
                    y,
                    x / ppw(self.depth),
                    y2,
                    x2 / ppw(self.depth),
                );
                lemma_word_set_get(self.data[i], self.depth, x, x2, v);
            }
        }
    }
}

impl PixModel {
    /// An image of this size and depth can be made again.
    pub proof fn lemma_new_ok(self)
        requires
            self.wf(),
        ensures
            new_ok(self.width, self.height, self.depth),
    {
    }
}

/// Bitwise combinations of two field values stay within the field.
pub proof fn lemma_field_ops(a: u32, b: u32, m: u32, d: u32)
    requires
        field_mask(m, d),
        a <= m,
        b <= m,
    ensures
        a & b <= m,
        a | b <= m,
        a ^ b <= m,
{
    assert(a & b <= m && a | b <= m && a ^ b <= m) by (bit_vector)
        requires
            field_mask(m, d),
            a <= m,
            b <= m,
    ;
}

/// Inverting every bit of a word inverts each of its fields.
pub proof fn lemma_field_not(w: u32, m: u32, d: u32, s: u32)
    requires
        field_mask(m, d),
        s + d <= 32,
    ensures
        ((!w) >> s) & m == m - ((w >> s) & m),
{
    assert(((!w) >> s) & m == m - ((w >> s) & m)) by (bit_vector)
        requires
            field_mask(m, d),
            s + d <= 32,
    ;
}

impl PixModel {
    /// An image no larger than this one, of the same depth, can be made.
    pub proof fn lemma_new_ok_within(self, w: u32, h: u32)
        requires
            self.wf(),
            0 < w <= self.width,
            0 < h <= self.height,
        ensures
            new_ok(w, h, self.depth),
    {
        lemma_wpl_mono(w as int, self.width as int, self.depth);
        let a = wpl_for(w as int, self.depth);
        let b = wpl_for(self.width as int, self.depth);
        lemma_wpl_bounds(w as int, self.depth);
        assert(a * h <= b * self.height) by (nonlinear_arith)
            requires
                0 <= a <= b,
                0 <= h <= self.height,
        ;
    }
}

impl PixModel {
    /// An image of this size can be made again at any depth no deeper than
    /// its own.
    pub proof fn lemma_new_ok_depth(self, d: PixelDepth)
        requires
            self.wf(),
            d.nbits() <= self.depth.nbits(),
        ensures
            new_ok(self.width, self.height, d),
    {
        let k1 = d.nbits() as int;
        let k2 = self.depth.nbits() as int;
        let w = self.width as int;
        assert(w * k1 <= w * k2) by (nonlinear_arith)
            requires
                0 <= w,
                k1 <= k2,
        ;
        vstd::arithmetic::div_mod::lemma_div_is_ordered(w * k1 + 31, w * k2 + 31, 32);
        let a = wpl_for(w, d);
        let b = wpl_for(w, self.depth);
        lemma_wpl_bounds(w, d);
        assert(a * self.height <= b * self.height) by (nonlinear_arith)
            requires
                0 <= a <= b,
                0 <= self.height,
        ;
    }
}

} // verus!
