//! SPIX serialization: the library's own uncompressed binary image format.
//!
//! ```text
//! Offset       Size          Field
//! 0            4             "spix" magic bytes
//! 4            4             width
//! 8            4             height
//! 12           4             depth
//! 16           4             wpl (words per line)
//! 20           4             ncolors (0 if no colormap)
//! 24           4 * ncolors   colormap entries (R, G, B, A)
//! 24+4*n       4             raster data size (= 4 * wpl * h)
//! 28+4*n       rdatasize     raster words
//! ```
//!
//! Every 32-bit field and raster word is stored in the machine's byte
//! order; the specifications take that order as a flag (`little`).

use vstd::prelude::*;
use super::{Pix, PixMut, PixelDepth, ImageFormat, PixModel};
use super::model::{wpl_for, new_ok};
use crate::colormap::{PixColormap, CmapModel, cmap_capacity, cmap_depth_ok};
use crate::error::{Error, Result, decode_error, invalid_param};

verus! {

/// Largest width accepted when reading.
pub const MAX_ALLOWED_WIDTH: u32 = 1_000_000;
/// Largest height accepted when reading.
pub const MAX_ALLOWED_HEIGHT: u32 = 1_000_000;
/// Largest area (width times height) accepted when reading.
pub const MAX_ALLOWED_AREA: u64 = 400_000_000;

/// The header fields of serialized data.
#[derive(Debug, Clone, PartialEq, Eq, Structural)]
pub struct SpixHeader {
    pub width: u32,
    pub height: u32,
    pub depth: u32,
    pub wpl: u32,
    pub ncolors: u32,
}

// ---------------------------------------------------------------------------
// The byte layout
// ---------------------------------------------------------------------------

/// The bytes of `w`: least significant first when `little`, most
/// significant first otherwise.
pub open spec fn word_quad(w: u32, little: bool) -> (u8, u8, u8, u8) {
    let b0 = (w & 0xff) as u8;
    let b1 = ((w >> 8u32) & 0xff) as u8;
    let b2 = ((w >> 16u32) & 0xff) as u8;
    let b3 = ((w >> 24u32) & 0xff) as u8;
    if little {
        (b0, b1, b2, b3)
    } else {
        (b3, b2, b1, b0)
    }
}

/// The word whose bytes, in the order `little` names, are `q`.
pub open spec fn quad_word(q: (u8, u8, u8, u8), little: bool) -> u32 {
    if little {
        (q.0 as u32) | ((q.1 as u32) << 8u32) | ((q.2 as u32) << 16u32) | ((q.3 as u32) << 24u32)
    } else {
        ((q.0 as u32) << 24u32) | ((q.1 as u32) << 16u32) | ((q.2 as u32) << 8u32) | (q.3 as u32)
    }
}

/// The word stored at `b[off..off + 4]` in the order `little` names.
pub open spec fn word_at(b: Seq<u8>, off: int, little: bool) -> u32 {
    quad_word((b[off], b[off + 1], b[off + 2], b[off + 3]), little)
}

/// Component `j` (0 to 3) of a four-byte group.
pub open spec fn quad_at(q: (u8, u8, u8, u8), j: int) -> u8 {
    if j == 0 {
        q.0
    } else if j == 1 {
        q.1
    } else if j == 2 {
        q.2
    } else {
        q.3
    }
}

/// Four-byte groups laid end to end.
pub open spec fn quad_bytes(s: Seq<(u8, u8, u8, u8)>) -> Seq<u8>
    decreases s.len(),
{
    if s.len() == 0 {
        Seq::empty()
    } else {
        let q = s.last();
        quad_bytes(s.drop_last()) + seq![q.0, q.1, q.2, q.3]
    }
}

/// Words laid end to end, each in the order `little` names.
pub open spec fn words_bytes(ws: Seq<u32>, little: bool) -> Seq<u8> {
    quad_bytes(ws.map_values(|w: u32| word_quad(w, little)))
}

/// The four magic bytes `"spix"`.
pub open spec fn spix_magic() -> Seq<u8> {
    seq![0x73u8, 0x70u8, 0x69u8, 0x78u8]
}

/// The colormap entries of an image (none without a colormap).
pub open spec fn cmap_colors(m: PixModel) -> Seq<(u8, u8, u8, u8)> {
    match m.cmap {
        Some(c) => c.colors,
        None => Seq::empty(),
    }
}

/// The serialized form of an image, its words in the order `little`
/// names.
pub open spec fn spix_bytes(m: PixModel, little: bool) -> Seq<u8> {
    let colors = cmap_colors(m);
    spix_magic() + words_bytes(
        seq![m.width, m.height, m.depth.nbits(), m.wpl, colors.len() as u32],
        little,
    ) + quad_bytes(colors) + words_bytes(seq![(4 * m.wpl * m.height) as u32], little) + words_bytes(
        m.data,
        little,
    )
}

// ---------------------------------------------------------------------------
// Reading
// ---------------------------------------------------------------------------

/// The depth field names a supported depth.
pub open spec fn depth_bits_ok(d: u32) -> bool {
    d == 1 || d == 2 || d == 4 || d == 8 || d == 16 || d == 32
}

/// The depth named by a valid depth field.
pub open spec fn depth_of(d: u32) -> PixelDepth {
    if d == 1 {
        PixelDepth::Bit1
    } else if d == 2 {
        PixelDepth::Bit2
    } else if d == 4 {
        PixelDepth::Bit4
    } else if d == 8 {
        PixelDepth::Bit8
    } else if d == 16 {
        PixelDepth::Bit16
    } else {
        PixelDepth::Bit32
    }
}

/// Header field `i` (1 to 5) of serialized data.
pub open spec fn hdr(b: Seq<u8>, i: int, little: bool) -> u32 {
    word_at(b, 4 * i, little)
}

/// The header fields of serialized data.
pub open spec fn header_of(b: Seq<u8>, little: bool) -> SpixHeader {
    SpixHeader {
        width: hdr(b, 1, little),
        height: hdr(b, 2, little),
        depth: hdr(b, 3, little),
        wpl: hdr(b, 4, little),
        ncolors: hdr(b, 5, little),
    }
}

/// The data is long enough for a header and starts with the magic bytes.
pub open spec fn header_ok(b: Seq<u8>) -> bool {
    b.len() >= 28 && b.subrange(0, 4) == spix_magic()
}

/// The dimensions recorded in the header are within the accepted limits.
pub open spec fn dims_ok(w: u32, h: u32) -> bool {
    &&& 1 <= w <= MAX_ALLOWED_WIDTH
    &&& 1 <= h <= MAX_ALLOWED_HEIGHT
    &&& w * h <= MAX_ALLOWED_AREA
}

/// Bytes of raster data that a `w` by `h` image of depth `d` holds.
pub open spec fn raster_size(w: u32, h: u32, d: u32) -> int {
    4 * wpl_for(w as int, depth_of(d)) * h
}

/// Everything up to and including the size checks passes.
pub open spec fn layout_ok(b: Seq<u8>, little: bool) -> bool {
    let (w, h, d, n) = (hdr(b, 1, little), hdr(b, 2, little), hdr(b, 3, little), hdr(b, 5, little));
    &&& header_ok(b)
    &&& b.len() <= i32::MAX
    &&& dims_ok(w, h)
    &&& n <= 256
    &&& depth_bits_ok(d)
    &&& b.len() >= 4 * (7 + n)
    &&& raster_size(w, h, d) == b.len() - 28 - 4 * n
    &&& raster_size(w, h, d) == word_at(b, 4 * (6 + n), little)
}

/// Serialized data from which an image is read back.
pub open spec fn spix_ok(b: Seq<u8>, little: bool) -> bool {
    let (d, n) = (hdr(b, 3, little), hdr(b, 5, little));
    &&& layout_ok(b, little)
    &&& n > 0 ==> cmap_depth_ok(d) && n <= cmap_capacity(d)
}

/// The error reported for data that is not read back: the first check
/// that fails decides it.
pub open spec fn spix_error(b: Seq<u8>, e: Error, little: bool) -> bool {
    let (w, h, d, n) = (hdr(b, 1, little), hdr(b, 2, little), hdr(b, 3, little), hdr(b, 5, little));
    if !header_ok(b) || b.len() > i32::MAX {
        e is DecodeError
    } else if !dims_ok(w, h) {
        e == (Error::InvalidDimension { width: w, height: h })
    } else if n > 256 {
        e is DecodeError
    } else if !depth_bits_ok(d) {
        e == Error::InvalidDepth(d)
    } else if !layout_ok(b, little) {
        e is DecodeError
    } else if !cmap_depth_ok(d) {
        e == Error::InvalidDepth(d)
    } else {
        e is InvalidParameter
    }
}

/// The image read from serialized data that passes [`spix_ok`].
pub open spec fn spix_image(b: Seq<u8>, little: bool) -> PixModel {
    let (w, h, d, n) = (hdr(b, 1, little), hdr(b, 2, little), hdr(b, 3, little), hdr(b, 5, little));
    let depth = depth_of(d);
    let wpl = wpl_for(w as int, depth);
    PixModel {
        width: w,
        height: h,
        depth,
        spp: if depth == PixelDepth::Bit32 {
            3
        } else {
            1
        },
        wpl: wpl as u32,
        xres: 0,
        yres: 0,
        informat: ImageFormat::Spix,
        special: 0,
        text: None,
        cmap: if n > 0 {
            Some(
                CmapModel {
                    depth: d,
                    colors: Seq::new(
                        n as nat,
                        |i: int| (b[24 + 4 * i], b[25 + 4 * i], b[26 + 4 * i], b[27 + 4 * i]),
                    ),
                },
            )
        } else {
            None
        },
        data: Seq::new((wpl * h) as nat, |i: int| word_at(b, 28 + 4 * n + 4 * i, little)),
    }
}

/// What reading `b` gives when its words are in the order `little` names.
pub open spec fn spix_read(b: Seq<u8>, r: Result<Pix>, little: bool) -> bool {
    &&& r is Ok <==> spix_ok(b, little)
    &&& r matches Ok(p) ==> p@ == spix_image(b, little) && p@.wf()
    &&& r matches Err(e) ==> spix_error(b, e, little)
}

// ---------------------------------------------------------------------------
// Facts about the layout
// ---------------------------------------------------------------------------

/// A word is rebuilt from its bytes.
pub proof fn lemma_word_roundtrip(w: u32, little: bool)
    ensures
        quad_word(word_quad(w, little), little) == w,
{
    assert(((w & 0xff) as u8 as u32) | (((((w >> 8u32) & 0xff) as u8) as u32) << 8u32) | (((((w
        >> 16u32) & 0xff) as u8) as u32) << 16u32) | (((((w >> 24u32) & 0xff) as u8) as u32)
        << 24u32) == w) by (bit_vector);
    assert((((((w >> 24u32) & 0xff) as u8) as u32) << 24u32) | (((((w >> 16u32) & 0xff) as u8)
        as u32) << 16u32) | (((((w >> 8u32) & 0xff) as u8) as u32) << 8u32) | ((w & 0xff) as u8
        as u32) == w) by (bit_vector);
}

/// Length and contents of groups laid end to end.
pub proof fn lemma_quad_bytes(s: Seq<(u8, u8, u8, u8)>)
    ensures
        quad_bytes(s).len() == 4 * s.len(),
        forall|i: int, j: int|
            0 <= i < s.len() && 0 <= j < 4 ==> #[trigger] quad_bytes(s)[4 * i + j] == quad_at(
                s[i],
                j,
            ),
    decreases s.len(),
{
    if s.len() > 0 {
        let t = s.drop_last();
        lemma_quad_bytes(t);
        let q = s.last();
        assert forall|i: int, j: int| 0 <= i < s.len() && 0 <= j < 4 implies #[trigger] quad_bytes(
            s,
        )[4 * i + j] == quad_at(s[i], j) by {
            if i < t.len() {
                assert(quad_bytes(t)[4 * i + j] == quad_at(t[i], j));
            }
        }
    }
}

/// A word is read back from where it was laid down.
pub proof fn lemma_words_bytes(ws: Seq<u32>, i: int, little: bool)
    requires
        0 <= i < ws.len(),
    ensures
        words_bytes(ws, little).len() == 4 * ws.len(),
        word_at(words_bytes(ws, little), 4 * i, little) == ws[i],
{
    let s = ws.map_values(|w: u32| word_quad(w, little));
    lemma_quad_bytes(s);
    let b = words_bytes(ws, little);
    assert(b[4 * i + 0] == quad_at(s[i], 0));
    assert(b[4 * i + 1] == quad_at(s[i], 1));
    assert(b[4 * i + 2] == quad_at(s[i], 2));
    assert(b[4 * i + 3] == quad_at(s[i], 3));
    assert((b[4 * i], b[4 * i + 1], b[4 * i + 2], b[4 * i + 3]) == word_quad(ws[i], little));
    lemma_word_roundtrip(ws[i], little);
}

/// A word read inside the first of two joined byte sequences.
pub proof fn lemma_word_prefix(x: Seq<u8>, y: Seq<u8>, off: int, little: bool)
    requires
        0 <= off,
        off + 4 <= x.len(),
    ensures
        word_at(x + y, off, little) == word_at(x, off, little),
{
    let b = x + y;
    assert(b[off] == x[off] && b[off + 1] == x[off + 1] && b[off + 2] == x[off + 2] && b[off + 3]
        == x[off + 3]);
}

/// A word read inside the second of two joined byte sequences.
pub proof fn lemma_word_suffix(x: Seq<u8>, y: Seq<u8>, off: int, little: bool)
    requires
        0 <= off,
        off + 4 <= y.len(),
    ensures
        word_at(x + y, x.len() + off, little) == word_at(y, off, little),
{
    let b = x + y;
    let o = x.len() + off;
    assert(b[o] == y[off] && b[o + 1] == y[off + 1] && b[o + 2] == y[off + 2] && b[o + 3] == y[off
        + 3]);
}

/// Writing an image to SPIX bytes and reading them back in the same byte
/// order gives an image of the same size, depth, words per line and
/// raster data, with the same colormap entries (an empty colormap is not
/// written), for every image within the reading limits.
pub proof fn law_spix_roundtrip(m: PixModel, little: bool)
    requires
        m.wf(),
        dims_ok(m.width, m.height),
    ensures
        spix_ok(spix_bytes(m, little), little),
        spix_image(spix_bytes(m, little), little).width == m.width,
        spix_image(spix_bytes(m, little), little).height == m.height,
        spix_image(spix_bytes(m, little), little).depth == m.depth,
        spix_image(spix_bytes(m, little), little).wpl == m.wpl,
        spix_image(spix_bytes(m, little), little).data == m.data,
        spix_image(spix_bytes(m, little), little).cmap == (if cmap_colors(m).len() > 0 {
            m.cmap
        } else {
            None
        }),
{
    let colors = cmap_colors(m);
    let n: int = colors.len() as int;
    let header = seq![m.width, m.height, m.depth.nbits(), m.wpl, n as u32];
    let rs = (4 * m.wpl * m.height) as u32;
    let a = spix_magic();
    let bh = words_bytes(header, little);
    let c = quad_bytes(colors);
    let dd = words_bytes(seq![rs], little);
    let e = words_bytes(m.data, little);
    let b = spix_bytes(m, little);
    assert(b == a + bh + c + dd + e);
    lemma_words_bytes(header, 0, little);
    lemma_words_bytes(seq![rs], 0, little);
    lemma_quad_bytes(colors);
    if m.data.len() > 0 {
        lemma_words_bytes(m.data, 0, little);
    }
    super::model::lemma_wpl_bounds(m.width as int, m.depth);
    assert(m.wpl as int * m.height <= m.width as int * m.height) by (nonlinear_arith)
        requires
            m.wpl <= m.width,
    ;
    assert(n <= 256) by {
        if m.cmap is Some {
            assert(cmap_capacity(m.cmap->0.depth) <= 256);
        }
    }
    assert(b.len() == 28 + 4 * n + 4 * m.data.len());
    // the header
    assert(b.subrange(0, 4) =~= spix_magic());
    let ab = a + bh;
    let abc = ab + c;
    let abcd = abc + dd;
    assert forall|i: int| 1 <= i <= 5 implies #[trigger] hdr(b, i, little) == header[i - 1] by {
        lemma_words_bytes(header, i - 1, little);
        lemma_word_prefix(abcd, e, 4 * i, little);
        lemma_word_prefix(abc, dd, 4 * i, little);
        lemma_word_prefix(ab, c, 4 * i, little);
        lemma_word_suffix(a, bh, 4 * (i - 1), little);
    }
    assert(hdr(b, 1, little) == header[0]);
    assert(hdr(b, 2, little) == header[1]);
    assert(hdr(b, 3, little) == header[2]);
    assert(hdr(b, 4, little) == header[3]);
    assert(hdr(b, 5, little) == header[4]);
    let d = m.depth.nbits();
    assert(depth_of(d) == m.depth);
    // the size word
    lemma_word_prefix(abcd, e, 24 + 4 * n, little);
    lemma_word_suffix(abc, dd, 0, little);
    assert(word_at(b, 4 * (6 + n), little) == rs);
    assert(4 * m.wpl * m.height == 4 * (m.wpl * m.height)) by (nonlinear_arith);
    assert(raster_size(m.width, m.height, d) == 4 * m.data.len());
    assert(layout_ok(b, little));
    // the colormap
    if n > 0 {
        let cm = m.cmap->0;
        let got = Seq::new(
            n as nat,
            |i: int| (b[24 + 4 * i], b[25 + 4 * i], b[26 + 4 * i], b[27 + 4 * i]),
        );
        assert forall|i: int| 0 <= i < n implies got[i] == colors[i] by {
            assert(c[4 * i + 0] == quad_at(colors[i], 0));
            assert(c[4 * i + 1] == quad_at(colors[i], 1));
            assert(c[4 * i + 2] == quad_at(colors[i], 2));
            assert(c[4 * i + 3] == quad_at(colors[i], 3));
        }
        assert(got =~= colors);
    }
    assert(spix_ok(b, little));
    // the raster
    let got = spix_image(b, little).data;
    assert forall|i: int| 0 <= i < m.data.len() implies got[i] == m.data[i] by {
        lemma_words_bytes(m.data, i, little);
        lemma_word_suffix(abcd, e, 4 * i, little);
    }
    assert(got =~= m.data);
}

// ---------------------------------------------------------------------------
// Executable helpers
// ---------------------------------------------------------------------------

/// The four bytes of a group, in order.
pub open spec fn quad_seq(q: (u8, u8, u8, u8)) -> Seq<u8> {
    seq![q.0, q.1, q.2, q.3]
}

/// std's `u32::to_ne_bytes`: the bytes of `w` in the machine's byte order,
/// which is least significant byte first or most significant byte first.
/// Which of the two it is depends on the machine and is not stated.
#[verifier::external_body]
fn ne_bytes(w: u32) -> (r: [u8; 4])
    ensures
        r@ == quad_seq(word_quad(w, true)) || r@ == quad_seq(word_quad(w, false)),
{
    w.to_ne_bytes()
}

/// Whether this machine stores words least significant byte first.
fn machine_little_endian() -> bool {
    let probe = ne_bytes(1);
    probe[0] == 1
}

/// Reads the word stored at byte offset `off` in the order `little` names.
fn read_word(data: &[u8], off: usize, little: bool) -> (w: u32)
    requires
        off + 4 <= data@.len(),
    ensures
        w == word_at(data@, off as int, little),
{
    let (b0, b1, b2, b3) = (data[off] as u32, data[off + 1] as u32, data[off + 2] as u32, data[off + 3] as u32);
    if little {
        b0 | (b1 << 8u32) | (b2 << 16u32) | (b3 << 24u32)
    } else {
        (b0 << 24u32) | (b1 << 16u32) | (b2 << 8u32) | b3
    }
}

/// Appends the bytes of `w` in the order `little` names.
fn push_word(out: &mut Vec<u8>, w: u32, little: bool)
    ensures
        final(out)@ == old(out)@ + words_bytes(seq![w], little),
{
    let b0 = (w & 0xff) as u8;
    let b1 = ((w >> 8u32) & 0xff) as u8;
    let b2 = ((w >> 16u32) & 0xff) as u8;
    let b3 = ((w >> 24u32) & 0xff) as u8;
    let q = if little {
        (b0, b1, b2, b3)
    } else {
        (b3, b2, b1, b0)
    };
    out.push(q.0);
    out.push(q.1);
    out.push(q.2);
    out.push(q.3);
    proof {
        let s = seq![w].map_values(|x: u32| word_quad(x, little));
        assert(s.drop_last() =~= Seq::<(u8, u8, u8, u8)>::empty());
        assert(quad_bytes(s.drop_last()) =~= Seq::<u8>::empty());
        assert(words_bytes(seq![w], little) =~= seq![q.0, q.1, q.2, q.3]);
    }
}

/// Appends the bytes of every word of `ws`.
fn push_words(out: &mut Vec<u8>, ws: &[u32], little: bool)
    ensures
        final(out)@ == old(out)@ + words_bytes(ws@, little),
{
    let ghost start = out@;
    let mut i: usize = 0;
    while i < ws.len()
        invariant
            i <= ws@.len(),
            out@ == start + words_bytes(ws@.take(i as int), little),
        decreases ws@.len() - i,
    {
        let ghost before = out@;
        push_word(out, ws[i], little);
        proof {
            let s = ws@.take(i as int + 1).map_values(|w: u32| word_quad(w, little));
            assert(s.drop_last() =~= ws@.take(i as int).map_values(|w: u32| word_quad(w, little)));
            let one = seq![ws@[i as int]].map_values(|w: u32| word_quad(w, little));
            assert(one.drop_last() =~= Seq::<(u8, u8, u8, u8)>::empty());
            assert(quad_bytes(one.drop_last()) =~= Seq::<u8>::empty());
            assert(words_bytes(ws@.take(i as int + 1), little) =~= words_bytes(ws@.take(i as int), little)
                + words_bytes(seq![ws@[i as int]], little));
            assert(out@ =~= start + words_bytes(ws@.take(i as int + 1), little));
        }
        i += 1;
    }
    assert(ws@.take(i as int) =~= ws@);
}

impl Pix {
    /// Serializes this image to SPIX bytes, every word in the machine's
    /// byte order (least or most significant byte first, the same for all
    /// words).
    pub fn write_spix_to_bytes(&self) -> (r: Result<Vec<u8>>)
        requires
            self@.wf(),
            self@.data.len() * 4 + 1060 <= usize::MAX,
        ensures
            r matches Ok(v) && (v@ == spix_bytes(self@, true) || v@ == spix_bytes(self@, false)),
    {
        let little = machine_little_endian();
        let w = self.width();
        let h = self.height();
        let wpl = self.wpl();
        let mut out: Vec<u8> = Vec::new();
        out.push(0x73u8);
        out.push(0x70u8);
        out.push(0x69u8);
        out.push(0x78u8);
        let ghost magic = out@;
        assert(magic =~= spix_magic());
        let ncolors: u32 = match self.colormap() {
            Some(c) => c.len() as u32,
            None => 0,
        };
        let header: [u32; 5] = [w, h, self.depth().bits(), wpl, ncolors];
        push_words(&mut out, header.as_slice(), little);
        let ghost after_header = out@;
        let ghost colors = cmap_colors(self@);
        assert(header@ =~= seq![self@.width, self@.height, self@.depth.nbits(), self@.wpl, colors.len() as u32]);
        match self.colormap() {
            Some(c) => {
                let n = c.len();
                let mut i: usize = 0;
                while i < n
                    invariant
                        i <= n,
                        n == c@.colors.len(),
                        c@.colors == colors,
                        out@ == after_header + quad_bytes(colors.take(i as int)),
                    decreases n - i,
                {
                    let q = c.get_rgba(i).unwrap();
                    out.push(q.0);
                    out.push(q.1);
                    out.push(q.2);
                    out.push(q.3);
                    proof {
                        assert(colors.take(i as int + 1).drop_last() =~= colors.take(i as int));
                        assert(out@ =~= after_header + quad_bytes(colors.take(i as int + 1)));
                    }
                    i += 1;
                }
                assert(colors.take(i as int) =~= colors);
            },
            None => {
                assert(colors =~= Seq::<(u8, u8, u8, u8)>::empty());
                assert(out@ =~= after_header + quad_bytes(colors));
            },
        }
        let ghost after_cmap = out@;
        assert((wpl as u64) * (h as u64) == self@.data.len());
        let area: u64 = (wpl as u64) * (h as u64);
        let rdatasize: u32 = #[verifier::truncate] ((4 * area) as u32);
        assert(4 * area == 4 * self@.wpl * self@.height) by (nonlinear_arith)
            requires
                area == self@.wpl * self@.height,
        ;
        push_word(&mut out, rdatasize, little);
        push_words(&mut out, self.data(), little);
        proof {
            assert(out@ =~= spix_bytes(self@, little));
        }
        Ok(out)
    }
}

/// Whether the data starts with the magic bytes.
fn has_magic(data: &[u8]) -> (b: bool)
    requires
        data@.len() >= 4,
    ensures
        b == (data@.subrange(0, 4) == spix_magic()),
{
    let b = data[0] == 0x73u8 && data[1] == 0x70u8 && data[2] == 0x69u8 && data[3] == 0x78u8;
    proof {
        let s = data@.subrange(0, 4);
        if b {
            assert(s =~= spix_magic());
        } else {
            assert(s[0] == data@[0] && s[1] == data@[1] && s[2] == data@[2] && s[3] == data@[3]);
            assert(s != spix_magic());
        }
    }
    b
}

impl Pix {
    /// Reads only the header of SPIX data, its words in the machine's byte
    /// order.
    ///
    /// # Errors
    ///
    /// [`Error::DecodeError`] if the data is shorter than a header or does
    /// not start with the magic bytes.
    pub fn read_spix_header(data: &[u8]) -> (r: Result<SpixHeader>)
        ensures
            r is Ok <==> header_ok(data@),
            r matches Ok(hd) ==> hd == header_of(data@, true) || hd == header_of(data@, false),
            r matches Err(e) ==> e is DecodeError,
    {
        let little = machine_little_endian();
        if data.len() < 28 {
            return Err(decode_error("SPIX data too short for header"));
        }
        if !has_magic(data) {
            return Err(decode_error("invalid SPIX magic bytes"));
        }
        Ok(
            SpixHeader {
                width: read_word(data, 4, little),
                height: read_word(data, 8, little),
                depth: read_word(data, 12, little),
                wpl: read_word(data, 16, little),
                ncolors: read_word(data, 20, little),
            },
        )
    }

    /// Reads an image from SPIX bytes, their words in the machine's byte
    /// order.
    ///
    /// # Errors
    ///
    /// [`Error::DecodeError`] for short or oversized data, wrong magic
    /// bytes, more than 256 colors, or sizes that disagree;
    /// [`Error::InvalidDimension`] for dimensions outside the limits;
    /// [`Error::InvalidDepth`] for an unknown depth, or a colormap on an
    /// image deeper than 8 bpp; [`Error::InvalidParameter`] for more colors
    /// than the depth allows.
    pub fn read_spix_from_bytes(data: &[u8]) -> (r: Result<Pix>)
        ensures
            spix_read(data@, r, true) || spix_read(data@, r, false),
    {
        let little = machine_little_endian();
        let r = Self::read_spix_in_order(data, little);
        r
    }

    /// Reads an image from SPIX bytes whose words are in the order `little`
    /// names.
    fn read_spix_in_order(data: &[u8], little: bool) -> (r: Result<Pix>)
        ensures
            spix_read(data@, r, little),
    {
        if data.len() < 28 {
            return Err(decode_error("SPIX data too short"));
        }
        if data.len() > 0x7fff_ffff {
            return Err(decode_error("SPIX data too large"));
        }
        if !has_magic(data) {
            return Err(decode_error("invalid SPIX magic bytes"));
        }
        let w = read_word(data, 4, little);
        let h = read_word(data, 8, little);
        let d = read_word(data, 12, little);
        let n = read_word(data, 20, little);
        if w < 1 || w > MAX_ALLOWED_WIDTH || h < 1 || h > MAX_ALLOWED_HEIGHT {
            return Err(Error::InvalidDimension { width: w, height: h });
        }
        assert((w as u64) * (h as u64) <= 1_000_000_000_000u64) by (nonlinear_arith)
            requires
                w <= 1_000_000u32,
                h <= 1_000_000u32,
        ;
        if (w as u64) * (h as u64) > MAX_ALLOWED_AREA {
            return Err(Error::InvalidDimension { width: w, height: h });
        }
        if n > 256 {
            return Err(decode_error("invalid ncolors"));
        }
        let depth = match PixelDepth::from_bits(d) {
            Ok(x) => x,
            Err(e) => {
                return Err(e);
            },
        };
        assert(depth == depth_of(d));
        let wpl = super::compute_wpl(w, depth);
        proof {
            super::model::lemma_wpl_bounds(w as int, depth);
            assert(wpl as int * h <= w as int * h) by (nonlinear_arith)
                requires
                    wpl <= w,
            ;
        }
        let npix: usize = (wpl as usize) * (h as usize);
        let pixdata_size: usize = 4 * npix;
        assert(pixdata_size == raster_size(w, h, d)) by (nonlinear_arith)
            requires
                pixdata_size == 4 * npix,
                npix == wpl * h,
                wpl == wpl_for(w as int, depth_of(d)),
        ;
        let rdata_size_word: usize = 6 + n as usize;
        if data.len() < (rdata_size_word + 1) * 4 {
            return Err(decode_error("SPIX data truncated"));
        }
        let memdata_size = data.len() - 24 - 4 * (n as usize) - 4;
        let imdata_size = read_word(data, rdata_size_word * 4, little) as usize;
        if pixdata_size != memdata_size || pixdata_size != imdata_size {
            return Err(decode_error("SPIX data size mismatch"));
        }
        assert(layout_ok(data@, little));
        let mut pm = match PixMut::new(w, h, depth) {
            Ok(p) => p,
            Err(e) => {
                return Err(e);
            },
        };
        pm.set_informat(ImageFormat::Spix);
        if n > 0 {
            if !(d == 1 || d == 2 || d == 4 || d == 8) {
                return Err(Error::InvalidDepth(d));
            }
            let mut cmap = match PixColormap::new(d) {
                Ok(c) => c,
                Err(e) => {
                    return Err(e);
                },
            };
            if n as usize > cmap.max_entries() {
                return Err(invalid_param("colormap is full"));
            }
            let ghost colors = Seq::new(
                n as nat,
                |i: int| (data@[24 + 4 * i], data@[25 + 4 * i], data@[26 + 4 * i], data@[27 + 4 * i]),
            );
            let mut i: usize = 0;
            while i < n as usize
                invariant
                    i <= n <= cmap_capacity(d),
                    cmap@.wf(),
                    cmap@.depth == d,
                    data@.len() >= 4 * (7 + n),
                    colors == Seq::new(
                        n as nat,
                        |i: int| (data@[24 + 4 * i], data@[25 + 4 * i], data@[26 + 4 * i], data@[27 + 4 * i]),
                    ),
                    cmap@.colors == colors.take(i as int),
                decreases n - i,
            {
                let base = 24 + 4 * i;
                let added = cmap.add_rgba(data[base], data[base + 1], data[base + 2], data[base + 3]);
                assert(added is Ok);
                proof {
                    assert(cmap@.colors =~= colors.take(i as int + 1));
                }
                i += 1;
            }
            assert(colors.take(i as int) =~= colors);
            let set = pm.set_colormap(Some(cmap));
            assert(set is Ok);
        }
        let start = rdata_size_word * 4 + 4;
        let mut words: Vec<u32> = Vec::new();
        let mut i: usize = 0;
        while i < npix
            invariant
                i <= npix,
                start == 28 + 4 * n,
                start + 4 * npix == data@.len(),
                data@.len() <= 0x7fff_ffff,
                words@.len() == i,
                forall|j: int| 0 <= j < i ==> #[trigger] words@[j] == word_at(data@, start + 4 * j, little),
            decreases npix - i,
        {
            words.push(read_word(data, start + 4 * i, little));
            i += 1;
        }
        assert(words@ =~= Seq::new(npix as nat, |j: int| word_at(data@, 28 + 4 * n + 4 * j, little)));
        pm.replace_data(words);
        let p = pm.into_pix();
        assert(p@ =~= spix_image(data@, little));
        Ok(p)
    }
}

} // verus!
