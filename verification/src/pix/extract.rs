//! Reading pixel values along lines, and sorting rows and columns.

use vstd::prelude::*;
use super::{Pix, PixMut, PixelDepth, PixModel};
use crate::error::{Error, Result, invalid_param, not_supported};
use crate::numa::Numa;

verus! {

/// Direction for profile scanning.
#[derive(Debug, Clone, Copy, PartialEq, Eq, Structural)]
pub enum ProfileDirection {
    /// Along rows.
    Horizontal,
    /// Along columns.
    Vertical,
}

// ---------------------------------------------------------------------------
// Values along a line
// ---------------------------------------------------------------------------

/// `v` clamped to `lo..=hi`.
pub open spec fn clamp(v: int, lo: int, hi: int) -> int {
    if v < lo {
        lo
    } else if v > hi {
        hi
    } else {
        v
    }
}

/// The endpoints of a line moved into the image.
pub open spec fn clipped_ends(m: PixModel, x1: i32, y1: i32, x2: i32, y2: i32) -> (int, int, int, int) {
    (
        clamp(x1 as int, 0, m.width - 1),
        clamp(y1 as int, 0, m.height - 1),
        clamp(x2 as int, 0, m.width - 1),
        clamp(y2 as int, 0, m.height - 1),
    )
}

/// The clipped line runs along a row or a column, or is a single point.
pub open spec fn is_axis_line(m: PixModel, x1: i32, y1: i32, x2: i32, y2: i32) -> bool {
    let (a, b, c, d) = clipped_ends(m, x1, y1, x2, y2);
    a == c || b == d
}

/// The values read along an axis-aligned clipped line: the single point,
/// or every `f`-th pixel from the left (or top) end.
pub open spec fn axis_values(m: PixModel, x1: i32, y1: i32, x2: i32, y2: i32, f: i32) -> Seq<i64> {
    let (a, b, c, d) = clipped_ends(m, x1, y1, x2, y2);
    if a == c && b == d {
        seq![m.pixel(a, b) as i64]
    } else if b == d {
        let lo = if a < c { a } else { c };
        let hi = if a < c { c } else { a };
        Seq::new(((hi - lo) / f as int + 1) as nat, |k: int| m.pixel(lo + k * f, b) as i64)
    } else {
        let lo = if b < d { b } else { d };
        let hi = if b < d { d } else { b };
        Seq::new(((hi - lo) / f as int + 1) as nat, |k: int| m.pixel(a, lo + k * f) as i64)
    }
}

/// Reading along a line is accepted.
pub open spec fn extract_accepted(m: PixModel, f: i32) -> bool {
    (m.depth == PixelDepth::Bit1 || m.depth == PixelDepth::Bit8) && m.cmap is None && f >= 1
}

/// Pixels `lo, lo + f, ...` up to `hi` of row `y` (or of column `x` when
/// `vertical`), in order.
fn read_run(pix: &Pix, lo: u32, hi: u32, fixed: u32, f: u32, vertical: bool) -> (r: Vec<i64>)
    requires
        pix@.wf(),
        f >= 1,
        lo <= hi,
        hi + f <= i32::MAX,
        vertical ==> hi < pix@.height && fixed < pix@.width,
        !vertical ==> hi < pix@.width && fixed < pix@.height,
    ensures
        r@ == Seq::new(
            ((hi - lo) / f as int + 1) as nat,
            |k: int|
                if vertical {
                    pix@.pixel(fixed as int, lo + k * f) as i64
                } else {
                    pix@.pixel(lo + k * f, fixed as int) as i64
                },
        ),
{
    let ghost n = (hi - lo) / f as int + 1;
    let mut out: Vec<i64> = Vec::new();
    let mut i: u32 = lo;
    let ghost mut k: int = 0;
    while i <= hi
        invariant
            pix@.wf(),
            f >= 1,
            lo <= hi,
            hi + f <= i32::MAX,
            vertical ==> hi < pix@.height && fixed < pix@.width,
            !vertical ==> hi < pix@.width && fixed < pix@.height,
            n == (hi - lo) / f as int + 1,
            i == lo + k * f,
            0 <= k,
            i <= hi ==> k < n,
            i > hi ==> k == n,
            out@.len() == k,
            forall|j: int|
                0 <= j < k ==> #[trigger] out@[j] == if vertical {
                    pix@.pixel(fixed as int, lo + j * f) as i64
                } else {
                    pix@.pixel(lo + j * f, fixed as int) as i64
                },
        decreases hi + f - i,
    {
        let v = if vertical {
            pix.get_pixel_unchecked(fixed, i)
        } else {
            pix.get_pixel_unchecked(i, fixed)
        };
        out.push(v as i64);
        i = i + f;
        proof {
            assert(i == lo + (k + 1) * f) by (nonlinear_arith)
                requires
                    i == lo + k * f + f,
            ;
            k = k + 1;
            vstd::arithmetic::div_mod::lemma_fundamental_div_mod(hi - lo, f as int);
            let q = (hi - lo) / f as int;
            let r = (hi - lo) % f as int;
            if i <= hi {
                assert(k * f <= hi - lo);
                assert(k <= q) by (nonlinear_arith)
                    requires
                        k * f <= hi - lo,
                        hi - lo == f * q + r,
                        0 <= r < f,
                        f >= 1,
                ;
            } else {
                assert(k * f > hi - lo);
                assert((k - 1) * f <= hi - lo) by (nonlinear_arith)
                    requires
                        i == lo + k * f,
                        i - f <= hi,
                ;
                assert(k == q + 1) by (nonlinear_arith)
                    requires
                        k * f > hi - lo,
                        (k - 1) * f <= hi - lo,
                        hi - lo == f * q + r,
                        0 <= r < f,
                        f >= 1,
                ;
            }
        }
    }
    assert(out@ =~= Seq::new(
        ((hi - lo) / f as int + 1) as nat,
        |k: int|
            if vertical {
                pix@.pixel(fixed as int, lo + k * f) as i64
            } else {
                pix@.pixel(lo + k * f, fixed as int) as i64
            },
    ));
    out
}

/// `v` clamped to `0..=hi`.
fn clamp_to(v: i32, hi: i32) -> (r: i32)
    requires
        hi >= 0,
    ensures
        r == clamp(v as int, 0, hi as int),
{
    if v < 0 {
        0
    } else if v > hi {
        hi
    } else {
        v
    }
}

impl Pix {
    /// Reads the values of a 1 or 8 bpp image along the line from
    /// `(x1, y1)` to `(x2, y2)`, after moving the endpoints into the image,
    /// when the line runs along a row or a column (every `factor`-th pixel
    /// from the left or top end) or is a single point. Returns `None` for
    /// an oblique line, whose sample positions are computed in floating
    /// point outside this library.
    ///
    /// # Errors
    ///
    /// [`Error::UnsupportedDepth`] for depths other than 1 and 8;
    /// [`Error::NotSupported`] for colormapped images;
    /// [`Error::InvalidParameter`] if `factor` is below 1.
    pub fn extract_on_axis_line(&self, x1: i32, y1: i32, x2: i32, y2: i32, factor: i32) -> (r: Result<Option<Numa>>)
        requires
            self@.wf(),
            self@.width + factor <= i32::MAX,
            self@.height + factor <= i32::MAX,
        ensures
            r is Ok <==> extract_accepted(self@, factor),
            r matches Ok(o) ==> (o is Some <==> is_axis_line(self@, x1, y1, x2, y2)),
            r matches Ok(Some(n)) ==> n@ == axis_values(self@, x1, y1, x2, y2, factor),
            r matches Err(e) ==> (if self@.depth != PixelDepth::Bit1 && self@.depth != PixelDepth::Bit8 {
                e == Error::UnsupportedDepth(self@.depth.nbits())
            } else if self@.cmap is Some {
                e is NotSupported
            } else {
                e is InvalidParameter
            }),
    {
        let d = self.depth();
        if d != PixelDepth::Bit1 && d != PixelDepth::Bit8 {
            return Err(Error::UnsupportedDepth(d.bits()));
        }
        if self.has_colormap() {
            return Err(not_supported("extract_on_line does not support colormapped images"));
        }
        if factor < 1 {
            return Err(invalid_param("factor must be >= 1"));
        }
        let w = self.width() as i32;
        let h = self.height() as i32;
        let cx1 = clamp_to(x1, w - 1);
        let cx2 = clamp_to(x2, w - 1);
        let cy1 = clamp_to(y1, h - 1);
        let cy2 = clamp_to(y2, h - 1);
        if cx1 == cx2 && cy1 == cy2 {
            let v = self.get_pixel_unchecked(cx1 as u32, cy1 as u32);
            let mut n = Numa::new();
            n.push(v as i64);
            assert(n@ =~= axis_values(self@, x1, y1, x2, y2, factor));
            return Ok(Some(n));
        }
        if cy1 == cy2 {
            let lo = if cx1 < cx2 {
                cx1
            } else {
                cx2
            };
            let hi = if cx1 < cx2 {
                cx2
            } else {
                cx1
            };
            let vals = read_run(self, lo as u32, hi as u32, cy1 as u32, factor as u32, false);
            let n = Numa::from_vec(vals);
            assert(n@ =~= axis_values(self@, x1, y1, x2, y2, factor));
            return Ok(Some(n));
        }
        if cx1 == cx2 {
            let lo = if cy1 < cy2 {
                cy1
            } else {
                cy2
            };
            let hi = if cy1 < cy2 {
                cy2
            } else {
                cy1
            };
            let vals = read_run(self, lo as u32, hi as u32, cx1 as u32, factor as u32, true);
            let n = Numa::from_vec(vals);
            assert(n@ =~= axis_values(self@, x1, y1, x2, y2, factor));
            return Ok(Some(n));
        }
        Ok(None)
    }
}

// ---------------------------------------------------------------------------
// Sorting rows and columns
// ---------------------------------------------------------------------------

/// How many values of `s` are below `v`.
pub open spec fn count_lt(s: Seq<u32>, v: int) -> int
    decreases s.len(),
{
    if s.len() == 0 {
        0
    } else {
        count_lt(s.drop_last(), v) + if (s.last() as int) < v {
            1int
        } else {
            0int
        }
    }
}

/// How many values of `s` equal `v`.
pub open spec fn count_eq(s: Seq<u32>, v: int) -> int
    decreases s.len(),
{
    if s.len() == 0 {
        0
    } else {
        count_eq(s.drop_last(), v) + if s.last() as int == v {
            1int
        } else {
            0int
        }
    }
}

/// Position `j` of `s` sorted in increasing order holds `v`: exactly
/// `count_lt(s, v) <= j < count_lt(s, v + 1)`.
pub open spec fn sorted_at(s: Seq<u32>, j: int, v: u32) -> bool {
    count_lt(s, v as int) <= j < count_lt(s, v + 1)
}

/// Row `y` of an image.
pub open spec fn row_of(m: PixModel, y: int) -> Seq<u32> {
    Seq::new(m.width as nat, |x: int| m.pixel(x, y))
}

/// Column `x` of an image.
pub open spec fn col_of(m: PixModel, x: int) -> Seq<u32> {
    Seq::new(m.height as nat, |y: int| m.pixel(x, y))
}

proof fn lemma_count_step(s: Seq<u32>, v: int)
    ensures
        count_lt(s, v + 1) == count_lt(s, v) + count_eq(s, v),
        0 <= count_eq(s, v) <= s.len(),
        0 <= count_lt(s, v) <= s.len(),
        count_lt(s, v + 1) <= s.len(),
    decreases s.len(),
{
    if s.len() > 0 {
        lemma_count_step(s.drop_last(), v);
    }
}

proof fn lemma_count_all(s: Seq<u32>)
    requires
        forall|i: int| 0 <= i < s.len() ==> #[trigger] s[i] < 256,
    ensures
        count_lt(s, 256) == s.len(),
        count_lt(s, 0) == 0,
    decreases s.len(),
{
    if s.len() > 0 {
        let t = s.drop_last();
        assert forall|i: int| 0 <= i < t.len() implies #[trigger] t[i] < 256 by {
            assert(t[i] == s[i]);
        }
        lemma_count_all(t);
        assert(s.last() == s[s.len() - 1]);
    }
}

/// The values of `vals`, all below 256, in increasing order, written at
/// `(j, i)` (or `(i, j)` when `by_column`) for `j` from 0.
fn write_sorted(pixd: &mut PixMut, vals: &Vec<u32>, i: u32, by_column: bool)
    requires
        old(pixd)@.wf(),
        old(pixd)@.depth == PixelDepth::Bit8,
        forall|k: int| 0 <= k < vals@.len() ==> #[trigger] vals@[k] < 256,
        by_column ==> i < old(pixd)@.width && vals@.len() == old(pixd)@.height,
        !by_column ==> i < old(pixd)@.height && vals@.len() == old(pixd)@.width,
    ensures
        final(pixd)@.wf(),
        final(pixd)@.same_meta(old(pixd)@),
        forall|x: int, y: int|
            #![trigger final(pixd)@.pixel(x, y)]
            final(pixd)@.contains(x, y) && (if by_column { x != i } else { y != i }) ==> final(pixd)@.pixel(x, y) == old(pixd)@.pixel(x, y),
        forall|j: int|
            0 <= j < vals@.len() ==> #[trigger] sorted_at(
                vals@,
                j,
                line_px(final(pixd)@, i as int, j, by_column),
            ),
{
    let ghost m0 = pixd@;
    let n = vals.len();
    let mut histo: Vec<u32> = vec![0u32; 256];
    let mut k: usize = 0;
    while k < n
        invariant
            k <= n,
            n == vals@.len(),
            n <= u32::MAX,
            histo@.len() == 256,
            forall|v: int| 0 <= v < 256 ==> #[trigger] histo@[v] == count_eq(vals@.take(k as int), v),
            forall|k: int| 0 <= k < vals@.len() ==> #[trigger] vals@[k] < 256,
        decreases n - k,
    {
        let v = vals[k] as usize;
        proof {
            let t = vals@.take(k as int + 1);
            assert(t.drop_last() =~= vals@.take(k as int));
            lemma_count_step(vals@.take(k as int), v as int);
        }
        let c = histo[v];
        histo.set(v, c + 1);
        proof {
            let t = vals@.take(k as int + 1);
            assert forall|u: int| 0 <= u < 256 implies #[trigger] histo@[u] == count_eq(t, u) by {
                assert(t.last() == vals@[k as int]);
            }
        }
        k = k + 1;
    }
    assert(vals@.take(n as int) =~= vals@);
    proof {
        lemma_count_all(vals@);
    }
    let mut j: u32 = 0;
    let mut m: u32 = 0;
    while m < 256
        invariant
            m <= 256,
            n == vals@.len(),
            histo@.len() == 256,
            forall|v: int| 0 <= v < 256 ==> #[trigger] histo@[v] == count_eq(vals@, v),
            forall|k: int| 0 <= k < vals@.len() ==> #[trigger] vals@[k] < 256,
            count_lt(vals@, 256) == n,
            j == count_lt(vals@, m as int),
            m0.wf(),
            m0.depth == PixelDepth::Bit8,
            by_column ==> i < m0.width && n == m0.height,
            !by_column ==> i < m0.height && n == m0.width,
            pixd@.wf(),
            pixd@.same_meta(m0),
            forall|x: int, y: int|
                #![trigger pixd@.pixel(x, y)]
                pixd@.contains(x, y) && (if by_column { x != i } else { y != i }) ==> pixd@.pixel(x, y) == m0.pixel(x, y),
            forall|jj: int|
                0 <= jj < j ==> #[trigger] sorted_at(
                    vals@,
                    jj,
                    line_px(pixd@, i as int, jj, by_column),
                ),
        decreases 256 - m,
    {
        proof {
            lemma_count_step(vals@, m as int);
            lemma_count_mono(vals@, m as int + 1, 256);
        }
        let count = histo[m as usize];
        let mut c: u32 = 0;
        while c < count
            invariant
                c <= count,
                count == count_eq(vals@, m as int),
                m < 256,
                n == vals@.len(),
                count_lt(vals@, m as int + 1) == count_lt(vals@, m as int) + count,
                count_lt(vals@, m as int + 1) <= n,
                j == count_lt(vals@, m as int) + c,
                m0.wf(),
                m0.depth == PixelDepth::Bit8,
                by_column ==> i < m0.width && n == m0.height,
                !by_column ==> i < m0.height && n == m0.width,
                pixd@.wf(),
                pixd@.same_meta(m0),
                forall|x: int, y: int|
                    #![trigger pixd@.pixel(x, y)]
                    pixd@.contains(x, y) && (if by_column { x != i } else { y != i }) ==> pixd@.pixel(x, y) == m0.pixel(x, y),
                forall|jj: int|
                    0 <= jj < j ==> #[trigger] sorted_at(
                        vals@,
                        jj,
                        line_px(pixd@, i as int, jj, by_column),
                    ),
            decreases count - c,
        {
            let ghost before = pixd@;
            if by_column {
                pixd.set_pixel_unchecked(i, j, m);
            } else {
                pixd.set_pixel_unchecked(j, i, m);
            }
            proof {
                super::raster::lemma_stored_small(PixelDepth::Bit8, m);
                assert(line_px(pixd@, i as int, j as int, by_column) == m);
                assert forall|jj: int| 0 <= jj < j + 1 implies #[trigger] sorted_at(
                    vals@,
                    jj,
                    line_px(pixd@, i as int, jj, by_column),
                ) by {
                    if jj < j {
                        if by_column {
                            assert(pixd@.pixel(i as int, jj) == before.pixel(i as int, jj));
                        } else {
                            assert(pixd@.pixel(jj, i as int) == before.pixel(jj, i as int));
                        }
                        assert(sorted_at(vals@, jj, line_px(before, i as int, jj, by_column)));
                    }
                }
            }
            j = j + 1;
            c = c + 1;
        }
        m = m + 1;
    }
}

/// Pixel `j` of row `i`, or of column `i` when `by_column`.
pub open spec fn line_px(m: PixModel, i: int, j: int, by_column: bool) -> u32 {
    if by_column {
        m.pixel(i, j)
    } else {
        m.pixel(j, i)
    }
}

/// Counts below a larger bound are no smaller.
proof fn lemma_count_mono(s: Seq<u32>, a: int, b: int)
    requires
        a <= b,
    ensures
        count_lt(s, a) <= count_lt(s, b),
        count_lt(s, b) <= s.len(),
    decreases s.len(),
{
    if s.len() > 0 {
        lemma_count_mono(s.drop_last(), a, b);
    }
}

/// The values of row `y` (or column `y` when `by_column`).
fn line_values(pix: &Pix, y: u32, by_column: bool) -> (r: Vec<u32>)
    requires
        pix@.wf(),
        pix@.depth == PixelDepth::Bit8,
        by_column ==> y < pix@.width,
        !by_column ==> y < pix@.height,
    ensures
        by_column ==> r@ == col_of(pix@, y as int),
        !by_column ==> r@ == row_of(pix@, y as int),
        forall|k: int| 0 <= k < r@.len() ==> #[trigger] r@[k] < 256,
{
    let n = if by_column {
        pix.height()
    } else {
        pix.width()
    };
    let mut out: Vec<u32> = Vec::new();
    let mut k: u32 = 0;
    while k < n
        invariant
            pix@.wf(),
            pix@.depth == PixelDepth::Bit8,
            by_column ==> y < pix@.width && n == pix@.height,
            !by_column ==> y < pix@.height && n == pix@.width,
            k <= n,
            out@.len() == k,
            forall|j: int|
                0 <= j < k ==> #[trigger] out@[j] == if by_column {
                    pix@.pixel(y as int, j)
                } else {
                    pix@.pixel(j, y as int)
                },
            forall|j: int| 0 <= j < k ==> #[trigger] out@[j] < 256,
        decreases n - k,
    {
        let v = if by_column {
            pix.get_pixel_unchecked(y, k)
        } else {
            pix.get_pixel_unchecked(k, y)
        };
        proof {
            if by_column {
                super::raster::lemma_stored_pixel(pix@, y as int, k as int);
            } else {
                super::raster::lemma_stored_pixel(pix@, k as int, y as int);
            }
        }
        out.push(v);
        k = k + 1;
    }
    proof {
        if by_column {
            assert(out@ =~= col_of(pix@, y as int));
        } else {
            assert(out@ =~= row_of(pix@, y as int));
        }
    }
    out
}

/// The transform is accepted.
pub open spec fn rank_accepted(m: PixModel) -> bool {
    m.depth == PixelDepth::Bit8 && m.cmap is None
}

impl Pix {
    /// Sorts each row of an 8 bpp image in increasing order: pixel `(x, y)`
    /// of the result is the value at position `x` of row `y` sorted. The
    /// result keeps the resolution.
    ///
    /// # Errors
    ///
    /// [`Error::UnsupportedDepth`] for depths other than 8;
    /// [`Error::InvalidParameter`] for colormapped images.
    pub fn rank_row_transform(&self) -> (r: Result<Pix>)
        requires
            self@.wf(),
        ensures
            r is Ok <==> rank_accepted(self@),
            r matches Ok(p) ==> p@.created(self@.width, self@.height, PixelDepth::Bit8, self@.xres, self@.yres),
            r matches Ok(p) ==> forall|x: int, y: int|
                #![trigger p@.pixel(x, y)]
                p@.contains(x, y) ==> sorted_at(row_of(self@, y), x, p@.pixel(x, y)),
            r matches Err(e) ==> (if self@.depth != PixelDepth::Bit8 {
                e == Error::UnsupportedDepth(self@.depth.nbits())
            } else {
                e is InvalidParameter
            }),
    {
        self.rank_transform(false)
    }

    /// Sorts each column of an 8 bpp image in increasing order: pixel
    /// `(x, y)` of the result is the value at position `y` of column `x`
    /// sorted. The result keeps the resolution.
    ///
    /// # Errors
    ///
    /// [`Error::UnsupportedDepth`] for depths other than 8;
    /// [`Error::InvalidParameter`] for colormapped images.
    pub fn rank_column_transform(&self) -> (r: Result<Pix>)
        requires
            self@.wf(),
        ensures
            r is Ok <==> rank_accepted(self@),
            r matches Ok(p) ==> p@.created(self@.width, self@.height, PixelDepth::Bit8, self@.xres, self@.yres),
            r matches Ok(p) ==> forall|x: int, y: int|
                #![trigger p@.pixel(x, y)]
                p@.contains(x, y) ==> sorted_at(col_of(self@, x), y, p@.pixel(x, y)),
            r matches Err(e) ==> (if self@.depth != PixelDepth::Bit8 {
                e == Error::UnsupportedDepth(self@.depth.nbits())
            } else {
                e is InvalidParameter
            }),
    {
        self.rank_transform(true)
    }

    /// Sorts every row, or every column when `by_column`.
    fn rank_transform(&self, by_column: bool) -> (r: Result<Pix>)
        requires
            self@.wf(),
        ensures
            r is Ok <==> rank_accepted(self@),
            r matches Ok(p) ==> p@.created(self@.width, self@.height, PixelDepth::Bit8, self@.xres, self@.yres),
            r matches Ok(p) ==> forall|x: int, y: int|
                #![trigger p@.pixel(x, y)]
                p@.contains(x, y) ==> if by_column {
                    sorted_at(col_of(self@, x), y, p@.pixel(x, y))
                } else {
                    sorted_at(row_of(self@, y), x, p@.pixel(x, y))
                },
            r matches Err(e) ==> (if self@.depth != PixelDepth::Bit8 {
                e == Error::UnsupportedDepth(self@.depth.nbits())
            } else {
                e is InvalidParameter
            }),
    {
        if self.depth() != PixelDepth::Bit8 {
            return Err(Error::UnsupportedDepth(self.depth().bits()));
        }
        if self.has_colormap() {
            return Err(invalid_param("rank transform: image must not have a colormap"));
        }
        let w = self.width();
        let h = self.height();
        proof {
            self@.lemma_new_ok();
        }
        let mut pixd = match PixMut::new(w, h, PixelDepth::Bit8) {
            Ok(p) => p,
            Err(e) => {
                return Err(e);
            },
        };
        pixd.set_resolution(self.xres(), self.yres());
        let ghost m0 = pixd@;
        let n = if by_column {
            w
        } else {
            h
        };
        let mut i: u32 = 0;
        while i < n
            invariant
                self@.wf(),
                self@.depth == PixelDepth::Bit8,
                w == self@.width,
                h == self@.height,
                n == (if by_column { w } else { h }),
                i <= n,
                m0.created(w, h, PixelDepth::Bit8, self@.xres, self@.yres),
                pixd@.wf(),
                pixd@.same_meta(m0),
                forall|x: int, y: int|
                    #![trigger pixd@.pixel(x, y)]
                    pixd@.contains(x, y) && (if by_column { x < i } else { y < i }) ==> if by_column {
                        sorted_at(col_of(self@, x), y, pixd@.pixel(x, y))
                    } else {
                        sorted_at(row_of(self@, y), x, pixd@.pixel(x, y))
                    },
            decreases n - i,
        {
            let vals = line_values(self, i, by_column);
            let ghost before = pixd@;
            write_sorted(&mut pixd, &vals, i, by_column);
            proof {
                assert forall|x: int, y: int|
                    #![trigger pixd@.pixel(x, y)]
                    pixd@.contains(x, y) && (if by_column { x < i + 1 } else { y < i + 1 }) implies if by_column {
                        sorted_at(col_of(self@, x), y, pixd@.pixel(x, y))
                    } else {
                        sorted_at(row_of(self@, y), x, pixd@.pixel(x, y))
                    } by {
                    if by_column {
                        if x != i {
                            assert(pixd@.pixel(x, y) == before.pixel(x, y));
                        } else {
                            assert(sorted_at(vals@, y, line_px(pixd@, i as int, y, by_column)));
                        }
                    } else {
                        if y != i {
                            assert(pixd@.pixel(x, y) == before.pixel(x, y));
                        } else {
                            assert(sorted_at(vals@, x, line_px(pixd@, i as int, x, by_column)));
                        }
                    }
                }
            }
            i = i + 1;
        }
        Ok(pixd.into_pix())
    }
}

// ---------------------------------------------------------------------------
// Laws
// ---------------------------------------------------------------------------

/// A line sorted by [`sorted_at`] is in increasing order, and each value
/// fills exactly `count_eq(s, v)` consecutive positions: sorting keeps
/// every value as often as it occurs.
pub proof fn law_sorted_line(s: Seq<u32>, out: Seq<u32>)
    requires
        out.len() == s.len(),
        forall|j: int| 0 <= j < s.len() ==> #[trigger] sorted_at(s, j, out[j]),
    ensures
        forall|i: int, j: int| 0 <= i <= j < out.len() ==> out[i] <= out[j],
        forall|v: u32, j: int|
            #![trigger out[j], count_lt(s, v as int)]
            0 <= j < out.len() ==> (out[j] == v <==> count_lt(s, v as int) <= j < count_lt(s, v + 1)),
        forall|v: u32| #[trigger] count_lt(s, v + 1) - count_lt(s, v as int) == count_eq(s, v as int),
{
    assert forall|i: int, j: int| 0 <= i <= j < out.len() implies out[i] <= out[j] by {
        assert(sorted_at(s, i, out[i]) && sorted_at(s, j, out[j]));
        if out[i] > out[j] {
            lemma_count_mono(s, out[j] + 1, out[i] as int);
        }
    }
    assert forall|v: u32, j: int|
        #![trigger out[j], count_lt(s, v as int)]
        0 <= j < out.len() implies (out[j] == v <==> count_lt(s, v as int) <= j < count_lt(s, v + 1)) by {
        assert(sorted_at(s, j, out[j]));
        if out[j] < v {
            lemma_count_mono(s, out[j] + 1, v as int);
        } else if out[j] > v {
            lemma_count_mono(s, v + 1, out[j] as int);
        }
    }
    assert forall|v: u32| #[trigger] count_lt(s, v + 1) - count_lt(s, v as int) == count_eq(s, v as int) by {
        lemma_count_step(s, v as int);
    }
}

} // verus!
