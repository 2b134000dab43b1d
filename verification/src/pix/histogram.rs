//! Histograms of pixel values, colormap indices and color channels, over
//! the whole image, a rectangle or the ON pixels of a mask, with
//! subsampling.
//!
//! Every histogram counts the samples taken every `factor` pixels along
//! each axis from the start of the region.

use vstd::prelude::*;
use super::{Pix, PixelDepth, PixModel};
use super::model::pmask;
use crate::box_::{Box, clip_spec};
use crate::color::{red_of, green_of, blue_of};
use crate::error::{Error, Result, invalid_param};
use crate::numa::{Numa, Numaa};
use std::collections::HashSet;

verus! {

/// Red, green and blue histograms of 256 bins each.
#[derive(Debug, Clone)]
pub struct ColorHistogram {
    /// Red channel histogram.
    pub red: Numa,
    /// Green channel histogram.
    pub green: Numa,
    /// Blue channel histogram.
    pub blue: Numa,
}

// ---------------------------------------------------------------------------
// Counting over a sampling grid
// ---------------------------------------------------------------------------

/// Number of samples taken every `f` positions over `n` positions.
pub open spec fn nsamples(n: int, f: int) -> int {
    if n <= 0 {
        0
    } else {
        (n + f - 1) / f
    }
}

/// How many samples of row `i` among the first `nc` fall in bin `v`;
/// `g(i, j)` is the bin of sample `(i, j)`, or `None` when it is not
/// counted.
pub open spec fn row_count(g: spec_fn(int, int) -> Option<int>, i: int, nc: int, v: int) -> int
    decreases nc,
{
    if nc <= 0 {
        0
    } else {
        row_count(g, i, nc - 1, v) + if g(i, nc - 1) == Some(v) {
            1int
        } else {
            0int
        }
    }
}

/// How many samples of the first `nr` rows fall in bin `v`.
pub open spec fn grid_count(g: spec_fn(int, int) -> Option<int>, nr: int, nc: int, v: int) -> int
    decreases nr,
{
    if nr <= 0 {
        0
    } else {
        grid_count(g, nr - 1, nc, v) + row_count(g, nr - 1, nc, v)
    }
}

/// The histogram of `nbins` bins of an `nr` by `nc` grid of samples.
pub open spec fn hist_of(g: spec_fn(int, int) -> Option<int>, nr: int, nc: int, nbins: int) -> Seq<i64> {
    Seq::new(nbins as nat, |v: int| grid_count(g, nr, nc, v) as i64)
}

/// An optional bin as an integer.
pub open spec fn opt_bin(o: Option<usize>) -> Option<int> {
    match o {
        Some(b) => Some(b as int),
        None => None,
    }
}

proof fn lemma_row_count_bound(g: spec_fn(int, int) -> Option<int>, i: int, nc: int, v: int)
    requires
        nc >= 0,
    ensures
        0 <= row_count(g, i, nc, v) <= nc,
    decreases nc,
{
    if nc > 0 {
        lemma_row_count_bound(g, i, nc - 1, v);
    }
}

pub(crate) proof fn lemma_grid_count_bound(g: spec_fn(int, int) -> Option<int>, nr: int, nc: int, v: int)
    requires
        nr >= 0,
        nc >= 0,
    ensures
        0 <= grid_count(g, nr, nc, v) <= nr * nc,
    decreases nr,
{
    if nr > 0 {
        lemma_grid_count_bound(g, nr - 1, nc, v);
        lemma_row_count_bound(g, nr - 1, nc, v);
        assert((nr - 1) * nc + nc == nr * nc) by (nonlinear_arith);
    }
}

/// Sample `j` of `nsamples(n, f)` lies before `n`.
pub(crate) proof fn lemma_sample_in(j: int, n: int, f: int)
    requires
        f >= 1,
        0 <= j < nsamples(n, f),
    ensures
        0 <= j * f < n,
        (j + 1) * f <= n + f - 1,
{
    let q = (n + f - 1) / f;
    vstd::arithmetic::div_mod::lemma_fundamental_div_mod(n + f - 1, f);
    assert(f * q <= n + f - 1);
    assert((j + 1) * f <= q * f) by (nonlinear_arith)
        requires
            j + 1 <= q,
            f >= 1,
    ;
    assert(j * f >= 0) by (nonlinear_arith)
        requires
            j >= 0,
            f >= 1,
    ;
    assert((j + 1) * f == j * f + f) by (nonlinear_arith);
}

/// There are no more samples than positions.
pub(crate) proof fn lemma_nsamples_bound(n: int, f: int)
    requires
        f >= 1,
    ensures
        0 <= nsamples(n, f),
        n >= 0 ==> nsamples(n, f) <= n,
{
    if n > 0 {
        vstd::arithmetic::div_mod::lemma_fundamental_div_mod(n + f - 1, f);
        let q = (n + f - 1) / f;
        assert(q >= 0) by (nonlinear_arith)
            requires
                f * q + (n + f - 1) % f == n + f - 1,
                0 <= (n + f - 1) % f < f,
                f >= 1,
                n >= 1,
        ;
        assert(q <= n) by (nonlinear_arith)
            requires
                f * q <= n + f - 1,
                f >= 1,
                n >= 1,
                q >= 0,
        ;
    }
}

/// Counts the bins of an `nr` by `nc` grid of samples, row by row.
fn count_grid<F: Fn(u32, u32) -> Option<usize>>(
    nr: u32,
    nc: u32,
    nbins: usize,
    f: F,
    Ghost(g): Ghost<spec_fn(int, int) -> Option<int>>,
) -> (r: Vec<i64>)
    requires
        nr * nc <= i64::MAX,
        forall|i: u32, j: u32| i < nr && j < nc ==> #[trigger] f.requires((i, j)),
        forall|i: u32, j: u32, o: Option<usize>|
            #[trigger] f.ensures((i, j), o) ==> opt_bin(o) == g(i as int, j as int) && (o matches Some(
                b,
            ) ==> b < nbins),
    ensures
        r@ == hist_of(g, nr as int, nc as int, nbins as int),
{
    let mut hist: Vec<i64> = vec![0i64; nbins];
    let mut i: u32 = 0;
    while i < nr
        invariant
            nr * nc <= i64::MAX,
            forall|i: u32, j: u32| i < nr && j < nc ==> #[trigger] f.requires((i, j)),
            forall|i: u32, j: u32, o: Option<usize>|
                #[trigger] f.ensures((i, j), o) ==> opt_bin(o) == g(i as int, j as int) && (o matches Some(
                    b,
                ) ==> b < nbins),
            i <= nr,
            hist@.len() == nbins,
            forall|v: int| 0 <= v < nbins ==> #[trigger] hist@[v] == grid_count(g, i as int, nc as int, v),
        decreases nr - i,
    {
        let mut j: u32 = 0;
        while j < nc
            invariant
                nr * nc <= i64::MAX,
                forall|i: u32, j: u32| i < nr && j < nc ==> #[trigger] f.requires((i, j)),
                forall|i: u32, j: u32, o: Option<usize>|
                    #[trigger] f.ensures((i, j), o) ==> opt_bin(o) == g(i as int, j as int) && (o matches Some(
                        b,
                    ) ==> b < nbins),
                i < nr,
                j <= nc,
                hist@.len() == nbins,
                forall|v: int|
                    0 <= v < nbins ==> #[trigger] hist@[v] == grid_count(g, i as int, nc as int, v)
                        + row_count(g, i as int, j as int, v),
            decreases nc - j,
        {
            let o = f(i, j);
            match o {
                Some(b) => {
                    proof {
                        lemma_grid_count_bound(g, i as int, nc as int, b as int);
                        lemma_row_count_bound(g, i as int, j as int, b as int);
                        assert(i * nc + j + 1 <= nr * nc) by (nonlinear_arith)
                            requires
                                i < nr,
                                j < nc,
                        ;
                    }
                    let cur = hist[b];
                    hist.set(b, cur + 1);
                },
                None => {},
            }
            j = j + 1;
        }
        i = i + 1;
    }
    assert(hist@ =~= hist_of(g, nr as int, nc as int, nbins as int));
    hist
}

// ---------------------------------------------------------------------------
// What a sample counts
// ---------------------------------------------------------------------------

/// What a histogram counts of each sampled pixel.
#[derive(Clone, Copy, PartialEq, Eq, Structural)]
pub enum BinKind {
    /// The pixel value (the colormap index for colormapped images).
    Value,
    /// The pixel value, or for colormapped images the gray value of the
    /// color (see [`cmap_gray`]).
    Gray,
    /// The red channel of the pixel's color.
    Red,
    /// The green channel of the pixel's color.
    Green,
    /// The blue channel of the pixel's color.
    Blue,
}

/// The gray value of a colormap color: `(77 r + 150 g + 29 b) / 256`.
pub open spec fn cmap_gray(c: (u8, u8, u8, u8)) -> int {
    (77 * c.0 + 150 * c.1 + 29 * c.2) / 256
}

/// The channel of a color counted by `kind`.
pub open spec fn color_channel(c: (u8, u8, u8, u8), kind: BinKind) -> int {
    match kind {
        BinKind::Red => c.0 as int,
        BinKind::Green => c.1 as int,
        BinKind::Blue => c.2 as int,
        BinKind::Gray => cmap_gray(c),
        BinKind::Value => 0,
    }
}

/// The channel of a pixel word counted by `kind`.
pub open spec fn word_channel(p: u32, kind: BinKind) -> int {
    match kind {
        BinKind::Red => red_of(p) as int,
        BinKind::Green => green_of(p) as int,
        BinKind::Blue => blue_of(p) as int,
        _ => p as int,
    }
}

/// The bin of pixel `(x, y)`: `None` for a colormap index that has no
/// color (except when counting indices).
pub open spec fn bin_spec(m: PixModel, kind: BinKind, x: int, y: int) -> Option<int> {
    let p = m.pixel(x, y);
    if kind == BinKind::Value {
        Some(p as int)
    } else {
        match m.cmap {
            Some(c) => if (p as int) < c.colors.len() {
                Some(color_channel(c.colors[p as int], kind))
            } else {
                None
            },
            None => Some(word_channel(p, kind)),
        }
    }
}

/// The number of bins of a histogram of `kind` for image `m`.
pub open spec fn nbins_for(m: PixModel, kind: BinKind) -> int {
    if kind == BinKind::Value || (kind == BinKind::Gray && m.cmap is None) {
        pmask(m.depth) + 1
    } else {
        256
    }
}

/// The histogram can be taken: the bins fit in memory and the counts in
/// an `i64`.
pub open spec fn kind_ok(m: PixModel, kind: BinKind) -> bool {
    &&& (kind == BinKind::Value || kind == BinKind::Gray) ==> m.depth != PixelDepth::Bit32
    &&& (kind == BinKind::Red || kind == BinKind::Green || kind == BinKind::Blue) ==> (m.cmap is Some
        || m.depth == PixelDepth::Bit32)
}

/// The bin of pixel `(x, y)`.
fn bin_of(pix: &Pix, kind: BinKind, x: u32, y: u32) -> (o: Option<usize>)
    requires
        pix@.wf(),
        pix@.contains(x as int, y as int),
        kind_ok(pix@, kind),
    ensures
        opt_bin(o) == bin_spec(pix@, kind, x as int, y as int),
        o matches Some(b) ==> b < nbins_for(pix@, kind),
{
    let p = pix.get_pixel_unchecked(x, y);
    proof {
        super::raster::lemma_stored_pixel(pix@, x as int, y as int);
    }
    if kind == BinKind::Value {
        return Some(p as usize);
    }
    match pix.colormap() {
        Some(c) => match c.get_rgba(p as usize) {
            Some((r, g, b, _a)) => {
                let v: u32 = match kind {
                    BinKind::Red => r as u32,
                    BinKind::Green => g as u32,
                    BinKind::Blue => b as u32,
                    _ => (77 * r as u32 + 150 * g as u32 + 29 * b as u32) / 256,
                };
                Some(v as usize)
            },
            None => None,
        },
        None => {
            let v: u32 = match kind {
                BinKind::Red => crate::color::red(p) as u32,
                BinKind::Green => crate::color::green(p) as u32,
                BinKind::Blue => crate::color::blue(p) as u32,
                _ => p,
            };
            Some(v as usize)
        },
    }
}

// ---------------------------------------------------------------------------
// Sampling geometries
// ---------------------------------------------------------------------------

/// Samples every `f` pixels over the whole image.
pub open spec fn full_sampler(m: PixModel, kind: BinKind, f: u32) -> spec_fn(int, int) -> Option<int> {
    |i: int, j: int| bin_spec(m, kind, j * f, i * f)
}

/// The histogram of `kind` over the whole image.
pub open spec fn full_hist(m: PixModel, kind: BinKind, f: u32) -> Seq<i64> {
    hist_of(
        full_sampler(m, kind, f),
        nsamples(m.height as int, f as int),
        nsamples(m.width as int, f as int),
        nbins_for(m, kind),
    )
}

/// The sampling loops over the whole image stay within `u32`.
pub open spec fn full_steps_ok(m: PixModel, f: u32) -> bool {
    &&& nsamples(m.width as int, f as int) * f <= u32::MAX
    &&& nsamples(m.height as int, f as int) * f <= u32::MAX
}

/// The counts of an image fit in an `i64`.
pub open spec fn counts_fit(m: PixModel) -> bool {
    m.width * m.height <= i64::MAX
}

/// The part of `b` inside the image (sizes compared as `i32`).
pub open spec fn rect_of(m: PixModel, b: Box) -> Option<Box> {
    clip_spec(b, m.width as i32, m.height as i32)
}

/// Samples every `f` pixels over the rectangle `c`, from its corner.
pub open spec fn rect_sampler(m: PixModel, kind: BinKind, c: Box, f: u32) -> spec_fn(int, int) -> Option<int> {
    |i: int, j: int| bin_spec(m, kind, c.x + j * f, c.y + i * f)
}

/// The histogram of `kind` over the rectangle `c`.
pub open spec fn rect_hist(m: PixModel, kind: BinKind, c: Box, f: u32) -> Seq<i64> {
    hist_of(
        rect_sampler(m, kind, c, f),
        nsamples(c.h as int, f as int),
        nsamples(c.w as int, f as int),
        nbins_for(m, kind),
    )
}

/// The sampling loops over the clipped rectangle stay within `i32`.
pub open spec fn rect_steps_ok(m: PixModel, b: Box, f: u32) -> bool {
    rect_of(m, b) matches Some(c) ==> {
        &&& c.x + nsamples(c.w as int, f as int) * f <= i32::MAX
        &&& c.y + nsamples(c.h as int, f as int) * f <= i32::MAX
    }
}

/// Samples every `f` pixels of the mask placed at `(x, y)`, counting the
/// image pixels under ON mask pixels.
pub open spec fn mask_sampler(m: PixModel, kind: BinKind, mask: PixModel, x: i32, y: i32, f: u32) -> spec_fn(int, int) -> Option<int> {
    |i: int, j: int|
        {
            let (mx, my) = (j * f, i * f);
            let (sx, sy) = (x + mx, y + my);
            if 0 <= sx < (m.width as i32) && 0 <= sy < (m.height as i32) && mask.pixel(mx, my) != 0 {
                bin_spec(m, kind, sx, sy)
            } else {
                None
            }
        }
}

/// Rows of mask samples.
pub open spec fn mask_rows(mask: PixModel, f: u32) -> int {
    nsamples((mask.height as i32) as int, f as int)
}

/// Columns of mask samples.
pub open spec fn mask_cols(mask: PixModel, f: u32) -> int {
    nsamples((mask.width as i32) as int, f as int)
}

/// The histogram of `kind` under the ON pixels of `mask` placed at
/// `(x, y)`.
pub open spec fn mask_hist(m: PixModel, kind: BinKind, mask: PixModel, x: i32, y: i32, f: u32) -> Seq<i64> {
    hist_of(mask_sampler(m, kind, mask, x, y, f), mask_rows(mask, f), mask_cols(mask, f), nbins_for(m, kind))
}

/// The sampling loops over the mask stay within `i32`.
pub open spec fn mask_steps_ok(mask: PixModel, x: i32, y: i32, f: u32) -> bool {
    &&& mask_cols(mask, f) * f <= i32::MAX
    &&& mask_rows(mask, f) * f <= i32::MAX
    &&& mask_cols(mask, f) >= 1 ==> x + (mask_cols(mask, f) - 1) * f <= i32::MAX
    &&& mask_rows(mask, f) >= 1 ==> y + (mask_rows(mask, f) - 1) * f <= i32::MAX
    &&& mask.width * mask.height <= i64::MAX
}

/// The number of bins, computed.
fn bins_for(pix: &Pix, kind: BinKind) -> (n: usize)
    requires
        pix@.wf(),
        kind_ok(pix@, kind),
    ensures
        n == nbins_for(pix@, kind),
{
    if kind == BinKind::Value || (kind == BinKind::Gray && !pix.has_colormap()) {
        pix.depth().max_value() as usize + 1
    } else {
        256
    }
}

/// The histogram of `kind` over the whole image.
pub(crate) fn hist_full(pix: &Pix, kind: BinKind, factor: u32) -> (r: Vec<i64>)
    requires
        pix@.wf(),
        kind_ok(pix@, kind),
        factor >= 1,
        counts_fit(pix@),
    ensures
        r@ == full_hist(pix@, kind, factor),
{
    let w = pix.width();
    let h = pix.height();
    let nc = ((w as u64 + factor as u64 - 1) / factor as u64) as u32;
    let nr = ((h as u64 + factor as u64 - 1) / factor as u64) as u32;
    proof {
        lemma_nsamples_bound(w as int, factor as int);
        lemma_nsamples_bound(h as int, factor as int);
        assert(nr * nc <= h * w) by (nonlinear_arith)
            requires
                0 <= nr <= h,
                0 <= nc <= w,
        ;
        assert(h * w == w * h) by (nonlinear_arith);
        assert(nr * nc <= i64::MAX);
    }
    let nbins = bins_for(pix, kind);
    let ghost g = full_sampler(pix@, kind, factor);
    let f = |i: u32, j: u32| -> (o: Option<usize>)
        requires
            i < nr,
            j < nc,
        ensures
            opt_bin(o) == g(i as int, j as int),
            o matches Some(b) ==> b < nbins,
        {
            proof {
                lemma_sample_in(j as int, w as int, factor as int);
                lemma_sample_in(i as int, h as int, factor as int);
            }
            bin_of(pix, kind, j * factor, i * factor)
        };
    count_grid(nr, nc, nbins, f, Ghost(g))
}

/// The histogram of `kind` over the rectangle `c`, which lies in the
/// image.
fn hist_rect(pix: &Pix, kind: BinKind, c: Box, factor: u32) -> (r: Vec<i64>)
    requires
        pix@.wf(),
        kind_ok(pix@, kind),
        factor >= 1,
        counts_fit(pix@),
        0 <= c.x,
        0 <= c.y,
        0 < c.w,
        0 < c.h,
        c.x + c.w <= pix@.width,
        c.y + c.h <= pix@.height,
    ensures
        r@ == rect_hist(pix@, kind, c, factor),
{
    let cw = c.w as u32;
    let ch = c.h as u32;
    let nc = ((cw as u64 + factor as u64 - 1) / factor as u64) as u32;
    let nr = ((ch as u64 + factor as u64 - 1) / factor as u64) as u32;
    proof {
        lemma_nsamples_bound(cw as int, factor as int);
        lemma_nsamples_bound(ch as int, factor as int);
        assert(nr * nc <= pix@.height * pix@.width) by (nonlinear_arith)
            requires
                0 <= nr <= ch <= pix@.height,
                0 <= nc <= cw <= pix@.width,
        ;
        assert(pix@.height * pix@.width == pix@.width * pix@.height) by (nonlinear_arith);
        assert(nr * nc <= i64::MAX);
    }
    let nbins = bins_for(pix, kind);
    let x0 = c.x as u32;
    let y0 = c.y as u32;
    let ghost g = rect_sampler(pix@, kind, c, factor);
    let f = |i: u32, j: u32| -> (o: Option<usize>)
        requires
            i < nr,
            j < nc,
        ensures
            opt_bin(o) == g(i as int, j as int),
            o matches Some(b) ==> b < nbins,
        {
            proof {
                lemma_sample_in(j as int, cw as int, factor as int);
                lemma_sample_in(i as int, ch as int, factor as int);
            }
            bin_of(pix, kind, x0 + j * factor, y0 + i * factor)
        };
    count_grid(nr, nc, nbins, f, Ghost(g))
}

/// The histogram of `kind` under the ON pixels of `mask` placed at
/// `(x, y)`.
fn hist_masked(pix: &Pix, kind: BinKind, mask: &Pix, x: i32, y: i32, factor: u32) -> (r: Vec<i64>)
    requires
        pix@.wf(),
        mask@.wf(),
        kind_ok(pix@, kind),
        factor >= 1,
        mask_steps_ok(mask@, x, y, factor),
    ensures
        r@ == mask_hist(pix@, kind, mask@, x, y, factor),
{
    let wm = mask.width() as i32;
    let hm = mask.height() as i32;
    let w = pix.width() as i32;
    let h = pix.height() as i32;
    let nc: u32 = if wm <= 0 {
        0
    } else {
        ((wm as u64 + factor as u64 - 1) / factor as u64) as u32
    };
    let nr: u32 = if hm <= 0 {
        0
    } else {
        ((hm as u64 + factor as u64 - 1) / factor as u64) as u32
    };
    proof {
        lemma_nsamples_bound(wm as int, factor as int);
        lemma_nsamples_bound(hm as int, factor as int);
        assert(wm <= mask@.width);
        assert(hm <= mask@.height);
        assert(nr * nc <= mask@.height * mask@.width) by (nonlinear_arith)
            requires
                0 <= nr <= mask@.height,
                0 <= nc <= mask@.width,
        ;
        assert(mask@.height * mask@.width == mask@.width * mask@.height) by (nonlinear_arith);
        assert(nr * nc <= i64::MAX);
    }
    let nbins = bins_for(pix, kind);
    let ghost g = mask_sampler(pix@, kind, mask@, x, y, factor);
    let f = |i: u32, j: u32| -> (o: Option<usize>)
        requires
            i < nr,
            j < nc,
        ensures
            opt_bin(o) == g(i as int, j as int),
            o matches Some(b) ==> b < nbins,
        {
            proof {
                lemma_sample_in(j as int, wm as int, factor as int);
                lemma_sample_in(i as int, hm as int, factor as int);
                assert(j * factor <= (nc - 1) * factor) by (nonlinear_arith)
                    requires
                        j <= nc - 1,
                ;
                assert(i * factor <= (nr - 1) * factor) by (nonlinear_arith)
                    requires
                        i <= nr - 1,
                ;
            }
            let mx = j * factor;
            let my = i * factor;
            let sx = x as i64 + mx as i64;
            let sy = y as i64 + my as i64;
            if sx >= 0 && sx < w as i64 && sy >= 0 && sy < h as i64 && mask.get_pixel_unchecked(mx, my) != 0 {
                bin_of(pix, kind, sx as u32, sy as u32)
            } else {
                None
            }
        };
    count_grid(nr, nc, nbins, f, Ghost(g))
}

/// A histogram array with origin 0 and spacing 1.
fn to_numa(v: Vec<i64>) -> (r: Numa)
    ensures
        r@ == v@,
        r.start_spec() == 0,
        r.delta_spec() == 1,
{
    Numa::from_vec(v)
}

/// A histogram as returned: the counts, with origin 0 and spacing 1.
pub open spec fn is_hist(n: Numa, h: Seq<i64>) -> bool {
    n@ == h && n.start_spec() == 0 && n.delta_spec() == 1
}

/// The three channel histograms.
pub open spec fn is_color_hist(c: ColorHistogram, r: Seq<i64>, g: Seq<i64>, b: Seq<i64>) -> bool {
    is_hist(c.red, r) && is_hist(c.green, g) && is_hist(c.blue, b)
}

/// The whole-image gray histogram can be taken.
pub open spec fn gray_full_ok(m: PixModel, factor: u32) -> bool {
    &&& counts_fit(m)
    &&& factor >= 1 ==> full_steps_ok(m, factor)
    &&& (factor >= 1 && m.depth == PixelDepth::Bit1 && m.cmap is None) ==> nsamples(m.width as int, factor as int) * nsamples(m.height as int, factor as int) <= u32::MAX
}

impl Pix {
    /// The histogram of pixel values, sampling every `factor` pixels
    /// along each axis: `2^d` bins at depth `d`, or 256 bins of the gray
    /// values of the colors (see [`cmap_gray`]) for colormapped images.
    ///
    /// # Errors
    ///
    /// [`Error::InvalidParameter`] if `factor` is 0;
    /// [`Error::IncompatibleDepths`] for 32 bpp images.
    pub fn gray_histogram(&self, factor: u32) -> (r: Result<Numa>)
        requires
            self@.wf(),
            gray_full_ok(self@, factor),
        ensures
            r is Ok <==> factor >= 1 && self@.depth != PixelDepth::Bit32,
            r matches Ok(n) ==> is_hist(n, full_hist(self@, BinKind::Gray, factor)),
            r matches Err(e) ==> (if factor == 0 {
                e is InvalidParameter
            } else {
                e == Error::IncompatibleDepths(32, 8)
            }),
    {
        if factor == 0 {
            return Err(invalid_param("factor must be >= 1"));
        }
        if self.depth() == PixelDepth::Bit32 {
            return Err(Error::IncompatibleDepths(32, 8));
        }
        Ok(to_numa(hist_full(self, BinKind::Gray, factor)))
    }

    /// The 256-bin gray histogram of the part of `region` inside an 8 bpp
    /// or colormapped image, sampling every `factor` pixels from the
    /// corner of that part; the whole image when `region` is `None`.
    ///
    /// # Errors
    ///
    /// [`Error::InvalidParameter`] if `factor` is 0 or the region misses
    /// the image; [`Error::IncompatibleDepths`] for 32 bpp images;
    /// [`Error::UnsupportedDepth`] for other depths without a colormap.
    pub fn gray_histogram_in_rect(&self, region: Option<&Box>, factor: u32) -> (r: Result<Numa>)
        requires
            self@.wf(),
            counts_fit(self@),
            region is None ==> gray_full_ok(self@, factor),
            region matches Some(b) ==> rect_steps_ok(self@, *b, factor),
        ensures
            region is None ==> (r is Ok <==> factor >= 1 && self@.depth != PixelDepth::Bit32),
            region is None ==> (r matches Ok(n) ==> is_hist(n, full_hist(self@, BinKind::Gray, factor))),
            region matches Some(b) ==> (r is Ok <==> factor >= 1 && self@.depth != PixelDepth::Bit32
                && (self@.cmap is Some || self@.depth == PixelDepth::Bit8) && rect_of(self@, *b) is Some),
            region matches Some(b) ==> (r matches Ok(n) ==> is_hist(n, rect_hist(self@, BinKind::Gray, rect_of(self@, *b)->0, factor))),
            r matches Err(e) ==> (if factor == 0 {
                e is InvalidParameter
            } else if self@.depth == PixelDepth::Bit32 {
                e == Error::IncompatibleDepths(32, 8)
            } else if self@.cmap is None && self@.depth != PixelDepth::Bit8 {
                e == Error::UnsupportedDepth(self@.depth.nbits())
            } else {
                e is InvalidParameter
            }),
    {
        let b = match region {
            None => {
                return self.gray_histogram(factor);
            },
            Some(b) => b,
        };
        if factor == 0 {
            return Err(invalid_param("factor must be >= 1"));
        }
        let depth = self.depth();
        if depth == PixelDepth::Bit32 {
            return Err(Error::IncompatibleDepths(32, 8));
        }
        if !self.has_colormap() && depth != PixelDepth::Bit8 {
            return Err(Error::UnsupportedDepth(depth.bits()));
        }
        let c = match b.clip(self.width() as i32, self.height() as i32) {
            Some(c) => c,
            None => {
                return Err(invalid_param("region has no overlap with image"));
            },
        };
        Ok(to_numa(hist_rect(self, BinKind::Gray, c, factor)))
    }

    /// The 256-bin gray histogram of the pixels under the ON pixels of the
    /// 1 bpp `mask` placed at `(x, y)`, sampling every `factor` mask
    /// pixels; the whole-image histogram when `mask` is `None`.
    ///
    /// # Errors
    ///
    /// [`Error::InvalidParameter`] if `factor` is 0 or the mask is not
    /// 1 bpp; [`Error::IncompatibleDepths`] for 32 bpp images;
    /// [`Error::UnsupportedDepth`] for depths other than 8 without a
    /// colormap.
    pub fn gray_histogram_masked(&self, mask: Option<&Pix>, x: i32, y: i32, factor: u32) -> (r: Result<Numa>)
        requires
            self@.wf(),
            counts_fit(self@),
            mask is None ==> gray_full_ok(self@, factor),
            mask matches Some(m) ==> m@.wf() && (factor >= 1 ==> mask_steps_ok(m@, x, y, factor)),
        ensures
            mask is None ==> (r is Ok <==> factor >= 1 && self@.depth != PixelDepth::Bit32),
            mask is None ==> (r matches Ok(n) ==> is_hist(n, full_hist(self@, BinKind::Gray, factor))),
            mask matches Some(m) ==> (r is Ok <==> factor >= 1 && self@.depth != PixelDepth::Bit32
                && m@.depth == PixelDepth::Bit1 && (self@.cmap is Some || self@.depth == PixelDepth::Bit8)),
            mask matches Some(m) ==> (r matches Ok(n) ==> is_hist(n, mask_hist(self@, BinKind::Gray, m@, x, y, factor))),
            r matches Err(e) ==> (if factor == 0 {
                e is InvalidParameter
            } else if self@.depth == PixelDepth::Bit32 {
                e == Error::IncompatibleDepths(32, 8)
            } else if mask matches Some(m) && m@.depth != PixelDepth::Bit1 {
                e is InvalidParameter
            } else {
                e == Error::UnsupportedDepth(self@.depth.nbits())
            }),
    {
        let m = match mask {
            None => {
                return self.gray_histogram(factor);
            },
            Some(m) => m,
        };
        if factor == 0 {
            return Err(invalid_param("factor must be >= 1"));
        }
        let depth = self.depth();
        if depth == PixelDepth::Bit32 {
            return Err(Error::IncompatibleDepths(32, 8));
        }
        if m.depth() != PixelDepth::Bit1 {
            return Err(invalid_param("mask must be 1 bpp"));
        }
        if !self.has_colormap() && depth != PixelDepth::Bit8 {
            return Err(Error::UnsupportedDepth(depth.bits()));
        }
        Ok(to_numa(hist_masked(self, BinKind::Gray, m, x, y, factor)))
    }

    /// The red, green and blue histograms of a 32 bpp or colormapped
    /// image, sampling every `factor` pixels.
    ///
    /// # Errors
    ///
    /// [`Error::InvalidParameter`] if `factor` is 0;
    /// [`Error::IncompatibleDepths`] for other images.
    pub fn color_histogram(&self, factor: u32) -> (r: Result<ColorHistogram>)
        requires
            self@.wf(),
            counts_fit(self@),
            factor >= 1 ==> full_steps_ok(self@, factor),
        ensures
            r is Ok <==> factor >= 1 && (self@.cmap is Some || self@.depth == PixelDepth::Bit32),
            r matches Ok(c) ==> is_color_hist(
                c,
                full_hist(self@, BinKind::Red, factor),
                full_hist(self@, BinKind::Green, factor),
                full_hist(self@, BinKind::Blue, factor),
            ),
            r matches Err(e) ==> (if factor == 0 {
                e is InvalidParameter
            } else {
                e == Error::IncompatibleDepths(self@.depth.nbits(), 32)
            }),
    {
        if factor == 0 {
            return Err(invalid_param("factor must be >= 1"));
        }
        if !self.has_colormap() && self.depth() != PixelDepth::Bit32 {
            return Err(Error::IncompatibleDepths(self.depth().bits(), 32));
        }
        let red = to_numa(hist_full(self, BinKind::Red, factor));
        let green = to_numa(hist_full(self, BinKind::Green, factor));
        let blue = to_numa(hist_full(self, BinKind::Blue, factor));
        Ok(ColorHistogram { red, green, blue })
    }

    /// The red, green and blue histograms of the pixels under the ON
    /// pixels of the 1 bpp `mask` placed at `(x, y)`; the whole-image
    /// histograms when `mask` is `None`.
    ///
    /// # Errors
    ///
    /// [`Error::InvalidParameter`] if `factor` is 0 or the mask is not
    /// 1 bpp; [`Error::IncompatibleDepths`] for images neither 32 bpp nor
    /// colormapped.
    pub fn color_histogram_masked(&self, mask: Option<&Pix>, x: i32, y: i32, factor: u32) -> (r: Result<ColorHistogram>)
        requires
            self@.wf(),
            counts_fit(self@),
            (mask is None && factor >= 1) ==> full_steps_ok(self@, factor),
            mask matches Some(m) ==> m@.wf() && (factor >= 1 ==> mask_steps_ok(m@, x, y, factor)),
        ensures
            r is Ok <==> factor >= 1 && (self@.cmap is Some || self@.depth == PixelDepth::Bit32)
                && (mask matches Some(m) ==> m@.depth == PixelDepth::Bit1),
            mask is None ==> (r matches Ok(c) ==> is_color_hist(
                c,
                full_hist(self@, BinKind::Red, factor),
                full_hist(self@, BinKind::Green, factor),
                full_hist(self@, BinKind::Blue, factor),
            )),
            mask matches Some(m) ==> (r matches Ok(c) ==> is_color_hist(
                c,
                mask_hist(self@, BinKind::Red, m@, x, y, factor),
                mask_hist(self@, BinKind::Green, m@, x, y, factor),
                mask_hist(self@, BinKind::Blue, m@, x, y, factor),
            )),
            r matches Err(e) ==> (if factor == 0 {
                e is InvalidParameter
            } else if self@.cmap is None && self@.depth != PixelDepth::Bit32 {
                e == Error::IncompatibleDepths(self@.depth.nbits(), 32)
            } else {
                e is InvalidParameter
            }),
    {
        let m = match mask {
            None => {
                return self.color_histogram(factor);
            },
            Some(m) => m,
        };
        if factor == 0 {
            return Err(invalid_param("factor must be >= 1"));
        }
        if !self.has_colormap() && self.depth() != PixelDepth::Bit32 {
            return Err(Error::IncompatibleDepths(self.depth().bits(), 32));
        }
        if m.depth() != PixelDepth::Bit1 {
            return Err(invalid_param("mask must be 1 bpp"));
        }
        let red = to_numa(hist_masked(self, BinKind::Red, m, x, y, factor));
        let green = to_numa(hist_masked(self, BinKind::Green, m, x, y, factor));
        let blue = to_numa(hist_masked(self, BinKind::Blue, m, x, y, factor));
        Ok(ColorHistogram { red, green, blue })
    }

    /// The histogram of colormap indices (`2^d` bins at depth `d`),
    /// sampling every `factor` pixels.
    ///
    /// # Errors
    ///
    /// [`Error::InvalidParameter`] without a colormap or if `factor` is 0.
    pub fn cmap_histogram(&self, factor: u32) -> (r: Result<Numa>)
        requires
            self@.wf(),
            counts_fit(self@),
            factor >= 1 ==> full_steps_ok(self@, factor),
        ensures
            r is Ok <==> self@.cmap is Some && factor >= 1,
            r matches Ok(n) ==> is_hist(n, full_hist(self@, BinKind::Value, factor)),
            r matches Err(e) ==> e is InvalidParameter,
    {
        if !self.has_colormap() {
            return Err(invalid_param("image has no colormap"));
        }
        if factor == 0 {
            return Err(invalid_param("factor must be >= 1"));
        }
        Ok(to_numa(hist_full(self, BinKind::Value, factor)))
    }

    /// The histogram of colormap indices under the ON pixels of the 1 bpp
    /// `mask` placed at `(x, y)`, sampling every `factor` mask pixels.
    ///
    /// # Errors
    ///
    /// [`Error::InvalidParameter`] without a colormap, for a mask that is
    /// not 1 bpp, or if `factor` is 0.
    pub fn cmap_histogram_masked(&self, mask: &Pix, x: i32, y: i32, factor: u32) -> (r: Result<Numa>)
        requires
            self@.wf(),
            mask@.wf(),
            factor >= 1 ==> mask_steps_ok(mask@, x, y, factor),
        ensures
            r is Ok <==> self@.cmap is Some && mask@.depth == PixelDepth::Bit1 && factor >= 1,
            r matches Ok(n) ==> is_hist(n, mask_hist(self@, BinKind::Value, mask@, x, y, factor)),
            r matches Err(e) ==> e is InvalidParameter,
    {
        if !self.has_colormap() {
            return Err(invalid_param("image has no colormap"));
        }
        if mask.depth() != PixelDepth::Bit1 {
            return Err(invalid_param("mask must be 1 bpp"));
        }
        if factor == 0 {
            return Err(invalid_param("factor must be >= 1"));
        }
        Ok(to_numa(hist_masked(self, BinKind::Value, mask, x, y, factor)))
    }

    /// The histogram of colormap indices over the part of `region` inside
    /// the image; over the whole image when `region` is `None`.
    ///
    /// # Errors
    ///
    /// [`Error::InvalidParameter`] without a colormap, if `factor` is 0,
    /// or if the region misses the image.
    pub fn cmap_histogram_in_rect(&self, region: Option<&Box>, factor: u32) -> (r: Result<Numa>)
        requires
            self@.wf(),
            counts_fit(self@),
            (region is None && factor >= 1) ==> full_steps_ok(self@, factor),
            region matches Some(b) ==> rect_steps_ok(self@, *b, factor),
        ensures
            region is None ==> (r is Ok <==> self@.cmap is Some && factor >= 1),
            region is None ==> (r matches Ok(n) ==> is_hist(n, full_hist(self@, BinKind::Value, factor))),
            region matches Some(b) ==> (r is Ok <==> self@.cmap is Some && factor >= 1 && rect_of(self@, *b) is Some),
            region matches Some(b) ==> (r matches Ok(n) ==> is_hist(n, rect_hist(self@, BinKind::Value, rect_of(self@, *b)->0, factor))),
            r matches Err(e) ==> e is InvalidParameter,
    {
        let b = match region {
            None => {
                return self.cmap_histogram(factor);
            },
            Some(b) => b,
        };
        if !self.has_colormap() {
            return Err(invalid_param("image has no colormap"));
        }
        if factor == 0 {
            return Err(invalid_param("factor must be >= 1"));
        }
        let c = match b.clip(self.width() as i32, self.height() as i32) {
            Some(c) => c,
            None => {
                return Err(invalid_param("region has no overlap with image"));
            },
        };
        Ok(to_numa(hist_rect(self, BinKind::Value, c, factor)))
    }
}

/// Tile `(iy, ix)` of an `nx` by `ny` tiling of the image.
pub open spec fn tile_box(m: PixModel, nx: u32, ny: u32, iy: int, ix: int) -> Box {
    let tw = m.width / nx;
    let th = m.height / ny;
    Box { x: (ix * tw) as i32, y: (iy * th) as i32, w: tw as i32, h: th as i32 }
}

/// The tiling request itself is accepted.
pub open spec fn tiling_accepted(m: PixModel, factor: u32, nx: u32, ny: u32) -> bool {
    &&& m.depth != PixelDepth::Bit32
    &&& factor >= 1 && nx >= 1 && ny >= 1
    &&& nx <= m.width && ny <= m.height
}

/// Every tile can be measured.
pub open spec fn tiles_ok(m: PixModel, factor: u32, nx: u32, ny: u32) -> bool {
    &&& (m.width / nx) as i32 >= 0 && (m.height / ny) as i32 >= 0
    &&& m.cmap is Some || m.depth == PixelDepth::Bit8
    &&& forall|iy: int, ix: int| 0 <= iy < ny && 0 <= ix < nx ==> #[trigger] rect_of(m, tile_box(m, nx, ny, iy, ix)) is Some
}

impl Pix {
    /// The gray histograms of the `nx` by `ny` tiles of size
    /// `(w / nx) x (h / ny)`, row by row, each as by
    /// [`Pix::gray_histogram_in_rect`].
    ///
    /// # Errors
    ///
    /// [`Error::UnsupportedDepth`] for 32 bpp images, and for depths other
    /// than 8 without a colormap; [`Error::InvalidParameter`] if `factor`,
    /// `nx` or `ny` is 0, if there are more tiles than pixels along an
    /// axis, or if a tile cannot be made.
    pub fn gray_histogram_tiled(&self, factor: u32, nx: u32, ny: u32) -> (r: Result<Numaa>)
        requires
            self@.wf(),
            counts_fit(self@),
            tiling_accepted(self@, factor, nx, ny) ==> nx * ny <= u32::MAX && forall|iy: int, ix: int|
                0 <= iy < ny && 0 <= ix < nx ==> #[trigger] rect_steps_ok(self@, tile_box(self@, nx, ny, iy, ix), factor),
        ensures
            r is Ok <==> tiling_accepted(self@, factor, nx, ny) && tiles_ok(self@, factor, nx, ny),
            r matches Ok(nn) ==> nn@.len() == nx * ny && forall|iy: int, ix: int|
                0 <= iy < ny && 0 <= ix < nx ==> #[trigger] nn@[iy * nx + ix] == rect_hist(
                    self@,
                    BinKind::Gray,
                    rect_of(self@, tile_box(self@, nx, ny, iy, ix))->0,
                    factor,
                ),
            r matches Err(e) ==> (if self@.depth == PixelDepth::Bit32 {
                e == Error::UnsupportedDepth(32)
            } else if tiling_accepted(self@, factor, nx, ny) && (self@.width / nx) as i32 >= 0
                && (self@.height / ny) as i32 >= 0 && self@.cmap is None && self@.depth != PixelDepth::Bit8 {
                e == Error::UnsupportedDepth(self@.depth.nbits())
            } else {
                e is InvalidParameter
            }),
    {
        let depth = self.depth();
        if depth == PixelDepth::Bit32 {
            return Err(Error::UnsupportedDepth(32));
        }
        if factor == 0 || nx == 0 || ny == 0 {
            return Err(invalid_param("factor, nx, ny must be >= 1"));
        }
        let w = self.width();
        let h = self.height();
        if nx > w {
            return Err(invalid_param("tile count nx must not exceed image width"));
        }
        if ny > h {
            return Err(invalid_param("tile count ny must not exceed image height"));
        }
        let tw = w / nx;
        let th = h / ny;
        let mut result = Numaa::new();
        let mut iy: u32 = 0;
        while iy < ny
            invariant
                self@.wf(),
                counts_fit(self@),
                tiling_accepted(self@, factor, nx, ny),
                nx * ny <= u32::MAX,
                forall|iy: int, ix: int|
                    0 <= iy < ny && 0 <= ix < nx ==> #[trigger] rect_steps_ok(self@, tile_box(self@, nx, ny, iy, ix), factor),
                w == self@.width,
                h == self@.height,
                tw == w / nx,
                th == h / ny,
                iy <= ny,
                result@.len() == iy * nx,
                forall|a: int, b: int|
                    0 <= a < iy && 0 <= b < nx ==> #[trigger] result@[a * nx + b] == rect_hist(
                        self@,
                        BinKind::Gray,
                        rect_of(self@, tile_box(self@, nx, ny, a, b))->0,
                        factor,
                    ),
                forall|a: int, b: int| 0 <= a < iy && 0 <= b < nx ==> #[trigger] rect_of(self@, tile_box(self@, nx, ny, a, b)) is Some,
                iy > 0 ==> (tw as i32 >= 0 && th as i32 >= 0 && (self@.cmap is Some || self@.depth == PixelDepth::Bit8)),
            decreases ny - iy,
        {
            let mut ix: u32 = 0;
            while ix < nx
                invariant
                    self@.wf(),
                    counts_fit(self@),
                    tiling_accepted(self@, factor, nx, ny),
                    nx * ny <= u32::MAX,
                    forall|iy: int, ix: int|
                        0 <= iy < ny && 0 <= ix < nx ==> #[trigger] rect_steps_ok(self@, tile_box(self@, nx, ny, iy, ix), factor),
                    w == self@.width,
                    h == self@.height,
                    tw == w / nx,
                    th == h / ny,
                    iy < ny,
                    ix <= nx,
                    result@.len() == iy * nx + ix,
                    forall|a: int, b: int|
                        0 <= a < iy && 0 <= b < nx ==> #[trigger] result@[a * nx + b] == rect_hist(
                            self@,
                            BinKind::Gray,
                            rect_of(self@, tile_box(self@, nx, ny, a, b))->0,
                            factor,
                        ),
                    forall|b: int|
                        0 <= b < ix ==> #[trigger] result@[iy * nx + b] == rect_hist(
                            self@,
                            BinKind::Gray,
                            rect_of(self@, tile_box(self@, nx, ny, iy as int, b))->0,
                            factor,
                        ),
                    forall|a: int, b: int| 0 <= a < iy && 0 <= b < nx ==> #[trigger] rect_of(self@, tile_box(self@, nx, ny, a, b)) is Some,
                    forall|b: int| 0 <= b < ix ==> #[trigger] rect_of(self@, tile_box(self@, nx, ny, iy as int, b)) is Some,
                    (iy > 0 || ix > 0) ==> (tw as i32 >= 0 && th as i32 >= 0 && (self@.cmap is Some || self@.depth == PixelDepth::Bit8)),
                decreases nx - ix,
            {
                proof {
                    assert(ix * tw <= w) by (nonlinear_arith)
                        requires
                            ix < nx,
                            tw == w / nx,
                            nx >= 1,
                    ;
                    assert(iy * th <= h) by (nonlinear_arith)
                        requires
                            iy < ny,
                            th == h / ny,
                            ny >= 1,
                    ;
                    assert(iy * nx + ix < nx * ny) by (nonlinear_arith)
                        requires
                            iy < ny,
                            ix < nx,
                    ;
                }
                let region = match Box::new((ix * tw) as i32, (iy * th) as i32, tw as i32, th as i32) {
                    Ok(b) => b,
                    Err(e) => {
                        return Err(e);
                    },
                };
                assert(region == tile_box(self@, nx, ny, iy as int, ix as int));
                assert(rect_steps_ok(self@, tile_box(self@, nx, ny, iy as int, ix as int), factor));
                let hist = match self.gray_histogram_in_rect(Some(&region), factor) {
                    Ok(n) => n,
                    Err(e) => {
                        return Err(e);
                    },
                };
                let ghost before = result@;
                result.push(hist);
                proof {
                    assert forall|a: int, b: int| 0 <= a < iy && 0 <= b < nx implies #[trigger] result@[a * nx + b] == before[a * nx + b] by {
                        assert(a * nx + b < iy * nx) by (nonlinear_arith)
                            requires
                                0 <= a < iy,
                                0 <= b < nx,
                        ;
                        assert(0 <= a * nx + b) by (nonlinear_arith)
                            requires
                                0 <= a,
                                0 <= b,
                                nx >= 1,
                        ;
                    }
                }
                ix = ix + 1;
            }
            proof {
                assert((iy + 1) * nx == iy * nx + nx) by (nonlinear_arith);
                assert forall|a: int, b: int| 0 <= a < iy + 1 && 0 <= b < nx implies #[trigger] rect_of(self@, tile_box(self@, nx, ny, a, b)) is Some by {
                    if a == iy {
                        assert(rect_of(self@, tile_box(self@, nx, ny, iy as int, b)) is Some);
                    }
                }
                assert forall|a: int, b: int| 0 <= a < iy + 1 && 0 <= b < nx implies #[trigger] result@[a * nx + b] == rect_hist(
                    self@,
                    BinKind::Gray,
                    rect_of(self@, tile_box(self@, nx, ny, a, b))->0,
                    factor,
                ) by {
                    if a == iy {
                        assert(result@[iy * nx + b] == rect_hist(
                            self@,
                            BinKind::Gray,
                            rect_of(self@, tile_box(self@, nx, ny, iy as int, b))->0,
                            factor,
                        ));
                    }
                }
            }
            iy = iy + 1;
        }
        assert(iy * nx == nx * ny) by (nonlinear_arith)
            requires
                iy == ny,
        ;
        Ok(result)
    }

    /// The number of distinct colors (alpha ignored) among the pixels at
    /// every `factor`-th column and row, from `(0, 0)`.
    ///
    /// # Errors
    ///
    /// [`Error::UnsupportedDepth`] unless 32 bpp; then
    /// [`Error::InvalidParameter`] for a factor of 0.
    pub fn count_rgb_colors(&self, factor: u32) -> (r: Result<u32>)
        requires
            self@.wf(),
        ensures
            r is Ok <==> self@.depth == PixelDepth::Bit32 && factor >= 1,
            r matches Ok(n) ==> n == sampled_colors(self@, factor).len(),
            r matches Ok(n) ==> n == sampled_rgb(self@, factor).len(),
            r matches Err(e) ==> if self@.depth != PixelDepth::Bit32 {
                e == Error::UnsupportedDepth(self@.depth.nbits())
            } else {
                e is InvalidParameter
            },
    {
        broadcast use vstd::std_specs::hash::group_hash_axioms;

        if self.depth() != PixelDepth::Bit32 {
            return Err(Error::UnsupportedDepth(self.depth().bits()));
        }
        if factor == 0 {
            return Err(invalid_param("factor must be >= 1"));
        }
        let ghost m = self@;
        let ghost f = factor as int;
        let w = self.width() as u64;
        let h = self.height() as u64;
        let step = factor as u64;
        let mut colors: HashSet<u32> = HashSet::new();
        let mut y: u64 = 0;
        proof {
            assert(colors@ =~= colors_before(m, factor, 0, 0));
        }
        while y < h
            invariant
                m == self@,
                m.wf(),
                f == factor as int,
                f >= 1,
                step == factor,
                w == m.width,
                h == m.height,
                y <= h + f,
                (y as int) % f == 0,
                colors@ == colors_before(m, factor, 0, y as int),
                colors@.finite(),
            decreases h + f - y,
        {
            let mut x: u64 = 0;
            while x < w
                invariant
                    m == self@,
                    m.wf(),
                    f == factor as int,
                    f >= 1,
                    step == factor,
                    w == m.width,
                    h == m.height,
                    y < h,
                    (y as int) % f == 0,
                    x <= w + f,
                    (x as int) % f == 0,
                    colors@ == colors_before(m, factor, x as int, y as int),
                    colors@.finite(),
                decreases w + f - x,
            {
                let p = self.get_pixel_unchecked(x as u32, y as u32);
                let ghost before = colors@;
                colors.insert(p & 0xffff_ff00);
                proof {
                    lemma_insert_sample(m, factor, x as int, y as int);
                }
                x = x + step;
                proof {
                    lemma_mod_step(x as int - f, f);
                }
            }
            proof {
                lemma_next_row(m, factor, x as int, y as int);
            }
            y = y + step;
            proof {
                lemma_mod_step(y as int - f, f);
            }
        }
        proof {
            lemma_all_rows(m, factor, y as int);
            assert forall|k: u32| colors@.contains(k) implies k % 256 == 0 by {
                let (x, y) = choose|x: int, y: int|
                    #![trigger m.pixel(x, y)]
                    m.contains(x, y) && x % f == 0 && y % f == 0 && rgb_key(m.pixel(x, y)) == k;
                lemma_key_low(m.pixel(x, y));
            }
            lemma_colors_bound(colors@);
            law_count_rgb_triples(m, factor);
        }
        Ok(colors.len() as u32)
    }

    /// The largest colormap index used by the image.
    ///
    /// # Errors
    ///
    /// [`Error::InvalidParameter`] without a colormap.
    pub fn max_color_index(&self) -> (r: Result<u32>)
        requires
            self@.wf(),
        ensures
            r is Ok <==> self@.cmap is Some,
            r matches Ok(v) ==> (forall|x: int, y: int| self@.contains(x, y) ==> #[trigger] self@.pixel(x, y) <= v),
            r matches Ok(v) ==> (exists|x: int, y: int| self@.contains(x, y) && #[trigger] self@.pixel(x, y) == v),
            r matches Err(e) ==> e is InvalidParameter,
    {
        if !self.has_colormap() {
            return Err(invalid_param("image has no colormap"));
        }
        let w = self.width();
        let h = self.height();
        let mut maxv: u32 = self.get_pixel_unchecked(0, 0);
        let ghost mut wx: int = 0;
        let ghost mut wy: int = 0;
        let mut y: u32 = 0;
        while y < h
            invariant
                self@.wf(),
                w == self@.width,
                h == self@.height,
                y <= h,
                self@.contains(wx, wy),
                self@.pixel(wx, wy) == maxv,
                forall|x: int, yy: int| self@.contains(x, yy) && yy < y ==> #[trigger] self@.pixel(x, yy) <= maxv,
            decreases h - y,
        {
            let mut x: u32 = 0;
            while x < w
                invariant
                    self@.wf(),
                    w == self@.width,
                    h == self@.height,
                    y < h,
                    x <= w,
                    self@.contains(wx, wy),
                    self@.pixel(wx, wy) == maxv,
                    forall|xx: int, yy: int| self@.contains(xx, yy) && (yy < y || (yy == y && xx < x)) ==> #[trigger] self@.pixel(xx, yy) <= maxv,
                decreases w - x,
            {
                let v = self.get_pixel_unchecked(x, y);
                if v > maxv {
                    maxv = v;
                    proof {
                        wx = x as int;
                        wy = y as int;
                    }
                }
                x = x + 1;
            }
            y = y + 1;
        }
        Ok(maxv)
    }
}

// ---------------------------------------------------------------------------
// Laws
// ---------------------------------------------------------------------------

/// `f(0) + ... + f(n - 1)`.
pub open spec fn sum_upto(f: spec_fn(int) -> int, n: int) -> int
    decreases n,
{
    if n <= 0 {
        0
    } else {
        sum_upto(f, n - 1) + f(n - 1)
    }
}

/// A bin that a histogram of `nbins` bins holds.
pub open spec fn in_bins(o: Option<int>, nbins: int) -> bool {
    o matches Some(v) && 0 <= v < nbins
}

/// How many samples of row `i` among the first `nc` fall in some bin.
pub open spec fn row_samples(g: spec_fn(int, int) -> Option<int>, i: int, nc: int, nbins: int) -> int
    decreases nc,
{
    if nc <= 0 {
        0
    } else {
        row_samples(g, i, nc - 1, nbins) + if in_bins(g(i, nc - 1), nbins) {
            1int
        } else {
            0int
        }
    }
}

/// How many samples of the first `nr` rows fall in some bin.
pub open spec fn grid_samples(g: spec_fn(int, int) -> Option<int>, nr: int, nc: int, nbins: int) -> int
    decreases nr,
{
    if nr <= 0 {
        0
    } else {
        grid_samples(g, nr - 1, nc, nbins) + row_samples(g, nr - 1, nc, nbins)
    }
}

proof fn lemma_sum_ext(f: spec_fn(int) -> int, h: spec_fn(int) -> int, n: int)
    requires
        forall|v: int| 0 <= v < n ==> #[trigger] f(v) == h(v),
    ensures
        sum_upto(f, n) == sum_upto(h, n),
    decreases n,
{
    if n > 0 {
        lemma_sum_ext(f, h, n - 1);
    }
}

proof fn lemma_sum_add(f: spec_fn(int) -> int, h: spec_fn(int) -> int, n: int)
    ensures
        sum_upto(|v: int| f(v) + h(v), n) == sum_upto(f, n) + sum_upto(h, n),
    decreases n,
{
    if n > 0 {
        lemma_sum_add(f, h, n - 1);
    }
}

proof fn lemma_sum_indicator(o: Option<int>, n: int)
    ensures
        sum_upto(|v: int| if o == Some(v) { 1int } else { 0int }, n) == if in_bins(o, n) {
            1int
        } else {
            0int
        },
    decreases n,
{
    if n > 0 {
        lemma_sum_indicator(o, n - 1);
    }
}

proof fn lemma_row_total(g: spec_fn(int, int) -> Option<int>, i: int, nc: int, nbins: int)
    ensures
        sum_upto(|v: int| row_count(g, i, nc, v), nbins) == row_samples(g, i, nc, nbins),
    decreases nc,
{
    if nc <= 0 {
        lemma_sum_ext(|v: int| row_count(g, i, nc, v), |v: int| 0int, nbins);
        lemma_sum_zero(nbins);
    } else {
        lemma_row_total(g, i, nc - 1, nbins);
        let f = |v: int| row_count(g, i, nc - 1, v);
        let h = |v: int| if g(i, nc - 1) == Some(v) { 1int } else { 0int };
        lemma_sum_add(f, h, nbins);
        lemma_sum_ext(|v: int| row_count(g, i, nc, v), |v: int| f(v) + h(v), nbins);
        lemma_sum_indicator(g(i, nc - 1), nbins);
    }
}

proof fn lemma_sum_zero(n: int)
    ensures
        sum_upto(|v: int| 0int, n) == 0,
    decreases n,
{
    if n > 0 {
        lemma_sum_zero(n - 1);
    }
}

proof fn lemma_grid_total(g: spec_fn(int, int) -> Option<int>, nr: int, nc: int, nbins: int)
    ensures
        sum_upto(|v: int| grid_count(g, nr, nc, v), nbins) == grid_samples(g, nr, nc, nbins),
    decreases nr,
{
    if nr <= 0 {
        lemma_sum_ext(|v: int| grid_count(g, nr, nc, v), |v: int| 0int, nbins);
        lemma_sum_zero(nbins);
    } else {
        lemma_grid_total(g, nr - 1, nc, nbins);
        lemma_row_total(g, nr - 1, nc, nbins);
        let f = |v: int| grid_count(g, nr - 1, nc, v);
        let h = |v: int| row_count(g, nr - 1, nc, v);
        lemma_sum_add(f, h, nbins);
        lemma_sum_ext(|v: int| grid_count(g, nr, nc, v), |v: int| f(v) + h(v), nbins);
    }
}

/// The bins of any histogram over a sampling grid add up to the number of
/// samples that fall in a bin.
pub proof fn law_bins_total(g: spec_fn(int, int) -> Option<int>, nr: int, nc: int, nbins: int)
    ensures
        sum_upto(|v: int| grid_count(g, nr, nc, v), nbins) == grid_samples(g, nr, nc, nbins),
{
    lemma_grid_total(g, nr, nc, nbins);
}

proof fn lemma_all_samples(g: spec_fn(int, int) -> Option<int>, nr: int, nc: int, nbins: int)
    requires
        nr >= 0,
        nc >= 0,
        forall|i: int, j: int| 0 <= i < nr && 0 <= j < nc ==> #[trigger] in_bins(g(i, j), nbins),
    ensures
        grid_samples(g, nr, nc, nbins) == nr * nc,
    decreases nr,
{
    if nr > 0 {
        lemma_all_samples(g, nr - 1, nc, nbins);
        lemma_all_row(g, nr - 1, nc, nbins);
        assert((nr - 1) * nc + nc == nr * nc) by (nonlinear_arith);
        assert(grid_samples(g, nr, nc, nbins) == grid_samples(g, nr - 1, nc, nbins) + row_samples(g, nr - 1, nc, nbins));
    } else {
        assert(nr * nc == 0) by (nonlinear_arith)
            requires
                nr == 0,
        ;
    }
}

proof fn lemma_all_row(g: spec_fn(int, int) -> Option<int>, i: int, nc: int, nbins: int)
    requires
        nc >= 0,
        forall|j: int| 0 <= j < nc ==> #[trigger] in_bins(g(i, j), nbins),
    ensures
        row_samples(g, i, nc, nbins) == nc,
    decreases nc,
{
    if nc > 0 {
        lemma_all_row(g, i, nc - 1, nbins);
    }
}

/// The gray histogram of an image without a colormap counts every sample
/// once: its bins add up to the number of samples.
pub proof fn law_gray_histogram_total(m: PixModel, factor: u32)
    requires
        m.wf(),
        m.cmap is None,
        m.depth != PixelDepth::Bit32,
        factor >= 1,
        counts_fit(m),
    ensures
        sum_upto(|v: int| full_hist(m, BinKind::Gray, factor)[v] as int, nbins_for(m, BinKind::Gray))
            == nsamples(m.height as int, factor as int) * nsamples(m.width as int, factor as int),
{
    let g = full_sampler(m, BinKind::Gray, factor);
    let nr = nsamples(m.height as int, factor as int);
    let nc = nsamples(m.width as int, factor as int);
    let nb = nbins_for(m, BinKind::Gray);
    lemma_nsamples_bound(m.width as int, factor as int);
    lemma_nsamples_bound(m.height as int, factor as int);
    assert forall|i: int, j: int| 0 <= i < nr && 0 <= j < nc implies #[trigger] in_bins(g(i, j), nb) by {
        lemma_sample_in(j, m.width as int, factor as int);
        lemma_sample_in(i, m.height as int, factor as int);
        super::raster::lemma_stored_pixel(m, j * factor, i * factor);
    }
    lemma_all_samples(g, nr, nc, nb);
    lemma_grid_total(g, nr, nc, nb);
    assert forall|v: int| 0 <= v < nb implies full_hist(m, BinKind::Gray, factor)[v] as int == grid_count(g, nr, nc, v) by {
        lemma_grid_count_bound(g, nr, nc, v);
        assert(nr * nc <= m.height * m.width) by (nonlinear_arith)
            requires
                0 <= nr <= m.height,
                0 <= nc <= m.width,
        ;
    }
    lemma_sum_ext(
        |v: int| full_hist(m, BinKind::Gray, factor)[v] as int,
        |v: int| grid_count(g, nr, nc, v),
        nb,
    );
}

/// A 32 bpp pixel with its alpha byte cleared.
pub open spec fn rgb_key(p: u32) -> u32 {
    p & 0xffff_ff00
}

/// The colors (alpha cleared) of the pixels at every `f`-th column and
/// row, from `(0, 0)`.
pub open spec fn sampled_colors(m: PixModel, f: u32) -> Set<u32> {
    Set::new(
        |k: u32|
            exists|x: int, y: int|
                #![trigger m.pixel(x, y)]
                m.contains(x, y) && x % (f as int) == 0 && y % (f as int) == 0 && rgb_key(m.pixel(x, y)) == k,
    )
}

/// The sampled colors of the rows before `cy` and of row `cy` before
/// column `cx`.
pub open spec fn colors_before(m: PixModel, f: u32, cx: int, cy: int) -> Set<u32> {
    Set::new(
        |k: u32|
            exists|x: int, y: int|
                #![trigger m.pixel(x, y)]
                m.contains(x, y) && x % (f as int) == 0 && y % (f as int) == 0 && (y < cy || (y == cy && x < cx))
                    && rgb_key(m.pixel(x, y)) == k,
    )
}

/// The only multiple of `f` in `[a, a + f)`, for `a` a multiple of `f`,
/// is `a`.
proof fn lemma_one_multiple(a: int, x: int, f: int)
    requires
        f >= 1,
        a % f == 0,
        x % f == 0,
        a <= x < a + f,
    ensures
        x == a,
{
    vstd::arithmetic::div_mod::lemma_fundamental_div_mod(a, f);
    vstd::arithmetic::div_mod::lemma_fundamental_div_mod(x, f);
    let qa = a / f;
    let qx = x / f;
    assert(qa == qx) by (nonlinear_arith)
        requires
            f >= 1,
            a == f * qa,
            x == f * qx,
            a <= x < a + f,
    ;
}

proof fn lemma_mod_step(a: int, f: int)
    requires
        f >= 1,
        a % f == 0,
    ensures
        (a + f) % f == 0,
{
    vstd::arithmetic::div_mod::lemma_mod_add_multiples_vanish(a, f);
}

proof fn lemma_insert_sample(m: PixModel, f: u32, cx: int, cy: int)
    requires
        f >= 1,
        m.contains(cx, cy),
        cx % (f as int) == 0,
        cy % (f as int) == 0,
    ensures
        colors_before(m, f, cx + f, cy) == colors_before(m, f, cx, cy).insert(rgb_key(m.pixel(cx, cy))),
{
    let a = colors_before(m, f, cx + f, cy);
    let b = colors_before(m, f, cx, cy).insert(rgb_key(m.pixel(cx, cy)));
    assert forall|k: u32| a.contains(k) implies b.contains(k) by {
        let (x, y) = choose|x: int, y: int|
            #![trigger m.pixel(x, y)]
            m.contains(x, y) && x % (f as int) == 0 && y % (f as int) == 0 && (y < cy || (y == cy && x < cx + f))
                && rgb_key(m.pixel(x, y)) == k;
        if y == cy && x >= cx {
            lemma_one_multiple(cx, x, f as int);
        }
    }
    assert forall|k: u32| b.contains(k) implies a.contains(k) by {
        if k == rgb_key(m.pixel(cx, cy)) {
        } else {
            let (x, y) = choose|x: int, y: int|
                #![trigger m.pixel(x, y)]
                m.contains(x, y) && x % (f as int) == 0 && y % (f as int) == 0 && (y < cy || (y == cy && x < cx))
                    && rgb_key(m.pixel(x, y)) == k;
            assert(m.pixel(x, y) == m.pixel(x, y));
        }
    }
    assert(a =~= b);
}

proof fn lemma_next_row(m: PixModel, f: u32, cx: int, cy: int)
    requires
        f >= 1,
        cx >= m.width,
        cy % (f as int) == 0,
    ensures
        colors_before(m, f, 0, cy + f) == colors_before(m, f, cx, cy),
{
    let a = colors_before(m, f, 0, cy + f);
    let b = colors_before(m, f, cx, cy);
    assert forall|k: u32| a.contains(k) implies b.contains(k) by {
        let (x, y) = choose|x: int, y: int|
            #![trigger m.pixel(x, y)]
            m.contains(x, y) && x % (f as int) == 0 && y % (f as int) == 0 && (y < cy + f || (y == cy + f && x < 0))
                && rgb_key(m.pixel(x, y)) == k;
        if y >= cy {
            lemma_one_multiple(cy, y, f as int);
        }
    }
    assert forall|k: u32| b.contains(k) implies a.contains(k) by {
        let (x, y) = choose|x: int, y: int|
            #![trigger m.pixel(x, y)]
            m.contains(x, y) && x % (f as int) == 0 && y % (f as int) == 0 && (y < cy || (y == cy && x < cx))
                && rgb_key(m.pixel(x, y)) == k;
        assert(m.pixel(x, y) == m.pixel(x, y));
    }
    assert(a =~= b);
}

proof fn lemma_all_rows(m: PixModel, f: u32, cy: int)
    requires
        cy >= m.height,
    ensures
        colors_before(m, f, 0, cy) == sampled_colors(m, f),
{
    let a = colors_before(m, f, 0, cy);
    let b = sampled_colors(m, f);
    assert forall|k: u32| b.contains(k) implies a.contains(k) by {
        let (x, y) = choose|x: int, y: int|
            #![trigger m.pixel(x, y)]
            m.contains(x, y) && x % (f as int) == 0 && y % (f as int) == 0 && rgb_key(m.pixel(x, y)) == k;
        assert(m.pixel(x, y) == m.pixel(x, y));
    }
    assert(a =~= b);
}

proof fn lemma_key_low(p: u32)
    ensures
        rgb_key(p) % 256 == 0,
{
    assert((p & 0xffff_ff00u32) % 256 == 0) by (bit_vector);
}

/// A finite set of colors with the alpha byte cleared has at most `2^24`
/// members.
proof fn lemma_colors_bound(s: Set<u32>)
    requires
        s.finite(),
        forall|k: u32| s.contains(k) ==> k % 256 == 0,
    ensures
        s.len() <= 0x100_0000,
{
    let g = |k: u32| (k as int) / 256;
    let t = s.map(g);
    assert(vstd::relations::injective_on(g, s)) by {
        assert forall|a: u32, b: u32| s.contains(a) && s.contains(b) && #[trigger] g(a) == #[trigger] g(b) implies a == b by {
            vstd::arithmetic::div_mod::lemma_fundamental_div_mod(a as int, 256);
            vstd::arithmetic::div_mod::lemma_fundamental_div_mod(b as int, 256);
        }
    }
    vstd::set_lib::lemma_map_size(s, t, g);
    vstd::set_lib::lemma_int_range(0, 0x100_0000);
    assert forall|i: int| t.contains(i) implies vstd::set_lib::set_int_range(0, 0x100_0000).contains(i) by {
        let k = choose|k: u32| s.contains(k) && g(k) == i;
    }
    vstd::set_lib::lemma_len_subset(t, vstd::set_lib::set_int_range(0, 0x100_0000));
}

/// The red, green and blue channels of the pixels at every `f`-th column
/// and row, from `(0, 0)`.
pub open spec fn sampled_rgb(m: PixModel, f: u32) -> Set<(u8, u8, u8)> {
    Set::new(
        |t: (u8, u8, u8)|
            exists|x: int, y: int|
                #![trigger m.pixel(x, y)]
                m.contains(x, y) && x % (f as int) == 0 && y % (f as int) == 0 && (
                    red_of(m.pixel(x, y)),
                    green_of(m.pixel(x, y)),
                    blue_of(m.pixel(x, y)),
                ) == t,
    )
}

proof fn lemma_key_channels(p: u32)
    ensures
        red_of(rgb_key(p)) == red_of(p),
        green_of(rgb_key(p)) == green_of(p),
        blue_of(rgb_key(p)) == blue_of(p),
        rgb_key(p) % 256 == 0,
{
    assert((p & 0xffff_ff00u32) / 0x1000000 == p / 0x1000000 && ((p & 0xffff_ff00u32) / 0x10000) % 0x100
        == (p / 0x10000) % 0x100 && ((p & 0xffff_ff00u32) / 0x100) % 0x100 == (p / 0x100) % 0x100
        && (p & 0xffff_ff00u32) % 256 == 0) by (bit_vector);
}

proof fn lemma_key_injective(a: u32, b: u32)
    requires
        a % 256 == 0,
        b % 256 == 0,
        red_of(a) == red_of(b),
        green_of(a) == green_of(b),
        blue_of(a) == blue_of(b),
    ensures
        a == b,
{
    assert(a % 256 == 0 && b % 256 == 0 && a / 0x1000000 == b / 0x1000000 && (a / 0x10000) % 0x100 == (b
        / 0x10000) % 0x100 && (a / 0x100) % 0x100 == (b / 0x100) % 0x100 ==> a == b) by (bit_vector);
}

/// Counting colors counts distinct colors: the number of keys that
/// [`Pix::count_rgb_colors`] counts equals the number of distinct
/// `(red, green, blue)` triples among the sampled pixels, so two pixels
/// that differ in any of the three channels count twice and two that
/// differ only in alpha count once.
pub proof fn law_count_rgb_triples(m: PixModel, f: u32)
    ensures
        sampled_colors(m, f).finite(),
        sampled_rgb(m, f).finite(),
        sampled_colors(m, f).len() == sampled_rgb(m, f).len(),
{
    let s = sampled_colors(m, f);
    let t = sampled_rgb(m, f);
    let g = |k: u32| (red_of(k), green_of(k), blue_of(k));
    broadcast use vstd::set_lib::full_set_properties;
    assert(Set::<u32>::full().finite());
    assert(s.subset_of(Set::<u32>::full()));
    vstd::set_lib::lemma_len_subset(s, Set::<u32>::full());
    assert forall|a: u32, b: u32| s.contains(a) && s.contains(b) && #[trigger] g(a) == #[trigger] g(b) implies a == b by {
        let (xa, ya) = choose|x: int, y: int|
            #![trigger m.pixel(x, y)]
            m.contains(x, y) && x % (f as int) == 0 && y % (f as int) == 0 && rgb_key(m.pixel(x, y)) == a;
        let (xb, yb) = choose|x: int, y: int|
            #![trigger m.pixel(x, y)]
            m.contains(x, y) && x % (f as int) == 0 && y % (f as int) == 0 && rgb_key(m.pixel(x, y)) == b;
        lemma_key_channels(m.pixel(xa, ya));
        lemma_key_channels(m.pixel(xb, yb));
        lemma_key_injective(a, b);
    }
    assert(vstd::relations::injective_on(g, s));
    assert forall|tr: (u8, u8, u8)| s.map(g).contains(tr) <==> t.contains(tr) by {
        if s.map(g).contains(tr) {
            let k = choose|k: u32| s.contains(k) && g(k) == tr;
            let (x, y) = choose|x: int, y: int|
                #![trigger m.pixel(x, y)]
                m.contains(x, y) && x % (f as int) == 0 && y % (f as int) == 0 && rgb_key(m.pixel(x, y)) == k;
            lemma_key_channels(m.pixel(x, y));
            assert(t.contains(tr));
        }
        if t.contains(tr) {
            let (x, y) = choose|x: int, y: int|
                #![trigger m.pixel(x, y)]
                m.contains(x, y) && x % (f as int) == 0 && y % (f as int) == 0 && (
                    red_of(m.pixel(x, y)),
                    green_of(m.pixel(x, y)),
                    blue_of(m.pixel(x, y)),
                ) == tr;
            let k = rgb_key(m.pixel(x, y));
            lemma_key_channels(m.pixel(x, y));
            assert(s.contains(k));
            assert(g(k) == tr);
            assert(s.map(g).contains(tr));
        }
    }
    assert(s.map(g) =~= t);
    vstd::set_lib::lemma_map_size(s, t, g);
}

} // verus!
