//! Border operations: adding, removing and filling borders.

use vstd::prelude::*;
use super::{Pix, PixMut, PixelDepth, InitColor};
use super::model::{PixModel, stored, new_ok, pmask};
use super::raster::{in_block, fill_block, copy_block, remap_into, lemma_stored_small};
use crate::error::{Error, Result, invalid_param};
use crate::colormap::CmapModel;

verus! {

/// Source index for output index `i` when a band of `n` pixels starting at
/// `lo` is extended by reflection about its edge pixels.
pub open spec fn mirror_index(i: int, lo: int, n: int) -> int {
    if i < lo {
        lo - 1 - i
    } else if i < lo + n {
        i - lo
    } else {
        2 * n + lo - 1 - i
    }
}

/// Source index for output index `i` when a band of `n` pixels starting at
/// `lo` is extended by wrapping around to the opposite edge.
pub open spec fn wrap_index(i: int, lo: int, n: int) -> int {
    if i < lo {
        n - lo + i
    } else if i < lo + n {
        i - lo
    } else {
        i - lo - n
    }
}

/// Whether `(x, y)` lies in the border strips of a `w` by `h` image.
pub open spec fn in_border(x: int, y: int, w: int, h: int, left: int, right: int, top: int, bot: int) -> bool {
    y < top || y >= h - bot || x < left || x >= w - right
}

/// Table of source indices for a mirrored (or wrapped) band.
fn index_map(lo: u32, n: u32, hi: u32, mirror: bool) -> (m: Vec<u32>)
    requires
        lo <= n,
        hi <= n,
        lo as int + n as int + hi as int <= u32::MAX,
    ensures
        m@.len() == lo + n + hi,
        forall|i: int|
            0 <= i < m@.len() ==> #[trigger] m@[i] as int == if mirror {
                mirror_index(i, lo as int, n as int)
            } else {
                wrap_index(i, lo as int, n as int)
            },
        forall|i: int| 0 <= i < m@.len() ==> #[trigger] m@[i] < n,
{
    let total = lo + n + hi;
    let mut m: Vec<u32> = Vec::new();
    let mut i: u32 = 0;
    while i < total
        invariant
            lo <= n,
            hi <= n,
            total == lo + n + hi,
            i <= total,
            m@.len() == i,
            forall|k: int|
                0 <= k < i ==> #[trigger] m@[k] as int == if mirror {
                    mirror_index(k, lo as int, n as int)
                } else {
                    wrap_index(k, lo as int, n as int)
                },
            forall|k: int| 0 <= k < i ==> #[trigger] m@[k] < n,
        decreases total - i,
    {
        let v = if i < lo {
            if mirror {
                lo - 1 - i
            } else {
                n - lo + i
            }
        } else if i < lo + n {
            i - lo
        } else {
            if mirror {
                n - 1 - (i - lo - n)
            } else {
                i - lo - n
            }
        };
        m.push(v);
        i = i + 1;
    }
    m
}

impl Pix {
    /// Add a uniform border of `npix` pixels on all sides, filled with
    /// `val` (masked to the depth). With `npix == 0`, returns a deep copy.
    ///
    /// # Errors
    ///
    /// [`Error::InvalidDimension`] if the bordered image cannot be made.
    pub fn add_border(&self, npix: u32, val: u32) -> (r: Result<Pix>)
        requires
            self@.wf(),
            self@.width + 2 * npix <= u32::MAX,
            self@.height + 2 * npix <= u32::MAX,
        ensures
            npix == 0 ==> (r matches Ok(p) && p@ == self@),
            npix > 0 ==> self.add_border_general_spec(npix, npix, npix, npix, val, r),
    {
        if npix == 0 {
            return Ok(self.deep_clone());
        }
        self.add_border_general(npix, npix, npix, npix, val)
    }

    /// What [`Pix::add_border_general`] promises of its result `r`.
    pub open spec fn add_border_general_spec(
        &self,
        left: u32,
        right: u32,
        top: u32,
        bot: u32,
        val: u32,
        r: Result<Pix>,
    ) -> bool {
        let wd = (self@.width + left + right) as u32;
        let hd = (self@.height + top + bot) as u32;
        &&& r is Ok <==> new_ok(wd, hd, self@.depth)
        &&& r matches Ok(p) ==> {
            &&& p@.created(wd, hd, self@.depth, self@.xres, self@.yres)
            &&& forall|x: int, y: int|
                p@.contains(x, y) ==> #[trigger] p@.pixel(x, y) == if in_block(
                    x,
                    y,
                    left as int,
                    top as int,
                    self@.width as int,
                    self@.height as int,
                ) {
                    self@.pixel(x - left, y - top)
                } else {
                    stored(self@.depth, val)
                }
        }
        &&& r matches Err(e) ==> e is InvalidDimension
    }

    /// Add borders of different widths on each side, filled with `val`
    /// (masked to the depth). The resolution is copied; the colormap is not.
    ///
    /// # Errors
    ///
    /// [`Error::InvalidDimension`] if the bordered image cannot be made.
    pub fn add_border_general(&self, left: u32, right: u32, top: u32, bot: u32, val: u32) -> (r:
        Result<Pix>)
        requires
            self@.wf(),
            self@.width + left + right <= u32::MAX,
            self@.height + top + bot <= u32::MAX,
        ensures
            self.add_border_general_spec(left, right, top, bot, val, r),
    {
        match self.add_border_general_mut(left, right, top, bot, val) {
            Ok(m) => Ok(m.into_pix()),
            Err(e) => Err(e),
        }
    }

    fn add_border_general_mut(&self, left: u32, right: u32, top: u32, bot: u32, val: u32) -> (r:
        Result<PixMut>)
        requires
            self@.wf(),
            self@.width + left + right <= u32::MAX,
            self@.height + top + bot <= u32::MAX,
        ensures
            r is Ok <==> new_ok(
                (self@.width + left + right) as u32,
                (self@.height + top + bot) as u32,
                self@.depth,
            ),
            r matches Ok(p) ==> {
                &&& p@.created(
                    (self@.width + left + right) as u32,
                    (self@.height + top + bot) as u32,
                    self@.depth,
                    self@.xres,
                    self@.yres,
                )
                &&& forall|x: int, y: int|
                    p@.contains(x, y) ==> #[trigger] p@.pixel(x, y) == if in_block(
                        x,
                        y,
                        left as int,
                        top as int,
                        self@.width as int,
                        self@.height as int,
                    ) {
                        self@.pixel(x - left, y - top)
                    } else {
                        stored(self@.depth, val)
                    }
            },
            r matches Err(e) ==> e is InvalidDimension,
    {
        let ws = self.width();
        let hs = self.height();
        let wd = ws + left + right;
        let hd = hs + top + bot;
        let mut m = match PixMut::new(wd, hd, self.depth()) {
            Ok(m) => m,
            Err(e) => {
                return Err(e);
            },
        };
        let ghost m0 = m@;
        m.set_resolution(self.xres(), self.yres());
        let ghost m1 = m@;
        if val != 0 {
            fill_block(&mut m, 0, 0, wd, hd, val);
        }
        assert forall|x: int, y: int| m@.contains(x, y) implies #[trigger] m@.pixel(x, y) == stored(
            self@.depth,
            val,
        ) by {
            if val == 0 {
                lemma_stored_small(self@.depth, 0);
                assert(m0.pixel(x, y) == 0);
                assert(m1.pixel(x, y) == 0);
            }
        }
        copy_block(&mut m, left, top, self, 0, 0, ws, hs);
        Ok(m)
    }

    /// Remove a uniform border of `npix` pixels from all sides. With
    /// `npix == 0`, returns a deep copy.
    ///
    /// # Errors
    ///
    /// [`Error::InvalidParameter`] if nothing would remain.
    pub fn remove_border(&self, npix: u32) -> (r: Result<Pix>)
        requires
            self@.wf(),
            2 * npix <= u32::MAX,
        ensures
            npix == 0 ==> (r matches Ok(p) && p@ == self@),
            npix > 0 ==> self.remove_border_general_spec(npix, npix, npix, npix, r),
    {
        if npix == 0 {
            return Ok(self.deep_clone());
        }
        self.remove_border_general(npix, npix, npix, npix)
    }

    /// What [`Pix::remove_border_general`] promises of its result `r`.
    pub open spec fn remove_border_general_spec(
        &self,
        left: u32,
        right: u32,
        top: u32,
        bot: u32,
        r: Result<Pix>,
    ) -> bool {
        let wd = (self@.width - left - right) as u32;
        let hd = (self@.height - top - bot) as u32;
        &&& r is Ok <==> (left + right < self@.width && top + bot < self@.height)
        &&& r matches Ok(p) ==> {
            &&& p@.created(wd, hd, self@.depth, self@.xres, self@.yres)
            &&& forall|x: int, y: int|
                p@.contains(x, y) ==> #[trigger] p@.pixel(x, y) == self@.pixel(x + left, y + top)
        }
        &&& r matches Err(e) ==> e is InvalidParameter
    }

    /// Remove borders of different widths from each side. The resolution is
    /// copied; the colormap is not.
    ///
    /// # Errors
    ///
    /// [`Error::InvalidParameter`] if nothing would remain.
    pub fn remove_border_general(&self, left: u32, right: u32, top: u32, bot: u32) -> (r: Result<
        Pix,
    >)
        requires
            self@.wf(),
            left + right <= u32::MAX,
            top + bot <= u32::MAX,
        ensures
            self.remove_border_general_spec(left, right, top, bot, r),
    {
        let ws = self.width();
        let hs = self.height();
        if left + right >= ws {
            return Err(invalid_param("border left + right >= width"));
        }
        if top + bot >= hs {
            return Err(invalid_param("border top + bot >= height"));
        }
        let wd = ws - left - right;
        let hd = hs - top - bot;
        proof {
            super::model::lemma_wpl_mono(wd as int, ws as int, self@.depth);
            let a = super::model::wpl_for(wd as int, self@.depth);
            let b = super::model::wpl_for(ws as int, self@.depth);
            assert(a * hd <= b * hs) by (nonlinear_arith)
                requires
                    0 <= a <= b,
                    0 <= hd <= hs,
            ;
        }
        let mut m = match PixMut::new(wd, hd, self.depth()) {
            Ok(m) => m,
            Err(e) => {
                return Err(e);
            },
        };
        m.set_resolution(self.xres(), self.yres());
        copy_block(&mut m, 0, 0, self, left, top, wd, hd);
        Ok(m.into_pix())
    }

    /// Add a border made by reflecting the image about its edge pixels.
    ///
    /// # Errors
    ///
    /// [`Error::InvalidParameter`] if a border is wider than the image in
    /// that direction; [`Error::InvalidDimension`] if the result cannot be
    /// made.
    pub fn add_mirrored_border(&self, left: u32, right: u32, top: u32, bot: u32) -> (r: Result<
        Pix,
    >)
        requires
            self@.wf(),
            self@.width + left + right <= u32::MAX,
            self@.height + top + bot <= u32::MAX,
        ensures
            self.extended_border_spec(left, right, top, bot, true, r),
    {
        self.add_extended_border(left, right, top, bot, true)
    }

    /// Add a border made by wrapping around to the opposite edge.
    ///
    /// # Errors
    ///
    /// [`Error::InvalidParameter`] if a border is wider than the image in
    /// that direction; [`Error::InvalidDimension`] if the result cannot be
    /// made.
    pub fn add_repeated_border(&self, left: u32, right: u32, top: u32, bot: u32) -> (r: Result<
        Pix,
    >)
        requires
            self@.wf(),
            self@.width + left + right <= u32::MAX,
            self@.height + top + bot <= u32::MAX,
        ensures
            self.extended_border_spec(left, right, top, bot, false, r),
    {
        self.add_extended_border(left, right, top, bot, false)
    }

    /// What the mirrored (`mirror`) or repeated border additions promise.
    pub open spec fn extended_border_spec(
        &self,
        left: u32,
        right: u32,
        top: u32,
        bot: u32,
        mirror: bool,
        r: Result<Pix>,
    ) -> bool {
        let w = self@.width as int;
        let h = self@.height as int;
        let wd = (w + left + right) as u32;
        let hd = (h + top + bot) as u32;
        &&& r is Ok <==> (left <= w && right <= w && top <= h && bot <= h && new_ok(
            wd,
            hd,
            self@.depth,
        ))
        &&& r matches Ok(p) ==> {
            &&& p@.created(wd, hd, self@.depth, self@.xres, self@.yres)
            &&& forall|x: int, y: int|
                p@.contains(x, y) ==> #[trigger] p@.pixel(x, y) == if mirror {
                    self@.pixel(mirror_index(x, left as int, w), mirror_index(y, top as int, h))
                } else {
                    self@.pixel(wrap_index(x, left as int, w), wrap_index(y, top as int, h))
                }
        }
        &&& r matches Err(e) ==> (e is InvalidParameter || e is InvalidDimension)
    }

    fn add_extended_border(&self, left: u32, right: u32, top: u32, bot: u32, mirror: bool) -> (r:
        Result<Pix>)
        requires
            self@.wf(),
            self@.width + left + right <= u32::MAX,
            self@.height + top + bot <= u32::MAX,
        ensures
            self.extended_border_spec(left, right, top, bot, mirror, r),
    {
        let w = self.width();
        let h = self.height();
        if left > w || right > w || top > h || bot > h {
            return Err(invalid_param("border size exceeds image dimension"));
        }
        let mut m = match PixMut::new(w + left + right, h + top + bot, self.depth()) {
            Ok(m) => m,
            Err(e) => {
                return Err(e);
            },
        };
        m.set_resolution(self.xres(), self.yres());
        let xmap = index_map(left, w, right, mirror);
        let ymap = index_map(top, h, bot, mirror);
        remap_into(&mut m, self, &xmap, &ymap);
        Ok(m.into_pix())
    }

    /// Add a black or white border with the given widths on each side.
    ///
    /// # Errors
    ///
    /// [`Error::InvalidDimension`] if the bordered image cannot be made.
    pub fn add_black_or_white_border(
        &self,
        left: u32,
        right: u32,
        top: u32,
        bot: u32,
        color: InitColor,
    ) -> (r: Result<Pix>)
        requires
            self@.wf(),
            self@.width + left + right <= u32::MAX,
            self@.height + top + bot <= u32::MAX,
        ensures
            self.add_border_general_spec(
                left,
                right,
                top,
                bot,
                black_or_white_val(self@, color),
                r,
            ),
    {
        let val = PixMut::get_black_or_white_val(self, color);
        self.add_border_general(left, right, top, bot, val)
    }
}

/// Sum of the three color channels of a colormap entry.
pub open spec fn entry_intensity(c: (u8, u8, u8, u8)) -> int {
    c.0 as int + c.1 as int + c.2 as int
}

/// Index of the first darkest (`black`) or lightest entry among the first
/// `n` entries of a colormap.
pub open spec fn extreme_entry(colors: Seq<(u8, u8, u8, u8)>, n: int, black: bool) -> int
    decreases n,
{
    if n <= 1 {
        0
    } else {
        let k = extreme_entry(colors, n - 1, black);
        let better = if black {
            entry_intensity(colors[n - 1]) < entry_intensity(colors[k])
        } else {
            entry_intensity(colors[n - 1]) > entry_intensity(colors[k])
        };
        if better {
            n - 1
        } else {
            k
        }
    }
}

/// The pixel value for black or white in an image: without a colormap,
/// black is 1 at 1 bpp and 0 otherwise, and white is 0 at 1 bpp, `0xffffff00`
/// at 32 bpp and the maximum value otherwise; with a colormap, the index of
/// the darkest or lightest entry.
pub open spec fn black_or_white_val(p: PixModel, color: InitColor) -> u32 {
    match p.cmap {
        Some(c) => extreme_entry(c.colors, c.colors.len() as int, color == InitColor::Black) as u32,
        None => {
            if color == InitColor::Black {
                if p.depth == PixelDepth::Bit1 {
                    1
                } else {
                    0
                }
            } else {
                if p.depth == PixelDepth::Bit1 {
                    0
                } else if p.depth == PixelDepth::Bit32 {
                    0xffff_ff00
                } else {
                    pmask(p.depth)
                }
            }
        },
    }
}

impl PixMut {
    /// The pixel value that shows black or white in `pix`.
    pub fn get_black_or_white_val(pix: &Pix, color: InitColor) -> (v: u32)
        requires
            pix@.wf(),
        ensures
            v == black_or_white_val(pix@, color),
    {
        match pix.colormap() {
            Some(cmap) => {
                let n = cmap.len();
                let black = color == InitColor::Black;
                let mut best: usize = 0;
                let mut i: usize = 1;
                let ghost colors = cmap@.colors;
                if n == 0 {
                    return 0;
                }
                let mut best_sum: u32 = match cmap.get_rgb(0) {
                    Some((r, g, b)) => r as u32 + g as u32 + b as u32,
                    None => 0,
                };
                while i < n
                    invariant
                        n == colors.len(),
                        cmap@.colors == colors,
                        colors.len() <= 256,
                        1 <= i <= n,
                        best == extreme_entry(colors, i as int, black),
                        best < i,
                        best_sum == entry_intensity(colors[best as int]),
                    decreases n - i,
                {
                    let s = match cmap.get_rgb(i) {
                        Some((r, g, b)) => r as u32 + g as u32 + b as u32,
                        None => 0,
                    };
                    let better = if black {
                        s < best_sum
                    } else {
                        s > best_sum
                    };
                    if better {
                        best = i;
                        best_sum = s;
                    }
                    i = i + 1;
                }
                best as u32
            },
            None => {
                let d = pix.depth();
                match color {
                    InitColor::Black => {
                        if d == PixelDepth::Bit1 {
                            1
                        } else {
                            0
                        }
                    },
                    InitColor::White => {
                        if d == PixelDepth::Bit1 {
                            0
                        } else if d == PixelDepth::Bit32 {
                            0xffff_ff00
                        } else {
                            d.max_value()
                        }
                    },
                }
            },
        }
    }

    /// Set the border pixels (`left`, `right`, `top`, `bot` wide) to `val`,
    /// masked to the depth; interior pixels keep their value.
    ///
    /// # Errors
    ///
    /// [`Error::UnsupportedDepth`] unless the image is 8, 16 or 32 bpp; the
    /// image is then unchanged.
    pub fn set_border_val(&mut self, left: u32, right: u32, top: u32, bot: u32, val: u32) -> (r:
        Result<()>)
        requires
            old(self)@.wf(),
        ensures
            r is Ok <==> (old(self)@.depth == PixelDepth::Bit8 || old(self)@.depth
                == PixelDepth::Bit16 || old(self)@.depth == PixelDepth::Bit32),
            r is Err ==> final(self)@ == old(self)@,
            r matches Err(e) ==> e is UnsupportedDepth,
            final(self)@.wf(),
            final(self)@.same_meta(old(self)@),
            r is Ok ==> forall|x: int, y: int|
                final(self)@.contains(x, y) ==> #[trigger] final(self)@.pixel(x, y) == if in_border(
                    x,
                    y,
                    old(self)@.width as int,
                    old(self)@.height as int,
                    left as int,
                    right as int,
                    top as int,
                    bot as int,
                ) {
                    stored(old(self)@.depth, val)
                } else {
                    old(self)@.pixel(x, y)
                },
    {
        let d = self.depth();
        if d != PixelDepth::Bit8 && d != PixelDepth::Bit16 && d != PixelDepth::Bit32 {
            return Err(Error::UnsupportedDepth(d.bits()));
        }
        let ghost m0 = self@;
        let w = self.width();
        let h = self.height();
        let top_end = if top < h {
            top
        } else {
            h
        };
        let bot_start = if bot < h {
            h - bot
        } else {
            0
        };
        let y_start = top_end;
        let y_end = if bot_start > y_start {
            bot_start
        } else {
            y_start
        };
        let left_end = if left < w {
            left
        } else {
            w
        };
        let right_start = if right < w {
            w - right
        } else {
            0
        };
        fill_block(self, 0, 0, w, top_end, val);
        fill_block(self, 0, bot_start, w, h - bot_start, val);
        fill_block(self, 0, y_start, left_end, y_end - y_start, val);
        fill_block(self, right_start, y_start, w - right_start, y_end - y_start, val);
        Ok(())
    }
}

impl Pix {
    /// Removing the border that was added gives back every pixel.
    pub proof fn law_remove_added_border(
        &self,
        left: u32,
        right: u32,
        top: u32,
        bot: u32,
        val: u32,
        added: Result<Pix>,
        removed: Result<Pix>,
    )
        requires
            self@.wf(),
            self@.width + left + right <= u32::MAX,
            self@.height + top + bot <= u32::MAX,
            self.add_border_general_spec(left, right, top, bot, val, added),
            added matches Ok(a) && a.remove_border_general_spec(left, right, top, bot, removed),
        ensures
            added is Ok ==> (removed matches Ok(b) && b@.same_pixels(self@)),
    {
        if added is Ok {
            let a = added->Ok_0;
            assert(left + right < a@.width && top + bot < a@.height);
            let b = removed->Ok_0;
            assert forall|x: int, y: int| b@.contains(x, y) implies #[trigger] b@.pixel(x, y) == self@.pixel(x, y) by {
                assert(b@.pixel(x, y) == a@.pixel(x + left, y + top));
                assert(a@.contains(x + left, y + top));
            }
        }
    }
}

} // verus!
