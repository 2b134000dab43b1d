//! Rectangle clipping operations for images
//!
//! Extracting rectangular sub-regions from images and finding the
//! foreground of binary images.

use vstd::prelude::*;
use super::{Pix, PixMut, PixelDepth, ImageFormat};
use super::model::{PixModel, new_ok};
use super::raster::{copy_block, in_block};
use crate::box_::{Box, clip_spec};
use crate::error::{Error, Result, invalid_param};
use super::convert::to8_value;
use super::histogram::{
    BinKind, full_hist, hist_of, grid_count, row_count, nsamples, counts_fit, hist_full,
    lemma_nsamples_bound, lemma_grid_count_bound,
};

verus! {

/// Direction for scanning an image to find the foreground edge.
#[derive(Debug, Clone, Copy, PartialEq, Eq, Structural)]
pub enum ScanDirection {
    /// Scan from left edge toward right
    FromLeft,
    /// Scan from right edge toward left
    FromRight,
    /// Scan from top edge toward bottom
    FromTop,
    /// Scan from bottom edge toward top
    FromBot,
}

/// `r` is the `cw` by `ch` part of `p` whose corner is `(x, y)`, with the
/// metadata that clipping gives it: the resolution of `p`, and at 32 bpp
/// its samples per pixel.
pub open spec fn clipped_from(r: PixModel, p: PixModel, x: int, y: int, cw: int, ch: int) -> bool {
    &&& r.wf()
    &&& r.width == cw
    &&& r.height == ch
    &&& r.depth == p.depth
    &&& r.spp == (if p.depth == PixelDepth::Bit32 { p.spp } else { 1u32 })
    &&& r.xres == p.xres
    &&& r.yres == p.yres
    &&& r.informat == ImageFormat::Unknown
    &&& r.special == 0
    &&& r.text is None
    &&& r.cmap is None
    &&& forall|dx: int, dy: int| r.contains(dx, dy) ==> #[trigger] r.pixel(dx, dy) == p.pixel(x + dx, y + dy)
}

/// The smaller of two unsigned values.
pub open spec fn min_u(a: u32, b: u32) -> u32 {
    if a < b {
        a
    } else {
        b
    }
}

/// Pixel `(x, y)` is a foreground pixel inside the `w` by `h` block at
/// `(x0, y0)`.
pub open spec fn fg_in(p: PixModel, x: int, y: int, x0: int, y0: int, w: int, h: int) -> bool {
    &&& x0 <= x < x0 + w
    &&& y0 <= y < y0 + h
    &&& p.contains(x, y)
    &&& p.pixel(x, y) != 0
}

/// The block holds at least one foreground pixel.
pub open spec fn any_fg(p: PixModel, x0: int, y0: int, w: int, h: int) -> bool {
    exists|x: int, y: int| #[trigger] fg_in(p, x, y, x0, y0, w, h)
}

/// `v` is what a scan of the block from direction `dir` finds: the column
/// (or row) of the first foreground pixel met.
pub open spec fn scan_found(
    p: PixModel,
    x0: int,
    y0: int,
    w: int,
    h: int,
    dir: ScanDirection,
    v: int,
) -> bool {
    match dir {
        ScanDirection::FromLeft => (exists|y: int| #[trigger] fg_in(p, v, y, x0, y0, w, h))
            && forall|x: int, y: int| #[trigger] fg_in(p, x, y, x0, y0, w, h) ==> v <= x,
        ScanDirection::FromRight => (exists|y: int| #[trigger] fg_in(p, v, y, x0, y0, w, h))
            && forall|x: int, y: int| #[trigger] fg_in(p, x, y, x0, y0, w, h) ==> x <= v,
        ScanDirection::FromTop => (exists|x: int| #[trigger] fg_in(p, x, v, x0, y0, w, h))
            && forall|x: int, y: int| #[trigger] fg_in(p, x, y, x0, y0, w, h) ==> v <= y,
        ScanDirection::FromBot => (exists|x: int| #[trigger] fg_in(p, x, v, x0, y0, w, h))
            && forall|x: int, y: int| #[trigger] fg_in(p, x, y, x0, y0, w, h) ==> y <= v,
    }
}

/// `(x0, y0)` to `(x1, y1)` is the smallest box holding every foreground
/// pixel of the block.
pub open spec fn fg_bbox(p: PixModel, bx: int, by: int, bw: int, bh: int, x0: int, y0: int, x1: int, y1: int) -> bool {
    &&& scan_found(p, bx, by, bw, bh, ScanDirection::FromLeft, x0)
    &&& scan_found(p, bx, by, bw, bh, ScanDirection::FromRight, x1)
    &&& scan_found(p, bx, by, bw, bh, ScanDirection::FromTop, y0)
    &&& scan_found(p, bx, by, bw, bh, ScanDirection::FromBot, y1)
}

/// The column (or row) that a scan of the block from `dir` finds, when
/// the block holds a foreground pixel.
pub open spec fn scan_pos(p: PixModel, x0: int, y0: int, w: int, h: int, dir: ScanDirection) -> int {
    choose|v: int| scan_found(p, x0, y0, w, h, dir, v)
}

proof fn lemma_scan_extreme(p: PixModel, x0: int, y0: int, w: int, h: int, dir: ScanDirection, x: int, y: int)
    requires
        fg_in(p, x, y, x0, y0, w, h),
    ensures
        exists|v: int| #[trigger] scan_found(p, x0, y0, w, h, dir, v),
    decreases (match dir {
        ScanDirection::FromLeft => x - x0,
        ScanDirection::FromRight => x0 + w - x,
        ScanDirection::FromTop => y - y0,
        ScanDirection::FromBot => y0 + h - y,
    }),
{
    match dir {
        ScanDirection::FromLeft => {
            if exists|x2: int, y2: int| #[trigger] fg_in(p, x2, y2, x0, y0, w, h) && x2 < x {
                let (x2, y2) = choose|x2: int, y2: int| #[trigger] fg_in(p, x2, y2, x0, y0, w, h) && x2 < x;
                lemma_scan_extreme(p, x0, y0, w, h, dir, x2, y2);
            } else {
                assert(scan_found(p, x0, y0, w, h, dir, x));
            }
        },
        ScanDirection::FromRight => {
            if exists|x2: int, y2: int| #[trigger] fg_in(p, x2, y2, x0, y0, w, h) && x2 > x {
                let (x2, y2) = choose|x2: int, y2: int| #[trigger] fg_in(p, x2, y2, x0, y0, w, h) && x2 > x;
                lemma_scan_extreme(p, x0, y0, w, h, dir, x2, y2);
            } else {
                assert(scan_found(p, x0, y0, w, h, dir, x));
            }
        },
        ScanDirection::FromTop => {
            if exists|x2: int, y2: int| #[trigger] fg_in(p, x2, y2, x0, y0, w, h) && y2 < y {
                let (x2, y2) = choose|x2: int, y2: int| #[trigger] fg_in(p, x2, y2, x0, y0, w, h) && y2 < y;
                lemma_scan_extreme(p, x0, y0, w, h, dir, x2, y2);
            } else {
                assert(scan_found(p, x0, y0, w, h, dir, y));
            }
        },
        ScanDirection::FromBot => {
            if exists|x2: int, y2: int| #[trigger] fg_in(p, x2, y2, x0, y0, w, h) && y2 > y {
                let (x2, y2) = choose|x2: int, y2: int| #[trigger] fg_in(p, x2, y2, x0, y0, w, h) && y2 > y;
                lemma_scan_extreme(p, x0, y0, w, h, dir, x2, y2);
            } else {
                assert(scan_found(p, x0, y0, w, h, dir, y));
            }
        },
    }
}

/// A block with a foreground pixel has, from every direction, a first
/// column (or row) with a foreground pixel: [`scan_pos`] is that one.
pub proof fn lemma_scan_exists(p: PixModel, x0: int, y0: int, w: int, h: int, dir: ScanDirection)
    requires
        any_fg(p, x0, y0, w, h),
    ensures
        scan_found(p, x0, y0, w, h, dir, scan_pos(p, x0, y0, w, h, dir)),
{
    let (x, y) = choose|x: int, y: int| #[trigger] fg_in(p, x, y, x0, y0, w, h);
    lemma_scan_extreme(p, x0, y0, w, h, dir, x, y);
}

/// A block with a foreground pixel has a foreground bounding box, made of
/// the four scan positions that clipping reports.
pub proof fn lemma_fg_bbox_exists(p: PixModel, bx: int, by: int, bw: int, bh: int)
    requires
        any_fg(p, bx, by, bw, bh),
    ensures
        fg_bbox(
            p,
            bx,
            by,
            bw,
            bh,
            scan_pos(p, bx, by, bw, bh, ScanDirection::FromLeft),
            scan_pos(p, bx, by, bw, bh, ScanDirection::FromTop),
            scan_pos(p, bx, by, bw, bh, ScanDirection::FromRight),
            scan_pos(p, bx, by, bw, bh, ScanDirection::FromBot),
        ),
{
    lemma_scan_exists(p, bx, by, bw, bh, ScanDirection::FromLeft);
    lemma_scan_exists(p, bx, by, bw, bh, ScanDirection::FromRight);
    lemma_scan_exists(p, bx, by, bw, bh, ScanDirection::FromTop);
    lemma_scan_exists(p, bx, by, bw, bh, ScanDirection::FromBot);
}

/// A scan finds one position only.
pub proof fn lemma_scan_unique(p: PixModel, x0: int, y0: int, w: int, h: int, dir: ScanDirection, v: int)
    requires
        scan_found(p, x0, y0, w, h, dir, v),
    ensures
        scan_pos(p, x0, y0, w, h, dir) == v,
{
    let u = scan_pos(p, x0, y0, w, h, dir);
    assert(scan_found(p, x0, y0, w, h, dir, u));
    match dir {
        ScanDirection::FromLeft => {
            let yv = choose|y: int| #[trigger] fg_in(p, v, y, x0, y0, w, h);
            let yu = choose|y: int| #[trigger] fg_in(p, u, y, x0, y0, w, h);
            assert(fg_in(p, v, yv, x0, y0, w, h));
            assert(fg_in(p, u, yu, x0, y0, w, h));
        },
        ScanDirection::FromRight => {
            let yv = choose|y: int| #[trigger] fg_in(p, v, y, x0, y0, w, h);
            let yu = choose|y: int| #[trigger] fg_in(p, u, y, x0, y0, w, h);
            assert(fg_in(p, v, yv, x0, y0, w, h));
            assert(fg_in(p, u, yu, x0, y0, w, h));
        },
        ScanDirection::FromTop => {
            let xv = choose|x: int| #[trigger] fg_in(p, x, v, x0, y0, w, h);
            let xu = choose|x: int| #[trigger] fg_in(p, x, u, x0, y0, w, h);
            assert(fg_in(p, xv, v, x0, y0, w, h));
            assert(fg_in(p, xu, u, x0, y0, w, h));
        },
        ScanDirection::FromBot => {
            let xv = choose|x: int| #[trigger] fg_in(p, x, v, x0, y0, w, h);
            let xu = choose|x: int| #[trigger] fg_in(p, x, u, x0, y0, w, h);
            assert(fg_in(p, xv, v, x0, y0, w, h));
            assert(fg_in(p, xu, u, x0, y0, w, h));
        },
    }
}

/// The foreground bounding box of a block, as clipping reports it.
pub open spec fn fg_block_result(c: PixModel, b: Box, p: PixModel, bx: int, by: int, bw: int, bh: int) -> bool {
    fg_clip_result(
        c,
        b,
        p,
        scan_pos(p, bx, by, bw, bh, ScanDirection::FromLeft),
        scan_pos(p, bx, by, bw, bh, ScanDirection::FromTop),
        scan_pos(p, bx, by, bw, bh, ScanDirection::FromRight),
        scan_pos(p, bx, by, bw, bh, ScanDirection::FromBot),
    )
}

/// The result of clipping to the foreground box `(x0, y0)`-`(x1, y1)`:
/// the image part and its rectangle.
pub open spec fn fg_clip_result(c: PixModel, b: Box, p: PixModel, x0: int, y0: int, x1: int, y1: int) -> bool {
    &&& b == (Box {
        x: x0 as i32,
        y: y0 as i32,
        w: (x1 - x0 + 1) as i32,
        h: (y1 - y0 + 1) as i32,
    })
    &&& clipped_from(c, p, x0, y0, x1 - x0 + 1, y1 - y0 + 1)
}

impl Pix {
    /// The rounded mean gray of the foreground (values below `thresh`)
    /// and of the background (the rest), over the pixels at every
    /// `factor`-th column and row from `(0, 0)`, the gray being the value
    /// that [`Pix::convert_to_8`] gives; a class without samples has mean 0.
    ///
    /// # Errors
    ///
    /// [`Error::InvalidParameter`] for a factor of 0;
    /// [`Error::InvalidDimension`] when the 8 bpp copy cannot be made.
    pub fn threshold_for_fg_bg(&self, factor: u32, thresh: u32) -> (r: Result<(u32, u32)>)
        requires
            self@.wf(),
            counts_fit(self@),
        ensures
            r is Ok <==> factor >= 1 && (self@.depth == PixelDepth::Bit8 || new_ok(
                self@.width,
                self@.height,
                PixelDepth::Bit8,
            )),
            r matches Ok(v) ==> v == fg_bg_means(gray8_hist(self@, factor), thresh),
            r matches Err(e) ==> if factor == 0 {
                e is InvalidParameter
            } else {
                e is InvalidDimension
            },
    {
        if factor == 0 {
            return Err(invalid_param("factor must be >= 1"));
        }
        let p8 = match self.convert_to_8() {
            Ok(p) => p,
            Err(e) => {
                return Err(e);
            },
        };
        proof {
            lemma_gray8_hist(self@, p8@, factor);
        }
        let h = hist_full(&p8, BinKind::Value, factor);
        let t: usize = if thresh < 256 {
            thresh as usize
        } else {
            256
        };
        let fg = class_mean(&h, 0, t);
        let bg = class_mean(&h, t, 256);
        Ok((fg, bg))
    }
}

impl Pix {
    /// Extract a rectangular sub-region from the image.
    ///
    /// Creates a new image containing the specified rectangle. If the
    /// rectangle extends beyond the image bounds, it is clipped to the
    /// valid region. Returns an error if the rectangle is entirely outside
    /// the image.
    ///
    /// For 32-bit images, the output preserves the samples-per-pixel
    /// value from the source.
    ///
    /// # Errors
    ///
    /// Returns an error if:
    /// - The requested width or height is 0
    /// - The rectangle is entirely outside the image bounds
    pub fn clip_rectangle(&self, x: u32, y: u32, w: u32, h: u32) -> (r: Result<Pix>)
        requires
            self@.wf(),
        ensures
            r is Ok <==> (w > 0 && h > 0 && x < self@.width && y < self@.height),
            r matches Ok(p) ==> clipped_from(
                p@,
                self@,
                x as int,
                y as int,
                min_u(w, (self@.width - x) as u32) as int,
                min_u(h, (self@.height - y) as u32) as int,
            ),
            r matches Err(e) ==> e is InvalidParameter,
    {
        if w == 0 || h == 0 {
            return Err(invalid_param("clip rectangle has zero dimension"));
        }
        let src_w = self.width();
        let src_h = self.height();
        if x >= src_w || y >= src_h {
            return Err(invalid_param("clip rectangle origin is outside image bounds"));
        }
        let clip_w = if w < src_w - x {
            w
        } else {
            src_w - x
        };
        let clip_h = if h < src_h - y {
            h
        } else {
            src_h - y
        };
        let depth = self.depth();
        proof {
            self@.lemma_new_ok_within(clip_w, clip_h);
        }
        let mut pixd = match PixMut::new(clip_w, clip_h, depth) {
            Ok(m) => m,
            Err(e) => {
                return Err(e);
            },
        };
        if depth == PixelDepth::Bit32 {
            pixd.set_spp(self.spp());
        }
        pixd.set_resolution(self.xres(), self.yres());
        copy_block(&mut pixd, 0, 0, self, x, y, clip_w, clip_h);
        Ok(pixd.into_pix())
    }

    /// Extract a rectangular sub-region with an additional border.
    ///
    /// First intersects the region with the image bounds. Then expands
    /// the clipped region by the border amount (clamped symmetrically
    /// so it does not exceed the distance from the region to the image
    /// edge). The border area contains pixels copied from the source image.
    ///
    /// # Errors
    ///
    /// Returns an error if the region does not intersect the image.
    pub fn clip_rectangle_with_border(&self, region: &Box, max_border: u32) -> (r: Result<(Pix, Box)>)
        requires
            self@.wf(),
        ensures
            r is Ok <==> clip_spec(*region, self@.width as i32, self@.height as i32) is Some,
            r matches Err(e) ==> e is InvalidParameter,
            r matches Ok((p, b)) ==> {
                let c = clip_spec(*region, self@.width as i32, self@.height as i32)->Some_0;
                let border = border_for(c, self@.width as i32, self@.height as i32, max_border);
                &&& b == (Box {
                    x: (c.x - border) as i32,
                    y: (c.y - border) as i32,
                    w: (c.w + 2 * border) as i32,
                    h: (c.h + 2 * border) as i32,
                })
                &&& clipped_from(p@, self@, b.x as int, b.y as int, b.w as int, b.h as int)
            },
    {
        let w = self.width() as i32;
        let h = self.height() as i32;
        let clipped_box = match region.clip(w, h) {
            Some(b) => b,
            None => {
                return Err(invalid_param("region does not intersect image"));
            },
        };
        let (bx, by, bw, bh) = (clipped_box.x, clipped_box.y, clipped_box.w, clipped_box.h);
        let left_margin = bx;
        let top_margin = by;
        let right_margin = w - bx - bw;
        let bottom_margin = h - by - bh;
        let mut border: i32 = if max_border > 0x7fff_ffff {
            -1
        } else {
            max_border as i32
        };
        if left_margin < border {
            border = left_margin;
        }
        if top_margin < border {
            border = top_margin;
        }
        if right_margin < border {
            border = right_margin;
        }
        if bottom_margin < border {
            border = bottom_margin;
        }
        if border < 0 {
            border = 0;
        }
        let ex = bx - border;
        let ey = by - border;
        let ew = bw + 2 * border;
        let eh = bh + 2 * border;
        proof {
            lemma_clip_inside(*region, self@.width, self@.height);
            lemma_border_fits(clipped_box, w, h, max_border);
            assert(border == border_for(clipped_box, w, h, max_border));
        }
        let result = self.clip_rectangle(ex as u32, ey as u32, ew as u32, eh as u32)?;
        let out_box = Box::new(ex, ey, ew, eh)?;
        Ok((result, out_box))
    }

    /// Crop two images to their overlapping region so they have the same size.
    ///
    /// Both images are cropped to the minimum of their widths and heights,
    /// taken from the upper-left corner. An image that already has that
    /// size is copied whole, metadata included.
    pub fn crop_to_match(&self, other: &Pix) -> (r: Result<(Pix, Pix)>)
        requires
            self@.wf(),
            other@.wf(),
        ensures
            r matches Ok((p1, p2)) && {
                let w = min_u(self@.width, other@.width);
                let h = min_u(self@.height, other@.height);
                &&& (self@.width == w && self@.height == h ==> p1@ == self@)
                &&& (!(self@.width == w && self@.height == h) ==> clipped_from(p1@, self@, 0, 0, w as int, h as int))
                &&& (other@.width == w && other@.height == h ==> p2@ == other@)
                &&& (!(other@.width == w && other@.height == h) ==> clipped_from(p2@, other@, 0, 0, w as int, h as int))
            },
    {
        let w = if self.width() < other.width() {
            self.width()
        } else {
            other.width()
        };
        let h = if self.height() < other.height() {
            self.height()
        } else {
            other.height()
        };
        let r1 = if self.width() == w && self.height() == h {
            self.deep_clone()
        } else {
            self.clip_rectangle(0, 0, w, h)?
        };
        let r2 = if other.width() == w && other.height() == h {
            other.deep_clone()
        } else {
            other.clip_rectangle(0, 0, w, h)?
        };
        Ok((r1, r2))
    }

    /// The first column of the block, scanning from the left (or from the
    /// right), that holds a foreground pixel.
    fn find_fg_column(&self, bx: u32, by: u32, bw: u32, bh: u32, from_left: bool) -> (r: Option<u32>)
        requires
            self@.wf(),
            bx as int + bw as int <= self@.width,
            by as int + bh as int <= self@.height,
        ensures
            r is Some <==> any_fg(self@, bx as int, by as int, bw as int, bh as int),
            r matches Some(v) ==> scan_found(
                self@,
                bx as int,
                by as int,
                bw as int,
                bh as int,
                if from_left { ScanDirection::FromLeft } else { ScanDirection::FromRight },
                v as int,
            ),
    {
        let ghost p = self@;
        let mut i: u32 = 0;
        while i < bw
            invariant
                p == self@,
                p.wf(),
                bx as int + bw as int <= p.width,
                by as int + bh as int <= p.height,
                i <= bw,
                forall|x: int, y: int|
                    #[trigger] fg_in(p, x, y, bx as int, by as int, bw as int, bh as int) ==> if from_left {
                        x >= bx + i
                    } else {
                        x < bx + bw - i
                    },
            decreases bw - i,
        {
            let x = if from_left {
                bx + i
            } else {
                bx + bw - 1 - i
            };
            let mut j: u32 = 0;
            while j < bh
                invariant
                    p == self@,
                    p.wf(),
                    bx as int + bw as int <= p.width,
                    by as int + bh as int <= p.height,
                    i < bw,
                    x == (if from_left { bx + i } else { bx + bw - 1 - i }),
                    j <= bh,
                    forall|x2: int, y: int|
                        #[trigger] fg_in(p, x2, y, bx as int, by as int, bw as int, bh as int) ==> if from_left {
                            x2 >= bx + i
                        } else {
                            x2 < bx + bw - i
                        },
                    forall|y: int| by <= y < by + j ==> #[trigger] p.pixel(x as int, y) == 0,
                decreases bh - j,
            {
                if self.get_pixel_unchecked(x, by + j) != 0 {
                    proof {
                        assert(fg_in(p, x as int, (by + j) as int, bx as int, by as int, bw as int, bh as int));
                    }
                    return Some(x);
                }
                j = j + 1;
            }
            proof {
                assert forall|x2: int, y: int|
                    #[trigger] fg_in(p, x2, y, bx as int, by as int, bw as int, bh as int) implies if from_left {
                        x2 >= bx + i + 1
                    } else {
                        x2 < bx + bw - i - 1
                    } by {
                    if x2 == x {
                        assert(p.pixel(x as int, y) == 0);
                    }
                }
            }
            i = i + 1;
        }
        None
    }

    /// The first row of the block, scanning from the top (or from the
    /// bottom), that holds a foreground pixel.
    fn find_fg_row(&self, bx: u32, by: u32, bw: u32, bh: u32, from_top: bool) -> (r: Option<u32>)
        requires
            self@.wf(),
            bx as int + bw as int <= self@.width,
            by as int + bh as int <= self@.height,
        ensures
            r is Some <==> any_fg(self@, bx as int, by as int, bw as int, bh as int),
            r matches Some(v) ==> scan_found(
                self@,
                bx as int,
                by as int,
                bw as int,
                bh as int,
                if from_top { ScanDirection::FromTop } else { ScanDirection::FromBot },
                v as int,
            ),
    {
        let ghost p = self@;
        let mut i: u32 = 0;
        while i < bh
            invariant
                p == self@,
                p.wf(),
                bx as int + bw as int <= p.width,
                by as int + bh as int <= p.height,
                i <= bh,
                forall|x: int, y: int|
                    #[trigger] fg_in(p, x, y, bx as int, by as int, bw as int, bh as int) ==> if from_top {
                        y >= by + i
                    } else {
                        y < by + bh - i
                    },
            decreases bh - i,
        {
            let y = if from_top {
                by + i
            } else {
                by + bh - 1 - i
            };
            let mut j: u32 = 0;
            while j < bw
                invariant
                    p == self@,
                    p.wf(),
                    bx as int + bw as int <= p.width,
                    by as int + bh as int <= p.height,
                    i < bh,
                    y == (if from_top { by + i } else { by + bh - 1 - i }),
                    j <= bw,
                    forall|x: int, y2: int|
                        #[trigger] fg_in(p, x, y2, bx as int, by as int, bw as int, bh as int) ==> if from_top {
                            y2 >= by + i
                        } else {
                            y2 < by + bh - i
                        },
                    forall|x: int| bx <= x < bx + j ==> #[trigger] p.pixel(x, y as int) == 0,
                decreases bw - j,
            {
                if self.get_pixel_unchecked(bx + j, y) != 0 {
                    proof {
                        assert(fg_in(p, (bx + j) as int, y as int, bx as int, by as int, bw as int, bh as int));
                    }
                    return Some(y);
                }
                j = j + 1;
            }
            proof {
                assert forall|x: int, y2: int|
                    #[trigger] fg_in(p, x, y2, bx as int, by as int, bw as int, bh as int) implies if from_top {
                        y2 >= by + i + 1
                    } else {
                        y2 < by + bh - i - 1
                    } by {
                    if y2 == y {
                        assert(p.pixel(x, y as int) == 0);
                    }
                }
            }
            i = i + 1;
        }
        None
    }

    /// Scans the block from `direction` for the first foreground pixel.
    fn find_fg(&self, bx: u32, by: u32, bw: u32, bh: u32, direction: ScanDirection) -> (r: Option<u32>)
        requires
            self@.wf(),
            bx as int + bw as int <= self@.width,
            by as int + bh as int <= self@.height,
        ensures
            r is Some <==> any_fg(self@, bx as int, by as int, bw as int, bh as int),
            r matches Some(v) ==> scan_found(self@, bx as int, by as int, bw as int, bh as int, direction, v as int),
    {
        match direction {
            ScanDirection::FromLeft => self.find_fg_column(bx, by, bw, bh, true),
            ScanDirection::FromRight => self.find_fg_column(bx, by, bw, bh, false),
            ScanDirection::FromTop => self.find_fg_row(bx, by, bw, bh, true),
            ScanDirection::FromBot => self.find_fg_row(bx, by, bw, bh, false),
        }
    }

    /// Clip the image to the bounding box of its foreground pixels.
    ///
    /// Only works on 1bpp images. Foreground pixels have value 1.
    /// Returns `None` if no foreground pixels are found.
    ///
    /// # Errors
    ///
    /// Returns an error if the image is not 1bpp (or is too large for a
    /// [`Box`] to describe its foreground).
    pub fn clip_to_foreground(&self) -> (r: Result<Option<(Pix, Box)>>)
        requires
            self@.wf(),
        ensures
            self@.depth != PixelDepth::Bit1 ==> (r matches Err(e) && e == Error::UnsupportedDepth(
                self@.depth.nbits(),
            )),
            self@.depth == PixelDepth::Bit1 && self@.width <= i32::MAX && self@.height <= i32::MAX ==> r is Ok,
            r matches Ok(None) ==> !any_fg(self@, 0, 0, self@.width as int, self@.height as int),
            r matches Ok(Some(_)) ==> any_fg(self@, 0, 0, self@.width as int, self@.height as int),
            r matches Ok(Some((c, b))) ==> fg_block_result(c@, b, self@, 0, 0, self@.width as int, self@.height as int),
            self@.depth == PixelDepth::Bit1 && any_fg(self@, 0, 0, self@.width as int, self@.height as int) ==> !(r matches Ok(None)),
            r matches Err(e) ==> self@.depth != PixelDepth::Bit1 || e is InvalidParameter,
    {
        if self.depth() != PixelDepth::Bit1 {
            return Err(Error::UnsupportedDepth(self.depth().bits()));
        }
        let w = self.width();
        let h = self.height();
        self.clip_fg_block(0, 0, w, h)
    }

    /// Clips the block to the bounding box of its foreground pixels.
    fn clip_fg_block(&self, bx: u32, by: u32, bw: u32, bh: u32) -> (r: Result<Option<(Pix, Box)>>)
        requires
            self@.wf(),
            bx as int + bw as int <= self@.width,
            by as int + bh as int <= self@.height,
        ensures
            self@.width <= i32::MAX && self@.height <= i32::MAX ==> r is Ok,
            r matches Ok(None) ==> !any_fg(self@, bx as int, by as int, bw as int, bh as int),
            any_fg(self@, bx as int, by as int, bw as int, bh as int) ==> !(r matches Ok(None)),
            r matches Ok(Some(_)) ==> any_fg(self@, bx as int, by as int, bw as int, bh as int),
            r matches Ok(Some((c, b))) ==> fg_block_result(c@, b, self@, bx as int, by as int, bw as int, bh as int),
            r matches Err(e) ==> e is InvalidParameter,
    {
        let minx = match self.find_fg(bx, by, bw, bh, ScanDirection::FromLeft) {
            Some(v) => v,
            None => {
                return Ok(None);
            },
        };
        let maxx = match self.find_fg(bx, by, bw, bh, ScanDirection::FromRight) {
            Some(v) => v,
            None => {
                return Ok(None);
            },
        };
        let miny = match self.find_fg(bx, by, bw, bh, ScanDirection::FromTop) {
            Some(v) => v,
            None => {
                return Ok(None);
            },
        };
        let maxy = match self.find_fg(bx, by, bw, bh, ScanDirection::FromBot) {
            Some(v) => v,
            None => {
                return Ok(None);
            },
        };
        proof {
            let y = choose|y: int| #[trigger] fg_in(self@, minx as int, y, bx as int, by as int, bw as int, bh as int);
            let x = choose|x: int| #[trigger] fg_in(self@, x, miny as int, bx as int, by as int, bw as int, bh as int);
            assert(minx <= maxx);
            assert(miny <= maxy);
        }
        let bbox = Box::new(minx as i32, miny as i32, (maxx - minx + 1) as i32, (maxy - miny + 1) as i32)?;
        let clipped = self.clip_rectangle(minx, miny, maxx - minx + 1, maxy - miny + 1)?;
        proof {
            assert(fg_bbox(self@, bx as int, by as int, bw as int, bh as int, minx as int, miny as int, maxx as int, maxy as int));
            assert(min_u((maxx - minx + 1) as u32, (self@.width - minx) as u32) == maxx - minx + 1);
            assert(min_u((maxy - miny + 1) as u32, (self@.height - miny) as u32) == maxy - miny + 1);
            assert(clipped_from(clipped@, self@, minx as int, miny as int, maxx - minx + 1, maxy - miny + 1));
            assert(fg_clip_result(clipped@, bbox, self@, minx as int, miny as int, maxx as int, maxy as int));
            lemma_scan_unique(self@, bx as int, by as int, bw as int, bh as int, ScanDirection::FromLeft, minx as int);
            lemma_scan_unique(self@, bx as int, by as int, bw as int, bh as int, ScanDirection::FromRight, maxx as int);
            lemma_scan_unique(self@, bx as int, by as int, bw as int, bh as int, ScanDirection::FromTop, miny as int);
            lemma_scan_unique(self@, bx as int, by as int, bw as int, bh as int, ScanDirection::FromBot, maxy as int);
        }
        Ok(Some((clipped, bbox)))
    }

    /// Scan from the specified direction to find the first foreground pixel.
    ///
    /// Only works on 1bpp images. Scans within the given region, clipped
    /// to the image.
    ///
    /// # Errors
    ///
    /// Returns an error if the image is not 1bpp, the region does not
    /// intersect the image, or no foreground is found.
    pub fn scan_for_foreground(&self, region: &Box, direction: ScanDirection) -> (r: Result<u32>)
        requires
            self@.wf(),
        ensures
            self@.depth != PixelDepth::Bit1 ==> (r matches Err(e) && e == Error::UnsupportedDepth(
                self@.depth.nbits(),
            )),
            self@.depth == PixelDepth::Bit1 ==> (r is Ok <==> (clip_spec(
                *region,
                self@.width as i32,
                self@.height as i32,
            ) matches Some(c) && any_fg(self@, c.x as int, c.y as int, c.w as int, c.h as int))),
            r matches Ok(v) ==> clip_spec(*region, self@.width as i32, self@.height as i32) matches Some(c)
                && scan_found(self@, c.x as int, c.y as int, c.w as int, c.h as int, direction, v as int),
            r matches Err(e) ==> self@.depth != PixelDepth::Bit1 || e is InvalidParameter,
    {
        if self.depth() != PixelDepth::Bit1 {
            return Err(Error::UnsupportedDepth(self.depth().bits()));
        }
        let w = self.width();
        let h = self.height();
        let clipped = match region.clip(w as i32, h as i32) {
            Some(b) => b,
            None => {
                return Err(invalid_param("scan region does not intersect image"));
            },
        };
        proof {
            lemma_clip_inside(*region, w, h);
        }
        let bx = clipped.x as u32;
        let by = clipped.y as u32;
        let bw = clipped.w as u32;
        let bh = clipped.h as u32;
        match self.find_fg(bx, by, bw, bh, direction) {
            Some(v) => Ok(v),
            None => Err(invalid_param("no foreground pixel found in scan region")),
        }
    }

    /// Clip a box to the foreground region of a 1bpp image.
    ///
    /// If `input_box` is `None`, the entire image is used. Returns the
    /// clipped image and its bounding box. Returns `None` if no foreground
    /// is found in the region.
    ///
    /// # Errors
    ///
    /// Returns an error if the image is not 1bpp, or if the box does not
    /// intersect the image.
    pub fn clip_box_to_foreground(&self, input_box: Option<&Box>) -> (r: Result<Option<(Pix, Box)>>)
        requires
            self@.wf(),
        ensures
            self@.depth != PixelDepth::Bit1 ==> (r matches Err(e) && e == Error::UnsupportedDepth(
                self@.depth.nbits(),
            )),
            r matches Err(e) ==> self@.depth != PixelDepth::Bit1 || e is InvalidParameter,
            self@.depth == PixelDepth::Bit1 && self@.width <= i32::MAX && self@.height <= i32::MAX ==> (
            r is Ok <==> (input_box matches Some(b) ==> clip_spec(*b, self@.width as i32, self@.height as i32) is Some)),
            r is Ok ==> {
                let c = search_block(input_box, self@);
                &&& (r matches Ok(None) <==> !any_fg(self@, c.x as int, c.y as int, c.w as int, c.h as int))
                &&& (r matches Ok(Some((p, b))) ==> fg_block_result(p@, b, self@, c.x as int, c.y as int, c.w as int, c.h as int))
            },
    {
        if self.depth() != PixelDepth::Bit1 {
            return Err(Error::UnsupportedDepth(self.depth().bits()));
        }
        let w = self.width() as i32;
        let h = self.height() as i32;
        let search_box = match input_box {
            Some(b) => match b.clip(w, h) {
                Some(c) => c,
                None => {
                    return Err(invalid_param("input box does not intersect image"));
                },
            },
            None => Box::new(0, 0, w, h)?,
        };
        proof {
            lemma_i32_cast(self@.width);
            lemma_i32_cast(self@.height);
            match input_box {
                Some(b) => {
                    lemma_clip_inside(*b, self@.width, self@.height);
                },
                None => {},
            }
            assert(search_box == search_block(input_box, self@));
        }
        let bx = search_box.x as u32;
        let by = search_box.y as u32;
        let bw = search_box.w as u32;
        let bh = search_box.h as u32;
        self.clip_fg_block(bx, by, bw, bh)
    }
}

/// The block searched by `clip_box_to_foreground`: the input box clipped
/// to the image, or the whole image.
pub open spec fn search_block(input_box: Option<&Box>, p: PixModel) -> Box {
    match input_box {
        Some(b) => clip_spec(*b, p.width as i32, p.height as i32)->Some_0,
        None => Box { x: 0, y: 0, w: p.width as i32, h: p.height as i32 },
    }
}

/// The border that `clip_rectangle_with_border` adds around the clipped
/// box `c`: `max_border`, limited by the distance from `c` to each edge
/// of the image.
pub open spec fn border_for(c: Box, w: i32, h: i32, max_border: u32) -> int {
    if max_border > 0x7fff_ffff {
        0
    } else {
        let m1 = crate::box_::imin(max_border as int, c.x as int);
        let m2 = crate::box_::imin(m1, c.y as int);
        let m3 = crate::box_::imin(m2, w - c.x - c.w);
        crate::box_::imin(m3, h - c.y - c.h)
    }
}

/// Converting an image dimension to `i32` keeps it when it fits and gives
/// a negative value otherwise.
pub proof fn lemma_i32_cast(v: u32)
    ensures
        v <= 0x7fff_ffff ==> v as i32 == v,
        v > 0x7fff_ffff ==> (v as i32) < 0,
{
    assert(v > 0x7fff_ffff ==> (v as i32) < 0) by (bit_vector);
}

/// A box clipped to an image lies inside it, with a positive size.
proof fn lemma_clip_inside(b: Box, w: u32, h: u32)
    requires
        clip_spec(b, w as i32, h as i32) is Some,
    ensures
        ({
            let c = clip_spec(b, w as i32, h as i32)->Some_0;
            &&& 0 <= c.x
            &&& 0 <= c.y
            &&& 0 < c.w
            &&& 0 < c.h
            &&& c.x + c.w <= w
            &&& c.y + c.h <= h
        }),
{
}

/// The border chosen by `clip_rectangle_with_border` keeps the expanded box
/// inside the image.
proof fn lemma_border_fits(c: Box, w: i32, h: i32, max_border: u32)
    requires
        0 <= c.x,
        0 <= c.y,
        0 < c.w,
        0 < c.h,
        c.x + c.w <= w,
        c.y + c.h <= h,
    ensures
        ({
            let b = border_for(c, w, h, max_border);
            &&& 0 <= b
            &&& 0 <= c.x - b
            &&& 0 <= c.y - b
            &&& c.x + c.w + b <= w
            &&& c.y + c.h + b <= h
        }),
{
}

/// The part of the image covered by a mask placed at `(x, y)`.
pub open spec fn mask_region(p: PixModel, mask: PixModel, x: i32, y: i32) -> Option<Box> {
    clip_spec(
        Box { x, y, w: mask.width as i32, h: mask.height as i32 },
        p.width as i32,
        p.height as i32,
    )
}

impl Pix {
    /// The part of the image under the 1 bpp `mask` placed at `(x, y)`:
    /// the covered rectangle is clipped out, and its pixels whose
    /// position in the mask (counted from the rectangle's corner) is OFF
    /// are set to `outval`.
    ///
    /// # Errors
    ///
    /// [`Error::InvalidParameter`] if the mask is not 1 bpp or does not
    /// overlap the image.
    pub fn clip_masked(&self, mask: &Pix, x: i32, y: i32, outval: u32) -> (r: Result<Pix>)
        requires
            self@.wf(),
            mask@.wf(),
        ensures
            r is Ok <==> mask@.depth == PixelDepth::Bit1 && mask_region(self@, mask@, x, y) is Some,
            r matches Ok(p) ==> {
                let c = mask_region(self@, mask@, x, y)->0;
                &&& p@.wf()
                &&& p@.width == c.w && p@.height == c.h && p@.depth == self@.depth
                &&& p@.xres == self@.xres && p@.yres == self@.yres
                &&& forall|i: int, j: int|
                    p@.contains(i, j) ==> #[trigger] p@.pixel(i, j) == if mask@.pixel(i, j) == 0 {
                        super::model::stored(self@.depth, outval)
                    } else {
                        self@.pixel(c.x + i, c.y + j)
                    }
            },
            r matches Err(e) ==> e is InvalidParameter,
    {
        if mask.depth() != PixelDepth::Bit1 {
            return Err(invalid_param("mask must be 1 bpp"));
        }
        let region = Box { x, y, w: mask.width() as i32, h: mask.height() as i32 };
        let c = match region.clip(self.width() as i32, self.height() as i32) {
            Some(c) => c,
            None => {
                return Err(invalid_param("mask does not overlap the image"));
            },
        };
        assert(c.x + c.w <= self@.width && c.y + c.h <= self@.height);
        assert(c.w <= mask@.width && c.h <= mask@.height);
        let p = match self.clip_rectangle(c.x as u32, c.y as u32, c.w as u32, c.h as u32) {
            Ok(p) => p,
            Err(e) => {
                return Err(e);
            },
        };
        let mut pm = p.to_mut();
        let ghost m0 = pm@;
        let w = pm.width();
        let h = pm.height();
        let mut j: u32 = 0;
        while j < h
            invariant
                m0.wf(),
                mask@.wf(),
                w == m0.width,
                h == m0.height,
                w <= mask@.width,
                h <= mask@.height,
                j <= h,
                pm@.wf(),
                pm@.same_meta(m0),
                forall|a: int, b: int|
                    pm@.contains(a, b) ==> #[trigger] pm@.pixel(a, b) == if b < j && mask@.pixel(a, b) == 0 {
                        super::model::stored(m0.depth, outval)
                    } else {
                        m0.pixel(a, b)
                    },
            decreases h - j,
        {
            let mut i: u32 = 0;
            while i < w
                invariant
                    m0.wf(),
                    mask@.wf(),
                    w == m0.width,
                    h == m0.height,
                    w <= mask@.width,
                    h <= mask@.height,
                    j < h,
                    i <= w,
                    pm@.wf(),
                    pm@.same_meta(m0),
                    forall|a: int, b: int|
                        pm@.contains(a, b) ==> #[trigger] pm@.pixel(a, b) == if (b < j || (b == j && a < i))
                            && mask@.pixel(a, b) == 0 {
                            super::model::stored(m0.depth, outval)
                        } else {
                            m0.pixel(a, b)
                        },
                decreases w - i,
            {
                if mask.get_pixel_unchecked(i, j) == 0 {
                    pm.set_pixel_unchecked(i, j, outval);
                }
                i = i + 1;
            }
            j = j + 1;
        }
        Ok(pm.into_pix())
    }
}

/// The histogram of the 8 bpp gray values ([`to8_value`]) of the pixels
/// at every `f`-th column and row.
pub open spec fn gray8_hist(m: PixModel, f: u32) -> Seq<i64> {
    hist_of(
        |i: int, j: int| Some(to8_value(m.depth, m.pixel(j * f, i * f)) as int),
        nsamples(m.height as int, f as int),
        nsamples(m.width as int, f as int),
        256,
    )
}

/// The number of samples in bins `lo..hi`.
pub open spec fn class_count(h: Seq<i64>, lo: int, hi: int) -> int
    decreases hi - lo,
{
    if hi <= lo {
        0
    } else {
        class_count(h, lo, hi - 1) + h[hi - 1]
    }
}

/// The sum of the values of the samples in bins `lo..hi`.
pub open spec fn class_sum(h: Seq<i64>, lo: int, hi: int) -> int
    decreases hi - lo,
{
    if hi <= lo {
        0
    } else {
        class_sum(h, lo, hi - 1) + (hi - 1) * h[hi - 1]
    }
}

/// `s / c` rounded half up, or 0 for no samples.
pub open spec fn rounded_mean(s: int, c: int) -> int {
    if c <= 0 {
        0
    } else {
        (2 * s + c) / (2 * c)
    }
}

/// The foreground and background means of a 256-bin histogram split at
/// `thresh`.
pub open spec fn fg_bg_means(h: Seq<i64>, thresh: u32) -> (u32, u32) {
    let t = if thresh < 256 { thresh as int } else { 256 };
    (
        rounded_mean(class_sum(h, 0, t), class_count(h, 0, t)) as u32,
        rounded_mean(class_sum(h, t, 256), class_count(h, t, 256)) as u32,
    )
}

proof fn lemma_row_count_ext(g1: spec_fn(int, int) -> Option<int>, g2: spec_fn(int, int) -> Option<int>, i: int, nc: int, v: int)
    requires
        forall|j: int| 0 <= j < nc ==> #[trigger] g1(i, j) == g2(i, j),
    ensures
        row_count(g1, i, nc, v) == row_count(g2, i, nc, v),
    decreases nc,
{
    if nc > 0 {
        lemma_row_count_ext(g1, g2, i, nc - 1, v);
    }
}

proof fn lemma_grid_count_ext(g1: spec_fn(int, int) -> Option<int>, g2: spec_fn(int, int) -> Option<int>, nr: int, nc: int, v: int)
    requires
        forall|i: int, j: int| 0 <= i < nr && 0 <= j < nc ==> #[trigger] g1(i, j) == g2(i, j),
    ensures
        grid_count(g1, nr, nc, v) == grid_count(g2, nr, nc, v),
    decreases nr,
{
    if nr > 0 {
        lemma_grid_count_ext(g1, g2, nr - 1, nc, v);
        lemma_row_count_ext(g1, g2, nr - 1, nc, v);
    }
}

/// The histogram of the 8 bpp copy is the gray histogram of the image,
/// and its counts are non-negative.
proof fn lemma_gray8_hist(m: PixModel, p: PixModel, f: u32)
    requires
        m.wf(),
        f >= 1,
        counts_fit(m),
        m.depth == PixelDepth::Bit8 ==> p == m,
        m.depth != PixelDepth::Bit8 ==> super::convert::converted(p, m, PixelDepth::Bit8, false, |v: u32| to8_value(m.depth, v)),
    ensures
        p.wf(),
        p.depth == PixelDepth::Bit8,
        counts_fit(p),
        full_hist(p, BinKind::Value, f) == gray8_hist(m, f),
        forall|v: int| 0 <= v < 256 ==> 0 <= #[trigger] gray8_hist(m, f)[v],
{
    let nr = nsamples(m.height as int, f as int);
    let nc = nsamples(m.width as int, f as int);
    lemma_nsamples_bound(m.height as int, f as int);
    lemma_nsamples_bound(m.width as int, f as int);
    let g1 = |i: int, j: int| super::histogram::bin_spec(p, BinKind::Value, j * f, i * f);
    let g2 = |i: int, j: int| Some(to8_value(m.depth, m.pixel(j * f, i * f)) as int);
    assert forall|i: int, j: int| 0 <= i < nr && 0 <= j < nc implies #[trigger] g1(i, j) == g2(i, j) by {
        super::histogram::lemma_sample_in(j, m.width as int, f as int);
        super::histogram::lemma_sample_in(i, m.height as int, f as int);
        super::raster::lemma_stored_pixel(m, j * f, i * f);
        if m.depth != PixelDepth::Bit8 {
            super::convert::lemma_to8_bound(m.depth, m.pixel(j * f, i * f));
            super::raster::lemma_stored_small(PixelDepth::Bit8, to8_value(m.depth, m.pixel(j * f, i * f)));
        }
    }
    assert(nr * nc <= m.height * m.width) by (nonlinear_arith)
        requires
            0 <= nr <= m.height,
            0 <= nc <= m.width,
    ;
    assert forall|v: int| 0 <= v < 256 implies #[trigger] full_hist(p, BinKind::Value, f)[v] == gray8_hist(m, f)[v]
        && 0 <= gray8_hist(m, f)[v] by {
        lemma_grid_count_ext(g1, g2, nr, nc, v);
        lemma_grid_count_bound(g2, nr, nc, v);
    }
    assert(full_hist(p, BinKind::Value, f) =~= gray8_hist(m, f));
}

proof fn lemma_class_bounds(h: Seq<i64>, lo: int, hi: int)
    requires
        0 <= lo <= hi <= 256,
        h.len() == 256,
        forall|v: int| 0 <= v < 256 ==> 0 <= #[trigger] h[v],
    ensures
        0 <= class_count(h, lo, hi) <= (hi - lo) * 0x7fff_ffff_ffff_ffff,
        0 <= class_sum(h, lo, hi) <= 255 * class_count(h, lo, hi),
    decreases hi - lo,
{
    if hi > lo {
        lemma_class_bounds(h, lo, hi - 1);
        let x = h[hi - 1] as int;
        assert(0 <= (hi - 1) * x <= 255 * x) by (nonlinear_arith)
            requires
                0 <= hi - 1 <= 255,
                0 <= x,
        ;
    }
}

/// The rounded mean of the values in bins `lo..hi`.
fn class_mean(h: &Vec<i64>, lo: usize, hi: usize) -> (m: u32)
    requires
        lo <= hi <= 256,
        h@.len() == 256,
        forall|v: int| 0 <= v < 256 ==> 0 <= #[trigger] h@[v],
    ensures
        m == rounded_mean(class_sum(h@, lo as int, hi as int), class_count(h@, lo as int, hi as int)),
{
    let mut s: i128 = 0;
    let mut c: i128 = 0;
    let mut v: usize = lo;
    while v < hi
        invariant
            lo <= v <= hi <= 256,
            h@.len() == 256,
            forall|u: int| 0 <= u < 256 ==> 0 <= #[trigger] h@[u],
            s == class_sum(h@, lo as int, v as int),
            c == class_count(h@, lo as int, v as int),
        decreases hi - v,
    {
        proof {
            lemma_class_bounds(h@, lo as int, v as int + 1);
            lemma_class_bounds(h@, lo as int, v as int);
        }
        let x = h[v] as i128;
        c = c + x;
        s = s + (v as i128) * x;
        v = v + 1;
    }
    proof {
        lemma_class_bounds(h@, lo as int, hi as int);
    }
    if c == 0 {
        return 0;
    }
    assert(0 <= (2 * s + c) / (2 * c) <= 255) by (nonlinear_arith)
        requires
            0 <= s <= 255 * c,
            c > 0,
    ;
    ((2 * s + c) / (2 * c)) as u32
}

proof fn lemma_class_range(h: Seq<i64>, lo: int, hi: int)
    requires
        0 <= lo <= hi <= 256,
        h.len() == 256,
        forall|v: int| 0 <= v < 256 ==> 0 <= #[trigger] h[v],
    ensures
        lo * class_count(h, lo, hi) <= class_sum(h, lo, hi),
        hi > lo ==> class_sum(h, lo, hi) <= (hi - 1) * class_count(h, lo, hi),
    decreases hi - lo,
{
    if hi > lo {
        lemma_class_range(h, lo, hi - 1);
        lemma_class_bounds(h, lo, hi - 1);
        let x = h[hi - 1] as int;
        let c = class_count(h, lo, hi - 1);
        assert(lo * x <= (hi - 1) * x && (hi - 2) * c <= (hi - 1) * c) by (nonlinear_arith)
            requires
                lo <= hi - 1,
                0 <= x,
                0 <= c,
        ;
        assert(lo * (c + x) == lo * c + lo * x && (hi - 1) * (c + x) == (hi - 1) * c + (hi - 1) * x)
            by (nonlinear_arith);
    }
}

proof fn lemma_means_split(h: Seq<i64>, thresh: u32)
    requires
        h.len() == 256,
        forall|v: int| 0 <= v < 256 ==> 0 <= #[trigger] h[v],
    ensures
        ({
            let t = if thresh < 256 { thresh as int } else { 256 };
            let (fg, bg) = fg_bg_means(h, thresh);
            &&& class_count(h, 0, t) > 0 ==> fg < t
            &&& class_count(h, t, 256) > 0 ==> t <= bg
        }),
{
    let t = if thresh < 256 { thresh as int } else { 256 };
    lemma_class_bounds(h, 0, t);
    lemma_class_bounds(h, t, 256);
    lemma_class_range(h, 0, t);
    lemma_class_range(h, t, 256);
    let cf = class_count(h, 0, t);
    let sf = class_sum(h, 0, t);
    let cb = class_count(h, t, 256);
    let sb = class_sum(h, t, 256);
    if cf > 0 {
        assert(t > 0);
        assert((2 * sf + cf) / (2 * cf) < t) by (nonlinear_arith)
            requires
                cf > 0,
                0 <= sf <= (t - 1) * cf,
        ;
        assert(0 <= (2 * sf + cf) / (2 * cf) <= 255) by (nonlinear_arith)
            requires
                cf > 0,
                0 <= sf <= 255 * cf,
        ;
    }
    if cb > 0 {
        assert(t <= (2 * sb + cb) / (2 * cb)) by (nonlinear_arith)
            requires
                cb > 0,
                t * cb <= sb,
        ;
        assert(0 <= (2 * sb + cb) / (2 * cb) <= 255) by (nonlinear_arith)
            requires
                cb > 0,
                0 <= sb <= 255 * cb,
        ;
    }
}

/// In what [`Pix::threshold_for_fg_bg`] gives, the foreground mean lies
/// below the threshold and the background mean at or above it, whenever
/// the class has samples.
pub proof fn law_fg_below_bg(m: PixModel, factor: u32, thresh: u32)
    requires
        m.wf(),
        factor >= 1,
        counts_fit(m),
    ensures
        ({
            let h = gray8_hist(m, factor);
            let t = if thresh < 256 { thresh as int } else { 256 };
            let (fg, bg) = fg_bg_means(h, thresh);
            &&& class_count(h, 0, t) > 0 ==> fg < t
            &&& class_count(h, t, 256) > 0 ==> t <= bg
        }),
{
    let f = factor;
    let nr = nsamples(m.height as int, f as int);
    let nc = nsamples(m.width as int, f as int);
    lemma_nsamples_bound(m.height as int, f as int);
    lemma_nsamples_bound(m.width as int, f as int);
    assert(nr * nc <= m.height * m.width) by (nonlinear_arith)
        requires
            0 <= nr <= m.height,
            0 <= nc <= m.width,
    ;
    let g = |i: int, j: int| Some(to8_value(m.depth, m.pixel(j * f, i * f)) as int);
    assert forall|v: int| 0 <= v < 256 implies 0 <= #[trigger] gray8_hist(m, factor)[v] by {
        lemma_grid_count_bound(g, nr, nc, v);
    }
    lemma_means_split(gray8_hist(m, factor), thresh);
}

} // verus!
