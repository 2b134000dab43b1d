//! Drawing on images: lines of any width, box outlines, polylines, grids
//! and contours.
//!
//! Shapes are first turned into arrays of points ([`Pta`]); rendering then
//! writes the points that fall inside the image, in order.

use vstd::prelude::*;
use super::{Pix, PixMut, PixelDepth, PixModel};
use super::model::{pmask, stored, wpl_for, new_ok};
use super::raster::{map_new, map_into};
use crate::box_::{Box, Boxa};
use crate::color::{compose_rgb, rgba_word};
use crate::error::{Error, Result, invalid_param, null_input};
use crate::pta::{Pta, Ptaa};

verus! {

/// Pixel operation for rendering.
#[derive(Debug, Clone, Copy, PartialEq, Eq, Structural)]
pub enum PixelOp {
    /// Set pixels to the maximum value (foreground).
    SetMax,
    /// Clear pixels to zero (background).
    Clear,
    /// Flip all the bits of the pixel.
    Flip,
}

impl Default for PixelOp {
    fn default() -> (r: Self)
        ensures
            r == PixelOp::SetMax,
    {
        PixelOp::SetMax
    }
}

/// RGB color for rendering.
#[derive(Debug, Clone, Copy, PartialEq, Eq, Structural)]
pub struct Color {
    pub r: u8,
    pub g: u8,
    pub b: u8,
}

/// The gray value of a color: the mean of its channels, rounded down.
pub open spec fn gray_of(c: Color) -> u8 {
    ((c.r + c.g + c.b) / 3) as u8
}

impl Color {
    /// Black.
    pub fn black() -> (c: Color)
        ensures
            c == (Color { r: 0, g: 0, b: 0 }),
    {
        Color { r: 0, g: 0, b: 0 }
    }

    /// White.
    pub fn white() -> (c: Color)
        ensures
            c == (Color { r: 255, g: 255, b: 255 }),
    {
        Color { r: 255, g: 255, b: 255 }
    }

    /// Red.
    pub fn red() -> (c: Color)
        ensures
            c == (Color { r: 255, g: 0, b: 0 }),
    {
        Color { r: 255, g: 0, b: 0 }
    }

    /// Green.
    pub fn green() -> (c: Color)
        ensures
            c == (Color { r: 0, g: 255, b: 0 }),
    {
        Color { r: 0, g: 255, b: 0 }
    }

    /// Blue.
    pub fn blue() -> (c: Color)
        ensures
            c == (Color { r: 0, g: 0, b: 255 }),
    {
        Color { r: 0, g: 0, b: 255 }
    }

    /// Creates a color.
    pub fn new(r: u8, g: u8, b: u8) -> (c: Color)
        ensures
            c == (Color { r, g, b }),
    {
        Color { r, g, b }
    }

    /// Converts to a gray value (0-255): the mean of the channels.
    pub fn to_gray(&self) -> (v: u8)
        ensures
            v == gray_of(*self),
    {
        ((self.r as u32 + self.g as u32 + self.b as u32) / 3) as u8
    }

    /// Packs the color as a 32-bit RGBA pixel with alpha 0.
    pub fn to_pixel32(&self) -> (p: u32)
        ensures
            p == rgba_word(self.r, self.g, self.b, 0),
    {
        compose_rgb(self.r, self.g, self.b)
    }
}

impl Default for Color {
    fn default() -> (c: Self)
        ensures
            c == (Color { r: 0, g: 0, b: 0 }),
    {
        Color { r: 0, g: 0, b: 0 }
    }
}

/// Output mode for contour rendering.
#[derive(Debug, Clone, Copy, PartialEq, Eq, Structural)]
pub enum ContourOutput {
    /// A 1 bpp image holding the contour lines only.
    Binary,
    /// The input image with the contour lines drawn in black.
    Overlay,
}

impl Default for ContourOutput {
    fn default() -> (r: Self)
        ensures
            r == ContourOutput::Binary,
    {
        ContourOutput::Binary
    }
}

/// Orientation of hash lines.
#[derive(Debug, Clone, Copy, PartialEq, Eq, Structural)]
pub enum HashOrientation {
    /// Horizontal lines (left to right).
    Horizontal,
    /// Diagonal lines with positive slope (+45 degrees).
    PosSlope,
    /// Vertical lines (top to bottom).
    Vertical,
    /// Diagonal lines with negative slope (-45 degrees).
    NegSlope,
}

/// Where a plot of numbers is drawn on an image.
#[derive(Debug, Clone, Copy, PartialEq, Eq, Structural)]
pub enum PlotLocation {
    /// Horizontally, at the top.
    Top,
    /// Horizontally, at the vertical midpoint.
    MidHoriz,
    /// Horizontally, at the bottom.
    Bottom,
    /// Vertically, at the left.
    Left,
    /// Vertically, at the horizontal midpoint.
    MidVert,
    /// Vertically, at the right.
    Right,
}

// ---------------------------------------------------------------------------
// Lines
// ---------------------------------------------------------------------------

/// Absolute value.
pub open spec fn iabs(a: int) -> int {
    if a < 0 {
        -a
    } else {
        a
    }
}

/// `t` steps from `c1` towards `c2` (away from `c1` downwards when `c2`
/// is not above it).
pub open spec fn step(c1: int, c2: int, t: int) -> int {
    if c2 > c1 {
        c1 + t
    } else {
        c1 - t
    }
}

/// How far the minor coordinate has moved after `k` steps along the major
/// axis of a line that covers `dmaj` along it and `dmin` across it: the
/// minor coordinate advances when the error term, started at `dmaj / 2`
/// and lowered by `dmin` per step, falls below 0.
pub open spec fn bres_offset(k: int, dmaj: int, dmin: int) -> int {
    (k * dmin + dmaj - 1 - dmaj / 2) / dmaj
}

/// Point `k` of a line whose major axis is the first coordinate.
pub open spec fn bres_pair(a1: int, b1: int, a2: int, b2: int, k: int) -> (int, int) {
    (step(a1, a2, k), step(b1, b2, bres_offset(k, iabs(a2 - a1), iabs(b2 - b1))))
}

/// Number of points of the line from `(x1, y1)` to `(x2, y2)`.
pub open spec fn line_len(x1: i32, y1: i32, x2: i32, y2: i32) -> int {
    let dx = iabs(x2 - x1);
    let dy = iabs(y2 - y1);
    if dx >= dy {
        dx + 1
    } else {
        dy + 1
    }
}

/// Point `k` of the 8-connected line from `(x1, y1)` to `(x2, y2)`.
pub open spec fn line_point(x1: i32, y1: i32, x2: i32, y2: i32, k: int) -> (i32, i32) {
    let dx = iabs(x2 - x1);
    let dy = iabs(y2 - y1);
    if dx == 0 && dy == 0 {
        (x1, y1)
    } else if dx >= dy {
        let p = bres_pair(x1 as int, y1 as int, x2 as int, y2 as int, k);
        (p.0 as i32, p.1 as i32)
    } else {
        let p = bres_pair(y1 as int, x1 as int, y2 as int, x2 as int, k);
        (p.1 as i32, p.0 as i32)
    }
}

/// The points of the line from `(x1, y1)` to `(x2, y2)`, in order.
pub open spec fn line_pts(x1: i32, y1: i32, x2: i32, y2: i32) -> Seq<(i32, i32)> {
    Seq::new(line_len(x1, y1, x2, y2) as nat, |k: int| line_point(x1, y1, x2, y2, k))
}

/// The line can be drawn: its extent along each axis stays below
/// `i32::MAX`.
pub open spec fn line_ok(x1: i32, y1: i32, x2: i32, y2: i32) -> bool {
    iabs(x2 - x1) < i32::MAX && iabs(y2 - y1) < i32::MAX
}

/// The minor offset advances by one exactly when the error term drops
/// below 0.
proof fn lemma_bres_offset(k: int, dmaj: int, dmin: int, m: int, err: int)
    requires
        dmaj >= 1,
        0 <= dmin <= dmaj,
        0 <= k,
        err == dmaj / 2 - k * dmin + m * dmaj,
        0 <= err < dmaj,
    ensures
        bres_offset(k, dmaj, dmin) == m,
{
    let a = k * dmin + dmaj - 1 - dmaj / 2;
    let r = dmaj - 1 - err;
    assert(a == m * dmaj + r);
    vstd::arithmetic::div_mod::lemma_fundamental_div_mod_converse(a, dmaj, m, r);
}

/// While `k <= dmaj` the minor offset stays within `0..=dmin`.
proof fn lemma_bres_range(k: int, dmaj: int, dmin: int, m: int, err: int)
    requires
        dmaj >= 1,
        0 <= dmin <= dmaj,
        0 <= k <= dmaj,
        err == dmaj / 2 - k * dmin + m * dmaj,
        0 <= err < dmaj,
    ensures
        0 <= m <= dmin,
{
    assert(k * dmin <= dmaj * dmin) by (nonlinear_arith)
        requires
            0 <= k <= dmaj,
            0 <= dmin,
    ;
    assert(m * dmaj > -dmaj);
    assert(m * dmaj < dmaj * (dmin + 1)) by (nonlinear_arith)
        requires
            m * dmaj == err - dmaj / 2 + k * dmin,
            err < dmaj,
            k * dmin <= dmaj * dmin,
            dmaj >= 1,
    ;
    assert(m > -1) by (nonlinear_arith)
        requires
            m * dmaj > -dmaj,
            dmaj >= 1,
    ;
    assert(m < dmin + 1) by (nonlinear_arith)
        requires
            m * dmaj < dmaj * (dmin + 1),
            dmaj >= 1,
    ;
}

/// Appends the points of a line whose major axis is `a`, swapping the
/// coordinates of each point when `swap` is set.
fn push_bres(pta: &mut Pta, a1: i32, b1: i32, a2: i32, b2: i32, swap: bool)
    requires
        iabs(a2 - a1) < i32::MAX,
        iabs(b2 - b1) <= iabs(a2 - a1),
        iabs(a2 - a1) >= 1,
    ensures
        final(pta)@ == old(pta)@ + Seq::new(
            (iabs(a2 - a1) + 1) as nat,
            |k: int|
                {
                    let p = bres_pair(a1 as int, b1 as int, a2 as int, b2 as int, k);
                    if swap {
                        (p.1 as i32, p.0 as i32)
                    } else {
                        (p.0 as i32, p.1 as i32)
                    }
                },
        ),
{
    let ghost start = pta@;
    let ghost target = Seq::new(
        (iabs(a2 - a1) + 1) as nat,
        |k: int|
            {
                let p = bres_pair(a1 as int, b1 as int, a2 as int, b2 as int, k);
                if swap {
                    (p.1 as i32, p.0 as i32)
                } else {
                    (p.0 as i32, p.1 as i32)
                }
            },
    );
    let da: i64 = if a2 > a1 {
        a2 as i64 - a1 as i64
    } else {
        a1 as i64 - a2 as i64
    };
    let db: i64 = if b2 > b1 {
        b2 as i64 - b1 as i64
    } else {
        b1 as i64 - b2 as i64
    };
    let sa: i64 = if a2 > a1 {
        1
    } else {
        -1
    };
    let sb: i64 = if b2 > b1 {
        1
    } else {
        -1
    };
    let npts: i64 = da + 1;
    let mut a: i64 = a1 as i64;
    let mut b: i64 = b1 as i64;
    let mut err: i64 = da / 2;
    let mut k: i64 = 0;
    let ghost mut m: int = 0;
    let ghost mut kd: int = 0;
    let ghost mut md: int = 0;
    while k < npts
        invariant
            da == iabs(a2 - a1),
            db == iabs(b2 - b1),
            1 <= da < i32::MAX,
            db <= da,
            npts == da + 1,
            sa == (if a2 > a1 { 1int } else { -1int }),
            sb == (if b2 > b1 { 1int } else { -1int }),
            0 <= k <= npts,
            a == step(a1 as int, a2 as int, k as int),
            b == step(b1 as int, b2 as int, m),
            kd == k * db,
            md == m * da,
            err == da / 2 - kd + md,
            0 <= err < da,
            k <= da ==> 0 <= m <= db,
            pta@ == start + target.take(k as int),
            target == Seq::new(
                (iabs(a2 - a1) + 1) as nat,
                |k: int|
                    {
                        let p = bres_pair(a1 as int, b1 as int, a2 as int, b2 as int, k);
                        if swap {
                            (p.1 as i32, p.0 as i32)
                        } else {
                            (p.0 as i32, p.1 as i32)
                        }
                    },
            ),
        decreases npts - k,
    {
        proof {
            lemma_bres_offset(k as int, da as int, db as int, m, err as int);
            lemma_bres_range(k as int, da as int, db as int, m, err as int);
        }
        let ai = a as i32;
        let bi = b as i32;
        if swap {
            pta.push(bi, ai);
        } else {
            pta.push(ai, bi);
        }
        proof {
            assert(pta@ =~= start + target.take(k as int + 1));
        }
        err = err - db;
        if err < 0 {
            b = b + sb;
            err = err + da;
            proof {
                m = m + 1;
                md = md + da;
                assert(md == m * da) by (nonlinear_arith)
                    requires
                        md == (m - 1) * da + da,
                ;
            }
        }
        a = a + sa;
        proof {
            kd = kd + db;
            assert(kd == (k + 1) * db) by (nonlinear_arith)
                requires
                    kd == k * db + db,
            ;
            if k + 1 <= da {
                lemma_bres_range((k + 1) as int, da as int, db as int, m, err as int);
            }
        }
        k = k + 1;
    }
    assert(target.take(k as int) =~= target);
}

/// Generates the points of the 8-connected line from `(x1, y1)` to
/// `(x2, y2)`, from the first end to the second, with integer Bresenham
/// stepping along the longer axis.
pub fn generate_line_pta(x1: i32, y1: i32, x2: i32, y2: i32) -> (r: Pta)
    requires
        line_ok(x1, y1, x2, y2),
    ensures
        r@ == line_pts(x1, y1, x2, y2),
{
    let mut pta = Pta::new();
    if x1 == x2 && y1 == y2 {
        pta.push(x1, y1);
        assert(pta@ =~= line_pts(x1, y1, x2, y2));
        return pta;
    }
    let dx: i64 = if x2 > x1 {
        x2 as i64 - x1 as i64
    } else {
        x1 as i64 - x2 as i64
    };
    let dy: i64 = if y2 > y1 {
        y2 as i64 - y1 as i64
    } else {
        y1 as i64 - y2 as i64
    };
    if dx >= dy {
        push_bres(&mut pta, x1, y1, x2, y2, false);
    } else {
        push_bres(&mut pta, y1, x1, y2, x2, true);
    }
    assert(pta@ =~= line_pts(x1, y1, x2, y2));
    pta
}

// ---------------------------------------------------------------------------
// Wide lines, boxes and polylines
// ---------------------------------------------------------------------------

/// The line width used for a requested width: at least 1.
pub open spec fn eff_width(width: u32) -> int {
    if width == 0 {
        1
    } else {
        width as int
    }
}

/// Offset of parallel line `i` of a wide line: 0, -1, +2, -2, +3, -3, ...
pub open spec fn wide_offset(i: int) -> int {
    if i == 0 {
        0
    } else if i % 2 == 1 {
        -((i + 2) / 2)
    } else {
        (i + 2) / 2
    }
}

/// The line runs more along x than along y; parallel lines are then
/// offset in y, and otherwise in x.
pub open spec fn is_horizontal(x1: i32, y1: i32, x2: i32, y2: i32) -> bool {
    iabs(x2 - x1) > iabs(y2 - y1)
}

/// A value in the range of `i32`.
pub open spec fn i32_fits(v: int) -> bool {
    i32::MIN <= v <= i32::MAX
}

/// The points of parallel line `i` of a wide line.
pub open spec fn wide_part(x1: i32, y1: i32, x2: i32, y2: i32, i: int) -> Seq<(i32, i32)> {
    let o = wide_offset(i);
    if is_horizontal(x1, y1, x2, y2) {
        line_pts(x1, (y1 + o) as i32, x2, (y2 + o) as i32)
    } else {
        line_pts((x1 + o) as i32, y1, (x2 + o) as i32, y2)
    }
}

/// The points of the first `n` parallel lines, one line after another.
pub open spec fn wide_upto(x1: i32, y1: i32, x2: i32, y2: i32, n: int) -> Seq<(i32, i32)>
    decreases n,
{
    if n <= 0 {
        Seq::empty()
    } else {
        wide_upto(x1, y1, x2, y2, n - 1) + wide_part(x1, y1, x2, y2, n - 1)
    }
}

/// The points of a line `width` pixels wide: the line itself, then the
/// parallel lines on alternate sides.
pub open spec fn wide_line_pts(x1: i32, y1: i32, x2: i32, y2: i32, width: u32) -> Seq<(i32, i32)> {
    wide_upto(x1, y1, x2, y2, eff_width(width))
}

/// Parallel line `i` stays within the range of `i32`.
pub open spec fn wide_part_fits(x1: i32, y1: i32, x2: i32, y2: i32, i: int) -> bool {
    if is_horizontal(x1, y1, x2, y2) {
        i32_fits(y1 + wide_offset(i)) && i32_fits(y2 + wide_offset(i))
    } else {
        i32_fits(x1 + wide_offset(i)) && i32_fits(x2 + wide_offset(i))
    }
}

/// The wide line can be drawn.
pub open spec fn wide_line_ok(x1: i32, y1: i32, x2: i32, y2: i32, width: u32) -> bool {
    &&& line_ok(x1, y1, x2, y2)
    &&& line_len(x1, y1, x2, y2) * eff_width(width) <= usize::MAX
    &&& forall|i: int| 1 <= i < eff_width(width) ==> #[trigger] wide_part_fits(x1, y1, x2, y2, i)
}

/// Generates the points of a line `width` pixels wide (a width of 0
/// counts as 1): the line, then lines parallel to it at offsets -1, +2,
/// -2, +3, ... across its main direction.
pub fn generate_wide_line_pta(x1: i32, y1: i32, x2: i32, y2: i32, width: u32) -> (r: Pta)
    requires
        wide_line_ok(x1, y1, x2, y2, width),
    ensures
        r@ == wide_line_pts(x1, y1, x2, y2, width),
{
    let w = if width == 0 {
        1
    } else {
        width
    };
    let base = generate_line_pta(x1, y1, x2, y2);
    assert(wide_upto(x1, y1, x2, y2, 0) =~= Seq::<(i32, i32)>::empty());
    assert(wide_upto(x1, y1, x2, y2, 1) =~= base@);
    if w == 1 {
        return base;
    }
    let mut result = Pta::new();
    result.append(&base);
    let dx: i64 = if x2 > x1 {
        x2 as i64 - x1 as i64
    } else {
        x1 as i64 - x2 as i64
    };
    let dy: i64 = if y2 > y1 {
        y2 as i64 - y1 as i64
    } else {
        y1 as i64 - y2 as i64
    };
    let horizontal = dx > dy;
    let mut i: u32 = 1;
    while i < w
        invariant
            1 <= i <= w,
            eff_width(width) == w,
            wide_line_ok(x1, y1, x2, y2, width),
            horizontal == is_horizontal(x1, y1, x2, y2),
            result@ == wide_upto(x1, y1, x2, y2, i as int),
        decreases w - i,
    {
        assert(wide_part_fits(x1, y1, x2, y2, i as int));
        let half: i64 = ((i as u64 + 2) / 2) as i64;
        let off: i64 = if i % 2 == 1 {
            -half
        } else {
            half
        };
        let line = if horizontal {
            generate_line_pta(x1, (y1 as i64 + off) as i32, x2, (y2 as i64 + off) as i32)
        } else {
            generate_line_pta((x1 as i64 + off) as i32, y1, (x2 as i64 + off) as i32, y2)
        };
        result.append(&line);
        i = i + 1;
    }
    result
}

/// Half the line width used for box outlines.
pub open spec fn half_width(width: u32) -> int {
    eff_width(width) / 2
}

/// The four sides of a box outline: top, bottom, left and right, each as
/// `(x1, y1, x2, y2)`.
pub open spec fn box_sides(b: Box, width: u32) -> Seq<(int, int, int, int)> {
    let hw = half_width(width);
    seq![
        (b.x - hw, b.y as int, b.x + b.w - 1 + hw, b.y as int),
        (b.x - hw, b.y + b.h - 1, b.x + b.w - 1 + hw, b.y + b.h - 1),
        (b.x as int, b.y + 1 + hw, b.x as int, b.y + b.h - 2 - hw),
        (b.x + b.w - 1, b.y + 1 + hw, b.x + b.w - 1, b.y + b.h - 2 - hw),
    ]
}

/// The points of one side.
pub open spec fn side_pts(s: (int, int, int, int), width: u32) -> Seq<(i32, i32)> {
    wide_line_pts(s.0 as i32, s.1 as i32, s.2 as i32, s.3 as i32, width)
}

/// One side can be drawn.
pub open spec fn side_ok(s: (int, int, int, int), width: u32) -> bool {
    &&& i32_fits(s.0) && i32_fits(s.1) && i32_fits(s.2) && i32_fits(s.3)
    &&& wide_line_ok(s.0 as i32, s.1 as i32, s.2 as i32, s.3 as i32, width)
}

/// The outline of `b` can be drawn at this width.
pub open spec fn box_ok(b: Box, width: u32) -> bool {
    b.w == 0 || b.h == 0 || {
        &&& eff_width(width) <= i32::MAX
        &&& i32_fits(b.x + b.w) && i32_fits(b.y + b.h)
        &&& 0 <= 2 * (b.w + b.h) * eff_width(width) <= i32::MAX
        &&& side_ok(box_sides(b, width)[0], width)
        &&& side_ok(box_sides(b, width)[1], width)
        &&& side_ok(box_sides(b, width)[2], width)
        &&& side_ok(box_sides(b, width)[3], width)
    }
}

/// The points of the outline of `b`: the top, bottom, left and right
/// sides in turn; nothing for an empty box.
pub open spec fn box_pts(b: Box, width: u32) -> Seq<(i32, i32)> {
    if b.w == 0 || b.h == 0 {
        Seq::empty()
    } else {
        let s = box_sides(b, width);
        side_pts(s[0], width) + side_pts(s[1], width) + side_pts(s[2], width) + side_pts(
            s[3],
            width,
        )
    }
}

/// Generates the points of the outline of `b`, drawn with lines `width`
/// pixels wide centered on the box edges.
pub fn generate_box_pta(b: &Box, width: u32) -> (r: Pta)
    requires
        box_ok(*b, width),
    ensures
        r@ == box_pts(*b, width),
{
    if b.w == 0 || b.h == 0 {
        return Pta::new();
    }
    let hw: i64 = ((if width == 0 {
        1
    } else {
        width
    }) / 2) as i64;
    let x = b.x as i64;
    let y = b.y as i64;
    let w = b.w as i64;
    let h = b.h as i64;
    let ghost s = box_sides(*b, width);
    let mut result = Pta::new();
    let top = generate_wide_line_pta((x - hw) as i32, b.y, (x + w - 1 + hw) as i32, b.y, width);
    result.append(&top);
    let bottom = generate_wide_line_pta(
        (x - hw) as i32,
        (y + h - 1) as i32,
        (x + w - 1 + hw) as i32,
        (y + h - 1) as i32,
        width,
    );
    result.append(&bottom);
    let left = generate_wide_line_pta(b.x, (y + 1 + hw) as i32, b.x, (y + h - 2 - hw) as i32, width);
    result.append(&left);
    let right = generate_wide_line_pta(
        (x + w - 1) as i32,
        (y + 1 + hw) as i32,
        (x + w - 1) as i32,
        (y + h - 2 - hw) as i32,
        width,
    );
    result.append(&right);
    result
}

/// The points of the segments of a polyline through `v`: the first `k`
/// segments from vertex `i` to vertex `i + 1`.
pub open spec fn poly_upto(v: Seq<(i32, i32)>, width: u32, k: int) -> Seq<(i32, i32)>
    decreases k,
{
    if k <= 0 {
        Seq::empty()
    } else {
        poly_upto(v, width, k - 1) + wide_line_pts(
            v[k - 1].0,
            v[k - 1].1,
            v[k].0,
            v[k].1,
            width,
        )
    }
}

/// The points of a polyline through `v`, closed back to the first vertex
/// when `close` is set; nothing for fewer than two vertices.
pub open spec fn poly_pts(v: Seq<(i32, i32)>, width: u32, close: bool) -> Seq<(i32, i32)> {
    let n = v.len() as int;
    if n < 2 {
        Seq::empty()
    } else if close {
        poly_upto(v, width, n - 1) + wide_line_pts(v[n - 1].0, v[n - 1].1, v[0].0, v[0].1, width)
    } else {
        poly_upto(v, width, n - 1)
    }
}

/// The polyline can be drawn.
pub open spec fn poly_ok(v: Seq<(i32, i32)>, width: u32, close: bool) -> bool {
    let n = v.len() as int;
    n >= 2 ==> {
        &&& n * 100 * eff_width(width) <= usize::MAX
        &&& forall|i: int|
            0 <= i < n - 1 ==> #[trigger] wide_line_ok(v[i].0, v[i].1, v[i + 1].0, v[i + 1].1, width)
        &&& close ==> wide_line_ok(v[n - 1].0, v[n - 1].1, v[0].0, v[0].1, width)
    }
}

/// Generates the points of a polyline through `vertices`, segment by
/// segment; when `close` is set the last vertex is joined to the first.
pub fn generate_polyline_pta(vertices: &Pta, width: u32, close: bool) -> (r: Pta)
    requires
        poly_ok(vertices@, width, close),
    ensures
        r@ == poly_pts(vertices@, width, close),
{
    let n = vertices.len();
    let mut result = Pta::new();
    if n < 2 {
        return result;
    }
    let pts = vertices.points();
    let mut i: usize = 0;
    while i < n - 1
        invariant
            n == vertices@.len(),
            pts@ == vertices@,
            n >= 2,
            i <= n - 1,
            poly_ok(vertices@, width, close),
            result@ == poly_upto(vertices@, width, i as int),
        decreases n - 1 - i,
    {
        assert(wide_line_ok(pts@[i as int].0, pts@[i as int].1, pts@[i + 1].0, pts@[i + 1].1, width));
        let seg = generate_wide_line_pta(pts[i].0, pts[i].1, pts[i + 1].0, pts[i + 1].1, width);
        result.append(&seg);
        i = i + 1;
    }
    if close {
        let seg = generate_wide_line_pta(pts[n - 1].0, pts[n - 1].1, pts[0].0, pts[0].1, width);
        result.append(&seg);
    }
    result
}

/// The points of a `side` by `side` square with corner `(0, 0)`, row by
/// row.
pub open spec fn square_pts(side: u32) -> Seq<(i32, i32)> {
    Seq::new((side * side) as nat, |k: int| ((k % side as int) as i32, (k / side as int) as i32))
}

/// Generates all the points of a filled `side` by `side` square covering
/// `(0, 0)` to `(side - 1, side - 1)`, row by row.
///
/// # Errors
///
/// [`Error::InvalidParameter`] if `side` is 0.
pub fn generate_filled_square_pta(side: u32) -> (r: Result<Pta>)
    requires
        side * side <= u32::MAX,
    ensures
        r is Ok <==> side > 0,
        r matches Ok(p) ==> p@ == square_pts(side),
        r matches Err(e) ==> e is InvalidParameter,
{
    if side == 0 {
        return Err(invalid_param("side must be > 0"));
    }
    assert(side <= 65535) by (nonlinear_arith)
        requires
            side * side <= u32::MAX,
    ;
    let mut pta = Pta::new();
    let mut y: u32 = 0;
    while y < side
        invariant
            0 < side <= 65535,
            y <= side,
            pta@.len() == y * side,
            forall|k: int| 0 <= k < y * side ==> #[trigger] pta@[k] == square_pts(side)[k],
        decreases side - y,
    {
        let mut x: u32 = 0;
        while x < side
            invariant
                0 < side <= 65535,
                y < side,
                x <= side,
                pta@.len() == y * side + x,
                forall|k: int| 0 <= k < y * side + x ==> #[trigger] pta@[k] == square_pts(side)[k],
            decreases side - x,
        {
            proof {
                let k = y * side + x;
                assert((y + 1) * side <= side * side) by (nonlinear_arith)
                    requires
                        y < side,
                ;
                assert((y + 1) * side == y * side + side) by (nonlinear_arith);
                assert(k < side * side);
                vstd::arithmetic::div_mod::lemma_fundamental_div_mod_converse(
                    k as int,
                    side as int,
                    y as int,
                    x as int,
                );
                assert(square_pts(side)[k as int] == (x as i32, y as i32));
            }
            pta.push(x as i32, y as i32);
            x = x + 1;
        }
        assert((y + 1) * side == y * side + side) by (nonlinear_arith);
        y = y + 1;
    }
    assert(y * side == side * side) by (nonlinear_arith)
        requires
            y == side,
    ;
    assert(pta@ =~= square_pts(side));
    Ok(pta)
}

/// The points of `s` made 4-connected: after each diagonal step from `p`
/// to `q` the point `(q.x, p.y)` is inserted before `q`.
pub open spec fn cc4_pts(s: Seq<(i32, i32)>) -> Seq<(i32, i32)>
    decreases s.len(),
{
    if s.len() == 0 {
        Seq::empty()
    } else if s.len() == 1 {
        s
    } else {
        let p = s[s.len() - 2];
        let q = s.last();
        cc4_pts(s.drop_last()) + if q.0 != p.0 && q.1 != p.1 {
            seq![(q.0, p.1), q]
        } else {
            seq![q]
        }
    }
}

/// Converts an 8-connected line to a 4-connected one by inserting a point
/// at each diagonal step.
pub fn convert_line_to_4cc(ptas: &Pta) -> (r: Pta)
    ensures
        r@ == cc4_pts(ptas@),
{
    let n = ptas.len();
    let mut ptad = Pta::new();
    if n == 0 {
        return ptad;
    }
    let pts = ptas.points();
    let (mut xp, mut yp) = pts[0];
    ptad.push(xp, yp);
    assert(ptas@.take(1) =~= seq![ptas@[0]]);
    let mut i: usize = 1;
    while i < n
        invariant
            1 <= i <= n,
            n == ptas@.len(),
            pts@ == ptas@,
            (xp, yp) == ptas@[i - 1],
            ptad@ == cc4_pts(ptas@.take(i as int)),
        decreases n - i,
    {
        let (x, y) = pts[i];
        if x != xp && y != yp {
            ptad.push(x, yp);
        }
        ptad.push(x, y);
        proof {
            let t = ptas@.take(i as int + 1);
            assert(t.drop_last() =~= ptas@.take(i as int));
            assert(t[t.len() - 2] == ptas@[i - 1]);
        }
        xp = x;
        yp = y;
        i = i + 1;
    }
    assert(ptas@.take(n as int) =~= ptas@);
    ptad
}

/// The four corners of `b`: top-left, top-right, bottom-right and
/// bottom-left.
pub open spec fn corner_pts(b: Box) -> Seq<(i32, i32)> {
    let (x2, y2) = ((b.x + b.w - 1) as i32, (b.y + b.h - 1) as i32);
    seq![(b.x, b.y), (x2, b.y), (x2, y2), (b.x, y2)]
}

/// The corners of `b` are within the range of `i32`.
pub open spec fn corners_ok(b: Box) -> bool {
    i32_fits(b.x + b.w) && i32_fits(b.x + b.w - 1) && i32_fits(b.y + b.h) && i32_fits(b.y + b.h
        - 1)
}

/// Generates, for each box of `boxa`, the array of its four corners.
pub fn generate_ptaa_boxa(boxa: &Boxa) -> (r: Ptaa)
    requires
        forall|i: int| 0 <= i < boxa@.len() ==> #[trigger] corners_ok(boxa@[i]),
    ensures
        r@.len() == boxa@.len(),
        forall|i: int| 0 <= i < boxa@.len() ==> #[trigger] r@[i] == corner_pts(boxa@[i]),
{
    let n = boxa.len();
    let mut ptaa = Ptaa::new();
    let mut i: usize = 0;
    while i < n
        invariant
            i <= n,
            n == boxa@.len(),
            forall|j: int| 0 <= j < boxa@.len() ==> #[trigger] corners_ok(boxa@[j]),
            ptaa@.len() == i,
            forall|j: int| 0 <= j < i ==> #[trigger] ptaa@[j] == corner_pts(boxa@[j]),
        decreases n - i,
    {
        let b = boxa.get(i).unwrap();
        assert(corners_ok(boxa@[i as int]));
        let x2 = b.x + b.w - 1;
        let y2 = b.y + b.h - 1;
        let mut pta = Pta::new();
        pta.push(b.x, b.y);
        pta.push(x2, b.y);
        pta.push(x2, y2);
        pta.push(b.x, y2);
        assert(pta@ =~= corner_pts(b));
        ptaa.push(pta);
        i = i + 1;
    }
    ptaa
}

// ---------------------------------------------------------------------------
// Several boxes, duplicates, grids
// ---------------------------------------------------------------------------

/// The points of `s` with every point after its first occurrence removed.
pub open spec fn dedup_pts(s: Seq<(i32, i32)>) -> Seq<(i32, i32)>
    decreases s.len(),
{
    if s.len() == 0 {
        Seq::empty()
    } else {
        let d = dedup_pts(s.drop_last());
        if s.drop_last().contains(s.last()) {
            d
        } else {
            d.push(s.last())
        }
    }
}

/// Removing duplicates keeps exactly the points that occur.
pub proof fn lemma_dedup_contains(s: Seq<(i32, i32)>, p: (i32, i32))
    ensures
        dedup_pts(s).contains(p) <==> s.contains(p),
    decreases s.len(),
{
    if s.len() > 0 {
        let t = s.drop_last();
        lemma_dedup_contains(t, p);
        lemma_dedup_contains(t, s.last());
        assert(s =~= t.push(s.last()));
        if s.contains(p) {
            let i = choose|i: int| 0 <= i < s.len() && s[i] == p;
            if i < t.len() {
                assert(t[i] == p);
            }
        }
        if t.contains(p) {
            let i = choose|i: int| 0 <= i < t.len() && t[i] == p;
            assert(s[i] == p);
        }
        let d = dedup_pts(t);
        if !t.contains(s.last()) {
            if d.push(s.last()).contains(p) {
                let i = choose|i: int| 0 <= i < d.len() + 1 && d.push(s.last())[i] == p;
                if i < d.len() {
                    assert(d[i] == p);
                }
            }
            if d.contains(p) {
                let i = choose|i: int| 0 <= i < d.len() && d[i] == p;
                assert(d.push(s.last())[i] == p);
            }
            assert(d.push(s.last())[d.len() as int] == s.last());
        }
        assert(s[s.len() - 1] == s.last());
    }
}

/// Whether `p` occurs in `v`.
fn pts_contains(v: &Vec<(i32, i32)>, p: (i32, i32)) -> (b: bool)
    ensures
        b == v@.contains(p),
{
    let mut j: usize = 0;
    while j < v.len()
        invariant
            j <= v@.len(),
            forall|k: int| 0 <= k < j ==> v@[k] != p,
        decreases v@.len() - j,
    {
        if v[j].0 == p.0 && v[j].1 == p.1 {
            assert(v@[j as int] == p);
            return true;
        }
        j = j + 1;
    }
    false
}

/// Removes duplicate points, keeping the first occurrence of each.
pub fn remove_duplicate_pts(pta: &Pta) -> (r: Pta)
    ensures
        r@ == dedup_pts(pta@),
{
    let pts = pta.points();
    let mut out: Vec<(i32, i32)> = Vec::new();
    let mut i: usize = 0;
    while i < pts.len()
        invariant
            i <= pts@.len(),
            pts@ == pta@,
            out@ == dedup_pts(pta@.take(i as int)),
        decreases pts@.len() - i,
    {
        let p = pts[i];
        let found = pts_contains(&out, p);
        proof {
            let t = pta@.take(i as int + 1);
            assert(t.drop_last() =~= pta@.take(i as int));
            assert(t.last() == p);
            lemma_dedup_contains(pta@.take(i as int), p);
        }
        if !found {
            out.push(p);
        }
        i = i + 1;
    }
    assert(pta@.take(i as int) =~= pta@);
    Pta::from_vec(out)
}

/// The outline points of the boxes of `bs`, one box after another.
pub open spec fn boxa_pts(bs: Seq<Box>, width: u32) -> Seq<(i32, i32)>
    decreases bs.len(),
{
    if bs.len() == 0 {
        Seq::empty()
    } else {
        boxa_pts(bs.drop_last(), width) + box_pts(bs.last(), width)
    }
}

/// Generates the outline points of all the boxes of `boxa`; with
/// `remove_dups`, only the first occurrence of each point is kept.
pub fn generate_boxa_pta(boxa: &Boxa, width: u32, remove_dups: bool) -> (r: Pta)
    requires
        forall|i: int| 0 <= i < boxa@.len() ==> #[trigger] box_ok(boxa@[i], width),
    ensures
        r@ == (if remove_dups {
            dedup_pts(boxa_pts(boxa@, width))
        } else {
            boxa_pts(boxa@, width)
        }),
{
    let n = boxa.len();
    let mut combined = Pta::new();
    let mut i: usize = 0;
    while i < n
        invariant
            i <= n,
            n == boxa@.len(),
            forall|j: int| 0 <= j < boxa@.len() ==> #[trigger] box_ok(boxa@[j], width),
            combined@ == boxa_pts(boxa@.take(i as int), width),
        decreases n - i,
    {
        let b = boxa.get(i).unwrap();
        assert(box_ok(boxa@[i as int], width));
        let pta = generate_box_pta(&b, width);
        combined.append(&pta);
        proof {
            let t = boxa@.take(i as int + 1);
            assert(t.drop_last() =~= boxa@.take(i as int));
        }
        i = i + 1;
    }
    assert(boxa@.take(n as int) =~= boxa@);
    if remove_dups {
        remove_duplicate_pts(&combined)
    } else {
        combined
    }
}

/// The size of grid cells covering `len` pixels with `n` cells.
pub open spec fn grid_step(len: u32, n: u32) -> int {
    (len + n - 1) / n as int
}

/// The cell in row `i` and column `j` of a grid.
pub open spec fn grid_cell(w: u32, h: u32, nx: u32, ny: u32, i: int, j: int) -> Box {
    let bx = grid_step(w, nx);
    let by = grid_step(h, ny);
    let y1 = by * i;
    let y2 = crate::box_::imin(y1 + by, h - 1);
    let x1 = bx * j;
    let x2 = crate::box_::imin(x1 + bx, w - 1);
    Box { x: x1 as i32, y: y1 as i32, w: (x2 - x1 + 1) as i32, h: (y2 - y1 + 1) as i32 }
}

/// A cell that is a valid box (its size as `i32` is not negative).
pub open spec fn cell_kept(c: Box) -> bool {
    c.w >= 0 && c.h >= 0
}

/// The kept cells of row `i`, from column 0 up to column `j`.
pub open spec fn grid_row(w: u32, h: u32, nx: u32, ny: u32, i: int, j: int) -> Seq<Box>
    decreases j,
{
    if j <= 0 {
        Seq::empty()
    } else {
        let c = grid_cell(w, h, nx, ny, i, j - 1);
        grid_row(w, h, nx, ny, i, j - 1) + if cell_kept(c) {
            seq![c]
        } else {
            Seq::empty()
        }
    }
}

/// The kept cells of rows 0 up to `i`, row by row.
pub open spec fn grid_rows(w: u32, h: u32, nx: u32, ny: u32, i: int) -> Seq<Box>
    decreases i,
{
    if i <= 0 {
        Seq::empty()
    } else {
        grid_rows(w, h, nx, ny, i - 1) + grid_row(w, h, nx, ny, i - 1, nx as int)
    }
}

/// The grid request is rejected.
pub open spec fn grid_rejected(w: u32, h: u32, nx: u32, ny: u32) -> bool {
    nx == 0 || ny == 0 || w < 2 * nx || h < 2 * ny
}

/// The grid can be computed and drawn.
pub open spec fn grid_ok(w: u32, h: u32, nx: u32, ny: u32, width: u32) -> bool {
    (nx > 0 && ny > 0) ==> {
        &&& 2 * nx <= u32::MAX
        &&& 2 * ny <= u32::MAX
        &&& !grid_rejected(w, h, nx, ny) ==> {
            &&& w + nx <= u32::MAX
            &&& h + ny <= u32::MAX
            &&& grid_step(w, nx) * (nx - 1) <= w - 1
            &&& grid_step(h, ny) * (ny - 1) <= h - 1
            &&& forall|i: int, j: int|
                0 <= i < ny && 0 <= j < nx && cell_kept(#[trigger] grid_cell(w, h, nx, ny, i, j))
                    ==> box_ok(grid_cell(w, h, nx, ny, i, j), width)
        }
    }
}

/// The points of a grid of `nx` by `ny` cells over `w` by `h` pixels.
pub open spec fn grid_pts(w: u32, h: u32, nx: u32, ny: u32, width: u32) -> Seq<(i32, i32)> {
    dedup_pts(boxa_pts(grid_rows(w, h, nx, ny, ny as int), width))
}

/// Every cell kept in the first rows is drawable.
proof fn lemma_grid_rows_ok(w: u32, h: u32, nx: u32, ny: u32, width: u32, i: int, j: int)
    requires
        0 <= i <= ny,
        0 <= j <= nx,
        forall|a: int, b: int|
            0 <= a < ny && 0 <= b < nx && cell_kept(#[trigger] grid_cell(w, h, nx, ny, a, b))
                ==> box_ok(grid_cell(w, h, nx, ny, a, b), width),
    ensures
        forall|k: int| 0 <= k < grid_rows(w, h, nx, ny, i).len() ==> #[trigger] box_ok(grid_rows(w, h, nx, ny, i)[k], width),
        i < ny ==> forall|k: int| 0 <= k < grid_row(w, h, nx, ny, i, j).len() ==> #[trigger] box_ok(grid_row(w, h, nx, ny, i, j)[k], width),
    decreases i, j,
{
    if j > 0 {
        lemma_grid_rows_ok(w, h, nx, ny, width, i, j - 1);
        if i < ny {
            let r = grid_row(w, h, nx, ny, i, j - 1);
            let c = grid_cell(w, h, nx, ny, i, j - 1);
            let full = grid_row(w, h, nx, ny, i, j);
            assert forall|k: int| 0 <= k < full.len() implies #[trigger] box_ok(full[k], width) by {
                if k < r.len() {
                    assert(full[k] == r[k]);
                } else {
                    assert(cell_kept(c));
                    assert(full[k] == c);
                }
            }
        }
    }
    if i > 0 {
        lemma_grid_rows_ok(w, h, nx, ny, width, i - 1, nx as int);
        let a = grid_rows(w, h, nx, ny, i - 1);
        let b = grid_row(w, h, nx, ny, i - 1, nx as int);
        let full = grid_rows(w, h, nx, ny, i);
        assert forall|k: int| 0 <= k < full.len() implies #[trigger] box_ok(full[k], width) by {
            if k < a.len() {
                assert(full[k] == a[k]);
            } else {
                assert(full[k] == b[k - a.len()]);
            }
        }
    }
}

/// Generates the outline points of a grid of `nx` by `ny` cells covering a
/// `w` by `h` region, each point once.
///
/// # Errors
///
/// [`Error::InvalidParameter`] if `nx` or `ny` is 0, or if `w < 2 * nx` or
/// `h < 2 * ny`.
pub fn generate_grid_pta(w: u32, h: u32, nx: u32, ny: u32, width: u32) -> (r: Result<Pta>)
    requires
        grid_ok(w, h, nx, ny, width),
    ensures
        r is Ok <==> !grid_rejected(w, h, nx, ny),
        r matches Ok(p) ==> p@ == grid_pts(w, h, nx, ny, width),
        r matches Err(e) ==> e is InvalidParameter,
{
    if nx == 0 || ny == 0 {
        return Err(invalid_param("nx and ny must be > 0"));
    }
    if w < 2 * nx || h < 2 * ny {
        return Err(invalid_param("w or h too small for requested grid"));
    }
    let bx = (w + nx - 1) / nx;
    let by = (h + ny - 1) / ny;
    assert(by * ny <= h + ny - 1) by (nonlinear_arith)
        requires
            by == (h + ny - 1) / ny as int,
            ny > 0,
    ;
    assert(bx * nx <= w + nx - 1) by (nonlinear_arith)
        requires
            bx == (w + nx - 1) / nx as int,
            nx > 0,
    ;
    let mut boxa = Boxa::new();
    let mut i: u32 = 0;
    while i < ny
        invariant
            grid_ok(w, h, nx, ny, width),
            !grid_rejected(w, h, nx, ny),
            bx == grid_step(w, nx),
            by == grid_step(h, ny),
            by * ny <= h + ny - 1,
            bx * nx <= w + nx - 1,
            i <= ny,
            boxa@ == grid_rows(w, h, nx, ny, i as int),
        decreases ny - i,
    {
        assert(by * i <= by * (ny - 1)) by (nonlinear_arith)
            requires
                i <= ny - 1,
        ;
        assert(by * i + by <= by * ny) by (nonlinear_arith)
            requires
                i <= ny - 1,
        ;
        let y1 = by * i;
        let y2 = if y1 + by < h - 1 {
            y1 + by
        } else {
            h - 1
        };
        let mut j: u32 = 0;
        while j < nx
            invariant
                grid_ok(w, h, nx, ny, width),
                !grid_rejected(w, h, nx, ny),
                bx == grid_step(w, nx),
                by == grid_step(h, ny),
                bx * nx <= w + nx - 1,
                i < ny,
                j <= nx,
                y1 == by * i,
                y2 == crate::box_::imin(y1 + by, h - 1),
                y1 <= y2,
                boxa@ == grid_rows(w, h, nx, ny, i as int) + grid_row(w, h, nx, ny, i as int, j as int),
            decreases nx - j,
        {
            assert(bx * j <= bx * (nx - 1)) by (nonlinear_arith)
                requires
                    j <= nx - 1,
            ;
            assert(bx * j + bx <= bx * nx) by (nonlinear_arith)
                requires
                    j <= nx - 1,
            ;
            let x1 = bx * j;
            let x2 = if x1 + bx < w - 1 {
                x1 + bx
            } else {
                w - 1
            };
            let cw = (x2 - x1 + 1) as i32;
            let chh = (y2 - y1 + 1) as i32;
            let ghost c = grid_cell(w, h, nx, ny, i as int, j as int);
            assert(c == Box { x: x1 as i32, y: y1 as i32, w: cw, h: chh });
            match Box::new(x1 as i32, y1 as i32, cw, chh) {
                Ok(b) => {
                    boxa.push(b);
                },
                Err(_) => {},
            }
            proof {
                assert(boxa@ =~= grid_rows(w, h, nx, ny, i as int) + grid_row(w, h, nx, ny, i as int, j + 1));
            }
            j = j + 1;
        }
        i = i + 1;
    }
    proof {
        lemma_grid_rows_ok(w, h, nx, ny, width, ny as int, 0);
    }
    Ok(generate_boxa_pta(&boxa, width, true))
}

// ---------------------------------------------------------------------------
// Rendering
// ---------------------------------------------------------------------------

/// The new value of a pixel holding `cur` under `op`, where `maxv` is the
/// largest pixel value.
pub open spec fn op_value(op: PixelOp, cur: u32, maxv: u32) -> u32 {
    match op {
        PixelOp::SetMax => maxv,
        PixelOp::Clear => 0,
        PixelOp::Flip => cur ^ maxv,
    }
}

/// The point lies in the image (the size compared as `i32`).
pub open spec fn in_image(m: PixModel, p: (i32, i32)) -> bool {
    0 <= p.0 < (m.width as i32) && 0 <= p.1 < (m.height as i32)
}

/// The image after applying `op` to the points of `pts` in turn; points
/// outside the image are skipped.
pub open spec fn render_op(m: PixModel, pts: Seq<(i32, i32)>, op: PixelOp) -> PixModel
    decreases pts.len(),
{
    if pts.len() == 0 {
        m
    } else {
        let m1 = render_op(m, pts.drop_last(), op);
        let p = pts.last();
        if in_image(m1, p) {
            m1.with_pixel(
                p.0 as int,
                p.1 as int,
                op_value(op, m1.pixel(p.0 as int, p.1 as int), pmask(m1.depth)),
            )
        } else {
            m1
        }
    }
}

/// The image after writing `v` at the points of `pts`; points outside the
/// image are skipped.
pub open spec fn render_value(m: PixModel, pts: Seq<(i32, i32)>, v: u32) -> PixModel
    decreases pts.len(),
{
    if pts.len() == 0 {
        m
    } else {
        let m1 = render_value(m, pts.drop_last(), v);
        let p = pts.last();
        if in_image(m1, p) {
            m1.with_pixel(p.0 as int, p.1 as int, v)
        } else {
            m1
        }
    }
}

/// The pixel value that draws color `c` at depth `d`: 1 at 1 bpp, the
/// gray value scaled to the depth for 2 to 16 bpp, and the RGB word at
/// 32 bpp.
pub open spec fn color_value(d: PixelDepth, c: Color) -> u32 {
    let g = gray_of(c) as u32;
    match d {
        PixelDepth::Bit1 => 1,
        PixelDepth::Bit2 => g / 64,
        PixelDepth::Bit4 => g / 16,
        PixelDepth::Bit8 => g,
        PixelDepth::Bit16 => (g * 257) as u32,
        PixelDepth::Bit32 => rgba_word(c.r, c.g, c.b, 0),
    }
}

/// Rendering keeps the layout and the metadata.
proof fn lemma_render_meta(m: PixModel, pts: Seq<(i32, i32)>, op: PixelOp)
    requires
        m.wf(),
    ensures
        render_op(m, pts, op).wf(),
        render_op(m, pts, op).same_meta(m),
    decreases pts.len(),
{
    if pts.len() > 0 {
        lemma_render_meta(m, pts.drop_last(), op);
        let m1 = render_op(m, pts.drop_last(), op);
        let p = pts.last();
        if in_image(m1, p) {
            m1.lemma_pixel_index(p.0 as int, p.1 as int);
        }
    }
}

/// Writing a value keeps the layout and the metadata.
proof fn lemma_render_value_meta(m: PixModel, pts: Seq<(i32, i32)>, v: u32)
    requires
        m.wf(),
    ensures
        render_value(m, pts, v).wf(),
        render_value(m, pts, v).same_meta(m),
    decreases pts.len(),
{
    if pts.len() > 0 {
        lemma_render_value_meta(m, pts.drop_last(), v);
        let m1 = render_value(m, pts.drop_last(), v);
        let p = pts.last();
        if in_image(m1, p) {
            m1.lemma_pixel_index(p.0 as int, p.1 as int);
        }
    }
}

/// The pixel value that draws `color` at depth `d`.
fn color_pixel(d: PixelDepth, color: Color) -> (v: u32)
    ensures
        v == color_value(d, color),
{
    let g = color.to_gray() as u32;
    match d {
        PixelDepth::Bit1 => 1,
        PixelDepth::Bit2 => g / 64,
        PixelDepth::Bit4 => g / 16,
        PixelDepth::Bit8 => g,
        PixelDepth::Bit16 => g * 257,
        PixelDepth::Bit32 => color.to_pixel32(),
    }
}

impl PixMut {
    /// Applies `op` to each point of `pta` that lies in the image, in
    /// order.
    ///
    /// # Errors
    ///
    /// [`Error::InvalidParameter`] for an image with a colormap.
    pub fn render_pta(&mut self, pta: &Pta, op: PixelOp) -> (r: Result<()>)
        requires
            old(self)@.wf(),
        ensures
            r is Ok <==> old(self)@.cmap is None,
            r is Ok ==> final(self)@ == render_op(old(self)@, pta@, op),
            r is Err ==> final(self)@ == old(self)@,
            r matches Err(e) ==> e is InvalidParameter,
            final(self)@.wf(),
    {
        if self.has_colormap() {
            return Err(invalid_param("render_pta does not support colormapped images"));
        }
        let ghost m0 = self@;
        let w = self.width() as i32;
        let h = self.height() as i32;
        let maxv = self.depth().max_value();
        let pts = pta.points();
        let mut i: usize = 0;
        while i < pts.len()
            invariant
                m0.wf(),
                i <= pts@.len(),
                pts@ == pta@,
                w == (m0.width as i32),
                h == (m0.height as i32),
                maxv == pmask(m0.depth),
                self@ == render_op(m0, pta@.take(i as int), op),
                self@.wf(),
                self@.same_meta(m0),
            decreases pts@.len() - i,
        {
            let (x, y) = pts[i];
            proof {
                let t = pta@.take(i as int + 1);
                assert(t.drop_last() =~= pta@.take(i as int));
                assert(t.last() == (x, y));
                lemma_render_meta(m0, pta@.take(i as int + 1), op);
            }
            if x >= 0 && x < w && y >= 0 && y < h {
                let xu = x as u32;
                let yu = y as u32;
                match op {
                    PixelOp::SetMax => {
                        self.set_pixel_unchecked(xu, yu, maxv);
                    },
                    PixelOp::Clear => {
                        self.set_pixel_unchecked(xu, yu, 0);
                    },
                    PixelOp::Flip => {
                        let cur = self.get_pixel_unchecked(xu, yu);
                        self.set_pixel_unchecked(xu, yu, cur ^ maxv);
                    },
                }
            }
            i = i + 1;
        }
        assert(pta@.take(i as int) =~= pta@);
        Ok(())
    }

    /// Writes the pixel value of `color` (see [`color_value`]) at each
    /// point of `pta` that lies in the image.
    pub fn render_pta_color(&mut self, pta: &Pta, color: Color) -> (r: Result<()>)
        requires
            old(self)@.wf(),
        ensures
            r is Ok,
            final(self)@ == render_value(old(self)@, pta@, color_value(old(self)@.depth, color)),
            final(self)@.wf(),
    {
        let ghost m0 = self@;
        let w = self.width() as i32;
        let h = self.height() as i32;
        let v = color_pixel(self.depth(), color);
        let pts = pta.points();
        let mut i: usize = 0;
        while i < pts.len()
            invariant
                m0.wf(),
                i <= pts@.len(),
                pts@ == pta@,
                w == (m0.width as i32),
                h == (m0.height as i32),
                v == color_value(m0.depth, color),
                self@ == render_value(m0, pta@.take(i as int), v),
                self@.wf(),
                self@.same_meta(m0),
            decreases pts@.len() - i,
        {
            let (x, y) = pts[i];
            proof {
                let t = pta@.take(i as int + 1);
                assert(t.drop_last() =~= pta@.take(i as int));
                assert(t.last() == (x, y));
                lemma_render_value_meta(m0, pta@.take(i as int + 1), v);
            }
            if x >= 0 && x < w && y >= 0 && y < h {
                self.set_pixel_unchecked(x as u32, y as u32, v);
            }
            i = i + 1;
        }
        assert(pta@.take(i as int) =~= pta@);
        Ok(())
    }

    /// Draws a line `width` pixels wide from `(x1, y1)` to `(x2, y2)` with
    /// `op`.
    ///
    /// # Errors
    ///
    /// [`Error::InvalidParameter`] for an image with a colormap.
    pub fn render_line(&mut self, x1: i32, y1: i32, x2: i32, y2: i32, width: u32, op: PixelOp) -> (r: Result<()>)
        requires
            old(self)@.wf(),
            wide_line_ok(x1, y1, x2, y2, width),
        ensures
            r is Ok <==> old(self)@.cmap is None,
            r is Ok ==> final(self)@ == render_op(old(self)@, wide_line_pts(x1, y1, x2, y2, width), op),
            r is Err ==> final(self)@ == old(self)@,
            r matches Err(e) ==> e is InvalidParameter,
            final(self)@.wf(),
    {
        let pta = generate_wide_line_pta(x1, y1, x2, y2, width);
        self.render_pta(&pta, op)
    }

    /// Draws a line `width` pixels wide in `color`.
    pub fn render_line_color(&mut self, x1: i32, y1: i32, x2: i32, y2: i32, width: u32, color: Color) -> (r: Result<()>)
        requires
            old(self)@.wf(),
            wide_line_ok(x1, y1, x2, y2, width),
        ensures
            r is Ok,
            final(self)@ == render_value(old(self)@, wide_line_pts(x1, y1, x2, y2, width), color_value(old(self)@.depth, color)),
            final(self)@.wf(),
    {
        let pta = generate_wide_line_pta(x1, y1, x2, y2, width);
        self.render_pta_color(&pta, color)
    }

    /// Draws the outline of `b` with lines `width` pixels wide and `op`.
    ///
    /// # Errors
    ///
    /// [`Error::InvalidParameter`] for an image with a colormap.
    pub fn render_box(&mut self, b: &Box, width: u32, op: PixelOp) -> (r: Result<()>)
        requires
            old(self)@.wf(),
            box_ok(*b, width),
        ensures
            r is Ok <==> old(self)@.cmap is None,
            r is Ok ==> final(self)@ == render_op(old(self)@, box_pts(*b, width), op),
            r is Err ==> final(self)@ == old(self)@,
            r matches Err(e) ==> e is InvalidParameter,
            final(self)@.wf(),
    {
        let pta = generate_box_pta(b, width);
        self.render_pta(&pta, op)
    }

    /// Draws the outline of `b` in `color`.
    pub fn render_box_color(&mut self, b: &Box, width: u32, color: Color) -> (r: Result<()>)
        requires
            old(self)@.wf(),
            box_ok(*b, width),
        ensures
            r is Ok,
            final(self)@ == render_value(old(self)@, box_pts(*b, width), color_value(old(self)@.depth, color)),
            final(self)@.wf(),
    {
        let pta = generate_box_pta(b, width);
        self.render_pta_color(&pta, color)
    }

    /// Draws a polyline through `vertices` with `op`, closed when `close`
    /// is set.
    ///
    /// # Errors
    ///
    /// [`Error::InvalidParameter`] for an image with a colormap.
    pub fn render_polyline(&mut self, vertices: &Pta, width: u32, close: bool, op: PixelOp) -> (r: Result<()>)
        requires
            old(self)@.wf(),
            poly_ok(vertices@, width, close),
        ensures
            r is Ok <==> old(self)@.cmap is None,
            r is Ok ==> final(self)@ == render_op(old(self)@, poly_pts(vertices@, width, close), op),
            r is Err ==> final(self)@ == old(self)@,
            r matches Err(e) ==> e is InvalidParameter,
            final(self)@.wf(),
    {
        let pta = generate_polyline_pta(vertices, width, close);
        self.render_pta(&pta, op)
    }

    /// Draws a polyline through `vertices` in `color`.
    pub fn render_polyline_color(&mut self, vertices: &Pta, width: u32, close: bool, color: Color) -> (r: Result<()>)
        requires
            old(self)@.wf(),
            poly_ok(vertices@, width, close),
        ensures
            r is Ok,
            final(self)@ == render_value(old(self)@, poly_pts(vertices@, width, close), color_value(old(self)@.depth, color)),
            final(self)@.wf(),
    {
        let pta = generate_polyline_pta(vertices, width, close);
        self.render_pta_color(&pta, color)
    }

    /// Draws the outlines of all the boxes of `boxa` with `op`.
    ///
    /// # Errors
    ///
    /// [`Error::InvalidParameter`] for an image with a colormap.
    pub fn render_boxa(&mut self, boxa: &Boxa, width: u32, op: PixelOp) -> (r: Result<()>)
        requires
            old(self)@.wf(),
            forall|i: int| 0 <= i < boxa@.len() ==> #[trigger] box_ok(boxa@[i], width),
        ensures
            r is Ok <==> old(self)@.cmap is None,
            r is Ok ==> final(self)@ == render_op(old(self)@, boxa_pts(boxa@, width), op),
            r is Err ==> final(self)@ == old(self)@,
            r matches Err(e) ==> e is InvalidParameter,
            final(self)@.wf(),
    {
        let pta = generate_boxa_pta(boxa, width, false);
        self.render_pta(&pta, op)
    }

    /// Draws the outlines of all the boxes of `boxa` in `color`.
    pub fn render_boxa_color(&mut self, boxa: &Boxa, width: u32, color: Color) -> (r: Result<()>)
        requires
            old(self)@.wf(),
            forall|i: int| 0 <= i < boxa@.len() ==> #[trigger] box_ok(boxa@[i], width),
        ensures
            r is Ok,
            final(self)@ == render_value(old(self)@, boxa_pts(boxa@, width), color_value(old(self)@.depth, color)),
            final(self)@.wf(),
    {
        let pta = generate_boxa_pta(boxa, width, false);
        self.render_pta_color(&pta, color)
    }

    /// Draws a grid of `nx` by `ny` cells sized to the image, in `color`.
    ///
    /// # Errors
    ///
    /// [`Error::InvalidParameter`] if `nx` or `ny` is 0, or if the image is
    /// narrower than `2 * nx` or lower than `2 * ny`.
    pub fn render_grid_color(&mut self, nx: u32, ny: u32, width: u32, color: Color) -> (r: Result<()>)
        requires
            old(self)@.wf(),
            grid_ok(old(self)@.width, old(self)@.height, nx, ny, width),
        ensures
            r is Ok <==> !grid_rejected(old(self)@.width, old(self)@.height, nx, ny),
            r is Ok ==> final(self)@ == render_value(
                old(self)@,
                grid_pts(old(self)@.width, old(self)@.height, nx, ny, width),
                color_value(old(self)@.depth, color),
            ),
            r is Err ==> final(self)@ == old(self)@,
            r matches Err(e) ==> e is InvalidParameter,
            final(self)@.wf(),
    {
        if nx == 0 || ny == 0 {
            return Err(invalid_param("nx and ny must be > 0"));
        }
        let w = self.width();
        let h = self.height();
        let pta = match generate_grid_pta(w, h, nx, ny, width) {
            Ok(p) => p,
            Err(e) => {
                return Err(e);
            },
        };
        self.render_pta_color(&pta, color)
    }
}

// ---------------------------------------------------------------------------
// Contours
// ---------------------------------------------------------------------------

/// The value lies on a contour: at `start` or a multiple of `inc` above it.
pub open spec fn on_contour(v: u32, start: u32, inc: u32) -> bool {
    v >= start && (v - start) % (inc as int) == 0
}

/// The reason contour rendering is refused, if it is.
pub open spec fn contours_refused(m: PixModel, start: u32, inc: u32) -> bool {
    ||| (m.depth != PixelDepth::Bit8 && m.depth != PixelDepth::Bit16)
    ||| m.cmap is Some
    ||| start > pmask(m.depth)
    ||| inc == 0
}

impl Pix {
    /// Draws contour lines of an 8 or 16 bpp gray image: the pixels whose
    /// value is `start_val` plus a multiple of `increment`. `Binary` gives
    /// a new 1 bpp image that is 1 on the contours; `Overlay` gives a copy
    /// of the image with the contours set to 0.
    ///
    /// # Errors
    ///
    /// [`Error::UnsupportedDepth`] for other depths;
    /// [`Error::InvalidParameter`] for a colormapped image, a start value
    /// above the largest pixel value, or a zero increment.
    pub fn render_contours(&self, start_val: u32, increment: u32, output: ContourOutput) -> (r: Result<Pix>)
        requires
            self@.wf(),
        ensures
            r is Ok <==> !contours_refused(self@, start_val, increment),
            r matches Ok(p) ==> p@.wf() && p@.width == self@.width && p@.height == self@.height,
            r matches Ok(p) ==> (output == ContourOutput::Binary ==> p@.fresh_meta(self@.width, self@.height, PixelDepth::Bit1)),
            r matches Ok(p) ==> (output == ContourOutput::Overlay ==> p@.same_meta(self@)),
            r matches Ok(p) ==> forall|x: int, y: int| #![trigger p@.pixel(x, y)]
                p@.contains(x, y) ==> p@.pixel(x, y) == if on_contour(self@.pixel(x, y), start_val, increment) {
                    if output == ContourOutput::Binary { 1u32 } else { 0u32 }
                } else {
                    if output == ContourOutput::Binary { 0u32 } else { self@.pixel(x, y) }
                },
            r matches Err(e) ==> ((self@.depth != PixelDepth::Bit8 && self@.depth != PixelDepth::Bit16) ==> e == Error::UnsupportedDepth(self@.depth.nbits())),
            r matches Err(e) ==> (!(self@.depth != PixelDepth::Bit8 && self@.depth != PixelDepth::Bit16) ==> e is InvalidParameter),
    {
        let depth = self.depth();
        if depth != PixelDepth::Bit8 && depth != PixelDepth::Bit16 {
            return Err(Error::UnsupportedDepth(depth.bits()));
        }
        if self.has_colormap() {
            return Err(invalid_param("render_contours does not support colormapped images"));
        }
        let max_val = depth.max_value();
        if start_val > max_val {
            return Err(invalid_param("start_val exceeds the largest pixel value"));
        }
        if increment == 0 {
            return Err(invalid_param("increment must be > 0"));
        }
        match output {
            ContourOutput::Binary => {
                let f = |v: u32| -> (o: u32)
                    ensures
                        o == if on_contour(v, start_val, increment) { 1u32 } else { 0u32 },
                    {
                        if v >= start_val && (v - start_val) % increment == 0 {
                            1
                        } else {
                            0
                        }
                    };
                proof {
                    self@.lemma_new_ok_depth(PixelDepth::Bit1);
                }
                let m = match map_new(self, PixelDepth::Bit1, f, Ghost(|v: u32| if on_contour(v, start_val, increment) { 1u32 } else { 0u32 })) {
                    Ok(m) => m,
                    Err(e) => {
                        return Err(e);
                    },
                };
                Ok(m.into_pix())
            },
            ContourOutput::Overlay => {
                let mut m = self.to_mut();
                let f = |v: u32| -> (o: u32)
                    ensures
                        o == if on_contour(v, start_val, increment) { 0u32 } else { v },
                    {
                        if v >= start_val && (v - start_val) % increment == 0 {
                            0
                        } else {
                            v
                        }
                    };
                map_into(&mut m, f, Ghost(|v: u32| if on_contour(v, start_val, increment) { 0u32 } else { v }));
                proof {
                    assert forall|x: int, y: int| m@.contains(x, y) implies #[trigger] m@.pixel(x, y) == if on_contour(self@.pixel(x, y), start_val, increment) { 0u32 } else { self@.pixel(x, y) } by {
                        super::raster::lemma_stored_pixel(self@, x, y);
                        super::raster::lemma_stored_small(self@.depth, 0);
                    }
                }
                Ok(m.into_pix())
            },
        }
    }
}

// ---------------------------------------------------------------------------
// Laws
// ---------------------------------------------------------------------------

/// The minor offset starts at 0, reaches `dmin` at the end of the major
/// axis, and grows by 0 or 1 per step.
proof fn lemma_bres_steps(k: int, dmaj: int, dmin: int)
    requires
        dmaj >= 1,
        0 <= dmin <= dmaj,
        0 <= k,
    ensures
        bres_offset(0, dmaj, dmin) == 0,
        bres_offset(dmaj, dmaj, dmin) == dmin,
        bres_offset(k + 1, dmaj, dmin) == bres_offset(k, dmaj, dmin) || bres_offset(k + 1, dmaj, dmin)
            == bres_offset(k, dmaj, dmin) + 1,
        k <= dmaj ==> 0 <= bres_offset(k, dmaj, dmin) <= dmin,
{
    let c = dmaj - 1 - dmaj / 2;
    assert(0 <= c < dmaj);
    vstd::arithmetic::div_mod::lemma_fundamental_div_mod_converse(c, dmaj, 0, c);
    assert(dmaj * dmin + c == dmin * dmaj + c) by (nonlinear_arith);
    vstd::arithmetic::div_mod::lemma_fundamental_div_mod_converse(dmaj * dmin + c, dmaj, dmin, c);
    let a = k * dmin + c;
    assert(a >= 0) by (nonlinear_arith)
        requires
            k >= 0,
            dmin >= 0,
            c >= 0,
            a == k * dmin + c,
    ;
    vstd::arithmetic::div_mod::lemma_fundamental_div_mod(a, dmaj);
    let q = a / dmaj;
    let r = a % dmaj;
    assert((k + 1) * dmin + c == a + dmin) by (nonlinear_arith)
        requires
            a == k * dmin + c,
    ;
    if r + dmin < dmaj {
        vstd::arithmetic::div_mod::lemma_fundamental_div_mod_converse(a + dmin, dmaj, q, r + dmin);
    } else {
        assert(a + dmin == (q + 1) * dmaj + (r + dmin - dmaj)) by (nonlinear_arith)
            requires
                a == dmaj * q + r,
        ;
        vstd::arithmetic::div_mod::lemma_fundamental_div_mod_converse(a + dmin, dmaj, q + 1, r + dmin - dmaj);
    }
    if k <= dmaj {
        assert(a <= dmaj * dmin + c) by (nonlinear_arith)
            requires
                k <= dmaj,
                dmin >= 0,
                a == k * dmin + c,
        ;
        vstd::arithmetic::div_mod::lemma_div_is_ordered(a, dmaj * dmin + c, dmaj);
        vstd::arithmetic::div_mod::lemma_div_is_ordered(c, a, dmaj);
    }
}

/// The coordinates of point `k <= dmaj` of a line along its major axis.
proof fn lemma_bres_pair(a1: int, b1: int, a2: int, b2: int, k: int)
    requires
        iabs(a2 - a1) >= 1,
        iabs(b2 - b1) <= iabs(a2 - a1),
        0 <= k <= iabs(a2 - a1),
    ensures
        ({
            let p = bres_pair(a1, b1, a2, b2, k);
            &&& (if a1 <= a2 { a1 <= p.0 <= a2 } else { a2 <= p.0 <= a1 })
            &&& (if b1 <= b2 { b1 <= p.1 <= b2 } else { b2 <= p.1 <= b1 })
        }),
        k == 0 ==> bres_pair(a1, b1, a2, b2, k) == (a1, b1),
        k == iabs(a2 - a1) ==> bres_pair(a1, b1, a2, b2, k) == (a2, b2),
        k < iabs(a2 - a1) ==> {
            let p = bres_pair(a1, b1, a2, b2, k);
            let q = bres_pair(a1, b1, a2, b2, k + 1);
            iabs(q.0 - p.0) == 1 && iabs(q.1 - p.1) <= 1
        },
{
    lemma_bres_steps(k, iabs(a2 - a1), iabs(b2 - b1));
}

/// A line starts at its first end and finishes at its second, and each
/// of its points is a neighbour (8-connected) of the one before.
pub proof fn law_line_ends_and_steps(x1: i32, y1: i32, x2: i32, y2: i32)
    requires
        line_ok(x1, y1, x2, y2),
    ensures
        line_pts(x1, y1, x2, y2).len() >= 1,
        line_pts(x1, y1, x2, y2)[0] == (x1, y1),
        line_pts(x1, y1, x2, y2).last() == (x2, y2),
        forall|k: int|
            0 <= k < line_pts(x1, y1, x2, y2).len() - 1 ==> {
                let p = #[trigger] line_pts(x1, y1, x2, y2)[k];
                let q = line_pts(x1, y1, x2, y2)[k + 1];
                iabs(q.0 - p.0) <= 1 && iabs(q.1 - p.1) <= 1
            },
{
    let s = line_pts(x1, y1, x2, y2);
    let dx = iabs(x2 - x1);
    let dy = iabs(y2 - y1);
    if dx == 0 && dy == 0 {
        assert(s.len() == 1);
    } else if dx >= dy {
        lemma_bres_pair(x1 as int, y1 as int, x2 as int, y2 as int, 0);
        lemma_bres_pair(x1 as int, y1 as int, x2 as int, y2 as int, dx);
        assert(s[0] == line_point(x1, y1, x2, y2, 0));
        assert(s.last() == line_point(x1, y1, x2, y2, dx));
        assert forall|k: int| 0 <= k < s.len() - 1 implies {
            let p = #[trigger] s[k];
            let q = s[k + 1];
            iabs(q.0 - p.0) <= 1 && iabs(q.1 - p.1) <= 1
        } by {
            lemma_bres_pair(x1 as int, y1 as int, x2 as int, y2 as int, k);
            lemma_bres_pair(x1 as int, y1 as int, x2 as int, y2 as int, k + 1);
        }
    } else {
        lemma_bres_pair(y1 as int, x1 as int, y2 as int, x2 as int, 0);
        lemma_bres_pair(y1 as int, x1 as int, y2 as int, x2 as int, dy);
        assert(s[0] == line_point(x1, y1, x2, y2, 0));
        assert(s.last() == line_point(x1, y1, x2, y2, dy));
        assert forall|k: int| 0 <= k < s.len() - 1 implies {
            let p = #[trigger] s[k];
            let q = s[k + 1];
            iabs(q.0 - p.0) <= 1 && iabs(q.1 - p.1) <= 1
        } by {
            lemma_bres_pair(y1 as int, x1 as int, y2 as int, x2 as int, k);
            lemma_bres_pair(y1 as int, x1 as int, y2 as int, x2 as int, k + 1);
        }
    }
}

/// Consecutive points that differ by at most one in each coordinate.
pub open spec fn connected8(s: Seq<(i32, i32)>) -> bool {
    forall|k: int| 0 <= k < s.len() - 1 ==> iabs(#[trigger] s[k + 1].0 - s[k].0) <= 1 && iabs(s[k + 1].1 - s[k].1) <= 1
}

/// Consecutive points that differ by at most one in one coordinate only.
pub open spec fn connected4(s: Seq<(i32, i32)>) -> bool {
    forall|k: int| 0 <= k < s.len() - 1 ==> iabs(#[trigger] s[k + 1].0 - s[k].0) + iabs(s[k + 1].1 - s[k].1) <= 1
}

proof fn lemma_cc4_shape(s: Seq<(i32, i32)>)
    requires
        s.len() >= 1,
    ensures
        cc4_pts(s).len() >= 1,
        cc4_pts(s).last() == s.last(),
        cc4_pts(s)[0] == s[0],
    decreases s.len(),
{
    if s.len() > 1 {
        lemma_cc4_shape(s.drop_last());
        assert(s.drop_last()[0] == s[0]);
    }
}

/// Making an 8-connected array of points 4-connected: every step of the
/// result moves by at most one pixel along one axis, and the result starts
/// and ends where the input does.
pub proof fn law_4cc_connected(s: Seq<(i32, i32)>)
    requires
        connected8(s),
    ensures
        connected4(cc4_pts(s)),
        s.len() >= 1 ==> cc4_pts(s)[0] == s[0] && cc4_pts(s).last() == s.last(),
    decreases s.len(),
{
    if s.len() >= 1 {
        lemma_cc4_shape(s);
    }
    if s.len() > 1 {
        let t = s.drop_last();
        assert forall|k: int| 0 <= k < t.len() - 1 implies iabs(#[trigger] t[k + 1].0 - t[k].0) <= 1 && iabs(t[k + 1].1 - t[k].1) <= 1 by {
            assert(t[k + 1] == s[k + 1] && t[k] == s[k]);
        }
        law_4cc_connected(t);
        lemma_cc4_shape(t);
        let c = cc4_pts(t);
        let p = s[s.len() - 2];
        let q = s.last();
        assert(t.last() == p);
        assert(iabs(q.0 - p.0) <= 1 && iabs(q.1 - p.1) <= 1) by {
            assert(s[s.len() - 2 + 1] == q);
        }
        let tail = if q.0 != p.0 && q.1 != p.1 {
            seq![(q.0, p.1), q]
        } else {
            seq![q]
        };
        let r = cc4_pts(s);
        assert(r == c + tail);
        assert forall|k: int| 0 <= k < r.len() - 1 implies iabs(#[trigger] r[k + 1].0 - r[k].0) + iabs(r[k + 1].1 - r[k].1) <= 1 by {
            if k < c.len() - 1 {
                assert(r[k] == c[k] && r[k + 1] == c[k + 1]);
            } else if k == c.len() - 1 {
                assert(r[k] == p);
                assert(r[k + 1] == tail[0]);
            } else {
                assert(r[k] == tail[0] && r[k + 1] == tail[1]);
            }
        }
    }
}

/// Removing duplicates leaves each point once, and exactly the points that
/// occur.
pub proof fn law_dedup(s: Seq<(i32, i32)>)
    ensures
        forall|i: int, j: int| 0 <= i < j < dedup_pts(s).len() ==> dedup_pts(s)[i] != dedup_pts(s)[j],
        forall|p: (i32, i32)| dedup_pts(s).contains(p) <==> s.contains(p),
    decreases s.len(),
{
    assert forall|p: (i32, i32)| dedup_pts(s).contains(p) <==> s.contains(p) by {
        lemma_dedup_contains(s, p);
    }
    if s.len() > 0 {
        let t = s.drop_last();
        law_dedup(t);
        let d = dedup_pts(t);
        if !t.contains(s.last()) {
            lemma_dedup_contains(t, s.last());
            let e = d.push(s.last());
            assert forall|i: int, j: int| 0 <= i < j < e.len() implies e[i] != e[j] by {
                if j == d.len() {
                    assert(d[i] == e[i]);
                    assert(d.contains(d[i]));
                }
            }
        }
    }
}

// ---------------------------------------------------------------------------
// Polygon outlines
// ---------------------------------------------------------------------------

/// The outline that [`render_polygon`] draws: the closed polyline through
/// the vertices, made 4-connected when it is one pixel wide.
pub open spec fn polygon_outline(v: Seq<(i32, i32)>, width: u32) -> Seq<(i32, i32)> {
    let w = if width == 0 { 1u32 } else { width };
    if w < 2 {
        cc4_pts(poly_pts(v, w, true))
    } else {
        poly_pts(v, w, true)
    }
}

/// The least x (`coord == 0`) or y of the first `n` points.
pub open spec fn pts_min(s: Seq<(i32, i32)>, n: int, coord: int) -> i32
    decreases n,
{
    let c = if coord == 0 { s[n - 1].0 } else { s[n - 1].1 };
    if n <= 1 {
        c
    } else {
        let m = pts_min(s, n - 1, coord);
        if c < m { c } else { m }
    }
}

/// The greatest x (`coord == 0`) or y of the first `n` points.
pub open spec fn pts_max(s: Seq<(i32, i32)>, n: int, coord: int) -> i32
    decreases n,
{
    let c = if coord == 0 { s[n - 1].0 } else { s[n - 1].1 };
    if n <= 1 {
        c
    } else {
        let m = pts_max(s, n - 1, coord);
        if c > m { c } else { m }
    }
}

/// The offset reported for a least coordinate `m`: `m + 1/2` truncated
/// toward zero.
pub open spec fn polygon_origin(m: i32) -> i32 {
    if m < 0 { (m + 1) as i32 } else { m }
}

/// The image size that holds coordinates up to `m`: `m + 1/2` truncated
/// toward zero and clamped at 0, plus one.
pub open spec fn polygon_extent(m: i32) -> u32 {
    if m < 0 { 1u32 } else { (m + 1) as u32 }
}

/// A fresh image as [`Pix::new`] makes it.
pub open spec fn blank_model(width: u32, height: u32, d: PixelDepth) -> PixModel {
    PixModel {
        width,
        height,
        depth: d,
        spp: if d == PixelDepth::Bit32 { 3u32 } else { 1u32 },
        wpl: wpl_for(width as int, d) as u32,
        xres: 0,
        yres: 0,
        informat: super::ImageFormat::Unknown,
        special: 0,
        text: None,
        cmap: None,
        data: Seq::new((wpl_for(width as int, d) * height) as nat, |i: int| 0u32),
    }
}

proof fn lemma_fresh_is_blank(m: PixModel, width: u32, height: u32, d: PixelDepth)
    requires
        m.is_fresh(width, height, d),
    ensures
        m == blank_model(width, height, d),
{
    assert(m.data =~= blank_model(width, height, d).data);
}

/// The least and greatest coordinates of a non-empty array of points.
fn pts_bounds(pts: &Pta) -> (r: (i32, i32, i32, i32))
    requires
        pts@.len() >= 1,
    ensures
        r == (
            pts_min(pts@, pts@.len() as int, 0),
            pts_max(pts@, pts@.len() as int, 0),
            pts_min(pts@, pts@.len() as int, 1),
            pts_max(pts@, pts@.len() as int, 1),
        ),
{
    let n = pts.len();
    let (x0, y0) = pts.get(0).unwrap();
    let mut xmin = x0;
    let mut xmax = x0;
    let mut ymin = y0;
    let mut ymax = y0;
    let mut i: usize = 1;
    while i < n
        invariant
            n == pts@.len(),
            1 <= i <= n,
            xmin == pts_min(pts@, i as int, 0),
            xmax == pts_max(pts@, i as int, 0),
            ymin == pts_min(pts@, i as int, 1),
            ymax == pts_max(pts@, i as int, 1),
        decreases n - i,
    {
        let (x, y) = pts.get(i).unwrap();
        if x < xmin {
            xmin = x;
        }
        if x > xmax {
            xmax = x;
        }
        if y < ymin {
            ymin = y;
        }
        if y > ymax {
            ymax = y;
        }
        i = i + 1;
    }
    (xmin, xmax, ymin, ymax)
}

/// Draws the outline of the polygon through `pta` (closed, `width`
/// pixels wide, at least 1) on a fresh 1 bpp image just large enough for
/// its non-negative coordinates, and returns it with the offsets of the
/// least x and y of the outline (see [`polygon_origin`]).
///
/// # Errors
///
/// [`Error::NullInput`] for fewer than two vertices (no outline);
/// [`Error::InvalidDimension`] when the image cannot be made.
pub fn render_polygon(pta: &Pta, width: u32) -> (r: Result<(Pix, i32, i32)>)
    requires
        poly_ok(pta@, if width == 0 { 1u32 } else { width }, true),
        poly_ok(polygon_outline(pta@, width), if width == 0 { 1u32 } else { width }, true),
    ensures
        ({
            let o = polygon_outline(pta@, width);
            let n = o.len() as int;
            let w = polygon_extent(pts_max(o, n, 0));
            let h = polygon_extent(pts_max(o, n, 1));
            &&& r is Ok <==> n >= 1 && new_ok(w, h, PixelDepth::Bit1)
            &&& r matches Ok((p, xm, ym)) ==> {
                &&& xm == polygon_origin(pts_min(o, n, 0))
                &&& ym == polygon_origin(pts_min(o, n, 1))
                &&& p@ == render_op(
                    blank_model(w, h, PixelDepth::Bit1),
                    poly_pts(o, if width == 0 { 1u32 } else { width }, true),
                    PixelOp::SetMax,
                )
            }
            &&& r matches Err(e) ==> if n == 0 { e is NullInput } else { e is InvalidDimension }
        }),
{
    if pta.is_empty() {
        return Err(null_input("empty polygon"));
    }
    let w: u32 = if width == 0 {
        1
    } else {
        width
    };
    let pta1 = generate_polyline_pta(pta, w, true);
    let pta2 = if w < 2 {
        convert_line_to_4cc(&pta1)
    } else {
        pta1
    };
    if pta2.is_empty() {
        return Err(null_input("empty polygon after conversion"));
    }
    let (fxmin, fxmax, fymin, fymax) = pts_bounds(&pta2);
    let xmin = if fxmin < 0 {
        fxmin + 1
    } else {
        fxmin
    };
    let ymin = if fymin < 0 {
        fymin + 1
    } else {
        fymin
    };
    let pw: u32 = if fxmax < 0 {
        1
    } else {
        fxmax as u32 + 1
    };
    let ph: u32 = if fymax < 0 {
        1
    } else {
        fymax as u32 + 1
    };
    let mut pixd = match PixMut::new(pw, ph, PixelDepth::Bit1) {
        Ok(p) => p,
        Err(e) => {
            return Err(e);
        },
    };
    proof {
        lemma_fresh_is_blank(pixd@, pw, ph, PixelDepth::Bit1);
    }
    let res = pixd.render_polyline(&pta2, w, true, PixelOp::SetMax);
    assert(res is Ok);
    Ok((pixd.into_pix(), xmin, ymin))
}

// ---------------------------------------------------------------------------
// Hatching along rows or columns
// ---------------------------------------------------------------------------

/// The number of hatch lines across `b`: one more than the extent across
/// the lines (the height for rows, the width for columns) divided by the
/// spacing.
pub open spec fn hash_axis_count(b: Box, vertical: bool, spacing: u32) -> int {
    1 + (if vertical { b.w as int } else { b.h as int }) / (spacing as int)
}

/// The endpoints of hatch line `i`: lines spread evenly from the first to
/// the last row (or column) of `b`, each spanning the box.
pub open spec fn hash_axis_line(b: Box, vertical: bool, spacing: u32, i: int) -> (int, int, int, int) {
    let n = hash_axis_count(b, vertical, spacing);
    let len = if vertical { b.w as int } else { b.h as int };
    let off = if n > 1 { i * (len - 1) / (n - 1) } else { 0 };
    if vertical {
        (b.x + off, b.y as int, b.x + off, b.y + b.h - 1)
    } else {
        (b.x as int, b.y + off, b.x + b.w - 1, b.y + off)
    }
}

/// The points of the first `k` hatch lines, one line after another.
pub open spec fn hash_axis_pts(b: Box, vertical: bool, spacing: u32, width: u32, k: int) -> Seq<(i32, i32)>
    decreases k,
{
    if k <= 0 {
        Seq::empty()
    } else {
        let l = hash_axis_line(b, vertical, spacing, k - 1);
        hash_axis_pts(b, vertical, spacing, width, k - 1) + wide_line_pts(
            l.0 as i32,
            l.1 as i32,
            l.2 as i32,
            l.3 as i32,
            width,
        )
    }
}

/// The hatch lines can be drawn.
pub open spec fn hash_axis_ok(b: Box, vertical: bool, spacing: u32, width: u32) -> bool {
    &&& i32_fits(b.x + b.w) && i32_fits(b.y + b.h)
    &&& forall|i: int|
        0 <= i < hash_axis_count(b, vertical, spacing) ==> #[trigger] wide_line_ok(
            hash_axis_line(b, vertical, spacing, i).0 as i32,
            hash_axis_line(b, vertical, spacing, i).1 as i32,
            hash_axis_line(b, vertical, spacing, i).2 as i32,
            hash_axis_line(b, vertical, spacing, i).3 as i32,
            width,
        )
}

proof fn lemma_hash_offset(i: int, len: int, n: int)
    requires
        0 <= i < n,
        n > 1,
        len >= 1,
    ensures
        0 <= i * (len - 1) / (n - 1) <= len - 1,
{
    assert(0 <= i * (len - 1) <= (n - 1) * (len - 1)) by (nonlinear_arith)
        requires
            0 <= i <= n - 1,
            len >= 1,
    ;
    vstd::arithmetic::div_mod::lemma_div_is_ordered(i * (len - 1), (n - 1) * (len - 1), n - 1);
    vstd::arithmetic::div_mod::lemma_div_by_multiple((len - 1), n - 1);
    assert((n - 1) * (len - 1) == (len - 1) * (n - 1)) by (nonlinear_arith);
    vstd::arithmetic::div_mod::lemma_div_pos_is_pos(i * (len - 1), n - 1);
}

/// The points of hatch lines `spacing` apart across box `b`, along its
/// rows (`Horizontal`) or columns (`Vertical`), `width` pixels wide (at
/// least 1), after the outline of the box when `outline` is set. Returns
/// `None` for the diagonal orientations, whose line positions are computed
/// in floating point outside this library.
///
/// # Errors
///
/// [`Error::InvalidParameter`] for a spacing below 2 or an empty box.
pub fn generate_hash_box_axis_pta(b: &Box, spacing: u32, width: u32, orient: HashOrientation, outline: bool) -> (r: Result<Option<Pta>>)
    requires
        b.w >= 0 && b.h >= 0,
        (spacing > 1 && b.w > 0 && b.h > 0 && outline) ==> box_ok(*b, if width == 0 { 1u32 } else { width }),
        (spacing > 1 && b.w > 0 && b.h > 0 && (orient == HashOrientation::Horizontal || orient == HashOrientation::Vertical))
            ==> hash_axis_ok(*b, orient == HashOrientation::Vertical, spacing, if width == 0 { 1u32 } else { width }),
    ensures
        r is Err <==> spacing <= 1 || b.w == 0 || b.h == 0,
        r matches Err(e) ==> e is InvalidParameter,
        r matches Ok(o) ==> (o is Some <==> (orient == HashOrientation::Horizontal || orient == HashOrientation::Vertical)),
        r matches Ok(Some(p)) ==> ({
            let w1 = if width == 0 { 1u32 } else { width };
            let v = orient == HashOrientation::Vertical;
            p@ == (if outline { box_pts(*b, w1) } else { Seq::empty() }) + hash_axis_pts(
                *b,
                v,
                spacing,
                w1,
                hash_axis_count(*b, v, spacing),
            )
        }),
{
    if spacing <= 1 {
        return Err(invalid_param("spacing must be > 1"));
    }
    if b.w == 0 || b.h == 0 {
        return Err(invalid_param("box has zero width or height"));
    }
    let vertical = match orient {
        HashOrientation::Horizontal => false,
        HashOrientation::Vertical => true,
        _ => {
            return Ok(None);
        },
    };
    let w1: u32 = if width == 0 {
        1
    } else {
        width
    };
    let mut ptad = Pta::new();
    if outline {
        let o = generate_box_pta(b, w1);
        ptad.append(&o);
    }
    let ghost start = ptad@;
    let len: u64 = if vertical {
        b.w as u64
    } else {
        b.h as u64
    };
    let n: u64 = 1 + len / spacing as u64;
    assert(n == hash_axis_count(*b, vertical, spacing));
    let mut i: u64 = 0;
    while i < n
        invariant
            b.w > 0 && b.h > 0,
            spacing > 1,
            w1 >= 1,
            len == (if vertical { b.w as int } else { b.h as int }),
            n == hash_axis_count(*b, vertical, spacing),
            1 <= n <= len + 1,
            hash_axis_ok(*b, vertical, spacing, w1),
            i <= n,
            ptad@ == start + hash_axis_pts(*b, vertical, spacing, w1, i as int),
        decreases n - i,
    {
        proof {
            if n > 1 {
                lemma_hash_offset(i as int, len as int, n as int);
            }
            assert(i * (len - 1) <= len * len) by (nonlinear_arith)
                requires
                    i <= len,
                    len >= 1,
            ;
            assert(len * len <= 0xffff_ffff * 0xffff_ffffu64) by (nonlinear_arith)
                requires
                    len <= 0xffff_ffff,
            ;
        }
        let off: u64 = if n > 1 {
            i * (len - 1) / (n - 1)
        } else {
            0
        };
        let ghost l = hash_axis_line(*b, vertical, spacing, i as int);
        assert(wide_line_ok(l.0 as i32, l.1 as i32, l.2 as i32, l.3 as i32, w1));
        let line = if vertical {
            let x = (b.x as i64 + off as i64) as i32;
            generate_wide_line_pta(x, b.y, x, (b.y as i64 + b.h as i64 - 1) as i32, w1)
        } else {
            let y = (b.y as i64 + off as i64) as i32;
            generate_wide_line_pta(b.x, y, (b.x as i64 + b.w as i64 - 1) as i32, y, w1)
        };
        ptad.append(&line);
        proof {
            assert(ptad@ =~= start + hash_axis_pts(*b, vertical, spacing, w1, i as int + 1));
        }
        i = i + 1;
    }
    Ok(Some(ptad))
}

// ---------------------------------------------------------------------------
// Flipping
// ---------------------------------------------------------------------------

/// How many of the points of `pts` that lie in a `w` by `h` image are
/// `(x, y)`.
pub open spec fn flips(w: u32, h: u32, pts: Seq<(i32, i32)>, x: int, y: int) -> int
    decreases pts.len(),
{
    if pts.len() == 0 {
        0
    } else {
        let p = pts.last();
        flips(w, h, pts.drop_last(), x, y) + if 0 <= p.0 < (w as i32) && 0 <= p.1 < (h as i32)
            && p.0 == x && p.1 == y {
            1int
        } else {
            0int
        }
    }
}

proof fn lemma_flip_bits(v: u32, m: u32)
    requires
        v <= m,
        m == 1 || m == 3 || m == 15 || m == 255 || m == 0xffff || m == 0xffff_ffff,
    ensures
        v ^ m <= m,
        (v ^ m) ^ m == v,
{
    assert(v <= m && (m == 1 || m == 3 || m == 15 || m == 255 || m == 0xffff || m == 0xffff_ffff)
        ==> v ^ m <= m && (v ^ m) ^ m == v) by (bit_vector);
}

/// Flipping the points of `pts` in turn inverts a pixel exactly when it is
/// listed an odd number of times (points outside the image are skipped).
pub proof fn law_flip_parity(m: PixModel, pts: Seq<(i32, i32)>, x: int, y: int)
    requires
        m.wf(),
        m.contains(x, y),
    ensures
        render_op(m, pts, PixelOp::Flip).pixel(x, y) == if flips(m.width, m.height, pts, x, y) % 2
            == 1 {
            m.pixel(x, y) ^ pmask(m.depth)
        } else {
            m.pixel(x, y)
        },
        render_op(m, pts, PixelOp::Flip).pixel(x, y) <= pmask(m.depth),
    decreases pts.len(),
{
    super::raster::lemma_stored_pixel(m, x, y);
    lemma_flip_bits(m.pixel(x, y), pmask(m.depth));
    if pts.len() > 0 {
        let q = pts.drop_last();
        law_flip_parity(m, q, x, y);
        lemma_render_meta(m, q, PixelOp::Flip);
        let m1 = render_op(m, q, PixelOp::Flip);
        let p = pts.last();
        if in_image(m1, p) {
            let v1 = m1.pixel(p.0 as int, p.1 as int);
            super::raster::lemma_stored_pixel(m1, p.0 as int, p.1 as int);
            lemma_flip_bits(v1, pmask(m.depth));
            m1.lemma_with_pixel(p.0 as int, p.1 as int, v1 ^ pmask(m1.depth));
            super::raster::lemma_stored_small(m1.depth, v1 ^ pmask(m1.depth));
        }
    }
}

/// Flipping the same points twice gives back every pixel.
pub proof fn law_flip_twice(m: PixModel, pts: Seq<(i32, i32)>)
    requires
        m.wf(),
    ensures
        render_op(render_op(m, pts, PixelOp::Flip), pts, PixelOp::Flip).same_pixels(m),
{
    let m1 = render_op(m, pts, PixelOp::Flip);
    lemma_render_meta(m, pts, PixelOp::Flip);
    lemma_render_meta(m1, pts, PixelOp::Flip);
    assert forall|x: int, y: int| m.contains(x, y) implies #[trigger] render_op(m1, pts, PixelOp::Flip).pixel(
        x,
        y,
    ) == m.pixel(x, y) by {
        law_flip_parity(m, pts, x, y);
        law_flip_parity(m1, pts, x, y);
        super::raster::lemma_stored_pixel(m, x, y);
        lemma_flip_bits(m.pixel(x, y), pmask(m.depth));
    }
}

// ---------------------------------------------------------------------------
// Points through a mask
// ---------------------------------------------------------------------------

/// The point is in the mask and its mask pixel is ON.
pub open spec fn mask_on(mask: PixModel, p: (i32, i32)) -> bool {
    in_image(mask, p) && mask.pixel(p.0 as int, p.1 as int) != 0
}

/// The points of `pts` on ON pixels of `mask`, in order, each moved by
/// `(x, y)`.
pub open spec fn masked_pts(pts: Seq<(i32, i32)>, mask: PixModel, x: i32, y: i32) -> Seq<(i32, i32)>
    decreases pts.len(),
{
    if pts.len() == 0 {
        Seq::empty()
    } else {
        let p = pts.last();
        masked_pts(pts.drop_last(), mask, x, y) + if mask_on(mask, p) {
            seq![((p.0 + x) as i32, (p.1 + y) as i32)]
        } else {
            Seq::empty()
        }
    }
}

/// The points of `pta` that fall on ON (nonzero) pixels of the mask
/// `pixm`, moved by `(x, y)`: the points that drawing through the mask
/// placed at `(x, y)` writes.
pub fn select_masked_points(pta: &Pta, pixm: &Pix, x: i32, y: i32) -> (r: Pta)
    requires
        pixm@.wf(),
        forall|i: int|
            0 <= i < pta@.len() && #[trigger] mask_on(pixm@, pta@[i]) ==> i32_fits(pta@[i].0 + x)
                && i32_fits(pta@[i].1 + y),
    ensures
        r@ == masked_pts(pta@, pixm@, x, y),
{
    let mw = pixm.width() as i32;
    let mh = pixm.height() as i32;
    let pts = pta.points();
    let mut out = Pta::new();
    let mut i: usize = 0;
    while i < pts.len()
        invariant
            pixm@.wf(),
            i <= pts@.len(),
            pts@ == pta@,
            mw == (pixm@.width as i32),
            mh == (pixm@.height as i32),
            forall|k: int|
                0 <= k < pta@.len() && #[trigger] mask_on(pixm@, pta@[k]) ==> i32_fits(pta@[k].0 + x)
                    && i32_fits(pta@[k].1 + y),
            out@ == masked_pts(pta@.take(i as int), pixm@, x, y),
        decreases pts@.len() - i,
    {
        let (px, py) = pts[i];
        proof {
            let t = pta@.take(i as int + 1);
            assert(t.drop_last() =~= pta@.take(i as int));
            assert(t.last() == (px, py));
        }
        if px >= 0 && px < mw && py >= 0 && py < mh {
            let v = pixm.get_pixel_unchecked(px as u32, py as u32);
            if v != 0 {
                assert(mask_on(pixm@, pta@[i as int]));
                out.push(px + x, py + y);
            }
        }
        proof {
            assert(out@ =~= masked_pts(pta@.take(i as int + 1), pixm@, x, y));
        }
        i = i + 1;
    }
    assert(pta@.take(i as int) =~= pta@);
    out
}

// ---------------------------------------------------------------------------
// Colors as pixel values
// ---------------------------------------------------------------------------

/// A color drawn at depths 2 to 16 is the mean of its channels, rounded
/// down, scaled to the depth's range: the top bits of the 8-bit gray at 2,
/// 4 and 8 bpp, and the gray stretched to `0..=65535` at 16 bpp. So white
/// is the largest pixel value and black is 0 at every depth from 2 to 16;
/// at 1 bpp any color is foreground, and at 32 bpp the color's channels
/// are stored with alpha 0.
pub proof fn law_color_value(c: Color)
    ensures
        ({
            let g = (c.r as int + c.g as int + c.b as int) / 3;
            &&& color_value(PixelDepth::Bit2, c) == g * (pmask(PixelDepth::Bit2) + 1) / 256
            &&& color_value(PixelDepth::Bit4, c) == g * (pmask(PixelDepth::Bit4) + 1) / 256
            &&& color_value(PixelDepth::Bit8, c) == g * (pmask(PixelDepth::Bit8) + 1) / 256
            &&& color_value(PixelDepth::Bit16, c) == g * pmask(PixelDepth::Bit16) / 255
            &&& color_value(PixelDepth::Bit1, c) == 1
            &&& crate::color::red_of(color_value(PixelDepth::Bit32, c)) == c.r
            &&& crate::color::green_of(color_value(PixelDepth::Bit32, c)) == c.g
            &&& crate::color::blue_of(color_value(PixelDepth::Bit32, c)) == c.b
            &&& crate::color::alpha_of(color_value(PixelDepth::Bit32, c)) == 0
        }),
        c.r == 255 && c.g == 255 && c.b == 255 ==> {
            &&& color_value(PixelDepth::Bit2, c) == pmask(PixelDepth::Bit2)
            &&& color_value(PixelDepth::Bit4, c) == pmask(PixelDepth::Bit4)
            &&& color_value(PixelDepth::Bit8, c) == pmask(PixelDepth::Bit8)
            &&& color_value(PixelDepth::Bit16, c) == pmask(PixelDepth::Bit16)
        },
        c.r == 0 && c.g == 0 && c.b == 0 ==> {
            &&& color_value(PixelDepth::Bit2, c) == 0
            &&& color_value(PixelDepth::Bit4, c) == 0
            &&& color_value(PixelDepth::Bit8, c) == 0
            &&& color_value(PixelDepth::Bit16, c) == 0
        },
{
    crate::color::lemma_rgba_roundtrip(c.r, c.g, c.b, 0, 0);
    let g = (c.r as int + c.g as int + c.b as int) / 3;
    assert(0 <= g <= 255);
    assert(gray_of(c) as int == g);
    assert(g * 4 / 256 == g / 64 && g * 16 / 256 == g / 16 && g * 256 / 256 == g) by (nonlinear_arith)
        requires
            0 <= g <= 255,
    ;
    assert(g * 257 == g * 65535 / 255) by (nonlinear_arith)
        requires
            0 <= g <= 255,
    ;
}

} // verus!
