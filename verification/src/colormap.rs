//! Colormaps for indexed images (1, 2, 4 and 8 bpp).

use vstd::prelude::*;
use crate::error::{Error, Result, invalid_param};

verus! {

/// One colormap entry.
#[derive(Debug, Clone, Copy, PartialEq, Eq)]
pub struct RgbaQuad {
    pub red: u8,
    pub green: u8,
    pub blue: u8,
    pub alpha: u8,
}

/// Abstract content of a colormap: its depth and its entries in order.
pub struct CmapModel {
    pub depth: u32,
    pub colors: Seq<(u8, u8, u8, u8)>,
}

/// The number of entries a colormap of depth `d` can hold.
pub open spec fn cmap_capacity(d: u32) -> nat {
    if d == 1 {
        2
    } else if d == 2 {
        4
    } else if d == 4 {
        16
    } else {
        256
    }
}

/// The depths at which a colormap exists.
pub open spec fn cmap_depth_ok(d: u32) -> bool {
    d == 1 || d == 2 || d == 4 || d == 8
}

impl CmapModel {
    /// Depth is valid and the entries fit.
    pub open spec fn wf(self) -> bool {
        &&& cmap_depth_ok(self.depth)
        &&& self.colors.len() <= cmap_capacity(self.depth)
    }
}

/// A table of colors indexed by pixel value.
#[derive(Debug, Clone)]
pub struct PixColormap {
    depth: u32,
    colors: Vec<RgbaQuad>,
}

impl View for PixColormap {
    type V = CmapModel;

    closed spec fn view(&self) -> CmapModel {
        CmapModel {
            depth: self.depth,
            colors: self.colors@.map_values(|q: RgbaQuad| (q.red, q.green, q.blue, q.alpha)),
        }
    }
}

impl PixColormap {
    /// Creates an empty colormap for images of depth `depth`.
    ///
    /// # Errors
    ///
    /// [`Error::InvalidDepth`] unless `depth` is 1, 2, 4 or 8.
    pub fn new(depth: u32) -> (r: Result<PixColormap>)
        ensures
            r is Ok <==> cmap_depth_ok(depth),
            r matches Ok(c) ==> c@.depth == depth && c@.colors.len() == 0,
            r matches Err(e) ==> e is InvalidDepth,
    {
        if depth == 1 || depth == 2 || depth == 4 || depth == 8 {
            let c = PixColormap { depth, colors: Vec::new() };
            proof {
                assert(c@.colors =~= Seq::<(u8, u8, u8, u8)>::empty());
            }
            Ok(c)
        } else {
            Err(Error::InvalidDepth(depth))
        }
    }

    /// Creates a colormap of `2^depth` opaque grays spread evenly over
    /// `0..=255`, from black to white when `black_first` is set and from
    /// white to black otherwise.
    ///
    /// # Errors
    ///
    /// [`Error::InvalidDepth`] unless `depth` is 1, 2, 4 or 8.
    pub fn create_linear(depth: u32, black_first: bool) -> (r: Result<PixColormap>)
        ensures
            r is Ok <==> cmap_depth_ok(depth),
            r matches Ok(c) ==> c@.wf() && c@.depth == depth && c@.colors == linear_grays(depth, black_first),
            r matches Err(e) ==> e is InvalidDepth,
    {
        if !(depth == 1 || depth == 2 || depth == 4 || depth == 8) {
            return Err(Error::InvalidDepth(depth));
        }
        let mut c = PixColormap::empty(depth);
        let n = c.max_entries();
        let ghost target = linear_grays(depth, black_first);
        let mut i: usize = 0;
        while i < n
            invariant
                n == cmap_capacity(depth),
                2 <= n <= 256,
                i <= n,
                c@.wf(),
                c@.depth == depth,
                c@.colors == target.subrange(0, i as int),
                target == linear_grays(depth, black_first),
            decreases n - i,
        {
            let k = if black_first {
                i
            } else {
                n - 1 - i
            };
            let v = (k * 255 / (n - 1)) as u8;
            let _ = c.add_rgb(v, v, v);
            proof {
                let kk: int = if black_first { i as int } else { cmap_capacity(depth) - 1 - i };
                assert(kk == k);
                assert((kk * 255 / (cmap_capacity(depth) - 1)) as u8 == v);
                assert(target[i as int] == (v, v, v, 255u8));
                assert(c@.colors =~= target.subrange(0, (i + 1) as int));
            }
            i = i + 1;
        }
        proof {
            assert(c@.colors =~= target);
        }
        Ok(c)
    }

    /// An empty colormap of a valid depth.
    pub(crate) fn empty(depth: u32) -> (c: PixColormap)
        requires
            cmap_depth_ok(depth),
        ensures
            c@.depth == depth,
            c@.colors.len() == 0,
            c@.wf(),
    {
        let c = PixColormap { depth, colors: Vec::new() };
        proof {
            assert(c@.colors =~= Seq::<(u8, u8, u8, u8)>::empty());
        }
        c
    }

    /// Depth of the images this colormap serves.
    pub fn depth(&self) -> (d: u32)
        ensures
            d == self@.depth,
    {
        self.depth
    }

    /// Number of entries.
    pub fn len(&self) -> (n: usize)
        ensures
            n == self@.colors.len(),
    {
        self.colors.len()
    }

    /// Whether the colormap has no entries.
    pub fn is_empty(&self) -> (b: bool)
        ensures
            b == (self@.colors.len() == 0),
    {
        self.colors.len() == 0
    }

    /// The largest number of entries this colormap can hold.
    pub fn max_entries(&self) -> (n: usize)
        requires
            self@.wf(),
        ensures
            n == cmap_capacity(self@.depth),
    {
        if self.depth == 1 {
            2
        } else if self.depth == 2 {
            4
        } else if self.depth == 4 {
            16
        } else {
            256
        }
    }

    /// Appends an opaque color and returns its index.
    ///
    /// # Errors
    ///
    /// [`Error::InvalidParameter`] if the colormap is full.
    pub fn add_rgb(&mut self, r: u8, g: u8, b: u8) -> (res: Result<usize>)
        requires
            old(self)@.wf(),
        ensures
            final(self)@.wf(),
            final(self)@.depth == old(self)@.depth,
            res is Ok <==> old(self)@.colors.len() < cmap_capacity(old(self)@.depth),
            res matches Ok(i) ==> i == old(self)@.colors.len() && final(self)@.colors
                == old(self)@.colors.push((r, g, b, 255u8)),
            res is Err ==> final(self)@ == old(self)@,
    {
        self.add_rgba(r, g, b, 255)
    }

    /// Appends a color with alpha and returns its index.
    ///
    /// # Errors
    ///
    /// [`Error::InvalidParameter`] if the colormap is full.
    pub fn add_rgba(&mut self, r: u8, g: u8, b: u8, a: u8) -> (res: Result<usize>)
        requires
            old(self)@.wf(),
        ensures
            final(self)@.wf(),
            final(self)@.depth == old(self)@.depth,
            res is Ok <==> old(self)@.colors.len() < cmap_capacity(old(self)@.depth),
            res matches Ok(i) ==> i == old(self)@.colors.len() && final(self)@.colors
                == old(self)@.colors.push((r, g, b, a)),
            res is Err ==> final(self)@ == old(self)@,
    {
        let cap = self.max_entries();
        if self.colors.len() >= cap {
            return Err(invalid_param("colormap is full"));
        }
        let idx = self.colors.len();
        let ghost before = self.colors@;
        self.colors.push(RgbaQuad { red: r, green: g, blue: b, alpha: a });
        proof {
            assert(self.colors@ == before.push(RgbaQuad { red: r, green: g, blue: b, alpha: a }));
            assert(self@.colors =~= old(self)@.colors.push((r, g, b, a)));
        }
        Ok(idx)
    }

    /// The color at `index`, without alpha.
    pub fn get_rgb(&self, index: usize) -> (c: Option<(u8, u8, u8)>)
        ensures
            index < self@.colors.len() ==> c == Some(
                (
                    self@.colors[index as int].0,
                    self@.colors[index as int].1,
                    self@.colors[index as int].2,
                ),
            ),
            index >= self@.colors.len() ==> c is None,
    {
        if index < self.colors.len() {
            let q = self.colors[index];
            Some((q.red, q.green, q.blue))
        } else {
            None
        }
    }

    /// The color at `index`, with alpha.
    pub fn get_rgba(&self, index: usize) -> (c: Option<(u8, u8, u8, u8)>)
        ensures
            index < self@.colors.len() ==> c == Some(self@.colors[index as int]),
            index >= self@.colors.len() ==> c is None,
    {
        if index < self.colors.len() {
            let q = self.colors[index];
            Some((q.red, q.green, q.blue, q.alpha))
        } else {
            None
        }
    }

    /// The entry at `index`.
    pub fn get(&self, index: usize) -> (q: Option<RgbaQuad>)
        ensures
            index < self@.colors.len() ==> (q matches Some(v) && (v.red, v.green, v.blue, v.alpha)
                == self@.colors[index as int]),
            index >= self@.colors.len() ==> q is None,
    {
        if index < self.colors.len() {
            Some(self.colors[index])
        } else {
            None
        }
    }

    /// Index of the first entry whose color is exactly `(r, g, b)`.
    pub fn get_index(&self, r: u8, g: u8, b: u8) -> (res: Option<usize>)
        ensures
            res matches Some(i) ==> i < self@.colors.len() && self@.colors[i as int].0 == r
                && self@.colors[i as int].1 == g && self@.colors[i as int].2 == b && forall|j: int|
                0 <= j < i ==> !(#[trigger] self@.colors[j].0 == r && self@.colors[j].1 == g
                && self@.colors[j].2 == b),
            res is None ==> forall|j: int|
                0 <= j < self@.colors.len() ==> !(#[trigger] self@.colors[j].0 == r
                    && self@.colors[j].1 == g && self@.colors[j].2 == b),
    {
        let n = self.colors.len();
        let mut i: usize = 0;
        while i < n
            invariant
                n == self@.colors.len(),
                n == self.colors@.len(),
                i <= n,
                forall|j: int|
                    0 <= j < i ==> !(#[trigger] self@.colors[j].0 == r && self@.colors[j].1 == g
                        && self@.colors[j].2 == b),
            decreases n - i,
        {
            let q = self.colors[i];
            if q.red == r && q.green == g && q.blue == b {
                return Some(i);
            }
            i = i + 1;
        }
        None
    }

    /// Whether some entry is not a shade of gray.
    pub fn has_color(&self) -> (b: bool)
        ensures
            b == exists|j: int| 0 <= j < self@.colors.len() && !is_gray(#[trigger] self@.colors[j]),
    {
        let n = self.colors.len();
        let mut i: usize = 0;
        while i < n
            invariant
                n == self@.colors.len(),
                n == self.colors@.len(),
                i <= n,
                forall|j: int| 0 <= j < i ==> is_gray(#[trigger] self@.colors[j]),
            decreases n - i,
        {
            let q = self.colors[i];
            assert(self@.colors[i as int] == (q.red, q.green, q.blue, q.alpha));
            if !(q.red == q.green && q.green == q.blue) {
                assert(!is_gray(self@.colors[i as int]));
                return true;
            }
            i = i + 1;
        }
        false
    }

    /// Whether every entry has alpha 255.
    pub fn is_opaque(&self) -> (b: bool)
        ensures
            b == forall|j: int| 0 <= j < self@.colors.len() ==> #[trigger] self@.colors[j].3 == 255,
    {
        let n = self.colors.len();
        let mut i: usize = 0;
        while i < n
            invariant
                n == self@.colors.len(),
                n == self.colors@.len(),
                i <= n,
                forall|j: int| 0 <= j < i ==> #[trigger] self@.colors[j].3 == 255,
            decreases n - i,
        {
            if self.colors[i].alpha != 255 {
                assert(self@.colors[i as int].3 != 255);
                return false;
            }
            i = i + 1;
        }
        true
    }

    /// Whether the colormap holds exactly two entries, pure black and pure
    /// white, in either order.
    pub fn is_black_and_white(&self) -> (b: bool)
        ensures
            b == (self@.colors.len() == 2 && ((is_black(self@.colors[0]) && is_white(
                self@.colors[1],
            )) || (is_white(self@.colors[0]) && is_black(self@.colors[1])))),
    {
        if self.colors.len() != 2 {
            return false;
        }
        let c0 = self.colors[0];
        let c1 = self.colors[1];
        let b0 = c0.red == 0 && c0.green == 0 && c0.blue == 0;
        let w0 = c0.red == 255 && c0.green == 255 && c0.blue == 255;
        let b1 = c1.red == 0 && c1.green == 0 && c1.blue == 0;
        let w1 = c1.red == 255 && c1.green == 255 && c1.blue == 255;
        (b0 && w1) || (w0 && b1)
    }

    /// An independent copy with the same depth and entries.
    pub fn duplicate(&self) -> (c: PixColormap)
        ensures
            c@ == self@,
    {
        let mut colors: Vec<RgbaQuad> = Vec::new();
        let n = self.colors.len();
        let mut i: usize = 0;
        while i < n
            invariant
                n == self.colors@.len(),
                i <= n,
                colors@ == self.colors@.subrange(0, i as int),
            decreases n - i,
        {
            let q = self.colors[i];
            let ghost before = colors@;
            colors.push(q);
            proof {
                assert(colors@ == before.push(q));
                assert(q == self.colors@[i as int]);
                assert(colors@ =~= self.colors@.subrange(0, i + 1));
            }
            i = i + 1;
        }
        proof {
            assert(colors@ =~= self.colors@);
        }
        PixColormap { depth: self.depth, colors }
    }

    /// Index of the first entry nearest to `(r, g, b)` by squared
    /// distance over the three channels; `None` for an empty colormap.
    pub fn find_nearest(&self, r: u8, g: u8, b: u8) -> (res: Option<usize>)
        ensures
            res is None <==> self@.colors.len() == 0,
            res matches Some(k) ==> k == nearest_index(self@.colors, self@.colors.len() as int, r, g, b),
            res matches Some(k) ==> k < self@.colors.len(),
    {
        let n = self.colors.len();
        if n == 0 {
            return None;
        }
        let mut best: usize = 0;
        let q0 = self.colors[0];
        let mut best_d: u32 = rgb_dist_exec(q0.red, q0.green, q0.blue, r, g, b);
        let mut i: usize = 1;
        while i < n
            invariant
                n == self@.colors.len(),
                1 <= i <= n,
                best == nearest_index(self@.colors, i as int, r, g, b),
                best < i,
                best_d == rgb_dist(self@.colors[best as int], r, g, b),
            decreases n - i,
        {
            let q = self.colors[i];
            let d = rgb_dist_exec(q.red, q.green, q.blue, r, g, b);
            if d < best_d {
                best = i;
                best_d = d;
            }
            i = i + 1;
        }
        Some(best)
    }
}

/// The `2^depth` opaque grays spread evenly over `0..=255`, from black to
/// white when `black_first` is set and from white to black otherwise.
pub open spec fn linear_grays(depth: u32, black_first: bool) -> Seq<(u8, u8, u8, u8)> {
    Seq::new(
        cmap_capacity(depth),
        |i: int| {
            let k = if black_first { i } else { cmap_capacity(depth) - 1 - i };
            let v = (k * 255 / (cmap_capacity(depth) - 1)) as u8;
            (v, v, v, 255u8)
        },
    )
}

/// Whether an entry is a shade of gray.
pub open spec fn is_gray(c: (u8, u8, u8, u8)) -> bool {
    c.0 == c.1 && c.1 == c.2
}

/// Whether an entry is pure black.
pub open spec fn is_black(c: (u8, u8, u8, u8)) -> bool {
    c.0 == 0 && c.1 == 0 && c.2 == 0
}

/// Whether an entry is pure white.
pub open spec fn is_white(c: (u8, u8, u8, u8)) -> bool {
    c.0 == 255 && c.1 == 255 && c.2 == 255
}

/// Squared distance between an entry's color and `(r, g, b)`.
pub open spec fn rgb_dist(e: (u8, u8, u8, u8), r: u8, g: u8, b: u8) -> int {
    (e.0 - r) * (e.0 - r) + (e.1 - g) * (e.1 - g) + (e.2 - b) * (e.2 - b)
}

/// Index of the first entry among the first `n` at least distance from
/// `(r, g, b)`.
pub open spec fn nearest_index(colors: Seq<(u8, u8, u8, u8)>, n: int, r: u8, g: u8, b: u8) -> int
    decreases n,
{
    if n <= 1 {
        0
    } else {
        let k = nearest_index(colors, n - 1, r, g, b);
        if rgb_dist(colors[n - 1], r, g, b) < rgb_dist(colors[k], r, g, b) {
            n - 1
        } else {
            k
        }
    }
}

fn rgb_dist_exec(r0: u8, g0: u8, b0: u8, r: u8, g: u8, b: u8) -> (d: u32)
    ensures
        d == rgb_dist((r0, g0, b0, 0u8), r, g, b),
{
    let dr = r0 as i32 - r as i32;
    let dg = g0 as i32 - g as i32;
    let db = b0 as i32 - b as i32;
    assert(0 <= dr * dr <= 65025 && 0 <= dg * dg <= 65025 && 0 <= db * db <= 65025) by (nonlinear_arith)
        requires
            -255 <= dr <= 255,
            -255 <= dg <= 255,
            -255 <= db <= 255,
    ;
    (dr * dr + dg * dg + db * db) as u32
}

} // verus!
