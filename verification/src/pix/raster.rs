//! Whole-image pixel loops shared by the image operations.

use vstd::prelude::*;
use super::{Pix, PixMut, PixelDepth};
use super::model::{PixModel, stored, pmask, pshift, word_pixel};
use crate::error::Result;

verus! {

/// Whether `(x, y)` lies in the `w` by `h` block whose corner is `(x0, y0)`.
pub open spec fn in_block(x: int, y: int, x0: int, y0: int, w: int, h: int) -> bool {
    x0 <= x < x0 + w && y0 <= y < y0 + h
}

/// A pixel value read from an image of depth `d` is stored unchanged.
pub proof fn lemma_stored_pixel(p: PixModel, x: int, y: int)
    requires
        p.wf(),
        p.contains(x, y),
    ensures
        stored(p.depth, p.pixel(x, y)) == p.pixel(x, y),
        p.pixel(x, y) <= pmask(p.depth),
{
    p.lemma_pixel_index(x, y);
    let w = p.data[p.word_index(x, y)];
    let s = pshift(p.depth, x);
    super::model::lemma_pixel_field(p.depth, x);
    super::model::lemma_mask_facts(w, 0, pmask(p.depth), p.depth.nbits(), s);
}

/// Every value up to the depth's maximum is stored unchanged.
pub proof fn lemma_stored_small(d: PixelDepth, v: u32)
    requires
        v <= pmask(d),
    ensures
        stored(d, v) == v,
{
    super::model::lemma_pixel_field(d, 0);
    super::model::lemma_mask_facts(0, v, pmask(d), d.nbits(), pshift(d, 0));
}

/// Sets every pixel of a block to `val`; pixels outside keep their value.
pub fn fill_block(m: &mut PixMut, x0: u32, y0: u32, w: u32, h: u32, val: u32)
    requires
        old(m)@.wf(),
        x0 as int + w as int <= old(m)@.width,
        y0 as int + h as int <= old(m)@.height,
    ensures
        final(m)@.wf(),
        final(m)@.same_meta(old(m)@),
        forall|x: int, y: int|
            final(m)@.contains(x, y) ==> #[trigger] final(m)@.pixel(x, y) == if in_block(
                x,
                y,
                x0 as int,
                y0 as int,
                w as int,
                h as int,
            ) {
                stored(old(m)@.depth, val)
            } else {
                old(m)@.pixel(x, y)
            },
{
    let ghost m0 = m@;
    let mut j: u32 = 0;
    while j < h
        invariant
            m0.wf(),
            x0 as int + w as int <= m0.width,
            y0 as int + h as int <= m0.height,
            j <= h,
            m@.wf(),
            m@.same_meta(m0),
            forall|x: int, y: int|
                m@.contains(x, y) ==> #[trigger] m@.pixel(x, y) == if in_block(
                    x,
                    y,
                    x0 as int,
                    y0 as int,
                    w as int,
                    j as int,
                ) {
                    stored(m0.depth, val)
                } else {
                    m0.pixel(x, y)
                },
        decreases h - j,
    {
        let mut i: u32 = 0;
        while i < w
            invariant
                m0.wf(),
                x0 as int + w as int <= m0.width,
                y0 as int + h as int <= m0.height,
                j < h,
                i <= w,
                m@.wf(),
                m@.same_meta(m0),
                forall|x: int, y: int|
                    m@.contains(x, y) ==> #[trigger] m@.pixel(x, y) == if in_block(
                        x,
                        y,
                        x0 as int,
                        y0 as int,
                        w as int,
                        j as int,
                    ) || (y == y0 + j && x0 <= x < x0 + i) {
                        stored(m0.depth, val)
                    } else {
                        m0.pixel(x, y)
                    },
            decreases w - i,
        {
            m.set_pixel_unchecked(x0 + i, y0 + j, val);
            i = i + 1;
        }
        j = j + 1;
    }
}

/// Copies a `w` by `h` block of `src` at `(sx, sy)` into `m` at `(dx, dy)`;
/// pixels outside the block keep their value.
pub fn copy_block(m: &mut PixMut, dx: u32, dy: u32, src: &Pix, sx: u32, sy: u32, w: u32, h: u32)
    requires
        old(m)@.wf(),
        src@.wf(),
        src@.depth == old(m)@.depth,
        dx as int + w as int <= old(m)@.width,
        dy as int + h as int <= old(m)@.height,
        sx as int + w as int <= src@.width,
        sy as int + h as int <= src@.height,
    ensures
        final(m)@.wf(),
        final(m)@.same_meta(old(m)@),
        forall|x: int, y: int|
            final(m)@.contains(x, y) ==> #[trigger] final(m)@.pixel(x, y) == if in_block(
                x,
                y,
                dx as int,
                dy as int,
                w as int,
                h as int,
            ) {
                src@.pixel(x - dx + sx, y - dy + sy)
            } else {
                old(m)@.pixel(x, y)
            },
{
    let ghost m0 = m@;
    let mut j: u32 = 0;
    while j < h
        invariant
            m0.wf(),
            src@.wf(),
            src@.depth == m0.depth,
            dx as int + w as int <= m0.width,
            dy as int + h as int <= m0.height,
            sx as int + w as int <= src@.width,
            sy as int + h as int <= src@.height,
            j <= h,
            m@.wf(),
            m@.same_meta(m0),
            forall|x: int, y: int|
                m@.contains(x, y) ==> #[trigger] m@.pixel(x, y) == if in_block(
                    x,
                    y,
                    dx as int,
                    dy as int,
                    w as int,
                    j as int,
                ) {
                    src@.pixel(x - dx + sx, y - dy + sy)
                } else {
                    m0.pixel(x, y)
                },
        decreases h - j,
    {
        let mut i: u32 = 0;
        while i < w
            invariant
                m0.wf(),
                src@.wf(),
                src@.depth == m0.depth,
                dx as int + w as int <= m0.width,
                dy as int + h as int <= m0.height,
                sx as int + w as int <= src@.width,
                sy as int + h as int <= src@.height,
                j < h,
                i <= w,
                m@.wf(),
                m@.same_meta(m0),
                forall|x: int, y: int|
                    m@.contains(x, y) ==> #[trigger] m@.pixel(x, y) == if in_block(
                        x,
                        y,
                        dx as int,
                        dy as int,
                        w as int,
                        j as int,
                    ) || (y == dy + j && dx <= x < dx + i) {
                        src@.pixel(x - dx + sx, y - dy + sy)
                    } else {
                        m0.pixel(x, y)
                    },
            decreases w - i,
        {
            let v = src.get_pixel_unchecked(sx + i, sy + j);
            proof {
                lemma_stored_pixel(src@, sx + i, sy + j);
            }
            m.set_pixel_unchecked(dx + i, dy + j, v);
            i = i + 1;
        }
        j = j + 1;
    }
}

/// A new image of the size of `src` whose pixel `(x, y)` is `f` applied to
/// the pixel `(x, y)` of `src`, stored at depth `depth`.
pub fn map_new<F: Fn(u32) -> u32>(
    src: &Pix,
    depth: PixelDepth,
    f: F,
    Ghost(g): Ghost<spec_fn(u32) -> u32>,
) -> (r: Result<PixMut>)
    requires
        src@.wf(),
        forall|v: u32| v <= pmask(src@.depth) ==> f.requires((v,)),
        forall|v: u32, o: u32| f.ensures((v,), o) ==> o == g(v),
    ensures
        r is Ok <==> super::model::new_ok(src@.width, src@.height, depth),
        r matches Ok(m) ==> m@.fresh_meta(src@.width, src@.height, depth) && forall|x: int, y: int|
            m@.contains(x, y) ==> #[trigger] m@.pixel(x, y) == stored(depth, g(src@.pixel(x, y))),
        r matches Err(e) ==> e is InvalidDimension,
{
    let w = src.width();
    let h = src.height();
    let mut m = match PixMut::new(w, h, depth) {
        Ok(m) => m,
        Err(e) => {
            return Err(e);
        },
    };
    let ghost m0 = m@;
    let mut y: u32 = 0;
    while y < h
        invariant
            src@.wf(),
            w == src@.width,
            h == src@.height,
            forall|v: u32| v <= pmask(src@.depth) ==> f.requires((v,)),
            forall|v: u32, o: u32| f.ensures((v,), o) ==> o == g(v),
            m0.fresh_meta(w, h, depth),
            y <= h,
            m@.wf(),
            m@.same_meta(m0),
            forall|x: int, yy: int|
                m@.contains(x, yy) && yy < y ==> #[trigger] m@.pixel(x, yy) == stored(
                    depth,
                    g(src@.pixel(x, yy)),
                ),
        decreases h - y,
    {
        let mut x: u32 = 0;
        while x < w
            invariant
                src@.wf(),
                w == src@.width,
                h == src@.height,
                forall|v: u32| v <= pmask(src@.depth) ==> f.requires((v,)),
                forall|v: u32, o: u32| f.ensures((v,), o) ==> o == g(v),
                m0.fresh_meta(w, h, depth),
                y < h,
                x <= w,
                m@.wf(),
                m@.same_meta(m0),
                forall|xx: int, yy: int|
                    m@.contains(xx, yy) && (yy < y || (yy == y && xx < x)) ==> #[trigger] m@.pixel(xx, yy)
                        == stored(depth, g(src@.pixel(xx, yy))),
            decreases w - x,
        {
            let v = src.get_pixel_unchecked(x, y);
            proof {
                lemma_stored_pixel(src@, x as int, y as int);
            }
            let o = f(v);
            m.set_pixel_unchecked(x, y, o);
            x = x + 1;
        }
        y = y + 1;
    }
    Ok(m)
}

/// Sets pixel `(x, y)` of `m` to pixel `(xmap[x], ymap[y])` of `src`, for
/// every pixel of `m`.
pub fn remap_into(m: &mut PixMut, src: &Pix, xmap: &Vec<u32>, ymap: &Vec<u32>)
    requires
        old(m)@.wf(),
        src@.wf(),
        src@.depth == old(m)@.depth,
        xmap@.len() == old(m)@.width,
        ymap@.len() == old(m)@.height,
        forall|i: int| 0 <= i < xmap@.len() ==> #[trigger] xmap@[i] < src@.width,
        forall|i: int| 0 <= i < ymap@.len() ==> #[trigger] ymap@[i] < src@.height,
    ensures
        final(m)@.wf(),
        final(m)@.same_meta(old(m)@),
        forall|x: int, y: int|
            final(m)@.contains(x, y) ==> #[trigger] final(m)@.pixel(x, y) == src@.pixel(
                xmap@[x] as int,
                ymap@[y] as int,
            ),
{
    let ghost m0 = m@;
    let w = m.width();
    let h = m.height();
    let mut y: u32 = 0;
    while y < h
        invariant
            src@.wf(),
            src@.depth == m0.depth,
            m0.wf(),
            w == m0.width,
            h == m0.height,
            xmap@.len() == w,
            ymap@.len() == h,
            forall|i: int| 0 <= i < xmap@.len() ==> #[trigger] xmap@[i] < src@.width,
            forall|i: int| 0 <= i < ymap@.len() ==> #[trigger] ymap@[i] < src@.height,
            y <= h,
            m@.wf(),
            m@.same_meta(m0),
            forall|x: int, yy: int|
                m@.contains(x, yy) && yy < y ==> #[trigger] m@.pixel(x, yy) == src@.pixel(
                    xmap@[x] as int,
                    ymap@[yy] as int,
                ),
        decreases h - y,
    {
        let sy = ymap[y as usize];
        let mut x: u32 = 0;
        while x < w
            invariant
                src@.wf(),
                src@.depth == m0.depth,
                m0.wf(),
                w == m0.width,
                h == m0.height,
                xmap@.len() == w,
                ymap@.len() == h,
                forall|i: int| 0 <= i < xmap@.len() ==> #[trigger] xmap@[i] < src@.width,
                forall|i: int| 0 <= i < ymap@.len() ==> #[trigger] ymap@[i] < src@.height,
                y < h,
                sy == ymap@[y as int],
                x <= w,
                m@.wf(),
                m@.same_meta(m0),
                forall|xx: int, yy: int|
                    m@.contains(xx, yy) && (yy < y || (yy == y && xx < x)) ==> #[trigger] m@.pixel(
                        xx,
                        yy,
                    ) == src@.pixel(xmap@[xx] as int, ymap@[yy] as int),
            decreases w - x,
        {
            let sx = xmap[x as usize];
            let v = src.get_pixel_unchecked(sx, sy);
            proof {
                lemma_stored_pixel(src@, sx as int, sy as int);
            }
            m.set_pixel_unchecked(x, y, v);
            x = x + 1;
        }
        y = y + 1;
    }
}

/// A new image of the size of `a` and `b` whose pixel `(x, y)` is `f`
/// applied to the pixels `(x, y)` of `a` and `b`, stored at depth `depth`.
pub fn zip_new<F: Fn(u32, u32) -> u32>(
    a: &Pix,
    b: &Pix,
    depth: PixelDepth,
    f: F,
    Ghost(g): Ghost<spec_fn(u32, u32) -> u32>,
) -> (r: Result<PixMut>)
    requires
        a@.wf(),
        b@.wf(),
        a@.width == b@.width,
        a@.height == b@.height,
        forall|u: u32, v: u32| u <= pmask(a@.depth) && v <= pmask(b@.depth) ==> f.requires((u, v)),
        forall|u: u32, v: u32, o: u32| f.ensures((u, v), o) ==> o == g(u, v),
    ensures
        r is Ok <==> super::model::new_ok(a@.width, a@.height, depth),
        r matches Ok(m) ==> m@.fresh_meta(a@.width, a@.height, depth) && forall|x: int, y: int|
            m@.contains(x, y) ==> #[trigger] m@.pixel(x, y) == stored(
                depth,
                g(a@.pixel(x, y), b@.pixel(x, y)),
            ),
        r matches Err(e) ==> e is InvalidDimension,
{
    let w = a.width();
    let h = a.height();
    let mut m = match PixMut::new(w, h, depth) {
        Ok(m) => m,
        Err(e) => {
            return Err(e);
        },
    };
    let ghost m0 = m@;
    let mut y: u32 = 0;
    while y < h
        invariant
            a@.wf(),
            b@.wf(),
            w == a@.width,
            h == a@.height,
            w == b@.width,
            h == b@.height,
            forall|u: u32, v: u32|
                u <= pmask(a@.depth) && v <= pmask(b@.depth) ==> f.requires((u, v)),
            forall|u: u32, v: u32, o: u32| f.ensures((u, v), o) ==> o == g(u, v),
            m0.fresh_meta(w, h, depth),
            y <= h,
            m@.wf(),
            m@.same_meta(m0),
            forall|x: int, yy: int|
                m@.contains(x, yy) && yy < y ==> #[trigger] m@.pixel(x, yy) == stored(
                    depth,
                    g(a@.pixel(x, yy), b@.pixel(x, yy)),
                ),
        decreases h - y,
    {
        let mut x: u32 = 0;
        while x < w
            invariant
                a@.wf(),
                b@.wf(),
                w == a@.width,
                h == a@.height,
                w == b@.width,
                h == b@.height,
                forall|u: u32, v: u32|
                    u <= pmask(a@.depth) && v <= pmask(b@.depth) ==> f.requires((u, v)),
                forall|u: u32, v: u32, o: u32| f.ensures((u, v), o) ==> o == g(u, v),
                m0.fresh_meta(w, h, depth),
                y < h,
                x <= w,
                m@.wf(),
                m@.same_meta(m0),
                forall|xx: int, yy: int|
                    m@.contains(xx, yy) && (yy < y || (yy == y && xx < x)) ==> #[trigger] m@.pixel(
                        xx,
                        yy,
                    ) == stored(depth, g(a@.pixel(xx, yy), b@.pixel(xx, yy))),
            decreases w - x,
        {
            let u = a.get_pixel_unchecked(x, y);
            let v = b.get_pixel_unchecked(x, y);
            proof {
                lemma_stored_pixel(a@, x as int, y as int);
                lemma_stored_pixel(b@, x as int, y as int);
            }
            let o = f(u, v);
            m.set_pixel_unchecked(x, y, o);
            x = x + 1;
        }
        y = y + 1;
    }
    Ok(m)
}

/// Replaces each pixel `(x, y)` of `m` by `f` applied to it and to the
/// pixel `(x, y)` of `b`.
pub fn zip_into<F: Fn(u32, u32) -> u32>(
    m: &mut PixMut,
    b: &Pix,
    f: F,
    Ghost(g): Ghost<spec_fn(u32, u32) -> u32>,
)
    requires
        old(m)@.wf(),
        b@.wf(),
        old(m)@.width == b@.width,
        old(m)@.height == b@.height,
        forall|u: u32, v: u32|
            u <= pmask(old(m)@.depth) && v <= pmask(b@.depth) ==> f.requires((u, v)),
        forall|u: u32, v: u32, o: u32| f.ensures((u, v), o) ==> o == g(u, v),
    ensures
        final(m)@.wf(),
        final(m)@.same_meta(old(m)@),
        forall|x: int, y: int|
            final(m)@.contains(x, y) ==> #[trigger] final(m)@.pixel(x, y) == stored(
                old(m)@.depth,
                g(old(m)@.pixel(x, y), b@.pixel(x, y)),
            ),
{
    let ghost m0 = m@;
    let w = m.width();
    let h = m.height();
    let mut y: u32 = 0;
    while y < h
        invariant
            m0.wf(),
            b@.wf(),
            w == m0.width,
            h == m0.height,
            w == b@.width,
            h == b@.height,
            forall|u: u32, v: u32| u <= pmask(m0.depth) && v <= pmask(b@.depth) ==> f.requires((u, v)),
            forall|u: u32, v: u32, o: u32| f.ensures((u, v), o) ==> o == g(u, v),
            y <= h,
            m@.wf(),
            m@.same_meta(m0),
            forall|x: int, yy: int|
                m@.contains(x, yy) ==> #[trigger] m@.pixel(x, yy) == if yy < y {
                    stored(m0.depth, g(m0.pixel(x, yy), b@.pixel(x, yy)))
                } else {
                    m0.pixel(x, yy)
                },
        decreases h - y,
    {
        let mut x: u32 = 0;
        while x < w
            invariant
                m0.wf(),
                b@.wf(),
                w == m0.width,
                h == m0.height,
                w == b@.width,
                h == b@.height,
                forall|u: u32, v: u32|
                    u <= pmask(m0.depth) && v <= pmask(b@.depth) ==> f.requires((u, v)),
                forall|u: u32, v: u32, o: u32| f.ensures((u, v), o) ==> o == g(u, v),
                y < h,
                x <= w,
                m@.wf(),
                m@.same_meta(m0),
                forall|xx: int, yy: int|
                    m@.contains(xx, yy) ==> #[trigger] m@.pixel(xx, yy) == if yy < y || (yy == y
                        && xx < x) {
                        stored(m0.depth, g(m0.pixel(xx, yy), b@.pixel(xx, yy)))
                    } else {
                        m0.pixel(xx, yy)
                    },
            decreases w - x,
        {
            let u = m.get_pixel_unchecked(x, y);
            let v = b.get_pixel_unchecked(x, y);
            proof {
                lemma_stored_pixel(m0, x as int, y as int);
                lemma_stored_pixel(b@, x as int, y as int);
            }
            let o = f(u, v);
            m.set_pixel_unchecked(x, y, o);
            x = x + 1;
        }
        y = y + 1;
    }
}

/// Replaces each pixel of `m` by `f` applied to it.
pub fn map_into<F: Fn(u32) -> u32>(m: &mut PixMut, f: F, Ghost(g): Ghost<spec_fn(u32) -> u32>)
    requires
        old(m)@.wf(),
        forall|u: u32| u <= pmask(old(m)@.depth) ==> f.requires((u,)),
        forall|u: u32, o: u32| f.ensures((u,), o) ==> o == g(u),
    ensures
        final(m)@.wf(),
        final(m)@.same_meta(old(m)@),
        forall|x: int, y: int|
            final(m)@.contains(x, y) ==> #[trigger] final(m)@.pixel(x, y) == stored(
                old(m)@.depth,
                g(old(m)@.pixel(x, y)),
            ),
{
    let ghost m0 = m@;
    let w = m.width();
    let h = m.height();
    let mut y: u32 = 0;
    while y < h
        invariant
            m0.wf(),
            w == m0.width,
            h == m0.height,
            forall|u: u32| u <= pmask(m0.depth) ==> f.requires((u,)),
            forall|u: u32, o: u32| f.ensures((u,), o) ==> o == g(u),
            y <= h,
            m@.wf(),
            m@.same_meta(m0),
            forall|x: int, yy: int|
                m@.contains(x, yy) ==> #[trigger] m@.pixel(x, yy) == if yy < y {
                    stored(m0.depth, g(m0.pixel(x, yy)))
                } else {
                    m0.pixel(x, yy)
                },
        decreases h - y,
    {
        let mut x: u32 = 0;
        while x < w
            invariant
                m0.wf(),
                w == m0.width,
                h == m0.height,
                forall|u: u32| u <= pmask(m0.depth) ==> f.requires((u,)),
                forall|u: u32, o: u32| f.ensures((u,), o) ==> o == g(u),
                y < h,
                x <= w,
                m@.wf(),
                m@.same_meta(m0),
                forall|xx: int, yy: int|
                    m@.contains(xx, yy) ==> #[trigger] m@.pixel(xx, yy) == if yy < y || (yy == y
                        && xx < x) {
                        stored(m0.depth, g(m0.pixel(xx, yy)))
                    } else {
                        m0.pixel(xx, yy)
                    },
            decreases w - x,
        {
            let u = m.get_pixel_unchecked(x, y);
            proof {
                lemma_stored_pixel(m0, x as int, y as int);
            }
            let o = f(u);
            m.set_pixel_unchecked(x, y, o);
            x = x + 1;
        }
        y = y + 1;
    }
}

/// Pixel `(x, y)` of `m` moved by `(dx, dy)`: the pixel `(x - dx, y - dy)`,
/// or `fill` where that lies outside the image.
pub open spec fn shifted_pixel(m: PixModel, x: int, y: int, dx: int, dy: int, fill: u32) -> u32 {
    if m.contains(x - dx, y - dy) {
        m.pixel(x - dx, y - dy)
    } else {
        fill
    }
}

/// Sets every pixel `(x, y)` of the block `x0..x1` by `y0..y1` of `out` to
/// the pixel of `src` moved by `(dx, dy)`, or to `fill` where none is
/// moved in.
pub fn shift_block(
    out: &mut PixMut,
    src: &PixMut,
    x0: u32,
    x1: u32,
    y0: u32,
    y1: u32,
    dx: i64,
    dy: i64,
    fill: u32,
)
    requires
        old(out)@.wf(),
        src@.wf(),
        src@.same_geometry(old(out)@),
        x0 <= x1 <= old(out)@.width,
        y0 <= y1 <= old(out)@.height,
        fill <= pmask(old(out)@.depth),
        -0x1_0000_0000 <= dx <= 0x1_0000_0000,
        -0x1_0000_0000 <= dy <= 0x1_0000_0000,
    ensures
        final(out)@.wf(),
        final(out)@.same_meta(old(out)@),
        forall|x: int, y: int|
            final(out)@.contains(x, y) ==> #[trigger] final(out)@.pixel(x, y) == if x0 <= x < x1 && y0
                <= y < y1 {
                shifted_pixel(src@, x, y, dx as int, dy as int, fill)
            } else {
                old(out)@.pixel(x, y)
            },
{
    let ghost m0 = out@;
    let w = src.width() as i64;
    let h = src.height() as i64;
    let mut y: u32 = y0;
    while y < y1
        invariant
            m0.wf(),
            src@.wf(),
            src@.same_geometry(m0),
            w == src@.width,
            h == src@.height,
            x0 <= x1 <= m0.width,
            y0 <= y <= y1 <= m0.height,
            fill <= pmask(m0.depth),
            -0x1_0000_0000 <= dx <= 0x1_0000_0000,
            -0x1_0000_0000 <= dy <= 0x1_0000_0000,
            out@.wf(),
            out@.same_meta(m0),
            forall|xx: int, yy: int|
                out@.contains(xx, yy) ==> #[trigger] out@.pixel(xx, yy) == if x0 <= xx < x1 && y0 <= yy < y {
                    shifted_pixel(src@, xx, yy, dx as int, dy as int, fill)
                } else {
                    m0.pixel(xx, yy)
                },
        decreases y1 - y,
    {
        let mut x: u32 = x0;
        while x < x1
            invariant
                m0.wf(),
                src@.wf(),
                src@.same_geometry(m0),
                w == src@.width,
                h == src@.height,
                x0 <= x <= x1 <= m0.width,
                y0 <= y < y1 <= m0.height,
                fill <= pmask(m0.depth),
                -0x1_0000_0000 <= dx <= 0x1_0000_0000,
                -0x1_0000_0000 <= dy <= 0x1_0000_0000,
                out@.wf(),
                out@.same_meta(m0),
                forall|xx: int, yy: int|
                    out@.contains(xx, yy) ==> #[trigger] out@.pixel(xx, yy) == if x0 <= xx < x1 && (y0 <= yy < y
                        || (yy == y && x0 <= xx < x)) {
                        shifted_pixel(src@, xx, yy, dx as int, dy as int, fill)
                    } else {
                        m0.pixel(xx, yy)
                    },
            decreases x1 - x,
        {
            let sx = x as i64 - dx;
            let sy = y as i64 - dy;
            let v = if sx >= 0 && sx < w && sy >= 0 && sy < h {
                let v = src.get_pixel_unchecked(sx as u32, sy as u32);
                proof {
                    lemma_stored_pixel(src@, sx as int, sy as int);
                }
                v
            } else {
                proof {
                    lemma_stored_small(m0.depth, fill);
                }
                fill
            };
            out.set_pixel_unchecked(x, y, v);
            x = x + 1;
        }
        y = y + 1;
    }
}

} // verus!
