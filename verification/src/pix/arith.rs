//! Image arithmetic operations
//!
//! Pixel-wise arithmetic on pixel values taken as unsigned integers of the
//! image depth: adding a constant, adding or subtracting two images with
//! clipping, absolute difference, and pixel-wise minimum and maximum.
//! Results are clipped to `0..=max`, where `max` is the largest value of
//! the depth.

use vstd::prelude::*;
use super::{Pix, PixMut, PixelDepth};
use super::model::{PixModel, pmask, stored};
use super::raster::{zip_new, zip_into, map_new, map_into, lemma_stored_pixel, lemma_stored_small};
use super::rop::rop_mismatch;
use crate::error::{Error, Result};

verus! {

/// `a + b`, clipped to `m`.
pub open spec fn clip_add(a: u32, b: u32, m: u32) -> u32 {
    if a + b > m {
        m
    } else {
        (a + b) as u32
    }
}

/// `a - b`, clipped to 0.
pub open spec fn clip_sub(a: u32, b: u32) -> u32 {
    if a > b {
        (a - b) as u32
    } else {
        0
    }
}

/// `|a - b|`.
pub open spec fn abs_diff(a: u32, b: u32) -> u32 {
    if a > b {
        (a - b) as u32
    } else {
        (b - a) as u32
    }
}

/// The smaller of `a` and `b`.
pub open spec fn min_u32(a: u32, b: u32) -> u32 {
    if a < b {
        a
    } else {
        b
    }
}

/// The larger of `a` and `b`.
pub open spec fn max_u32(a: u32, b: u32) -> u32 {
    if a > b {
        a
    } else {
        b
    }
}

/// `v + val`, clipped to `0..=m`.
pub open spec fn add_const_value(v: u32, val: i32, m: u32) -> u32 {
    if v + val < 0 {
        0
    } else if v + val > m {
        m
    } else {
        (v + val) as u32
    }
}

/// `r` has the size and depth of `p`, and each pixel is `g` of the pixels
/// of `p` and `q` at the same place.
pub open spec fn zip_result(r: PixModel, p: PixModel, q: PixModel, g: spec_fn(u32, u32) -> u32) -> bool {
    &&& r.wf()
    &&& r.same_geometry(p)
    &&& forall|x: int, y: int|
        r.contains(x, y) ==> #[trigger] r.pixel(x, y) == g(p.pixel(x, y), q.pixel(x, y))
}

/// `r` has the size and depth of `p`, and each pixel is `g` of the pixel
/// of `p` at the same place.
pub open spec fn map_result(r: PixModel, p: PixModel, g: spec_fn(u32) -> u32) -> bool {
    &&& r.wf()
    &&& r.same_geometry(p)
    &&& forall|x: int, y: int| r.contains(x, y) ==> #[trigger] r.pixel(x, y) == g(p.pixel(x, y))
}

/// The arithmetic operations on two images.
#[derive(Clone, Copy)]
enum ArithOp {
    Add,
    Subtract,
    AbsDiff,
    Min,
    Max,
}

/// What `op` gives on two pixel values whose largest value is `m`.
spec fn arith_value(op: ArithOp, a: u32, b: u32, m: u32) -> u32 {
    match op {
        ArithOp::Add => clip_add(a, b, m),
        ArithOp::Subtract => clip_sub(a, b),
        ArithOp::AbsDiff => abs_diff(a, b),
        ArithOp::Min => min_u32(a, b),
        ArithOp::Max => max_u32(a, b),
    }
}

fn apply_arith(op: ArithOp, a: u32, b: u32, m: u32) -> (r: u32)
    requires
        a <= m,
        b <= m,
    ensures
        r == arith_value(op, a, b, m),
        r <= m,
{
    match op {
        ArithOp::Add => {
            if a as u64 + b as u64 > m as u64 {
                m
            } else {
                a + b
            }
        },
        ArithOp::Subtract => {
            if a > b {
                a - b
            } else {
                0
            }
        },
        ArithOp::AbsDiff => {
            if a > b {
                a - b
            } else {
                b - a
            }
        },
        ArithOp::Min => {
            if a < b {
                a
            } else {
                b
            }
        },
        ArithOp::Max => {
            if a > b {
                a
            } else {
                b
            }
        },
    }
}

fn add_const_pixel(v: u32, val: i32, m: u32) -> (r: u32)
    requires
        v <= m,
    ensures
        r == add_const_value(v, val, m),
        r <= m,
{
    let s: i64 = v as i64 + val as i64;
    if s < 0 {
        0
    } else if s > m as i64 {
        m
    } else {
        s as u32
    }
}

impl Pix {
    /// Combines two images pixel by pixel with `op`.
    fn arith_zip(&self, other: &Pix, op: ArithOp) -> (r: Result<Pix>)
        requires
            self@.wf(),
            other@.wf(),
        ensures
            r is Ok <==> rop_mismatch(self@, other@) is None,
            r matches Ok(p) ==> p@.fresh_meta(self@.width, self@.height, self@.depth) && zip_result(
                p@,
                self@,
                other@,
                |a: u32, b: u32| arith_value(op, a, b, pmask(self@.depth)),
            ),
            r matches Err(e) ==> rop_mismatch(self@, other@) == Some(e),
    {
        if self.width() != other.width() || self.height() != other.height() {
            return Err(
                Error::DimensionMismatch {
                    expected: (self.width(), self.height()),
                    actual: (other.width(), other.height()),
                },
            );
        }
        if self.depth() != other.depth() {
            return Err(Error::IncompatibleDepths(self.depth().bits(), other.depth().bits()));
        }
        let depth = self.depth();
        let m = depth.max_value();
        proof {
            self@.lemma_new_ok();
        }
        let f = |a: u32, b: u32| -> (o: u32)
            requires
                a <= m,
                b <= m,
            ensures
                o == arith_value(op, a, b, m),
            { apply_arith(op, a, b, m) };
        let out = match zip_new(self, other, depth, f, Ghost(|a: u32, b: u32| arith_value(op, a, b, m))) {
            Ok(out) => out,
            Err(e) => {
                return Err(e);
            },
        };
        proof {
            assert forall|x: int, y: int| out@.contains(x, y) implies #[trigger] out@.pixel(x, y)
                == arith_value(op, self@.pixel(x, y), other@.pixel(x, y), m) by {
                lemma_stored_pixel(self@, x, y);
                lemma_stored_pixel(other@, x, y);
                lemma_arith_small(op, depth, self@.pixel(x, y), other@.pixel(x, y));
            }
        }
        Ok(out.into_pix())
    }

    /// Add a constant value to all pixels.
    ///
    /// Creates a new image where each pixel value is increased by the constant.
    /// Values are clipped to the valid range for the pixel depth.
    ///
    /// # Errors
    ///
    /// Returns [`Error::UnsupportedDepth`] if depth is 1bpp.
    pub fn add_constant(&self, val: i32) -> (r: Result<Pix>)
        requires
            self@.wf(),
        ensures
            r is Ok <==> self@.depth != PixelDepth::Bit1,
            r matches Ok(p) ==> p@.same_meta(self@) && map_result(
                p@,
                self@,
                |v: u32| add_const_value(v, val, pmask(self@.depth)),
            ),
            r matches Err(e) ==> e == Error::UnsupportedDepth(1),
    {
        if self.depth() == PixelDepth::Bit1 {
            return Err(Error::UnsupportedDepth(1));
        }
        let mut m = self.to_mut();
        m.add_constant_inplace(val);
        Ok(m.into_pix())
    }

    /// Add two images pixel-by-pixel.
    ///
    /// Creates a new image where each pixel is the sum of the corresponding
    /// pixels from `self` and `other`, clipped to the maximum pixel value.
    ///
    /// # Errors
    ///
    /// Returns [`Error::DimensionMismatch`] when dimensions differ.
    /// Returns [`Error::IncompatibleDepths`] when depths differ.
    pub fn arith_add(&self, other: &Pix) -> (r: Result<Pix>)
        requires
            self@.wf(),
            other@.wf(),
        ensures
            r is Ok <==> rop_mismatch(self@, other@) is None,
            r matches Ok(p) ==> p@.fresh_meta(self@.width, self@.height, self@.depth) && zip_result(
                p@,
                self@,
                other@,
                |a: u32, b: u32| clip_add(a, b, pmask(self@.depth)),
            ),
            r matches Err(e) ==> rop_mismatch(self@, other@) == Some(e),
    {
        let r = self.arith_zip(other, ArithOp::Add);
        proof {
            lemma_zip_same(r, self@, other@, ArithOp::Add, |a: u32, b: u32| clip_add(a, b, pmask(self@.depth)));
        }
        r
    }

    /// Subtract two images pixel-by-pixel.
    ///
    /// Creates a new image where each pixel is `self - other`, clipped to 0.
    ///
    /// # Errors
    ///
    /// Returns [`Error::DimensionMismatch`] when dimensions differ.
    /// Returns [`Error::IncompatibleDepths`] when depths differ.
    pub fn arith_subtract(&self, other: &Pix) -> (r: Result<Pix>)
        requires
            self@.wf(),
            other@.wf(),
        ensures
            r is Ok <==> rop_mismatch(self@, other@) is None,
            r matches Ok(p) ==> p@.fresh_meta(self@.width, self@.height, self@.depth) && zip_result(
                p@,
                self@,
                other@,
                |a: u32, b: u32| clip_sub(a, b),
            ),
            r matches Err(e) ==> rop_mismatch(self@, other@) == Some(e),
    {
        let r = self.arith_zip(other, ArithOp::Subtract);
        proof {
            lemma_zip_same(r, self@, other@, ArithOp::Subtract, |a: u32, b: u32| clip_sub(a, b));
        }
        r
    }

    /// Compute absolute difference of two images pixel-by-pixel.
    ///
    /// Creates a new image where each pixel is `|self - other|`.
    ///
    /// # Errors
    ///
    /// Returns [`Error::DimensionMismatch`] when dimensions differ.
    /// Returns [`Error::IncompatibleDepths`] when depths differ.
    pub fn arith_abs_diff(&self, other: &Pix) -> (r: Result<Pix>)
        requires
            self@.wf(),
            other@.wf(),
        ensures
            r is Ok <==> rop_mismatch(self@, other@) is None,
            r matches Ok(p) ==> p@.fresh_meta(self@.width, self@.height, self@.depth) && zip_result(
                p@,
                self@,
                other@,
                |a: u32, b: u32| abs_diff(a, b),
            ),
            r matches Err(e) ==> rop_mismatch(self@, other@) == Some(e),
    {
        let r = self.arith_zip(other, ArithOp::AbsDiff);
        proof {
            lemma_zip_same(r, self@, other@, ArithOp::AbsDiff, |a: u32, b: u32| abs_diff(a, b));
        }
        r
    }

    /// Compute pixel-wise minimum of two images.
    ///
    /// Creates a new image where each pixel is `min(self, other)`.
    ///
    /// # Errors
    ///
    /// Returns [`Error::DimensionMismatch`] when dimensions differ.
    /// Returns [`Error::IncompatibleDepths`] when depths differ.
    pub fn arith_min(&self, other: &Pix) -> (r: Result<Pix>)
        requires
            self@.wf(),
            other@.wf(),
        ensures
            r is Ok <==> rop_mismatch(self@, other@) is None,
            r matches Ok(p) ==> p@.fresh_meta(self@.width, self@.height, self@.depth) && zip_result(
                p@,
                self@,
                other@,
                |a: u32, b: u32| min_u32(a, b),
            ),
            r matches Err(e) ==> rop_mismatch(self@, other@) == Some(e),
    {
        let r = self.arith_zip(other, ArithOp::Min);
        proof {
            lemma_zip_same(r, self@, other@, ArithOp::Min, |a: u32, b: u32| min_u32(a, b));
        }
        r
    }

    /// Compute pixel-wise maximum of two images.
    ///
    /// Creates a new image where each pixel is `max(self, other)`.
    ///
    /// # Errors
    ///
    /// Returns [`Error::DimensionMismatch`] when dimensions differ.
    /// Returns [`Error::IncompatibleDepths`] when depths differ.
    pub fn arith_max(&self, other: &Pix) -> (r: Result<Pix>)
        requires
            self@.wf(),
            other@.wf(),
        ensures
            r is Ok <==> rop_mismatch(self@, other@) is None,
            r matches Ok(p) ==> p@.fresh_meta(self@.width, self@.height, self@.depth) && zip_result(
                p@,
                self@,
                other@,
                |a: u32, b: u32| max_u32(a, b),
            ),
            r matches Err(e) ==> rop_mismatch(self@, other@) == Some(e),
    {
        let r = self.arith_zip(other, ArithOp::Max);
        proof {
            lemma_zip_same(r, self@, other@, ArithOp::Max, |a: u32, b: u32| max_u32(a, b));
        }
        r
    }
}

/// An arithmetic result of two values of a depth is stored unchanged.
proof fn lemma_arith_small(op: ArithOp, depth: PixelDepth, a: u32, b: u32)
    requires
        a <= pmask(depth),
        b <= pmask(depth),
    ensures
        stored(depth, arith_value(op, a, b, pmask(depth))) == arith_value(op, a, b, pmask(depth)),
{
    lemma_stored_small(depth, arith_value(op, a, b, pmask(depth)));
}

/// The result of `arith_zip` for `op`, stated with the function `g` that
/// agrees with `op` on every pair of values.
proof fn lemma_zip_same(
    r: Result<Pix>,
    p: PixModel,
    q: PixModel,
    op: ArithOp,
    g: spec_fn(u32, u32) -> u32,
)
    requires
        forall|a: u32, b: u32| #[trigger] g(a, b) == arith_value(op, a, b, pmask(p.depth)),
        r matches Ok(out) ==> zip_result(
            out@,
            p,
            q,
            |a: u32, b: u32| arith_value(op, a, b, pmask(p.depth)),
        ),
    ensures
        r matches Ok(out) ==> zip_result(out@, p, q, g),
{
    if r is Ok {
        let out = r->Ok_0;
        assert forall|x: int, y: int| out@.contains(x, y) implies #[trigger] out@.pixel(x, y) == g(
            p.pixel(x, y),
            q.pixel(x, y),
        ) by {
            assert(g(p.pixel(x, y), q.pixel(x, y)) == arith_value(op, p.pixel(x, y), q.pixel(x, y), pmask(p.depth)));
        }
    }
}

impl PixMut {
    /// Combines this image with `other` pixel by pixel with `op`.
    fn arith_zip_inplace(&mut self, other: &Pix, op: ArithOp) -> (r: Result<()>)
        requires
            old(self)@.wf(),
            other@.wf(),
        ensures
            r is Ok <==> rop_mismatch(old(self)@, other@) is None,
            r is Ok ==> final(self)@.same_meta(old(self)@) && zip_result(
                final(self)@,
                old(self)@,
                other@,
                |a: u32, b: u32| arith_value(op, a, b, pmask(old(self)@.depth)),
            ),
            r matches Err(e) ==> rop_mismatch(old(self)@, other@) == Some(e) && final(self)@ == old(
                self,
            )@,
    {
        if self.width() != other.width() || self.height() != other.height() {
            return Err(
                Error::DimensionMismatch {
                    expected: (self.width(), self.height()),
                    actual: (other.width(), other.height()),
                },
            );
        }
        if self.depth() != other.depth() {
            return Err(Error::IncompatibleDepths(self.depth().bits(), other.depth().bits()));
        }
        let ghost m0 = self@;
        let depth = self.depth();
        let m = depth.max_value();
        let f = |a: u32, b: u32| -> (o: u32)
            requires
                a <= m,
                b <= m,
            ensures
                o == arith_value(op, a, b, m),
            { apply_arith(op, a, b, m) };
        zip_into(self, other, f, Ghost(|a: u32, b: u32| arith_value(op, a, b, m)));
        proof {
            assert forall|x: int, y: int| self@.contains(x, y) implies #[trigger] self@.pixel(x, y)
                == arith_value(op, m0.pixel(x, y), other@.pixel(x, y), m) by {
                lemma_stored_pixel(m0, x, y);
                lemma_stored_pixel(other@, x, y);
                lemma_arith_small(op, depth, m0.pixel(x, y), other@.pixel(x, y));
            }
        }
        Ok(())
    }

    /// Add a constant value to all pixels in-place.
    ///
    /// Modifies the image by adding `val` to each pixel.
    /// Values are clipped to the valid range for the pixel depth.
    pub fn add_constant_inplace(&mut self, val: i32)
        requires
            old(self)@.wf(),
        ensures
            final(self)@.same_meta(old(self)@),
            map_result(
                final(self)@,
                old(self)@,
                |v: u32| add_const_value(v, val, pmask(old(self)@.depth)),
            ),
    {
        let ghost m0 = self@;
        let depth = self.depth();
        let m = depth.max_value();
        let f = |v: u32| -> (o: u32)
            requires
                v <= m,
            ensures
                o == add_const_value(v, val, m),
            { add_const_pixel(v, val, m) };
        map_into(self, f, Ghost(|v: u32| add_const_value(v, val, m)));
        proof {
            assert forall|x: int, y: int| self@.contains(x, y) implies #[trigger] self@.pixel(x, y)
                == add_const_value(m0.pixel(x, y), val, m) by {
                lemma_stored_pixel(m0, x, y);
                lemma_stored_small(depth, add_const_value(m0.pixel(x, y), val, m));
            }
        }
    }

    /// Add another image to this image in-place.
    ///
    /// # Errors
    ///
    /// Returns [`Error::DimensionMismatch`] when dimensions differ.
    /// Returns [`Error::IncompatibleDepths`] when depths differ.
    pub fn arith_add_inplace(&mut self, other: &Pix) -> (r: Result<()>)
        requires
            old(self)@.wf(),
            other@.wf(),
        ensures
            r is Ok <==> rop_mismatch(old(self)@, other@) is None,
            r is Ok ==> final(self)@.same_meta(old(self)@) && zip_result(
                final(self)@,
                old(self)@,
                other@,
                |a: u32, b: u32| clip_add(a, b, pmask(old(self)@.depth)),
            ),
            r matches Err(e) ==> rop_mismatch(old(self)@, other@) == Some(e) && final(self)@ == old(
                self,
            )@,
    {
        let ghost m0 = self@;
        let r = self.arith_zip_inplace(other, ArithOp::Add);
        proof {
            if r is Ok {
                assert forall|x: int, y: int| self@.contains(x, y) implies #[trigger] self@.pixel(x, y)
                    == clip_add(m0.pixel(x, y), other@.pixel(x, y), pmask(m0.depth)) by {
                    assert(self@.pixel(x, y) == arith_value(ArithOp::Add, m0.pixel(x, y), other@.pixel(x, y), pmask(m0.depth)));
                }
            }
        }
        r
    }

    /// Subtract another image from this image in-place.
    ///
    /// # Errors
    ///
    /// Returns [`Error::DimensionMismatch`] when dimensions differ.
    /// Returns [`Error::IncompatibleDepths`] when depths differ.
    pub fn arith_subtract_inplace(&mut self, other: &Pix) -> (r: Result<()>)
        requires
            old(self)@.wf(),
            other@.wf(),
        ensures
            r is Ok <==> rop_mismatch(old(self)@, other@) is None,
            r is Ok ==> final(self)@.same_meta(old(self)@) && zip_result(
                final(self)@,
                old(self)@,
                other@,
                |a: u32, b: u32| clip_sub(a, b),
            ),
            r matches Err(e) ==> rop_mismatch(old(self)@, other@) == Some(e) && final(self)@ == old(
                self,
            )@,
    {
        let ghost m0 = self@;
        let r = self.arith_zip_inplace(other, ArithOp::Subtract);
        proof {
            if r is Ok {
                assert forall|x: int, y: int| self@.contains(x, y) implies #[trigger] self@.pixel(x, y)
                    == clip_sub(m0.pixel(x, y), other@.pixel(x, y)) by {
                    assert(self@.pixel(x, y) == arith_value(ArithOp::Subtract, m0.pixel(x, y), other@.pixel(x, y), pmask(m0.depth)));
                }
            }
        }
        r
    }
}

} // verus!
