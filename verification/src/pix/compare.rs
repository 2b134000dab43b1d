//! Image comparison operations
//!
//! Pixel-wise equality checks and difference images.

use vstd::prelude::*;
use super::{Pix, PixelDepth};
use super::model::{PixModel, pmask};
use super::arith::{zip_result, clip_sub, abs_diff};
use super::rop::rop_mismatch;
use crate::error::Result;

verus! {

/// Type of comparison
#[derive(Debug, Clone, Copy, PartialEq, Eq, Structural)]
pub enum CompareType {
    /// Compare by absolute difference
    AbsDiff,
    /// Compare by subtraction (clamped to 0)
    Subtract,
}

/// Whether two pixels of depth `d` count as equal: at 32 bpp the alpha
/// byte is compared only when `alpha` is set.
pub open spec fn pixels_match(d: PixelDepth, a: u32, b: u32, alpha: bool) -> bool {
    if d == PixelDepth::Bit32 && !alpha {
        a / 256 == b / 256
    } else {
        a == b
    }
}

/// Two images have the same size and depth and matching pixels.
pub open spec fn images_match(p: PixModel, q: PixModel, alpha: bool) -> bool {
    &&& p.same_geometry(q)
    &&& forall|x: int, y: int|
        p.contains(x, y) ==> pixels_match(p.depth, #[trigger] p.pixel(x, y), q.pixel(x, y), alpha)
}

fn pixel_match(d: PixelDepth, a: u32, b: u32, alpha: bool) -> (r: bool)
    ensures
        r == pixels_match(d, a, b, alpha),
{
    if d == PixelDepth::Bit32 && !alpha {
        a / 256 == b / 256
    } else {
        a == b
    }
}

impl Pix {
    /// Check if two images are pixel-identical.
    ///
    /// At 32 bpp the alpha byte is not compared.
    pub fn equals(&self, other: &Pix) -> (r: bool)
        requires
            self@.wf(),
            other@.wf(),
        ensures
            r == images_match(self@, other@, false),
    {
        self.equals_with_alpha(other, false)
    }

    /// Check equality, optionally comparing alpha channel.
    ///
    /// The images are equal when they have the same size and depth and the
    /// same pixel values; at 32 bpp the alpha byte counts only when
    /// `compare_alpha` is set.
    pub fn equals_with_alpha(&self, other: &Pix, compare_alpha: bool) -> (r: bool)
        requires
            self@.wf(),
            other@.wf(),
        ensures
            r == images_match(self@, other@, compare_alpha),
    {
        if self.width() != other.width() || self.height() != other.height() || self.depth()
            != other.depth() {
            return false;
        }
        let w = self.width();
        let h = self.height();
        let d = self.depth();
        let mut y: u32 = 0;
        while y < h
            invariant
                self@.wf(),
                other@.wf(),
                self@.same_geometry(other@),
                w == self@.width,
                h == self@.height,
                d == self@.depth,
                y <= h,
                forall|xx: int, yy: int|
                    self@.contains(xx, yy) && yy < y ==> pixels_match(
                        d,
                        #[trigger] self@.pixel(xx, yy),
                        other@.pixel(xx, yy),
                        compare_alpha,
                    ),
            decreases h - y,
        {
            let mut x: u32 = 0;
            while x < w
                invariant
                    self@.wf(),
                    other@.wf(),
                    self@.same_geometry(other@),
                    w == self@.width,
                    h == self@.height,
                    d == self@.depth,
                    y < h,
                    x <= w,
                    forall|xx: int, yy: int|
                        self@.contains(xx, yy) && (yy < y || (yy == y && xx < x)) ==> pixels_match(
                            d,
                            #[trigger] self@.pixel(xx, yy),
                            other@.pixel(xx, yy),
                            compare_alpha,
                        ),
                decreases w - x,
            {
                let a = self.get_pixel_unchecked(x, y);
                let b = other.get_pixel_unchecked(x, y);
                if !pixel_match(d, a, b, compare_alpha) {
                    return false;
                }
                x = x + 1;
            }
            y = y + 1;
        }
        true
    }

    /// Create a diff image using the specified comparison type.
    ///
    /// # Errors
    ///
    /// [`crate::Error::DimensionMismatch`] or
    /// [`crate::Error::IncompatibleDepths`] when the images differ in size
    /// or depth.
    pub fn diff(&self, other: &Pix, compare_type: CompareType) -> (r: Result<Pix>)
        requires
            self@.wf(),
            other@.wf(),
        ensures
            r is Ok <==> rop_mismatch(self@, other@) is None,
            r matches Ok(p) ==> p@.fresh_meta(self@.width, self@.height, self@.depth) && zip_result(
                p@,
                self@,
                other@,
                |a: u32, b: u32| match compare_type {
                    CompareType::AbsDiff => abs_diff(a, b),
                    CompareType::Subtract => clip_sub(a, b),
                },
            ),
            r matches Err(e) ==> rop_mismatch(self@, other@) == Some(e),
    {
        let r = match compare_type {
            CompareType::AbsDiff => self.arith_abs_diff(other),
            CompareType::Subtract => self.arith_subtract(other),
        };
        proof {
            if r is Ok {
                let p = r->Ok_0;
                assert forall|x: int, y: int| p@.contains(x, y) implies #[trigger] p@.pixel(x, y)
                    == match compare_type {
                    CompareType::AbsDiff => abs_diff(self@.pixel(x, y), other@.pixel(x, y)),
                    CompareType::Subtract => clip_sub(self@.pixel(x, y), other@.pixel(x, y)),
                } by {}
            }
        }
        r
    }

    /// Pixel-wise subtraction (clamped to 0).
    ///
    /// # Errors
    ///
    /// [`crate::Error::DimensionMismatch`] or
    /// [`crate::Error::IncompatibleDepths`] when the images differ in size
    /// or depth.
    pub fn subtract(&self, other: &Pix) -> (r: Result<Pix>)
        requires
            self@.wf(),
            other@.wf(),
        ensures
            r is Ok <==> rop_mismatch(self@, other@) is None,
            r matches Ok(p) ==> p@.fresh_meta(self@.width, self@.height, self@.depth) && zip_result(
                p@,
                self@,
                other@,
                |a: u32, b: u32| clip_sub(a, b),
            ),
            r matches Err(e) ==> rop_mismatch(self@, other@) == Some(e),
    {
        self.arith_subtract(other)
    }

    /// Pixel-wise absolute difference.
    ///
    /// # Errors
    ///
    /// [`crate::Error::DimensionMismatch`] or
    /// [`crate::Error::IncompatibleDepths`] when the images differ in size
    /// or depth.
    pub fn abs_diff(&self, other: &Pix) -> (r: Result<Pix>)
        requires
            self@.wf(),
            other@.wf(),
        ensures
            r is Ok <==> rop_mismatch(self@, other@) is None,
            r matches Ok(p) ==> p@.fresh_meta(self@.width, self@.height, self@.depth) && zip_result(
                p@,
                self@,
                other@,
                |a: u32, b: u32| abs_diff(a, b),
            ),
            r matches Err(e) ==> rop_mismatch(self@, other@) == Some(e),
    {
        self.arith_abs_diff(other)
    }
}

/// Every image equals itself, with or without alpha.
pub proof fn law_equals_reflexive(p: PixModel, alpha: bool)
    ensures
        images_match(p, p, alpha),
{
}

/// Equality of images is symmetric.
pub proof fn law_equals_symmetric(p: PixModel, q: PixModel, alpha: bool)
    requires
        images_match(p, q, alpha),
    ensures
        images_match(q, p, alpha),
{
    assert forall|x: int, y: int| q.contains(x, y) implies pixels_match(q.depth, #[trigger] q.pixel(x, y), p.pixel(x, y), alpha) by {
        assert(pixels_match(p.depth, p.pixel(x, y), q.pixel(x, y), alpha));
    }
}

} // verus!
