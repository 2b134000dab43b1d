//! Rectangles on the image plane.

use vstd::prelude::*;
use crate::error::{Error, Result, invalid_param};

verus! {

/// An axis-aligned rectangle: left edge `x`, top edge `y`, width `w` and
/// height `h`.
#[derive(Debug, Clone, Copy, PartialEq, Eq, Structural)]
pub struct Box {
    pub x: i32,
    pub y: i32,
    pub w: i32,
    pub h: i32,
}

/// The larger of two integers.
pub open spec fn imax(a: int, b: int) -> int {
    if a > b {
        a
    } else {
        b
    }
}

/// The smaller of two integers.
pub open spec fn imin(a: int, b: int) -> int {
    if a < b {
        a
    } else {
        b
    }
}

/// The part of `b` inside the rectangle `0..w` by `0..h`, when it is not
/// empty.
pub open spec fn clip_spec(b: Box, w: i32, h: i32) -> Option<Box> {
    let x0 = imax(b.x as int, 0);
    let y0 = imax(b.y as int, 0);
    let x1 = imin(b.x + b.w, w as int);
    let y1 = imin(b.y + b.h, h as int);
    if x1 <= x0 || y1 <= y0 {
        None
    } else {
        Some(Box { x: x0 as i32, y: y0 as i32, w: (x1 - x0) as i32, h: (y1 - y0) as i32 })
    }
}

impl Box {
    /// Creates a rectangle.
    ///
    /// # Errors
    ///
    /// [`Error::InvalidParameter`] if the width or height is negative.
    pub fn new(x: i32, y: i32, w: i32, h: i32) -> (r: Result<Box>)
        ensures
            r is Ok <==> w >= 0 && h >= 0,
            r matches Ok(b) ==> b == (Box { x, y, w, h }),
            r matches Err(e) ==> e is InvalidParameter,
    {
        if w < 0 || h < 0 {
            return Err(invalid_param("box width and height must not be negative"));
        }
        Ok(Box { x, y, w, h })
    }

    /// Creates a rectangle without checking its size.
    pub fn new_unchecked(x: i32, y: i32, w: i32, h: i32) -> (b: Box)
        ensures
            b == (Box { x, y, w, h }),
    {
        Box { x, y, w, h }
    }

    /// The part of the rectangle inside an image of width `w` and height
    /// `h`, or `None` if they do not overlap.
    pub fn clip(&self, w: i32, h: i32) -> (r: Option<Box>)
        ensures
            r == clip_spec(*self, w, h),
    {
        let x0: i64 = if self.x > 0 {
            self.x as i64
        } else {
            0
        };
        let y0: i64 = if self.y > 0 {
            self.y as i64
        } else {
            0
        };
        let xe: i64 = self.x as i64 + self.w as i64;
        let ye: i64 = self.y as i64 + self.h as i64;
        let x1: i64 = if xe < w as i64 {
            xe
        } else {
            w as i64
        };
        let y1: i64 = if ye < h as i64 {
            ye
        } else {
            h as i64
        };
        if x1 <= x0 || y1 <= y0 {
            None
        } else {
            Some(
                Box {
                    x: x0 as i32,
                    y: y0 as i32,
                    w: (x1 - x0) as i32,
                    h: (y1 - y0) as i32,
                },
            )
        }
    }
}

/// A list of rectangles.
#[derive(Debug, Clone)]
pub struct Boxa {
    boxes: Vec<Box>,
}

impl View for Boxa {
    type V = Seq<Box>;

    closed spec fn view(&self) -> Seq<Box> {
        self.boxes@
    }
}

impl Boxa {
    /// An empty list.
    pub fn new() -> (r: Boxa)
        ensures
            r@ == Seq::<Box>::empty(),
    {
        Boxa { boxes: Vec::new() }
    }

    /// Appends a rectangle.
    pub fn push(&mut self, b: Box)
        ensures
            final(self)@ == old(self)@.push(b),
    {
        self.boxes.push(b);
    }

    /// The number of rectangles.
    pub fn len(&self) -> (n: usize)
        ensures
            n == self@.len(),
    {
        self.boxes.len()
    }

    /// Whether the list is empty.
    pub fn is_empty(&self) -> (r: bool)
        ensures
            r == (self@.len() == 0),
    {
        self.boxes.len() == 0
    }

    /// The rectangle at `index`, if there is one.
    pub fn get(&self, index: usize) -> (r: Option<Box>)
        ensures
            index < self@.len() ==> r == Some(self@[index as int]),
            index >= self@.len() ==> r is None,
    {
        if index < self.boxes.len() {
            Some(self.boxes[index])
        } else {
            None
        }
    }
}

} // verus!
