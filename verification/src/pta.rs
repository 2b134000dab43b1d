//! Arrays of points on the image plane.

use vstd::prelude::*;

verus! {

/// An array of integer points `(x, y)`.
#[derive(Debug, Clone)]
pub struct Pta {
    pts: Vec<(i32, i32)>,
}

impl View for Pta {
    type V = Seq<(i32, i32)>;

    closed spec fn view(&self) -> Seq<(i32, i32)> {
        self.pts@
    }
}

impl Pta {
    /// An empty array.
    pub fn new() -> (r: Pta)
        ensures
            r@ == Seq::<(i32, i32)>::empty(),
    {
        Pta { pts: Vec::new() }
    }

    /// An empty array with room for `n` points.
    pub fn with_capacity(n: usize) -> (r: Pta)
        ensures
            r@ == Seq::<(i32, i32)>::empty(),
    {
        Pta { pts: Vec::with_capacity(n) }
    }

    /// An array holding the points of `v`.
    pub fn from_vec(v: Vec<(i32, i32)>) -> (r: Pta)
        ensures
            r@ == v@,
    {
        Pta { pts: v }
    }

    /// Appends the point `(x, y)`.
    pub fn push(&mut self, x: i32, y: i32)
        ensures
            final(self)@ == old(self)@.push((x, y)),
    {
        self.pts.push((x, y));
    }

    /// Appends all the points of `other`.
    pub fn append(&mut self, other: &Pta)
        ensures
            final(self)@ == old(self)@ + other@,
    {
        let n = other.pts.len();
        let ghost s0 = self@;
        let mut i: usize = 0;
        while i < n
            invariant
                n == other@.len(),
                i <= n,
                self@ == s0 + other@.subrange(0, i as int),
            decreases n - i,
        {
            let p = other.pts[i];
            self.pts.push(p);
            proof {
                assert(self@ =~= s0 + other@.subrange(0, i + 1));
            }
            i = i + 1;
        }
        proof {
            assert(other@.subrange(0, n as int) =~= other@);
        }
    }

    /// The number of points.
    pub fn len(&self) -> (n: usize)
        ensures
            n == self@.len(),
    {
        self.pts.len()
    }

    /// Whether the array is empty.
    pub fn is_empty(&self) -> (b: bool)
        ensures
            b == (self@.len() == 0),
    {
        self.pts.len() == 0
    }

    /// The point at `i`, if there is one.
    pub fn get(&self, i: usize) -> (r: Option<(i32, i32)>)
        ensures
            i < self@.len() ==> r == Some(self@[i as int]),
            i >= self@.len() ==> r is None,
    {
        if i < self.pts.len() {
            Some(self.pts[i])
        } else {
            None
        }
    }

    /// The points.
    pub fn points(&self) -> (r: &[(i32, i32)])
        ensures
            r@ == self@,
    {
        self.pts.as_slice()
    }
}

/// A list of point arrays.
#[derive(Debug, Clone)]
pub struct Ptaa {
    ptas: Vec<Pta>,
}

impl View for Ptaa {
    type V = Seq<Seq<(i32, i32)>>;

    closed spec fn view(&self) -> Seq<Seq<(i32, i32)>> {
        self.ptas@.map_values(|p: Pta| p@)
    }
}

impl Ptaa {
    /// An empty list.
    pub fn new() -> (r: Ptaa)
        ensures
            r@ == Seq::<Seq<(i32, i32)>>::empty(),
    {
        Ptaa { ptas: Vec::new() }
    }

    /// An empty list with room for `n` arrays.
    pub fn with_capacity(n: usize) -> (r: Ptaa)
        ensures
            r@ == Seq::<Seq<(i32, i32)>>::empty(),
    {
        Ptaa { ptas: Vec::with_capacity(n) }
    }

    /// Appends an array.
    pub fn push(&mut self, p: Pta)
        ensures
            final(self)@ == old(self)@.push(p@),
    {
        let ghost before = self.ptas@;
        self.ptas.push(p);
        proof {
            assert(self.ptas@.map_values(|a: Pta| a@) =~= before.map_values(|a: Pta| a@).push(p@));
        }
    }

    /// The number of arrays.
    pub fn len(&self) -> (r: usize)
        ensures
            r == self@.len(),
    {
        self.ptas.len()
    }

    /// The array at `i`, if there is one.
    pub fn get(&self, i: usize) -> (r: Option<&Pta>)
        ensures
            i < self@.len() ==> (r matches Some(p) && p@ == self@[i as int]),
            i >= self@.len() ==> r is None,
    {
        if i < self.ptas.len() {
            Some(&self.ptas[i])
        } else {
            None
        }
    }
}

} // verus!
