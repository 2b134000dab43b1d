//! Arrays of numbers, such as histograms and sampled profiles.

use vstd::prelude::*;

verus! {

/// An array of integers with a sampling origin `startx` and spacing
/// `delx` for the positions the values stand for.
#[derive(Debug, Clone)]
pub struct Numa {
    vals: Vec<i64>,
    startx: i64,
    delx: i64,
}

impl View for Numa {
    type V = Seq<i64>;

    closed spec fn view(&self) -> Seq<i64> {
        self.vals@
    }
}

impl Numa {
    /// The position of the first value.
    pub closed spec fn start_spec(&self) -> i64 {
        self.startx
    }

    /// The spacing between positions.
    pub closed spec fn delta_spec(&self) -> i64 {
        self.delx
    }

    /// An empty array with origin 0 and spacing 1.
    pub fn new() -> (r: Numa)
        ensures
            r@ == Seq::<i64>::empty(),
            r.start_spec() == 0,
            r.delta_spec() == 1,
    {
        Numa { vals: Vec::new(), startx: 0, delx: 1 }
    }

    /// An empty array with room for `n` values.
    pub fn with_capacity(n: usize) -> (r: Numa)
        ensures
            r@ == Seq::<i64>::empty(),
            r.start_spec() == 0,
            r.delta_spec() == 1,
    {
        Numa { vals: Vec::with_capacity(n), startx: 0, delx: 1 }
    }

    /// An array holding `v`, with origin 0 and spacing 1.
    pub fn from_vec(v: Vec<i64>) -> (r: Numa)
        ensures
            r@ == v@,
            r.start_spec() == 0,
            r.delta_spec() == 1,
    {
        Numa { vals: v, startx: 0, delx: 1 }
    }

    /// Appends a value.
    pub fn push(&mut self, v: i64)
        ensures
            final(self)@ == old(self)@.push(v),
            final(self).start_spec() == old(self).start_spec(),
            final(self).delta_spec() == old(self).delta_spec(),
    {
        self.vals.push(v);
    }

    /// The number of values.
    pub fn len(&self) -> (n: usize)
        ensures
            n == self@.len(),
    {
        self.vals.len()
    }

    /// Whether the array is empty.
    pub fn is_empty(&self) -> (b: bool)
        ensures
            b == (self@.len() == 0),
    {
        self.vals.len() == 0
    }

    /// The value at `i`, if there is one.
    pub fn get(&self, i: usize) -> (r: Option<i64>)
        ensures
            i < self@.len() ==> r == Some(self@[i as int]),
            i >= self@.len() ==> r is None,
    {
        if i < self.vals.len() {
            Some(self.vals[i])
        } else {
            None
        }
    }

    /// The values.
    pub fn as_slice(&self) -> (r: &[i64])
        ensures
            r@ == self@,
    {
        self.vals.as_slice()
    }

    /// Sets the position of the first value and the spacing.
    pub fn set_parameters(&mut self, startx: i64, delx: i64)
        ensures
            final(self)@ == old(self)@,
            final(self).start_spec() == startx,
            final(self).delta_spec() == delx,
    {
        self.startx = startx;
        self.delx = delx;
    }

    /// The position of the first value and the spacing.
    pub fn parameters(&self) -> (r: (i64, i64))
        ensures
            r == (self.start_spec(), self.delta_spec()),
    {
        (self.startx, self.delx)
    }
}

/// A list of number arrays.
#[derive(Debug, Clone)]
pub struct Numaa {
    arrays: Vec<Numa>,
}

impl View for Numaa {
    type V = Seq<Seq<i64>>;

    closed spec fn view(&self) -> Seq<Seq<i64>> {
        self.arrays@.map_values(|n: Numa| n@)
    }
}

impl Numaa {
    /// An empty list.
    pub fn new() -> (r: Numaa)
        ensures
            r@ == Seq::<Seq<i64>>::empty(),
    {
        Numaa { arrays: Vec::new() }
    }

    /// An empty list with room for `n` arrays.
    pub fn with_capacity(n: usize) -> (r: Numaa)
        ensures
            r@ == Seq::<Seq<i64>>::empty(),
    {
        Numaa { arrays: Vec::with_capacity(n) }
    }

    /// Appends an array.
    pub fn push(&mut self, n: Numa)
        ensures
            final(self)@ == old(self)@.push(n@),
    {
        let ghost before = self.arrays@;
        self.arrays.push(n);
        proof {
            assert(self.arrays@.map_values(|a: Numa| a@) =~= before.map_values(|a: Numa| a@).push(n@));
        }
    }

    /// The number of arrays.
    pub fn len(&self) -> (r: usize)
        ensures
            r == self@.len(),
    {
        self.arrays.len()
    }

    /// The array at `i`, if there is one.
    pub fn get(&self, i: usize) -> (r: Option<&Numa>)
        ensures
            i < self@.len() ==> (r matches Some(n) && n@ == self@[i as int]),
            i >= self@.len() ==> r is None,
    {
        if i < self.arrays.len() {
            Some(&self.arrays[i])
        } else {
            None
        }
    }
}

} // verus!
