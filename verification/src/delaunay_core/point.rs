//! Points of d-dimensional space with integer coordinates.

use vstd::prelude::*;

verus! {

/// A point of `D`-dimensional space. A point has no identity of its own:
/// two points with the same coordinates are interchangeable.
#[derive(Clone, Copy, Debug)]
pub struct Point<const D: usize> {
    /// The coordinates, one for each axis.
    pub coords: [i64; D],
}

impl<const D: usize> View for Point<D> {
    type V = Seq<int>;

    /// The coordinates as mathematical integers.
    open spec fn view(&self) -> Seq<int> {
        Seq::new(D as nat, |i: int| self.coords[i] as int)
    }
}

impl<const D: usize> PartialEq for Point<D> {
    /// Points are equal where their coordinates are.
    fn eq(&self, other: &Self) -> (same: bool) {
        self.same_coordinates(other)
    }
}

impl<const D: usize> vstd::std_specs::cmp::PartialEqSpecImpl for Point<D> {
    open spec fn obeys_eq_spec() -> bool {
        true
    }

    open spec fn eq_spec(&self, other: &Self) -> bool {
        self@ == other@
    }
}

impl<const D: usize> Point<D> {
    /// The point with the given coordinates.
    pub fn new(coords: [i64; D]) -> (point: Self)
        ensures
            point.coords == coords,
    {
        Point { coords }
    }

    /// The number of coordinates.
    pub fn dim(&self) -> (d: usize)
        ensures
            d == D,
    {
        D
    }

    /// Whether both points have the same coordinates.
    pub fn same_coordinates(&self, other: &Point<D>) -> (same: bool)
        ensures
            same <==> self@ == other@,
    {
        let mut i: usize = 0;
        while i < D
            invariant
                i <= D,
                forall|k: int| 0 <= k < i ==> self@[k] == other@[k],
            decreases D - i,
        {
            if self.coords[i] != other.coords[i] {
                assert(self@[i as int] != other@[i as int]);
                return false;
            }
            i += 1;
        }
        assert(self@ =~= other@);
        true
    }
}

} // verus!
