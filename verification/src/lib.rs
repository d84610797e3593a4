//! Exact d-dimensional Delaunay triangulations over integer coordinates.
//!
//! The crate keeps a registry of vertices and maximal cells, builds a bounding
//! supercell and inserts the vertices one at a time with the Bowyer-Watson
//! procedure. Every geometric decision is taken with exact integer
//! determinants, and every function carries a machine-checked contract.

use vstd::prelude::*;

pub mod delaunay_core;

verus! {

/// The bounds of coordinate arrays.
pub trait Coord: Copy + Default + Sized {
}

impl<T: Copy + Default + Sized> Coord for T {
}

/// The bounds of wide coordinate arrays, which need not be `Copy`.
pub trait Coordf64: Default + Sized {
}

impl<T: Default + Sized> Coordf64 for T {
}

/// Tells whether `T` has the auto traits that let a value cross threads
/// and be moved after pinning. It is decided when the call is compiled, so
/// a call that compiles returns `true`.
pub fn is_normal<T: Sized + Send + Sync + Unpin>() -> (normal: bool)
    ensures
        normal,
{
    true
}

} // verus!
