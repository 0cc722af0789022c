use vstd::prelude::*;

verus! {

/// A trait for state and action types that can be used as keys in a lookup
/// table.
pub trait Hashable: Copy + core::cmp::Eq + core::hash::Hash {

}

impl<T: Copy + core::cmp::Eq + core::hash::Hash> Hashable for T {

}

} // verus!
