use vstd::prelude::*;

verus! {

/// Seal: only the marker types of this crate implement it.
pub trait Sealed {}

} // verus!
