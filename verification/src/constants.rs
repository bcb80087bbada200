//! Integer constants of the system that are counts and must never be zero.
use vstd::prelude::*;

verus! {

/// A count that is never zero, so dividing by it or looping over it is
/// always meaningful. The raw value is read with [`NonZeroCount::get`].
#[derive(Clone, Copy, Debug, PartialEq, Eq)]
pub struct NonZeroCount(usize);

impl NonZeroCount {
    #[verifier::type_invariant]
    spec fn nonzero(self) -> bool {
        self.0 != 0
    }

    /// The raw value.
    pub closed spec fn value(self) -> usize {
        self.0
    }

    /// A non-zero count, or `None` for zero.
    pub fn new(n: usize) -> (r: Option<NonZeroCount>)
        ensures
            r is Some <==> n != 0,
            r matches Some(c) ==> c.value() == n,
    {
        if n != 0 {
            Some(NonZeroCount(n))
        } else {
            None
        }
    }

    /// The raw value, which is never zero.
    pub fn get(self) -> (r: usize)
        ensures
            r == self.value(),
            r != 0,
    {
        proof {
            use_type_invariant(&self);
        }
        self.0
    }
}

/// Default sliding window (in iterations) of the Fisher satiation gate: the
/// gate fires when the Fisher gradient stays below its threshold for this
/// many consecutive iterations.
pub fn fisher_satiation_window() -> (w: NonZeroCount)
    ensures
        w.value() == 50,
{
    NonZeroCount(50)
}

/// Upper bound on Sinkhorn iterations.
pub fn sinkhorn_max_iter() -> (m: NonZeroCount)
    ensures
        m.value() == 1000,
{
    NonZeroCount(1000)
}

} // verus!
