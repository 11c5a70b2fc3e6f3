//! An AIR wrapper that declares a fixed number of public values (the statement digest) and
//! leaves the inner AIR's constraints unchanged; the digest binds each sub-proof's transcript to
//! one statement without entering any constraint.
use vstd::prelude::*;

verus! {

/// Wraps `inner` and reports `num_public_values`; every other AIR property is the inner one's.
#[derive(Clone, Debug)]
pub struct StatementBoundAir<A> {
    inner: A,
    num_public_values: usize,
}

impl<A> StatementBoundAir<A> {
    /// The wrapped AIR.
    pub closed spec fn inner_view(&self) -> A {
        self.inner
    }

    /// The declared number of public values.
    pub closed spec fn num_public_values_view(&self) -> usize {
        self.num_public_values
    }

    /// Wrap `inner`, declaring `num_public_values` public values.
    pub fn new(inner: A, num_public_values: usize) -> (air: Self)
        ensures
            air.inner_view() == inner,
            air.num_public_values_view() == num_public_values,
    {
        StatementBoundAir { inner, num_public_values }
    }

    /// The wrapped AIR.
    pub fn inner(&self) -> (r: &A)
        ensures
            *r == self.inner_view(),
    {
        &self.inner
    }

    /// The declared number of public values.
    pub fn num_public_values(&self) -> (n: usize)
        ensures
            n == self.num_public_values_view(),
    {
        self.num_public_values
    }
}

} // verus!
