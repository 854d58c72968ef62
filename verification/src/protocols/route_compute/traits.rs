//! The interface of a route computation.

use vstd::prelude::*;

verus! {

/// A computation from an input to an output that keeps no state between calls.
pub trait RouteComputeEngine {
    type Input;

    type Output;

    fn compute(&self, input: &Self::Input) -> Self::Output;
}

} // verus!
