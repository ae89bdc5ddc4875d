//! The errors of the library.

use vstd::prelude::*;

verus! {

/// The reasons for which an average distance cannot be estimated.
#[derive(Debug, Clone, Copy, PartialEq, Eq, Structural)]
pub enum EstimateError {
    /// The source of the edge list cannot be opened or read.
    InputUnavailable,
    /// The input holds no valid edge.
    EmptyInput,
    /// Fewer than two vertices can be reached from the start vertex.
    InsufficientReachableVertices,
    /// The sampler ran out of attempts without forming a single pair.
    NoPairsFormed,
    /// None of the sampled pairs is joined by a path.
    AllPairsUnreachable,
}

} // verus!
