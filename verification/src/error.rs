use vstd::prelude::*;

verus! {

/// A precondition violation detected at a component boundary.
///
/// Every failure of the pipeline is one of these; none is retried,
/// since each computation is deterministic in its inputs.
#[derive(Clone, Copy, PartialEq, Eq, Structural, Debug)]
pub enum Error {
    /// A degenerate or inverted interval, or one too short to hold the
    /// requested grid at the library's fixed-point resolution.
    InvalidDomain,
    /// An empty sample or point sequence.
    EmptyInput,
    /// A filter order larger than the number of samples, for which the
    /// fit would be ill-conditioned.
    IllConditionedOrder,
}

} // verus!
