use vstd::prelude::*;

verus! {

/// Every failure the index engine can report to its caller.
///
/// All kinds are surfaced; none is logged and swallowed.
#[derive(Clone, Copy, Debug, PartialEq, Eq, Structural)]
pub enum VectorError {
    /// Two operands, or a query and an index, disagree in dimension.
    DimensionMismatch,
    /// A requested cluster count of zero.
    InvalidK,
    /// The corpus holds fewer vectors than the requested cluster count.
    InsufficientData,
    /// No vectors at all were handed to the index builder.
    EmptyCorpus,
    /// A zero-norm operand in a cosine-similarity computation.
    DegenerateVector,
    /// A cooperative cancellation was observed between build iterations.
    BuildCancelled,
}

} // verus!
