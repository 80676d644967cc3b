use vstd::prelude::*;

verus! {

/// Ways in which building or filtering blocks can fail.
#[derive(Clone, Copy, Debug, PartialEq, Eq, Structural)]
pub enum BlockError {
    /// The block length is zero or does not fit the platform's index width.
    InvalidBlockLength,
    /// A region whose end does not lie after its start.
    MalformedRegion,
    /// A block whose end does not lie after its start.
    DegenerateBlock,
    /// Blocks handed to the distance filter overlap or are out of order.
    InvariantViolation,
}

} // verus!
