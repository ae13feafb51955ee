use vstd::prelude::*;

verus! {

/// The ways in which an operation on a chunk list can be refused.
#[derive(Debug, Clone, Copy, PartialEq, Eq, Structural)]
pub enum ChunkListError {
    /// A global index was not below the number of elements held.
    IndexOutOfRange,
    /// A chunk size of zero was asked for.
    InvalidCapacity,
}

} // verus!
