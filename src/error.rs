//! Errors surfaced by the format layer and the store runtime.
use vstd::prelude::*;

verus! {

/// Errors of the format layer and the store runtime.
#[derive(Clone, Copy, Debug, PartialEq, Eq, Structural)]
pub enum RvfError {
    /// A buffer is shorter than the structure read from it.
    SizeMismatch { expected: usize, got: usize },
    /// A structure does not start with its magic number.
    BadMagic { expected: u32, got: u32 },
    /// The segment with this sequence number fails a check.
    CorruptSegment { sequence: u64 },
    /// No valid manifest could be recovered from the file.
    TornManifest,
    /// The caller's query budget is spent for the current interval.
    BudgetExceeded,
    /// An expensive query needs a proof of work.
    ProofOfWorkRequired,
    /// The presented proof of work does not meet the difficulty.
    ProofOfWorkInvalid,
    /// Another writer holds the store's lock.
    LockContention,
    /// The store is not in a state that allows the operation.
    InvalidState,
    /// A vector does not have the store's dimension.
    DimensionMismatch { expected: u32, got: usize },
    /// A counter or size would leave its integer range.
    CapacityExceeded,
}

} // verus!
