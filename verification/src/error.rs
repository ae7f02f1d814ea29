//! The ways in which an operation of this library can fail.

use vstd::prelude::*;

verus! {

/// Every failure is reported to the caller as one of these values; an
/// operation that fails leaves the shards it was given as they were.
#[derive(Clone, Copy, Debug, PartialEq, Eq, Structural)]
pub enum Error {
    /// A shard count is zero, or data and parity shards together exceed
    /// the 256 elements of the field.
    InvalidShardCount,
    /// The rows handed to the matrix inversion are linearly dependent.
    MatrixNotInvertible,
    /// The shards of one set do not all have the same length.
    InconsistentShardLength,
    /// More shards are absent than there are parity shards.
    TooManyMissingShards,
    /// A field element was divided by zero.
    DivisionByZero,
}

} // verus!
