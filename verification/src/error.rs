//! The failures that the storage stack reports to its caller.

use vstd::prelude::*;

verus! {

/// A request that the stack turned down. The medium and the stack's own state
/// are as they were before the request.
#[derive(Clone, Copy, Debug, PartialEq, Eq, Structural)]
pub enum FlashError {
    /// A replacement block was needed and the reserved region has none left.
    NoSpareBlock,
    /// A replacement block was needed and cannot be recorded: the mapping
    /// block is full, or the count of bad blocks is at its limit.
    RemapLimit,
    /// The error-correcting scheme was selected, or found in a stored
    /// signature; it is reserved and not built.
    UnimplementedScheme,
}

} // verus!
