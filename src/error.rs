use vstd::prelude::*;

verus! {

/// Errors for fallible operations.
#[derive(Debug, Clone, Copy, PartialEq, Eq, Structural)]
#[non_exhaustive]
pub enum SgError {
    /// Cannot construct an instance: the maximum supported capacity is exceeded.
    MaximumCapacityExceeded,
    /// The requested operation cannot complete: the fixed storage is full.
    StackCapacityExceeded,
    /// The requested rebalance factor lies outside `[0.5, 1.0)`.
    RebalanceFactorOutOfRange,
}

} // verus!
