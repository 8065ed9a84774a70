//! The faults that the sandbox reports.

use vstd::prelude::*;

verus! {

/// What went wrong in an operation of the sandbox.
#[derive(Clone, Copy, Debug, PartialEq, Eq, Structural)]
pub enum SimError {
    /// The handle names no live particle: it is stale or was never issued.
    InvalidHandle,
    /// The target cell already holds a particle.
    CellOccupied,
    /// The configuration is unusable: an unknown material code, or grid
    /// dimensions outside the supported range.
    ConfigurationError,
}

} // verus!
