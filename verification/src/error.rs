//! The errors a grid or an engine can report.

use vstd::prelude::*;

verus! {

/// Why an operation on a grid or an engine was refused.
#[derive(Clone, Copy, Debug, PartialEq, Eq, Structural)]
pub enum GridError {
    /// A coordinate lies outside the grid (or names a slot that was never filled).
    OutOfBounds,
    /// A grid with a zero side was asked for.
    InvalidDimensions,
    /// A cell with a strength outside `0..=COMBAT_CAP` was offered.
    InvalidStrength,
}

} // verus!
