//! The cell model: a colour tag paired with an integer strength.

use vstd::prelude::*;

verus! {

/// Upper bound on the strength a cell can reach by winning fights.
///
/// The two caps are separate on purpose: painting always writes
/// `Cell::max_strength`, fights can raise a cell up to `COMBAT_CAP`, and
/// `Cell::max_strength <= COMBAT_CAP`, so every cell stays within
/// `0..=COMBAT_CAP`.
pub const COMBAT_CAP: i32 = 10;

/// The colour of a cell. `White` marks an empty cell, not a fourth player.
#[derive(Clone, Copy, Debug, PartialEq, Eq, Structural)]
pub enum Color {
    Red,
    Green,
    Blue,
    White,
}

/// One slot of the grid.
#[derive(Clone, Copy, Debug, PartialEq, Eq, Structural)]
pub struct Cell {
    pub strength: i32,
    pub color: Color,
}

/// The empty cell: `White` with strength zero.
pub open spec fn empty_cell() -> Cell {
    Cell { strength: 0, color: Color::White }
}

/// `0 <= strength <= COMBAT_CAP`.
pub open spec fn within_cap(c: Cell) -> bool {
    0 <= c.strength <= COMBAT_CAP
}

impl Default for Cell {
    fn default() -> (r: Self)
        ensures
            r == empty_cell(),
    {
        Cell { strength: 0, color: Color::White }
    }
}

impl Cell {
    /// The strength of a freshly painted cell (the paint cap).
    #[allow(non_upper_case_globals)]
    pub const max_strength: i32 = 4;
}

} // verus!
