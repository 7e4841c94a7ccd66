//! Cyclic-dominance ("rock-paper-scissors") cellular automaton on a dense grid.
//!
//! Every cell carries a colour and a strength. On each tick every coloured
//! cell meets one randomly chosen neighbour: it spreads into empty space,
//! wears down the colour it beats, or does nothing. A tick is computed from
//! the previous generation only and replaces it as a whole.

pub mod array;
pub mod automata;
pub mod cell;
pub mod error;
pub mod generation;
pub mod random;
pub mod rules;
