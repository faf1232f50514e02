//! Verified engine for a 2048-style sliding-tile puzzle.
//!
//! The library owns the grid model, the slide/merge algorithm, the
//! transpose-based generalization to all four directions, tile spawning and
//! game-over detection.  Terminal rendering and keyboard input are left to
//! the surrounding binary.
use vstd::prelude::*;

pub mod board;
pub mod game;
pub mod grids;
pub mod logic;
pub mod rows;

verus! {

/// Width and height of the square grid.
pub const SIZE: usize = 4;

} // verus!
