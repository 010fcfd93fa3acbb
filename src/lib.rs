//! Solvers for four small line-oriented puzzles (calibration digits, cube
//! games, engine schematics and scratchcards) plus a snack-pack tally, each
//! stated against a mathematical model of its input and proved with Verus.
use vstd::prelude::*;

pub mod text;
pub mod calibration;
pub mod scratchcard;
pub mod schematic;
pub mod cube_game;
pub mod snack_packs;

verus! {

} // verus!
