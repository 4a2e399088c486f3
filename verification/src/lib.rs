//! Core of an interactive simulator for the L3/L3X grid dataflow language.
//!
//! Register values are positive integers kept as sorted prime-factorization
//! lists; travelers carry such values across a grid of instruction cells, and
//! the matrix engine advances all travelers simultaneously once per tick.

use vstd::prelude::*;

pub mod direction;
pub mod registers;
pub mod numeral;
pub mod l3x;
pub mod coords;
pub mod swapbuffer;
pub mod coord_map;
pub mod traveler;
pub mod matrix;
pub mod edit;
pub mod file;
pub mod sound;
pub mod const_vec;

verus! {

} // verus!
