//! Solvers for a set of grid, list and machine puzzles, with their rules
//! stated as contracts and proved.
//!
//! Each module under [`days`] holds the rules of one puzzle as plain functions
//! on plain values; reading input and printing answers is left to the caller.

pub mod days;
pub mod names;
pub mod plane;
pub mod slots;
pub mod text;
