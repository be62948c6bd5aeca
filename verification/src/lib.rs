//! A minesweeper engine whose boards are solvable by pure deduction.
//!
//! The heart of the crate is a constraint-propagation solver over `Hint`s
//! ("exactly `bombs` of these `squares` are mines"), a solvability oracle
//! that replays the chain of deductions from a single starting reveal, and
//! a rejection-sampling generator that only accepts solvable boards.

pub mod cells;
pub mod hint;
pub mod solver;
pub mod minesweeper;
pub mod ng_minesweeper;
