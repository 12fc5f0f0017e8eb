//! A constraint-propagation solver for 9x9 sudoku puzzles.
//!
//! A board holds 81 cells; each cell is either settled on a digit or keeps
//! the set of digits still possible for it. Solving repeatedly walks the 27
//! constraint groups (rows, columns, boxes), erases every digit already
//! settled in a group from the candidates of the group's open cells, and
//! stops at a fixed point, at a contradiction, or when every cell is settled.

pub mod board;
pub mod cell;
pub mod laws;
pub mod text;
