//! A solver for 9×9 Sudoku puzzles that finds every grid that solves a
//! puzzle: it narrows the digits that each cell may hold by elimination, and
//! searches case by case where elimination alone does not decide.
//!
//! * [`rules`] states what a puzzle and a solved grid are.
//! * [`candidates`] models the state of a grid that is being solved.
//! * [`search`] defines, as mathematics, the grids that the search finds and
//!   their order, and proves that they are the solutions of the puzzle.
//! * [`board`] holds the grids and cells that the engine works on.
//! * [`solver`] is the engine.
//! * [`text`] reads puzzles from text and writes grids as text.

pub mod board;
pub mod candidates;
pub mod rules;
pub mod search;
pub mod solver;
pub mod text;
