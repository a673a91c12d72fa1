//! A verified solver for domino-placement logic puzzles.
//!
//! A puzzle is a grid of cells partitioned into rule regions together with an
//! inventory of dominoes. Each domino covers two orthogonally adjacent cells;
//! a solution covers every cell exactly once while satisfying every region's
//! arithmetic or equality constraint. The solver is an exhaustive backtracking
//! search with forward checking through a three-valued region evaluator.

pub mod cli;
pub mod grid;
pub mod render;
pub mod rules;
pub mod solver;
