//! A verified Lights Out puzzle.
//!
//! A board is a rectangular grid of lit/unlit cells.  A move toggles one
//! cell together with its orthogonal neighbours; the goal is the fully lit
//! grid.  The solver searches the space of reachable boards breadth-first
//! and returns a shortest solving move sequence, or reports that the goal
//! is unreachable.

pub mod board;
pub mod solver;
