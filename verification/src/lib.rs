//! Verified Tower of Hanoi: the puzzle state, the recursive solver, and the
//! textual rendering of each frame.

pub mod render;
pub mod solver;
pub mod state;
