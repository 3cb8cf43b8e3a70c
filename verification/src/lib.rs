//! Weighted A* search for the 8-puzzle, with machine-checked contracts.
//!
//! * [`board`] models a puzzle configuration and the legal slides of the blank.
//! * [`heuristics`] estimates the remaining cost of a configuration.
//! * [`min_heap`] is the priority queue that orders the open configurations.
//! * [`search`] is the search engine itself.

pub mod board;
pub mod heuristics;
pub mod min_heap;
pub mod search;
