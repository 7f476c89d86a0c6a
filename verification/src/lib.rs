//! An in-memory task list with a single-level undo stack.
//!
//! A [`store::TaskManager`] owns an ordered collection of tasks and a stack of
//! reversal entries; every mutating operation pushes the entry that exactly
//! reverses it, and `undo` replays the most recent entry.

pub mod model;
pub mod laws;
pub mod render;
pub mod store;
