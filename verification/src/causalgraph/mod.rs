//! The causal graph: which operation was made knowing which others.

pub mod conflicting;
pub mod diff;
pub mod dominators;
pub mod graph;
pub mod laws;
pub mod queue;
pub mod tools;
