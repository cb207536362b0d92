//! Analyses that sit on top of the graph utilities.

pub mod verify;
