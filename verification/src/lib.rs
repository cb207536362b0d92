//! Strongly-connected-component utilities over plain successor graphs.

pub mod analysis;
pub mod graphs;
