//! Two independent cores of a source-control server: a Git-compatible binary
//! delta encoder and a tiered, read-through entity cache coordinator.

pub mod delta;
pub mod cache;
