//! Pluggable peer-scoring heuristics and their weighted combination.

pub mod combine;
pub mod random;
pub mod richness;
