//! Graph algorithms.

pub mod automorphism;
pub mod isomorphism;
pub mod params;
