//! Query execution.

pub mod chunk;
pub mod scan;
pub mod sort;
pub mod spill_state;
