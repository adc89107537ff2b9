//! What the command line decides and computes.

pub mod arrow;
pub mod data;
pub mod formatter;
