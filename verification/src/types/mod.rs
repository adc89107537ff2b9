//! The values that columns, rows and query results hold.

pub mod float;
pub mod order;
pub mod value;
