//! The read-only columnar store.

pub mod block;
pub mod column;
pub mod zone_map;
