//! What the language bindings decide and compute.

pub mod changes;
pub mod errors;
pub mod ids;
pub mod import;
pub mod query_result;
pub mod requests;
pub mod signed_snapshot;
pub mod stream;
