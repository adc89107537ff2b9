//! Graph storage.

pub mod compact;
pub mod rdf;
pub mod store;
