//! Verified building blocks of an embedded graph database.

pub mod algorithms;
pub mod bindings;
pub mod cli;
pub mod codec;
pub mod execution;
pub mod graph;
pub mod index;
pub mod json;
pub mod le;
pub mod storage;
pub mod testing;
pub mod text;
pub mod trusted;
pub mod types;
