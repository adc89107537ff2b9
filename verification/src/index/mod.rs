//! Indexes.

pub mod ring;
