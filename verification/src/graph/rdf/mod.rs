//! RDF terms and triples.

pub mod dictionary;
pub mod term;
pub mod triple;
