//! Column codecs.

pub mod bitpack;
pub mod block;
pub mod dictionary;
pub mod succinct;
