//! Everything that is taken on trust: the contracts of the outside crates and
//! of the parts of `std` that have no specification of their own.

pub mod buffer;
pub mod checksum;
pub mod json;
pub mod mac;
pub mod shared_str;
pub mod term_map;
pub mod text;
