//! The ring index: a set of RDF triples in little space.
//!
//! Three full indexes would store each triple three times. The ring stores it once:
//! a dictionary turns terms into small numbers, a wavelet tree holds each column,
//! and two permutations lead from one order of the triples to the others.

pub mod packed_dict;
pub mod packed_format;
pub mod packed_permutation;
pub mod packed_wavelet;
pub mod permutation;
pub mod triple_ring;

pub use packed_dict::PackedDictError;
pub use packed_format::{deserialize_triple_ring, serialize_triple_ring, PackedRingError};
pub use packed_permutation::{
    deserialize_permutation, serialize_permutation, PackedPermutationError,
};
pub use packed_wavelet::{deserialize_wavelet_tree, serialize_wavelet_tree, PackedWaveletError};
pub use permutation::SuccinctPermutation;
pub use triple_ring::{TripleRing, TripleRingInvariantError};
