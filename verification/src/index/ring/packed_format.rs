//! The packed form of a ring.
//!
//! ```text
//! header (64 bytes):
//!     0..4    magic "GRFR"
//!     4       version, 2
//!     5..8    zero
//!     8..16   number of triples, as eight little-endian bytes
//!     16..64  where the six sections begin, as eight little-endian bytes each
//! sections:
//!     dictionary
//!     subjects, predicates, objects (wavelet trees)
//!     how triples move to the second and to the third order (permutations)
//! trailer (4 bytes): CRC-32 of everything before it, little-endian
//! ```
//!
//! With the beginnings in the header, a reader gets at each section without
//! walking through those before it.

use bytes::Bytes;
use vstd::prelude::*;
use vstd::std_specs::convert::FromSpecImpl;
use vstd::string::StringExecFns;

use crate::codec::succinct::symbol_at;
use crate::codec::succinct::WaveletTree;
use crate::graph::rdf::dictionary::TermDictionary;
use crate::graph::rdf::term::is_term;
use crate::graph::rdf::triple::TripleModel;
use crate::index::ring::packed_dict::{
    deserialize_term_dictionary, serialize_term_dictionary, PackedDictError,
};
use crate::index::ring::packed_dict::{
    dict_error_text, dict_parsed, law_dict_round_trip, packed_dict,
};
use crate::index::ring::packed_permutation::{
    deserialize_permutation, serialize_permutation, PackedPermutationError,
};
use crate::index::ring::packed_permutation::{
    law_permutation_round_trip, packed_permutation, permutation_error_text, permutation_parsed,
};
use crate::index::ring::packed_wavelet::{
    deserialize_wavelet_tree, serialize_wavelet_tree, PackedWaveletError,
};
use crate::index::ring::packed_wavelet::{
    law_parts_fix_symbols, law_wavelet_round_trip, packed_wavelet, parts_valid, raw_bits,
    wavelet_error_text, wavelet_parsed, wavelet_parts, WaveletParts,
};
use crate::index::ring::permutation::is_bijection;
use crate::index::ring::permutation::SuccinctPermutation;
use crate::index::ring::triple_ring::{ring_fault, ring_fault_text, ring_triples, tree_column};
use crate::index::ring::triple_ring::{TripleRing, TripleRingInvariantError};
use crate::le::{
    le_bytes, le_u64s, le_value, lemma_first_four, lemma_le_bytes_len, lemma_le_bytes_of_value,
    lemma_le_value_bound,
    lemma_le_value_of_bytes, lemma_pow256, lemma_u64s_round_trip, u64s_of,
};
use crate::le::{push_u32_le, push_u64_le, push_u64s_le, read_u32_le, read_u64_le};
use crate::text::{decimal, hex8};
use crate::text::{push_decimal, push_hex8};
use crate::trusted::buffer::bytes_content;
use crate::trusted::buffer::{bytes_as_slice, bytes_slice};
use crate::trusted::checksum::crc32;
use crate::trusted::checksum::{changed_at, crc32_of};

verus! {

/// The length of the header.
pub const HEADER_SIZE: usize = 64;

/// The length of the trailer.
pub const TRAILER_SIZE: usize = 4;

/// Why a packed ring cannot be read.
#[derive(Debug, Clone, Copy, PartialEq, Eq)]
pub enum PackedRingError {
    /// The bytes end before the header and the trailer do.
    TruncatedHeader,
    /// The magic is not "GRFR".
    BadMagic,
    /// The version is not known.
    UnsupportedVersion(u8),
    /// A section begins outside the bytes, or not after the one before it.
    OffsetOutOfBounds {
        /// The section.
        section: &'static str,
        /// Where it is said to begin.
        offset: u64,
    },
    /// The trailer is not the checksum of the bytes.
    ChecksumMismatch {
        /// What the trailer says.
        expected: u32,
        /// The checksum of the bytes.
        actual: u32,
    },
    /// The dictionary cannot be read.
    Dict(PackedDictError),
    /// A wavelet tree cannot be read.
    Wavelet(PackedWaveletError),
    /// A permutation cannot be read.
    Permutation(PackedPermutationError),
    /// The header says another number of triples than the sections hold.
    NumTriplesMismatch {
        /// What the header says.
        declared: usize,
        /// What the sections hold.
        observed: usize,
    },
    /// The sections make no ring.
    RingInvariantViolation(TripleRingInvariantError),
}

/// The text of an error.
pub open spec fn ring_error_text(e: PackedRingError) -> Seq<char> {
    match e {
        PackedRingError::TruncatedHeader => "ring v2 header truncated"@,
        PackedRingError::BadMagic => "ring v2 bad magic (expected 'GRFR')"@,
        PackedRingError::UnsupportedVersion(v) => "ring v2 unsupported version "@ + decimal(
            v as nat,
        ),
        PackedRingError::OffsetOutOfBounds { section, offset } =>
        "ring v2 offset out of bounds: section '"@ + section@ + "' at "@ + decimal(offset as nat),
        PackedRingError::ChecksumMismatch { expected, actual } =>
        "ring v2 CRC mismatch: expected "@ + hex8(expected) + ", got "@ + hex8(actual),
        PackedRingError::Dict(e) => "ring v2 dictionary parse error: "@ + dict_error_text(e),
        PackedRingError::Wavelet(e) => "ring v2 wavelet parse error: "@ + wavelet_error_text(e),
        PackedRingError::Permutation(e) => "ring v2 permutation parse error: "@
            + permutation_error_text(e),
        PackedRingError::NumTriplesMismatch { declared, observed } =>
        "ring v2 num_triples mismatch: declared "@ + decimal(declared as nat) + ", observed "@
            + decimal(observed as nat),
        PackedRingError::RingInvariantViolation(e) => "ring v2 ring invariant violation: "@
            + ring_fault_text(e),
    }
}

impl PackedRingError {
    /// The text of the error.
    #[must_use]
    pub fn message(&self) -> (r: String)
        ensures
            r@ == ring_error_text(*self),
    {
        let mut out: String = String::new();
        match self {
            PackedRingError::TruncatedHeader => out.append("ring v2 header truncated"),
            PackedRingError::BadMagic => out.append("ring v2 bad magic (expected 'GRFR')"),
            PackedRingError::UnsupportedVersion(v) => {
                out.append("ring v2 unsupported version ");
                push_decimal(&mut out, *v as u64);
            },
            PackedRingError::OffsetOutOfBounds { section, offset } => {
                out.append("ring v2 offset out of bounds: section '");
                out.append(section);
                out.append("' at ");
                push_decimal(&mut out, *offset);
            },
            PackedRingError::ChecksumMismatch { expected, actual } => {
                out.append("ring v2 CRC mismatch: expected ");
                push_hex8(&mut out, *expected);
                out.append(", got ");
                push_hex8(&mut out, *actual);
            },
            PackedRingError::Dict(e) => {
                out.append("ring v2 dictionary parse error: ");
                e.push_text(&mut out);
            },
            PackedRingError::Wavelet(e) => {
                out.append("ring v2 wavelet parse error: ");
                out.append(e.message().as_str());
            },
            PackedRingError::Permutation(e) => {
                out.append("ring v2 permutation parse error: ");
                out.append(e.message().as_str());
            },
            PackedRingError::NumTriplesMismatch { declared, observed } => {
                out.append("ring v2 num_triples mismatch: declared ");
                push_decimal(&mut out, *declared as u64);
                out.append(", observed ");
                push_decimal(&mut out, *observed as u64);
            },
            PackedRingError::RingInvariantViolation(e) => {
                out.append("ring v2 ring invariant violation: ");
                e.push_text(&mut out);
            },
        }
        assert(out@ =~= ring_error_text(*self));
        out
    }
}

impl From<PackedDictError> for PackedRingError {
    fn from(e: PackedDictError) -> (r: Self) {
        PackedRingError::Dict(e)
    }
}

impl FromSpecImpl<PackedDictError> for PackedRingError {
    open spec fn obeys_from_spec() -> bool {
        true
    }

    open spec fn from_spec(e: PackedDictError) -> Self {
        PackedRingError::Dict(e)
    }
}

impl From<PackedWaveletError> for PackedRingError {
    fn from(e: PackedWaveletError) -> (r: Self) {
        PackedRingError::Wavelet(e)
    }
}

impl FromSpecImpl<PackedWaveletError> for PackedRingError {
    open spec fn obeys_from_spec() -> bool {
        true
    }

    open spec fn from_spec(e: PackedWaveletError) -> Self {
        PackedRingError::Wavelet(e)
    }
}

impl From<PackedPermutationError> for PackedRingError {
    fn from(e: PackedPermutationError) -> (r: Self) {
        PackedRingError::Permutation(e)
    }
}

impl FromSpecImpl<PackedPermutationError> for PackedRingError {
    open spec fn obeys_from_spec() -> bool {
        true
    }

    open spec fn from_spec(e: PackedPermutationError) -> Self {
        PackedRingError::Permutation(e)
    }
}

impl From<TripleRingInvariantError> for PackedRingError {
    fn from(e: TripleRingInvariantError) -> (r: Self) {
        PackedRingError::RingInvariantViolation(e)
    }
}

impl FromSpecImpl<TripleRingInvariantError> for PackedRingError {
    open spec fn obeys_from_spec() -> bool {
        true
    }

    open spec fn from_spec(e: TripleRingInvariantError) -> Self {
        PackedRingError::RingInvariantViolation(e)
    }
}

/// What a packed ring holds.
#[verifier::ext_equal]
pub ghost struct RingParts {
    /// The terms by id.
    pub terms: Seq<(u8, Seq<char>, Seq<char>)>,
    /// The column of subjects.
    pub subjects: WaveletParts,
    /// The column of predicates.
    pub predicates: WaveletParts,
    /// The column of objects.
    pub objects: WaveletParts,
    /// How triples move to the second order.
    pub spo_to_pos: Seq<usize>,
    /// How triples move to the third order.
    pub spo_to_osp: Seq<usize>,
}

/// The parts of a ring.
pub open spec fn ring_parts(ring: TripleRing) -> RingParts {
    RingParts {
        terms: ring.terms(),
        subjects: wavelet_parts(ring.subjects_tree()),
        predicates: wavelet_parts(ring.predicates_tree()),
        objects: wavelet_parts(ring.objects_tree()),
        spo_to_pos: ring.pos_targets(),
        spo_to_osp: ring.osp_targets(),
    }
}

/// The symbols of a column, position by position.
pub open spec fn parts_column(parts: WaveletParts) -> Seq<Option<u64>> {
    Seq::new(
        parts.len,
        |i: int| symbol_at(raw_bits(parts.levels, parts.len), parts.len, parts.symbols, i),
    )
}

/// The triples that parts hold.
pub open spec fn parts_triples(parts: RingParts) -> Seq<TripleModel> {
    ring_triples(
        parts.terms,
        parts_column(parts.subjects),
        parts_column(parts.predicates),
        parts_column(parts.objects),
        parts.spo_to_pos,
        parts.spo_to_osp,
    )
}

/// What is wrong with parts, if anything.
pub open spec fn ring_parts_fault(parts: RingParts, n: usize) -> Option<TripleRingInvariantError> {
    ring_fault(
        parts.terms.len(),
        n,
        parts_column(parts.subjects),
        parts_column(parts.predicates),
        parts_column(parts.objects),
        parts.spo_to_pos.len(),
        parts.spo_to_osp.len(),
    )
}

/// The parts hold a ring.
pub open spec fn ring_parts_valid(parts: RingParts) -> bool {
    &&& forall|i: int| #![trigger parts.terms[i]]
        0 <= i < parts.terms.len() ==> is_term(parts.terms[i])
    &&& parts.terms.no_duplicates()
    &&& parts.terms.len() <= u32::MAX
    &&& parts_valid(parts.subjects)
    &&& parts_valid(parts.predicates)
    &&& parts_valid(parts.objects)
    &&& is_bijection(parts.spo_to_pos)
    &&& is_bijection(parts.spo_to_osp)
    &&& parts.subjects.len <= usize::MAX
    &&& ring_parts_fault(parts, parts.subjects.len as usize) is None
}

/// The first eight bytes: magic, version and zeros.
pub open spec fn ring_magic() -> Seq<u8> {
    seq![0x47u8, 0x52u8, 0x46u8, 0x52u8, 2u8, 0u8, 0u8, 0u8]
}

/// The packed forms of the six sections.
pub open spec fn ring_sections(parts: RingParts) -> Seq<Seq<u8>> {
    seq![
        packed_dict(parts.terms),
        packed_wavelet(parts.subjects),
        packed_wavelet(parts.predicates),
        packed_wavelet(parts.objects),
        packed_permutation(parts.spo_to_pos),
        packed_permutation(parts.spo_to_osp),
    ]
}

/// The first `k` sections, one after the other.
pub open spec fn joined(sections: Seq<Seq<u8>>, k: nat) -> Seq<u8>
    decreases k,
{
    if k == 0 {
        Seq::empty()
    } else {
        joined(sections, (k - 1) as nat) + sections[k - 1]
    }
}

/// Where section `k` begins.
pub open spec fn section_start(sections: Seq<Seq<u8>>, k: nat) -> nat {
    64 + joined(sections, k).len()
}

/// Where the six sections begin.
pub open spec fn section_starts(sections: Seq<Seq<u8>>) -> Seq<u64> {
    Seq::new(6, |k: int| section_start(sections, k as nat) as u64)
}

/// The header.
pub open spec fn ring_header(n: nat, sections: Seq<Seq<u8>>) -> Seq<u8> {
    ring_magic() + le_bytes(n, 8) + le_u64s(section_starts(sections))
}

/// Everything before the trailer.
pub open spec fn ring_body(parts: RingParts) -> Seq<u8> {
    ring_header(parts.subjects.len, ring_sections(parts)) + joined(ring_sections(parts), 6)
}

/// A body with its checksum.
pub open spec fn sealed(body: Seq<u8>, crc: u32) -> Seq<u8> {
    body + le_bytes(crc as nat, 4)
}

/// The packed form of a ring.
pub open spec fn packed_ring(parts: RingParts) -> Seq<u8> {
    sealed(ring_body(parts), crc32_of(ring_body(parts)))
}

/// Where the header says that section `k` begins.
pub open spec fn offset_at(data: Seq<u8>, k: int) -> u64 {
    le_value(data.subrange(16 + 8 * k, 24 + 8 * k)) as u64
}

/// The names of the sections.
pub open spec fn section_name(k: int) -> &'static str {
    if k == 0 {
        "dict"
    } else if k == 1 {
        "subjects"
    } else if k == 2 {
        "predicates"
    } else if k == 3 {
        "objects"
    } else if k == 4 {
        "spo_to_pos"
    } else {
        "spo_to_osp"
    }
}

/// The first of the first `k` sections that is said to begin after the body.
pub open spec fn far_section(data: Seq<u8>, body_end: int, k: nat) -> Option<PackedRingError>
    decreases k,
{
    if k == 0 {
        None
    } else {
        match far_section(data, body_end, (k - 1) as nat) {
            Some(e) => Some(e),
            None => if offset_at(data, k - 1) > body_end {
                Some(
                    PackedRingError::OffsetOutOfBounds {
                        section: section_name(k - 1),
                        offset: offset_at(data, k - 1),
                    },
                )
            } else {
                None
            },
        }
    }
}

/// The first of the first `k` sections after the dictionary that does not begin
/// after the one before it.
pub open spec fn early_section(data: Seq<u8>, k: nat) -> Option<PackedRingError>
    decreases k,
{
    if k == 0 {
        None
    } else {
        match early_section(data, (k - 1) as nat) {
            Some(e) => Some(e),
            None => if offset_at(data, k - 1) >= offset_at(data, k as int) {
                Some(
                    PackedRingError::OffsetOutOfBounds {
                        section: "(non-monotonic offsets)",
                        offset: offset_at(data, k as int),
                    },
                )
            } else {
                None
            },
        }
    }
}

/// The bytes of section `k`.
pub open spec fn section_bytes(data: Seq<u8>, body_end: int, k: int) -> Seq<u8> {
    data.subrange(
        offset_at(data, k) as int,
        if k == 5 {
            body_end
        } else {
            offset_at(data, k + 1) as int
        },
    )
}

/// What the sections say.
pub open spec fn sections_parsed(data: Seq<u8>, body_end: int) -> Result<
    RingParts,
    PackedRingError,
> {
    match dict_parsed(section_bytes(data, body_end, 0)) {
        Err(e) => Err(PackedRingError::Dict(e)),
        Ok(terms) => match wavelet_parsed(section_bytes(data, body_end, 1)) {
            Err(e) => Err(PackedRingError::Wavelet(e)),
            Ok(subjects) => match wavelet_parsed(section_bytes(data, body_end, 2)) {
                Err(e) => Err(PackedRingError::Wavelet(e)),
                Ok(predicates) => match wavelet_parsed(section_bytes(data, body_end, 3)) {
                    Err(e) => Err(PackedRingError::Wavelet(e)),
                    Ok(objects) => match permutation_parsed(section_bytes(data, body_end, 4)) {
                        Err(e) => Err(PackedRingError::Permutation(e)),
                        Ok(pos) => match permutation_parsed(section_bytes(data, body_end, 5)) {
                            Err(e) => Err(PackedRingError::Permutation(e)),
                            Ok(osp) => Ok(
                                RingParts {
                                    terms,
                                    subjects,
                                    predicates,
                                    objects,
                                    spo_to_pos: pos.map_values(|v: u32| v as usize),
                                    spo_to_osp: osp.map_values(|v: u32| v as usize),
                                },
                            ),
                        },
                    },
                },
            },
        },
    }
}

/// Whether the parts have the declared number of triples and make a ring.
pub open spec fn ring_checked(parts: RingParts, n: usize) -> Result<RingParts, PackedRingError> {
    if parts.subjects.len != n {
        Err(
            PackedRingError::NumTriplesMismatch {
                declared: n,
                observed: parts.subjects.len as usize,
            },
        )
    } else {
        match ring_parts_fault(parts, n) {
            Some(e) => Err(PackedRingError::RingInvariantViolation(e)),
            None => Ok(parts),
        }
    }
}

/// What a packed ring says, where `crc` is the checksum of everything before its
/// trailer: its parts, or why it cannot be read.
pub open spec fn ring_parsed(data: Seq<u8>, crc: u32) -> Result<RingParts, PackedRingError> {
    let body_end = data.len() - 4;
    let trailer = le_value(data.subrange(body_end, data.len() as int)) as u32;
    let n = le_value(data.subrange(8, 16)) as u64;
    if data.len() < HEADER_SIZE + TRAILER_SIZE {
        Err(PackedRingError::TruncatedHeader)
    } else if data.subrange(0, 4) != ring_magic().subrange(0, 4) {
        Err(PackedRingError::BadMagic)
    } else if data[4] != 2 {
        Err(PackedRingError::UnsupportedVersion(data[4]))
    } else if crc != trailer {
        Err(PackedRingError::ChecksumMismatch { expected: trailer, actual: crc })
    } else if n > usize::MAX {
        Err(PackedRingError::OffsetOutOfBounds { section: "num_triples", offset: n })
    } else if far_section(data, body_end, 6) is Some {
        Err(far_section(data, body_end, 6)->0)
    } else if early_section(data, 5) is Some {
        Err(early_section(data, 5)->0)
    } else {
        match sections_parsed(data, body_end) {
            Err(e) => Err(e),
            Ok(parts) => ring_checked(parts, n as usize),
        }
    }
}

/// The parts of a ring fix its triples.
pub proof fn law_parts_fix_triples(ring: TripleRing)
    requires
        ring.is_valid(),
    ensures
        ring.triples() == parts_triples(ring_parts(ring)),
{
    lemma_columns(ring.subjects_tree());
    lemma_columns(ring.predicates_tree());
    lemma_columns(ring.objects_tree());
}

/// The parts of a wavelet tree fix its column.
proof fn lemma_columns(tree: WaveletTree)
    requires
        tree.is_valid(),
    ensures
        tree_column(tree) == parts_column(wavelet_parts(tree)),
{
    assert forall|i: int| 0 <= i < tree.count() implies tree_column(tree)[i] == parts_column(
        wavelet_parts(tree),
    )[i] by {
        law_parts_fix_symbols(tree, i);
    }
    assert(tree_column(tree) =~= parts_column(wavelet_parts(tree)));
}

/// A section stands where the sections before it end.
proof fn lemma_joined(sections: Seq<Seq<u8>>, n: nat, k: nat)
    requires
        k < n <= sections.len(),
    ensures
        joined(sections, k + 1).len() <= joined(sections, n).len(),
        joined(sections, k + 1).len() == joined(sections, k).len() + sections[k as int].len(),
        joined(sections, n).subrange(
            joined(sections, k).len() as int,
            joined(sections, k + 1).len() as int,
        ) == sections[k as int],
    decreases n,
{
    let from = joined(sections, k).len() as int;
    let to = joined(sections, k + 1).len() as int;
    let shorter = joined(sections, (n - 1) as nat);
    if k + 1 == n {
        assert(joined(sections, n).subrange(from, to) =~= sections[k as int]);
    } else {
        lemma_joined(sections, (n - 1) as nat, k);
        assert(joined(sections, n).subrange(from, to) =~= shorter.subrange(from, to));
    }
}

/// The header of a sealed ring says how many triples there are, and where the
/// sections begin.
proof fn lemma_header_reads(n: nat, sections: Seq<Seq<u8>>, rest: Seq<u8>)
    requires
        n <= usize::MAX,
    ensures
        ({
            let data = ring_header(n, sections) + rest;
            &&& ring_header(n, sections).len() == 64
            &&& data.subrange(0, 4) == ring_magic().subrange(0, 4)
            &&& data[4] == 2
            &&& le_value(data.subrange(8, 16)) == n
            &&& forall|k: int| #![trigger offset_at(data, k)]
                0 <= k < 6 ==> offset_at(data, k) == section_starts(sections)[k]
        }),
{
    let data = ring_header(n, sections) + rest;
    let starts = section_starts(sections);
    lemma_pow256();
    lemma_le_bytes_len(n, 8);
    lemma_le_value_of_bytes(n, 8);
    let words = le_u64s(starts);
    assert(words.len() == 48);
    assert(data.subrange(0, 4) =~= ring_magic().subrange(0, 4));
    assert(data.subrange(8, 16) =~= le_bytes(n, 8));
    assert(data.subrange(16, 64) =~= words);
    lemma_u64s_round_trip(starts);
    assert forall|k: int| #![trigger offset_at(data, k)] 0 <= k < 6 implies offset_at(data, k)
        == starts[k] by {
        assert(u64s_of(words)[k] == starts[k]);
        assert(data.subrange(16 + 8 * k, 24 + 8 * k) =~= words.subrange(8 * k, 8 * k + 8));
    }
}

/// The sections of a body are where its header says.
proof fn lemma_sections_found(parts: RingParts, crc: u32)
    requires
        sealed(ring_body(parts), crc).len() <= usize::MAX,
        parts.subjects.len <= usize::MAX,
    ensures
        ({
            let data = sealed(ring_body(parts), crc);
            let s = ring_sections(parts);
            let body_end = data.len() - 4;
            &&& data.len() >= 68
            &&& data.subrange(0, 4) == ring_magic().subrange(0, 4)
            &&& data[4] == 2
            &&& le_value(data.subrange(8, 16)) == parts.subjects.len
            &&& le_value(data.subrange(body_end, data.len() as int)) == crc
            &&& forall|k: int| #![trigger offset_at(data, k)]
                0 <= k < 6 ==> offset_at(data, k) == section_start(s, k as nat) && offset_at(
                    data,
                    k,
                ) <= body_end && s[k].len() <= usize::MAX
            &&& forall|k: int| #![trigger offset_at(data, k)]
                0 <= k < 5 ==> offset_at(data, k + 1) == offset_at(data, k) + s[k].len()
            &&& forall|k: int| #![trigger section_bytes(data, body_end, k)]
                0 <= k < 6 ==> section_bytes(data, body_end, k) == s[k]
        }),
{
    let data = sealed(ring_body(parts), crc);
    let s = ring_sections(parts);
    let n = parts.subjects.len;
    let header = ring_header(n, s);
    let all = joined(s, 6);
    let trailer = le_bytes(crc as nat, 4);
    lemma_pow256();
    lemma_le_bytes_len(crc as nat, 4);
    lemma_le_value_of_bytes(crc as nat, 4);
    lemma_header_reads(n, s, all + trailer);
    assert(data =~= header + (all + trailer));
    let end = 64 + all.len() as int;
    assert(data.subrange(end, data.len() as int) =~= trailer);
    assert forall|k: int| #![trigger offset_at(data, k)] 0 <= k < 6 implies offset_at(data, k)
        == section_start(s, k as nat) && offset_at(data, k) <= end && s[k].len()
        <= usize::MAX by {
        lemma_joined(s, 6, k as nat);
    }
    assert forall|k: int| #![trigger offset_at(data, k)] 0 <= k < 5 implies offset_at(data, k + 1)
        == offset_at(data, k) + s[k].len() by {
        lemma_joined(s, 6, k as nat);
        lemma_joined(s, 6, (k + 1) as nat);
    }
    assert forall|k: int| #![trigger section_bytes(data, end, k)] 0 <= k < 6 implies section_bytes(
        data,
        end,
        k,
    ) == s[k] by {
        lemma_joined(s, 6, k as nat);
        let from = joined(s, k as nat).len() as int;
        let to = joined(s, (k + 1) as nat).len() as int;
        assert(data.subrange(64 + from, 64 + to) =~= all.subrange(from, to));
        assert(offset_at(data, k) == 64 + from);
        if k < 5 {
            assert(offset_at(data, k + 1) == 64 + to);
        }
    }
}

/// Reading the packed form of a ring gives its parts back, and so its triples. The
/// ring has at most `u32::MAX` triples for this, its columns have at most
/// `u32::MAX` levels, and its packed form fits into memory.
pub proof fn law_ring_round_trip(parts: RingParts)
    requires
        ring_parts_valid(parts),
        parts.subjects.len <= u32::MAX,
        parts.subjects.levels.len() <= u32::MAX,
        parts.predicates.levels.len() <= u32::MAX,
        parts.objects.levels.len() <= u32::MAX,
        packed_ring(parts).len() <= usize::MAX,
    ensures
        ({
            let content = packed_ring(parts);
            ring_parsed(content, crc32_of(content.take(content.len() - 4))) == Ok::<
                RingParts,
                PackedRingError,
            >(parts)
        }),
{
    let crc = crc32_of(ring_body(parts));
    let data = packed_ring(parts);
    lemma_le_bytes_len(crc as nat, 4);
    assert(data.take(data.len() - 4) =~= ring_body(parts));
    let s = ring_sections(parts);
    let body_end = data.len() - 4;
    lemma_sections_found(parts, crc);
    lemma_sections_nonempty(parts);
    lemma_offsets_pass(data, body_end, s);
    assert forall|k: int| 0 <= k < 6 implies section_bytes(data, body_end, k) == #[trigger] s[k]
        && s[k].len() <= usize::MAX by {
        assert(offset_at(data, k) == section_start(s, k as nat));
    }
    lemma_sections_parse(parts, data, body_end);
}

/// Whether an error is the one that tells of a changed byte at `p`: the magic, the
/// version, or the checksum does not fit.
pub open spec fn tells_of_change(e: PackedRingError, data: Seq<u8>, p: int) -> bool {
    if p < 4 {
        e == PackedRingError::BadMagic
    } else if p == 4 {
        e == PackedRingError::UnsupportedVersion(data[4])
    } else {
        e is ChecksumMismatch
    }
}

/// A packed ring with one changed byte is rejected, wherever the byte is, as long as
/// the checksum tells the two bodies apart.
pub proof fn law_changed_byte_is_noticed(parts: RingParts, data: Seq<u8>, p: int)
    requires
        changed_at(packed_ring(parts), data, p),
        p < data.len() - 4 ==> crc32_of(data.take(data.len() - 4)) != crc32_of(ring_body(parts)),
    ensures
        match ring_parsed(data, crc32_of(data.take(data.len() - 4))) {
            Ok(_) => false,
            Err(e) => tells_of_change(e, data, p),
        },
{
    let crc = crc32_of(ring_body(parts));
    let packed = packed_ring(parts);
    let body_end = data.len() - 4;
    let trailer = data.subrange(body_end, data.len() as int);
    lemma_pow256();
    lemma_le_bytes_len(crc as nat, 4);
    lemma_le_value_of_bytes(crc as nat, 4);
    lemma_le_bytes_len(parts.subjects.len, 8);
    assert(ring_header(parts.subjects.len, ring_sections(parts)).len() == 64);
    assert(packed.take(8) =~= ring_magic());
    assert(forall|q: int| 0 <= q < 8 ==> packed[q] == packed.take(8)[q]);
    assert(packed.subrange(body_end, data.len() as int) =~= le_bytes(crc as nat, 4));
    if p < 4 {
        assert(data.subrange(0, 4)[p] != ring_magic().subrange(0, 4)[p]);
    } else {
        assert(data.subrange(0, 4) =~= ring_magic().subrange(0, 4));
        if p >= body_end {
            assert(data.take(body_end) =~= ring_body(parts));
            lemma_le_bytes_of_value(trailer);
            lemma_le_value_bound(trailer);
            assert(trailer[p - body_end] != le_bytes(crc as nat, 4)[p - body_end]);
        } else {
            assert(trailer =~= le_bytes(crc as nat, 4));
        }
    }
}

/// A ring that is packed and read again has the triples that it had, in their order.
pub proof fn law_reading_gives_the_triples_back(ring: TripleRing, back: TripleRing)
    requires
        ring.is_valid(),
        back.is_valid(),
        ring_parts_valid(ring_parts(ring)),
        ring.triples().len() <= u32::MAX,
        ring.subjects_tree().level_vectors().len() <= u32::MAX,
        ring.predicates_tree().level_vectors().len() <= u32::MAX,
        ring.objects_tree().level_vectors().len() <= u32::MAX,
        packed_ring(ring_parts(ring)).len() <= usize::MAX,
        ({
            let content = packed_ring(ring_parts(ring));
            ring_parsed(content, crc32_of(content.take(content.len() - 4))) == Ok::<
                RingParts,
                PackedRingError,
            >(ring_parts(back))
        }),
    ensures
        back.triples() == ring.triples(),
{
    law_ring_round_trip(ring_parts(ring));
    law_parts_fix_triples(ring);
    law_parts_fix_triples(back);
}

/// No section is empty.
proof fn lemma_sections_nonempty(parts: RingParts)
    ensures
        forall|k: int| #![trigger ring_sections(parts)[k]]
            0 <= k < 6 ==> ring_sections(parts)[k].len() > 0,
{
    assert(packed_dict(parts.terms)[0] == 0x50u8);
    assert(packed_wavelet(parts.subjects)[0] == 0x57u8);
    assert(packed_wavelet(parts.predicates)[0] == 0x57u8);
    assert(packed_wavelet(parts.objects)[0] == 0x57u8);
    assert(packed_permutation(parts.spo_to_pos)[0] == 0x50u8);
    assert(packed_permutation(parts.spo_to_osp)[0] == 0x50u8);
}

/// The sections of a ring read as its parts.
#[verifier::spinoff_prover]
proof fn lemma_sections_parse(parts: RingParts, data: Seq<u8>, body_end: int)
    requires
        ring_parts_valid(parts),
        parts.subjects.len <= u32::MAX,
        parts.subjects.levels.len() <= u32::MAX,
        parts.predicates.levels.len() <= u32::MAX,
        parts.objects.levels.len() <= u32::MAX,
        forall|k: int| #![trigger ring_sections(parts)[k]]
            0 <= k < 6 ==> section_bytes(data, body_end, k) == ring_sections(parts)[k]
                && ring_sections(parts)[k].len() <= usize::MAX,
    ensures
        sections_parsed(data, body_end) == Ok::<RingParts, PackedRingError>(parts),
{
    let s = ring_sections(parts);
    assert(s[0] == packed_dict(parts.terms));
    law_dict_round_trip(parts.terms);
    assert(s[1] == packed_wavelet(parts.subjects));
    law_wavelet_round_trip(parts.subjects);
    assert(s[2] == packed_wavelet(parts.predicates));
    law_wavelet_round_trip(parts.predicates);
    assert(s[3] == packed_wavelet(parts.objects));
    law_wavelet_round_trip(parts.objects);
    assert(s[4] == packed_permutation(parts.spo_to_pos));
    lemma_permutation_section(parts.spo_to_pos);
    assert(s[5] == packed_permutation(parts.spo_to_osp));
    lemma_permutation_section(parts.spo_to_osp);
}

/// Sections that stand one after the other pass the checks.
proof fn lemma_offsets_pass(data: Seq<u8>, body_end: int, sections: Seq<Seq<u8>>)
    requires
        forall|k: int| #![trigger offset_at(data, k)]
            0 <= k < 6 ==> offset_at(data, k) <= body_end,
        forall|k: int| #![trigger offset_at(data, k)]
            0 <= k < 5 ==> offset_at(data, k + 1) == offset_at(data, k) + sections[k].len(),
        forall|k: int| #![trigger sections[k]] 0 <= k < 6 ==> sections[k].len() > 0,
    ensures
        far_section(data, body_end, 6) is None,
        early_section(data, 5) is None,
{
    assert(offset_at(data, 0) <= body_end);
    assert(offset_at(data, 1) <= body_end);
    assert(offset_at(data, 2) <= body_end);
    assert(offset_at(data, 3) <= body_end);
    assert(offset_at(data, 4) <= body_end);
    assert(offset_at(data, 5) <= body_end);
    reveal_with_fuel(far_section, 7);
    reveal_with_fuel(early_section, 6);
    assert(sections[0].len() > 0 && sections[1].len() > 0 && sections[2].len() > 0
        && sections[3].len() > 0 && sections[4].len() > 0);
}

/// A permutation reads back from its section.
proof fn lemma_permutation_section(targets: Seq<usize>)
    requires
        is_bijection(targets),
        targets.len() <= u32::MAX,
        packed_permutation(targets).len() <= usize::MAX,
    ensures
        permutation_parsed(packed_permutation(targets)) matches Ok(values) && values.map_values(
            |v: u32| v as usize,
        ) == targets,
{
    lemma_le_bytes_len(targets.len(), 8);
    law_permutation_round_trip(targets);
    let values = targets.map_values(|t: usize| t as u32);
    assert forall|i: int| 0 <= i < targets.len() implies values.map_values(|v: u32| v as usize)[i]
        == targets[i] by {
        assert(targets[i] < targets.len());
    }
    assert(values.map_values(|v: u32| v as usize) =~= targets);
}

/// The layout of a packed ring: "GRFR", the version two and three zeros, the number of
/// triples in eight bytes, where the six sections begin in eight bytes each, the
/// sections, and the checksum of everything before it in four bytes.
pub proof fn law_layout_of_rings(parts: RingParts)
    requires
        packed_ring(parts).len() <= usize::MAX,
        parts.subjects.len <= usize::MAX,
    ensures
        packed_ring(parts).subrange(0, 8) == seq![
            'G' as u8,
            'R' as u8,
            'F' as u8,
            'R' as u8,
            2u8,
            0u8,
            0u8,
            0u8,
        ],
        packed_ring(parts).subrange(8, 16) == le_bytes(parts.subjects.len, 8),
        offset_at(packed_ring(parts), 0) == 64,
        packed_ring(parts).skip(packed_ring(parts).len() - 4) == le_bytes(
            crc32_of(packed_ring(parts).take(packed_ring(parts).len() - 4)) as nat,
            4,
        ),
{
    let data = packed_ring(parts);
    let body = ring_body(parts);
    let crc = crc32_of(body);
    lemma_sections_found(parts, crc);
    lemma_le_bytes_len(crc as nat, 4);
    lemma_le_bytes_len(parts.subjects.len, 8);
    assert(data.take(data.len() - 4) =~= body);
    assert(data.skip(data.len() - 4) =~= le_bytes(crc as nat, 4));
    assert(data.subrange(0, 8) =~= ring_magic());
    assert(data.subrange(8, 16) =~= le_bytes(parts.subjects.len, 8));
    assert(offset_at(data, 0) == section_start(ring_sections(parts), 0));
}

/// The sections of a packed ring: the dictionary, the columns of subjects, predicates and
/// objects, and the permutations to the second and to the third order, each from where
/// the header says to where the next begins, and the last to the trailer.
pub proof fn law_sections_of_rings(parts: RingParts, k: int)
    requires
        packed_ring(parts).len() <= usize::MAX,
        parts.subjects.len <= usize::MAX,
    ensures
        ({
            let data = packed_ring(parts);
            &&& data.subrange(offset_at(data, 0) as int, offset_at(data, 1) as int) == packed_dict(
                parts.terms,
            )
            &&& data.subrange(offset_at(data, 1) as int, offset_at(data, 2) as int)
                == packed_wavelet(parts.subjects)
            &&& data.subrange(offset_at(data, 2) as int, offset_at(data, 3) as int)
                == packed_wavelet(parts.predicates)
            &&& data.subrange(offset_at(data, 3) as int, offset_at(data, 4) as int)
                == packed_wavelet(parts.objects)
            &&& data.subrange(offset_at(data, 4) as int, offset_at(data, 5) as int)
                == packed_permutation(parts.spo_to_pos)
            &&& data.subrange(offset_at(data, 5) as int, data.len() - 4) == packed_permutation(
                parts.spo_to_osp,
            )
            &&& 0 <= k < 6 ==> offset_at(data, k) == le_value(
                data.subrange(16 + 8 * k, 24 + 8 * k),
            ) as u64
        }),
{
    let data = packed_ring(parts);
    let end = data.len() - 4;
    lemma_sections_found(parts, crc32_of(ring_body(parts)));
    assert(section_bytes(data, end, 0) == packed_dict(parts.terms));
    assert(section_bytes(data, end, 1) == packed_wavelet(parts.subjects));
    assert(section_bytes(data, end, 2) == packed_wavelet(parts.predicates));
    assert(section_bytes(data, end, 3) == packed_wavelet(parts.objects));
    assert(section_bytes(data, end, 4) == packed_permutation(parts.spo_to_pos));
    assert(section_bytes(data, end, 5) == packed_permutation(parts.spo_to_osp));
}

/// The parts of a ring are its terms, its columns and its permutations, each in its own
/// place.
pub proof fn law_parts_of_a_ring(ring: TripleRing)
    ensures
        ring_parts(ring).terms == ring.terms(),
        ring_parts(ring).subjects == wavelet_parts(ring.subjects_tree()),
        ring_parts(ring).predicates == wavelet_parts(ring.predicates_tree()),
        ring_parts(ring).objects == wavelet_parts(ring.objects_tree()),
        ring_parts(ring).spo_to_pos == ring.pos_targets(),
        ring_parts(ring).spo_to_osp == ring.osp_targets(),
{
}

/// Why bytes are no packed ring, as far as the header and the trailer tell.
pub proof fn law_why_rings_are_rejected(data: Seq<u8>, crc: u32)
    ensures
        data.len() < 68 ==> ring_parsed(data, crc) == Err::<RingParts, PackedRingError>(
            PackedRingError::TruncatedHeader,
        ),
        data.len() >= 68 && !(data[0] == 'G' as u8 && data[1] == 'R' as u8 && data[2] == 'F' as u8
            && data[3] == 'R' as u8) ==> ring_parsed(data, crc) == Err::<
            RingParts,
            PackedRingError,
        >(PackedRingError::BadMagic),
        data.len() >= 68 && data[0] == 'G' as u8 && data[1] == 'R' as u8 && data[2] == 'F' as u8
            && data[3] == 'R' as u8 && data[4] != 2 ==> ring_parsed(data, crc) == Err::<
            RingParts,
            PackedRingError,
        >(PackedRingError::UnsupportedVersion(data[4])),
        data.len() >= 68 && data[0] == 'G' as u8 && data[1] == 'R' as u8 && data[2] == 'F' as u8
            && data[3] == 'R' as u8 && data[4] == 2 && le_value(data.skip(data.len() - 4)) != crc
            ==> ring_parsed(data, crc) == Err::<RingParts, PackedRingError>(
            PackedRingError::ChecksumMismatch {
                expected: le_value(data.skip(data.len() - 4)) as u32,
                actual: crc,
            },
        ),
{
    if data.len() >= 68 {
        lemma_first_four(data, ring_magic());
        let tail = data.skip(data.len() - 4);
        assert(data.subrange(data.len() - 4, data.len() as int) =~= tail);
        lemma_le_value_bound(tail);
        lemma_pow256();
    }
}

/// Which sections are rejected for where they begin: the first that begins after the end
/// of the sections, and then the first that does not begin after the one before it.
pub proof fn law_why_sections_are_rejected(data: Seq<u8>, body_end: int, k: nat)
    ensures
        k < 6 && offset_at(data, k as int) > body_end && far_section(data, body_end, k) is None
            ==> far_section(data, body_end, 6) == Some(
            PackedRingError::OffsetOutOfBounds {
                section: section_name(k as int),
                offset: offset_at(data, k as int),
            },
        ),
        far_section(data, body_end, 6) is None <==> forall|j: int|
            0 <= j < 6 ==> #[trigger] offset_at(data, j) <= body_end,
        k < 5 && offset_at(data, k as int) >= offset_at(data, k as int + 1) && early_section(data, k)
            is None ==> early_section(data, 5) == Some(
            PackedRingError::OffsetOutOfBounds {
                section: "(non-monotonic offsets)",
                offset: offset_at(data, k as int + 1),
            },
        ),
        section_name(0) == "dict" && section_name(1) == "subjects" && section_name(2)
            == "predicates" && section_name(3) == "objects" && section_name(4) == "spo_to_pos"
            && section_name(5) == "spo_to_osp",
{
    if k < 6 && offset_at(data, k as int) > body_end && far_section(data, body_end, k) is None {
        assert(far_section(data, body_end, k + 1) is Some);
        lemma_far_stays(data, body_end, k + 1, 6);
    }
    if k < 5 && offset_at(data, k as int) >= offset_at(data, k as int + 1) && early_section(data, k)
        is None {
        assert(early_section(data, k + 1) is Some);
        lemma_early_stays(data, k + 1, 5);
    }
    reveal_with_fuel(far_section, 7);
    if forall|j: int| 0 <= j < 6 ==> #[trigger] offset_at(data, j) <= body_end {
        assert(far_section(data, body_end, 6) is None);
    }
    if far_section(data, body_end, 6) is None {
        assert(offset_at(data, 0) <= body_end && offset_at(data, 1) <= body_end && offset_at(
            data,
            2,
        ) <= body_end && offset_at(data, 3) <= body_end && offset_at(data, 4) <= body_end
            && offset_at(data, 5) <= body_end);
    }
}

/// A ring is rejected if its sections hold another number of triples than the header
/// says, and it is told which is which.
pub proof fn law_number_of_triples_must_fit(parts: RingParts, n: usize)
    requires
        parts.subjects.len <= usize::MAX,
    ensures
        parts.subjects.len != n ==> ring_checked(parts, n) == Err::<RingParts, PackedRingError>(
            PackedRingError::NumTriplesMismatch {
                declared: n,
                observed: parts.subjects.len as usize,
            },
        ),
        ring_checked(parts, n) is Ok ==> ring_checked(parts, n)->Ok_0 == parts && ring_parts_fault(
            parts,
            n,
        ) is None,
        parts.subjects.len == n && ring_parts_fault(parts, n) is None ==> ring_checked(parts, n)
            is Ok,
{
}

/// The texts of errors.
pub proof fn law_texts_of_ring_errors(
    v: u8,
    section: &'static str,
    offset: u64,
    expected: u32,
    actual: u32,
    declared: usize,
    observed: usize,
)
    ensures
        ring_error_text(PackedRingError::TruncatedHeader) == "ring v2 header truncated"@,
        ring_error_text(PackedRingError::BadMagic) == "ring v2 bad magic (expected 'GRFR')"@,
        ring_error_text(PackedRingError::UnsupportedVersion(v)) == "ring v2 unsupported version "@
            + decimal(v as nat),
        ring_error_text(PackedRingError::OffsetOutOfBounds { section, offset })
            == "ring v2 offset out of bounds: section '"@ + section@ + "' at "@ + decimal(
            offset as nat,
        ),
        ring_error_text(PackedRingError::ChecksumMismatch { expected, actual })
            == "ring v2 CRC mismatch: expected "@ + hex8(expected) + ", got "@ + hex8(actual),
        ring_error_text(PackedRingError::NumTriplesMismatch { declared, observed })
            == "ring v2 num_triples mismatch: declared "@ + decimal(declared as nat)
            + ", observed "@ + decimal(observed as nat),
{
}

/// The texts of errors that come from a section name the kind of section.
pub proof fn law_texts_of_section_errors(
    dict: PackedDictError,
    wavelet: PackedWaveletError,
    permutation: PackedPermutationError,
    ring: TripleRingInvariantError,
)
    ensures
        ring_error_text(PackedRingError::Dict(dict)) == "ring v2 dictionary parse error: "@
            + dict_error_text(dict),
        ring_error_text(PackedRingError::Wavelet(wavelet)) == "ring v2 wavelet parse error: "@
            + wavelet_error_text(wavelet),
        ring_error_text(PackedRingError::Permutation(permutation))
            == "ring v2 permutation parse error: "@ + permutation_error_text(permutation),
        ring_error_text(PackedRingError::RingInvariantViolation(ring))
            == "ring v2 ring invariant violation: "@ + ring_fault_text(ring),
{
}

/// The first eight bytes of a packed ring.
fn push_magic(buf: &mut Vec<u8>)
    ensures
        final(buf)@ == old(buf)@ + ring_magic(),
{
    buf.push(0x47);
    buf.push(0x52);
    buf.push(0x46);
    buf.push(0x52);
    buf.push(2);
    buf.push(0);
    buf.push(0);
    buf.push(0);
    assert(buf@ =~= old(buf)@ + ring_magic());
}

/// Whether the bytes begin with the magic of a packed ring.
fn has_magic(data: &[u8]) -> (r: bool)
    requires
        data@.len() >= 4,
    ensures
        r == (data@.subrange(0, 4) == ring_magic().subrange(0, 4)),
{
    let r: bool = data[0] == 0x47 && data[1] == 0x52 && data[2] == 0x46 && data[3] == 0x52;
    proof {
        let want = ring_magic().subrange(0, 4);
        let got = data@.subrange(0, 4);
        assert(want[0] == 0x47 && want[1] == 0x52 && want[2] == 0x46 && want[3] == 0x52);
        assert(got[0] == data@[0] && got[1] == data@[1] && got[2] == data@[2] && got[3]
            == data@[3]);
        if r {
            assert(got =~= want);
        }
    }
    r
}

/// Packs a ring, up to its trailer.
#[must_use]
pub fn serialize_ring_body(ring: &TripleRing) -> (r: Vec<u8>)
    ensures
        r@ == ring_body(ring_parts(*ring)),
        ring_parts_valid(ring_parts(*ring)),
{
    let n: usize = ring.len();
    let subjects: &WaveletTree = ring.subjects_wt();
    let predicates: &WaveletTree = ring.predicates_wt();
    let objects: &WaveletTree = ring.objects_wt();
    let ghost parts = ring_parts(*ring);
    let ghost s = ring_sections(parts);
    let dict: &TermDictionary = ring.dictionary();
    let term_count: usize = dict.len();
    let subject_count: usize = subjects.len();
    let predicate_count: usize = predicates.len();
    let object_count: usize = objects.len();
    proof {
        lemma_columns(ring.subjects_tree());
        lemma_columns(ring.predicates_tree());
        lemma_columns(ring.objects_tree());
    }
    let mut sections: Vec<Vec<u8>> = Vec::new();
    sections.push(serialize_term_dictionary(dict));
    sections.push(serialize_wavelet_tree(subjects));
    sections.push(serialize_wavelet_tree(predicates));
    sections.push(serialize_wavelet_tree(objects));
    sections.push(serialize_permutation(ring.spo_to_pos_perm()));
    sections.push(serialize_permutation(ring.spo_to_osp_perm()));
    assert(sections@.map_values(|v: Vec<u8>| v@) =~= s);
    lay_out(n as u64, &sections)
}

/// Puts sections one after the other, behind a header that says where they begin.
fn lay_out(n: u64, sections: &Vec<Vec<u8>>) -> (r: Vec<u8>)
    requires
        sections@.len() == 6,
    ensures
        r@ == ring_header(n as nat, sections@.map_values(|v: Vec<u8>| v@)) + joined(
            sections@.map_values(|v: Vec<u8>| v@),
            6,
        ),
{
    let ghost s = sections@.map_values(|v: Vec<u8>| v@);
    let mut body: Vec<u8> = vec![0u8; 64];
    let mut starts: Vec<u64> = Vec::new();
    let ghost blank = body@;
    let mut k: usize = 0;
    assert(body@ =~= blank + joined(s, 0));
    while k < 6
        invariant
            k <= 6,
            sections@.len() == 6,
            s == sections@.map_values(|v: Vec<u8>| v@),
            blank.len() == 64,
            body@ == blank + joined(s, k as nat),
            starts@ == section_starts(s).take(k as int),
        decreases 6 - k,
    {
        starts.push(body.len() as u64);
        body.extend_from_slice(sections[k].as_slice());
        proof {
            assert(body@ =~= blank + joined(s, (k + 1) as nat));
            assert(starts@ =~= section_starts(s).take(k + 1));
        }
        k = k + 1;
    }
    assert(starts@ =~= section_starts(s));
    let mut rest: Vec<u8> = body.split_off(64);
    assert(rest@ =~= joined(s, 6));
    let mut out: Vec<u8> = Vec::new();
    push_magic(&mut out);
    push_u64_le(&mut out, n);
    push_u64s_le(&mut out, starts.as_slice());
    out.append(&mut rest);
    assert(out@ =~= ring_header(n as nat, s) + joined(s, 6));
    out
}

/// Packs a ring.
#[must_use]
pub fn serialize_triple_ring(ring: &TripleRing) -> (r: Vec<u8>)
    ensures
        r@ == packed_ring(ring_parts(*ring)),
        ring_parts_valid(ring_parts(*ring)),
{
    let mut buf: Vec<u8> = serialize_ring_body(ring);
    let crc: u32 = crc32(buf.as_slice());
    push_u32_le(&mut buf, crc);
    buf
}

/// Reads a packed ring. One with a changed byte is always rejected.
pub fn deserialize_triple_ring(data: Bytes) -> (r: Result<TripleRing, PackedRingError>)
    ensures
        forall|parts: RingParts, p: int| #[trigger]
            changed_at(packed_ring(parts), bytes_content(data), p) ==> (r matches Err(e)
                && tells_of_change(e, bytes_content(data), p)),
        ({
            let content = bytes_content(data);
            let parsed = ring_parsed(content, crc32_of(content.take(content.len() - 4)));
            match r {
                Ok(ring) => parsed == Ok::<RingParts, PackedRingError>(ring_parts(ring)),
                Err(e) => parsed == Err::<RingParts, PackedRingError>(e),
            }
        }),
{
    let bytes: &[u8] = bytes_as_slice(&data);
    if bytes.len() < HEADER_SIZE + TRAILER_SIZE {
        assert forall|parts: RingParts, p: int| !(#[trigger] changed_at(
            packed_ring(parts),
            bytes@,
            p,
        )) by {
            lemma_le_bytes_len(crc32_of(ring_body(parts)) as nat, 4);
            lemma_le_bytes_len(parts.subjects.len, 8);
        }
        return Err(PackedRingError::TruncatedHeader);
    }
    let body: &[u8] = vstd::slice::slice_subrange(bytes, 0, bytes.len() - TRAILER_SIZE);
    assert(body@ =~= bytes@.take(bytes@.len() - 4));
    let crc: u32 = crc32(body);
    assert forall|parts: RingParts, p: int| #[trigger]
        changed_at(packed_ring(parts), bytes@, p) implies (match ring_parsed(bytes@, crc) {
        Ok(_) => false,
        Err(e) => tells_of_change(e, bytes@, p),
    }) by {
        lemma_le_bytes_len(crc32_of(ring_body(parts)) as nat, 4);
        if p < bytes@.len() - 4 {
            let packed = packed_ring(parts);
            assert(packed.take(packed.len() - 4) =~= ring_body(parts));
            assert(ring_body(parts)[p] == packed[p]);
            assert(changed_at(ring_body(parts), body@, p));
        }
        law_changed_byte_is_noticed(parts, bytes@, p);
    }
    parse_triple_ring(data, crc)
}

/// Where the header says that section `k` begins.
fn read_offset(bytes: &[u8], k: usize) -> (r: u64)
    requires
        bytes@.len() >= 64,
        k < 6,
    ensures
        r == offset_at(bytes@, k as int),
{
    let r: u64 = read_u64_le(bytes, 16 + 8 * k);
    proof {
        lemma_le_value_bound(bytes@.subrange(16 + 8 * k as int, 24 + 8 * k as int));
        lemma_pow256();
    }
    r
}

/// The name of a section.
fn name_of(k: usize) -> (r: &'static str)
    requires
        k < 6,
    ensures
        r == section_name(k as int),
{
    if k == 0 {
        "dict"
    } else if k == 1 {
        "subjects"
    } else if k == 2 {
        "predicates"
    } else if k == 3 {
        "objects"
    } else if k == 4 {
        "spo_to_pos"
    } else {
        "spo_to_osp"
    }
}

/// What is wrong with the beginnings of the sections, if anything.
fn check_offsets(bytes: &[u8], body_end: usize) -> (r: Option<PackedRingError>)
    requires
        bytes@.len() >= 64,
    ensures
        r == if far_section(bytes@, body_end as int, 6) is Some {
            far_section(bytes@, body_end as int, 6)
        } else {
            early_section(bytes@, 5)
        },
        r is None ==> forall|k: int| 0 <= k < 6 ==> #[trigger] offset_at(bytes@, k) <= body_end,
        r is None ==> forall|k: int|
            0 <= k < 5 ==> #[trigger] offset_at(bytes@, k) < offset_at(bytes@, k + 1),
{
    let mut k: usize = 0;
    while k < 6
        invariant
            k <= 6,
            bytes@.len() >= 64,
            far_section(bytes@, body_end as int, k as nat) is None,
            forall|j: int| 0 <= j < k ==> #[trigger] offset_at(bytes@, j) <= body_end,
        decreases 6 - k,
    {
        let offset: u64 = read_offset(bytes, k);
        if offset > body_end as u64 {
            proof {
                lemma_far_stays(bytes@, body_end as int, (k + 1) as nat, 6);
            }
            return Some(PackedRingError::OffsetOutOfBounds { section: name_of(k), offset });
        }
        k = k + 1;
    }
    let mut j: usize = 0;
    while j < 5
        invariant
            j <= 5,
            bytes@.len() >= 64,
            far_section(bytes@, body_end as int, 6) is None,
            early_section(bytes@, j as nat) is None,
            forall|i: int| 0 <= i < 6 ==> #[trigger] offset_at(bytes@, i) <= body_end,
            forall|i: int|
                0 <= i < j ==> #[trigger] offset_at(bytes@, i) < offset_at(bytes@, i + 1),
        decreases 5 - j,
    {
        let offset: u64 = read_offset(bytes, j + 1);
        if read_offset(bytes, j) >= offset {
            proof {
                lemma_early_stays(bytes@, (j + 1) as nat, 5);
            }
            return Some(
                PackedRingError::OffsetOutOfBounds { section: "(non-monotonic offsets)", offset },
            );
        }
        j = j + 1;
    }
    None
}

proof fn lemma_far_stays(data: Seq<u8>, body_end: int, k: nat, n: nat)
    requires
        far_section(data, body_end, k) is Some,
        k <= n,
    ensures
        far_section(data, body_end, n) == far_section(data, body_end, k),
    decreases n,
{
    if k < n {
        lemma_far_stays(data, body_end, k, (n - 1) as nat);
    }
}

proof fn lemma_early_stays(data: Seq<u8>, k: nat, n: nat)
    requires
        early_section(data, k) is Some,
        k <= n,
    ensures
        early_section(data, n) == early_section(data, k),
    decreases n,
{
    if k < n {
        lemma_early_stays(data, k, (n - 1) as nat);
    }
}

/// A section of a packed ring. Nothing is copied.
fn section(data: &Bytes, body_end: usize, k: usize) -> (r: Bytes)
    requires
        k < 6,
        64 <= body_end < bytes_content(*data).len(),
        forall|j: int| 0 <= j < 6 ==> #[trigger] offset_at(bytes_content(*data), j) <= body_end,
        forall|j: int|
            0 <= j < 5 ==> #[trigger] offset_at(bytes_content(*data), j) < offset_at(
                bytes_content(*data),
                j + 1,
            ),
    ensures
        bytes_content(r) == section_bytes(bytes_content(*data), body_end as int, k as int),
{
    let bytes: &[u8] = bytes_as_slice(data);
    let start: usize = read_offset(bytes, k) as usize;
    let end: usize = if k == 5 {
        body_end
    } else {
        read_offset(bytes, k + 1) as usize
    };
    assert(offset_at(bytes@, k as int) <= body_end);
    if k < 5 {
        assert(offset_at(bytes@, k + 1) <= body_end);
    }
    bytes_slice(data, start, end)
}

/// A permutation that was read has the targets that its section says.
proof fn lemma_targets(perm: SuccinctPermutation, values: Seq<u32>)
    requires
        values == perm.targets().map_values(|t: usize| t as u32),
        is_bijection(perm.targets()),
        perm.targets().len() <= u32::MAX,
    ensures
        values.map_values(|v: u32| v as usize) == perm.targets(),
{
    assert forall|i: int| 0 <= i < values.len() implies values.map_values(|v: u32| v as usize)[i]
        == perm.targets()[i] by {
        assert(perm.targets()[i] < perm.targets().len());
    }
    assert(values.map_values(|v: u32| v as usize) =~= perm.targets());
}

/// Reads the sections of a packed ring, and puts the ring together.
fn read_sections(data: &Bytes, body_end: usize, n: usize) -> (r: Result<
    TripleRing,
    PackedRingError,
>)
    requires
        64 <= body_end < bytes_content(*data).len(),
        forall|j: int| 0 <= j < 6 ==> #[trigger] offset_at(bytes_content(*data), j) <= body_end,
        forall|j: int|
            0 <= j < 5 ==> #[trigger] offset_at(bytes_content(*data), j) < offset_at(
                bytes_content(*data),
                j + 1,
            ),
    ensures
        ({
            let parsed = match sections_parsed(bytes_content(*data), body_end as int) {
                Err(e) => Err(e),
                Ok(parts) => ring_checked(parts, n),
            };
            match r {
                Ok(ring) => parsed == Ok::<RingParts, PackedRingError>(ring_parts(ring)),
                Err(e) => parsed == Err::<RingParts, PackedRingError>(e),
            }
        }),
{
    let dict: TermDictionary = match deserialize_term_dictionary(section(data, body_end, 0)) {
        Ok(d) => d,
        Err(e) => {
            return Err(PackedRingError::from(e));
        },
    };
    let subjects: WaveletTree = match deserialize_wavelet_tree(section(data, body_end, 1)) {
        Ok(t) => t,
        Err(e) => {
            return Err(PackedRingError::from(e));
        },
    };
    let predicates: WaveletTree = match deserialize_wavelet_tree(section(data, body_end, 2)) {
        Ok(t) => t,
        Err(e) => {
            return Err(PackedRingError::from(e));
        },
    };
    let objects: WaveletTree = match deserialize_wavelet_tree(section(data, body_end, 3)) {
        Ok(t) => t,
        Err(e) => {
            return Err(PackedRingError::from(e));
        },
    };
    let pos: SuccinctPermutation = match deserialize_permutation(section(data, body_end, 4)) {
        Ok(p) => p,
        Err(e) => {
            return Err(PackedRingError::from(e));
        },
    };
    let osp: SuccinctPermutation = match deserialize_permutation(section(data, body_end, 5)) {
        Ok(p) => p,
        Err(e) => {
            return Err(PackedRingError::from(e));
        },
    };
    let observed: usize = subjects.len();
    let predicate_count: usize = predicates.len();
    let object_count: usize = objects.len();
    proof {
        lemma_targets(pos, pos.targets().map_values(|t: usize| t as u32));
        lemma_targets(osp, osp.targets().map_values(|t: usize| t as u32));
        lemma_columns(subjects);
        lemma_columns(predicates);
        lemma_columns(objects);
    }
    if observed != n {
        return Err(PackedRingError::NumTriplesMismatch { declared: n, observed });
    }
    match TripleRing::from_packed_parts(dict, n, subjects, predicates, objects, pos, osp) {
        Ok(ring) => Ok(ring),
        Err(e) => Err(PackedRingError::from(e)),
    }
}

/// Reads a packed ring whose bytes before the trailer have the checksum `crc`.
pub fn parse_triple_ring(data: Bytes, crc: u32) -> (r: Result<TripleRing, PackedRingError>)
    ensures
        match r {
            Ok(ring) => ring_parsed(bytes_content(data), crc) == Ok::<RingParts, PackedRingError>(
                ring_parts(ring),
            ),
            Err(e) => ring_parsed(bytes_content(data), crc) == Err::<RingParts, PackedRingError>(
                e,
            ),
        },
{
    let bytes: &[u8] = bytes_as_slice(&data);
    if bytes.len() < HEADER_SIZE + TRAILER_SIZE {
        return Err(PackedRingError::TruncatedHeader);
    }
    if !has_magic(bytes) {
        return Err(PackedRingError::BadMagic);
    }
    let version: u8 = bytes[4];
    if version != 2 {
        return Err(PackedRingError::UnsupportedVersion(version));
    }
    let body_end: usize = bytes.len() - TRAILER_SIZE;
    let expected: u32 = read_u32_le(bytes, body_end);
    proof {
        lemma_le_value_bound(bytes@.subrange(body_end as int, body_end + 4));
        lemma_le_value_bound(bytes@.subrange(8, 16));
        lemma_pow256();
    }
    if crc != expected {
        return Err(PackedRingError::ChecksumMismatch { expected, actual: crc });
    }
    let declared: u64 = read_u64_le(bytes, 8);
    if declared as u128 > usize::MAX as u128 {
        return Err(
            PackedRingError::OffsetOutOfBounds { section: "num_triples", offset: declared },
        );
    }
    if let Some(e) = check_offsets(bytes, body_end) {
        return Err(e);
    }
    read_sections(&data, body_end, declared as usize)
}

} // verus!
