//! The packed form of a wavelet tree.
//!
//! Only the symbols and the bits of the levels are stored; the counts of ones are
//! rebuilt when the tree is read.
//!
//! ```text
//! header (40 bytes):
//!     0..4    magic "WTRE"
//!     4       version, 1
//!     5..8    zero
//!     8..12   height, as four little-endian bytes
//!     12..16  zero
//!     16..24  size of the alphabet, as eight little-endian bytes
//!     24..32  length of the sequence, as eight little-endian bytes
//!     32..40  number of symbols, as eight little-endian bytes
//! symbols: eight little-endian bytes each, in order
//! levels: the number of bits, the number of words, and the words,
//!     each as eight little-endian bytes
//! ```

use bytes::Bytes;
use vstd::prelude::*;
use vstd::string::StringExecFns;

use crate::codec::succinct::{
    bit_words, bits_in, levels_bits, parts_fault, strictly_sorted, symbol_at, wavelet_fault_text,
};
use crate::codec::succinct::{BitVector, SuccinctBitVector, WaveletInvariantError, WaveletTree};
use crate::codec::succinct::{lemma_no_bad_level, lemma_no_bad_symbol};
use crate::le::{
    le_bytes, le_u64s, le_value, lemma_first_four, lemma_le_bytes_len, lemma_le_value_bound, lemma_le_value_of_bytes,
    lemma_pow256, lemma_u64s_round_trip, u64s_of,
};
use crate::le::{push_u32_le, push_u64_le, push_u64s_le, read_u32_le, read_u64_le};
use crate::text::decimal;
use crate::text::push_decimal;
use crate::trusted::buffer::bytes_content;
use crate::trusted::buffer::{bytes_as_slice, bytes_slice};

verus! {

/// The length of the header.
pub const HEADER_SIZE: usize = 40;

/// Why a packed wavelet tree cannot be read.
#[derive(Debug, Clone, Copy, PartialEq, Eq)]
pub enum PackedWaveletError {
    /// The bytes end before the header does.
    TruncatedHeader,
    /// The magic is not "WTRE".
    BadMagic,
    /// The version is not known.
    UnsupportedVersion(u8),
    /// The bytes end inside a region.
    Truncated {
        /// The region.
        region: &'static str,
    },
    /// A size is too large for this machine.
    SizeOverflow,
    /// A level has another number of bits than the header says.
    BitCountMismatch {
        /// The level.
        level: usize,
        /// The bits that the header says.
        expected: u64,
        /// The bits that the level says.
        actual: u64,
    },
    /// The parts do not fit together.
    InvariantViolation(WaveletInvariantError),
}

/// The text of an error.
pub open spec fn wavelet_error_text(e: PackedWaveletError) -> Seq<char> {
    match e {
        PackedWaveletError::TruncatedHeader => "packed wavelet header truncated"@,
        PackedWaveletError::BadMagic => "packed wavelet bad magic (expected 'WTRE')"@,
        PackedWaveletError::UnsupportedVersion(v) => "packed wavelet unsupported version "@
            + decimal(v as nat),
        PackedWaveletError::Truncated { region } => "packed wavelet truncated in "@ + region@,
        PackedWaveletError::SizeOverflow => "packed wavelet size field overflows usize"@,
        PackedWaveletError::BitCountMismatch { level, expected, actual } =>
        "packed wavelet bit count mismatch at level "@ + decimal(level as nat) + ": expected "@
            + decimal(expected as nat) + ", got "@ + decimal(actual as nat),
        PackedWaveletError::InvariantViolation(e) => "packed wavelet invariant violation: "@
            + wavelet_fault_text(e),
    }
}

impl PackedWaveletError {
    /// The text of the error.
    #[must_use]
    pub fn message(&self) -> (r: String)
        ensures
            r@ == wavelet_error_text(*self),
    {
        let mut out: String = String::new();
        match self {
            PackedWaveletError::TruncatedHeader => out.append("packed wavelet header truncated"),
            PackedWaveletError::BadMagic => out.append(
                "packed wavelet bad magic (expected 'WTRE')",
            ),
            PackedWaveletError::UnsupportedVersion(v) => {
                out.append("packed wavelet unsupported version ");
                push_decimal(&mut out, *v as u64);
            },
            PackedWaveletError::Truncated { region } => {
                out.append("packed wavelet truncated in ");
                out.append(region);
            },
            PackedWaveletError::SizeOverflow => out.append(
                "packed wavelet size field overflows usize",
            ),
            PackedWaveletError::BitCountMismatch { level, expected, actual } => {
                out.append("packed wavelet bit count mismatch at level ");
                push_decimal(&mut out, *level as u64);
                out.append(": expected ");
                push_decimal(&mut out, *expected);
                out.append(", got ");
                push_decimal(&mut out, *actual);
            },
            PackedWaveletError::InvariantViolation(e) => {
                out.append("packed wavelet invariant violation: ");
                e.push_text(&mut out);
            },
        }
        assert(out@ =~= wavelet_error_text(*self));
        out
    }
}

/// What a packed wavelet tree holds.
#[verifier::ext_equal]
pub ghost struct WaveletParts {
    /// The symbols of the alphabet.
    pub symbols: Seq<u64>,
    /// The length of the sequence.
    pub len: nat,
    /// The bytes of the words of each level.
    pub levels: Seq<Seq<u8>>,
}

/// The parts of a tree.
pub open spec fn wavelet_parts(tree: WaveletTree) -> WaveletParts {
    WaveletParts {
        symbols: tree.alphabet(),
        len: tree.count(),
        levels: tree.level_vectors().map_values(|l: SuccinctBitVector| l.vector().raw()),
    }
}

/// The bits of levels of `len` bits.
pub open spec fn raw_bits(levels: Seq<Seq<u8>>, len: nat) -> Seq<Seq<bool>> {
    levels.map_values(|raw: Seq<u8>| bits_in(u64s_of(raw), len))
}

/// The parts hold a wavelet tree: the symbols are in order and each level holds its
/// bits in whole words.
pub open spec fn parts_valid(parts: WaveletParts) -> bool {
    &&& strictly_sorted(parts.symbols)
    &&& forall|k: int| #![trigger parts.levels[k]]
        0 <= k < parts.levels.len() ==> parts.levels[k].len() % 8 == 0 && 8 * bit_words(parts.len)
            <= parts.levels[k].len()
}

/// The first eight bytes: magic, version and zeros.
pub open spec fn wavelet_magic() -> Seq<u8> {
    seq![0x57u8, 0x54u8, 0x52u8, 0x45u8, 1u8, 0u8, 0u8, 0u8]
}

/// A height as it is written: what does not fit into four bytes is cut to the
/// largest that does.
pub open spec fn packed_height(height: nat) -> nat {
    if height <= u32::MAX {
        height
    } else {
        u32::MAX as nat
    }
}

/// The packed form of a level.
pub open spec fn level_block(len: nat, raw: Seq<u8>) -> Seq<u8> {
    le_bytes(len, 8) + le_bytes(raw.len() / 8, 8) + raw
}

/// The packed form of levels.
pub open spec fn level_blocks(len: nat, levels: Seq<Seq<u8>>) -> Seq<u8>
    decreases levels.len(),
{
    if levels.len() == 0 {
        Seq::empty()
    } else {
        level_blocks(len, levels.drop_last()) + level_block(len, levels.last())
    }
}

/// The header.
pub open spec fn wavelet_header(parts: WaveletParts) -> Seq<u8> {
    wavelet_magic() + le_bytes(packed_height(parts.levels.len()), 4) + seq![0u8, 0u8, 0u8, 0u8]
        + le_bytes(parts.symbols.len(), 8) + le_bytes(parts.len, 8) + le_bytes(
        parts.symbols.len(),
        8,
    )
}

/// The packed form of a wavelet tree.
pub open spec fn packed_wavelet(parts: WaveletParts) -> Seq<u8> {
    wavelet_header(parts) + le_u64s(parts.symbols) + level_blocks(parts.len, parts.levels)
}

/// The level that begins at `cursor`: its bytes, and where it ends.
pub open spec fn level_at(data: Seq<u8>, cursor: int, level: nat, len: u64) -> Result<
    (Seq<u8>, int),
    PackedWaveletError,
> {
    let bit_count = le_value(data.subrange(cursor, cursor + 8));
    let size = 8 * le_value(data.subrange(cursor + 8, cursor + 16));
    let start = cursor + 16;
    if start > usize::MAX {
        Err(PackedWaveletError::SizeOverflow)
    } else if start > data.len() {
        Err(PackedWaveletError::Truncated { region: "level header" })
    } else if bit_count != len {
        Err(
            PackedWaveletError::BitCountMismatch {
                level: level as usize,
                expected: len,
                actual: bit_count as u64,
            },
        )
    } else if start + size > usize::MAX {
        Err(PackedWaveletError::SizeOverflow)
    } else if start + size > data.len() {
        Err(PackedWaveletError::Truncated { region: "level data" })
    } else if size < 8 * bit_words(len as nat) {
        Err(PackedWaveletError::Truncated { region: "level bits" })
    } else {
        Ok((data.subrange(start, start + size as int), start + size))
    }
}

/// The first `k` levels from `start` on: their bytes, and where they end.
pub open spec fn levels_at(data: Seq<u8>, start: int, k: nat, len: u64) -> Result<
    (Seq<Seq<u8>>, int),
    PackedWaveletError,
>
    decreases k,
{
    if k == 0 {
        Ok((Seq::empty(), start))
    } else {
        match levels_at(data, start, (k - 1) as nat, len) {
            Err(e) => Err(e),
            Ok((levels, cursor)) => match level_at(data, cursor, (k - 1) as nat, len) {
                Err(e) => Err(e),
                Ok((raw, end)) => Ok((levels.push(raw), end)),
            },
        }
    }
}

/// What a packed wavelet tree says: its parts, or why it cannot be read.
pub open spec fn wavelet_parsed(data: Seq<u8>) -> Result<WaveletParts, PackedWaveletError> {
    let height = le_value(data.subrange(8, 12));
    let sigma = le_value(data.subrange(16, 24)) as u64;
    let len = le_value(data.subrange(24, 32));
    let symbols_end = 40 + 8 * le_value(data.subrange(32, 40));
    let symbols = u64s_of(data.subrange(40, symbols_end as int));
    if data.len() < HEADER_SIZE {
        Err(PackedWaveletError::TruncatedHeader)
    } else if data.subrange(0, 4) != wavelet_magic().subrange(0, 4) {
        Err(PackedWaveletError::BadMagic)
    } else if data[4] != 1 {
        Err(PackedWaveletError::UnsupportedVersion(data[4]))
    } else if len > usize::MAX || symbols_end > usize::MAX {
        Err(PackedWaveletError::SizeOverflow)
    } else if symbols_end > data.len() {
        Err(PackedWaveletError::Truncated { region: "symbols" })
    } else {
        match levels_at(data, symbols_end as int, height, len as u64) {
            Err(e) => Err(e),
            Ok((levels, end)) => match parts_fault(
                raw_bits(levels, len),
                height as usize,
                sigma,
                len as usize,
                symbols,
            ) {
                Some(e) => Err(PackedWaveletError::InvariantViolation(e)),
                None => Ok(WaveletParts { symbols, len, levels }),
            },
        }
    }
}

proof fn lemma_level_blocks_prefix(len: nat, levels: Seq<Seq<u8>>, k: int)
    requires
        0 <= k <= levels.len(),
    ensures
        level_blocks(len, levels.take(k)).len() <= level_blocks(len, levels).len(),
        level_blocks(len, levels).subrange(0, level_blocks(len, levels.take(k)).len() as int)
            == level_blocks(len, levels.take(k)),
    decreases levels.len(),
{
    if k == levels.len() {
        assert(levels.take(k) =~= levels);
        assert(level_blocks(len, levels).subrange(0, level_blocks(len, levels).len() as int)
            =~= level_blocks(len, levels));
    } else {
        let shorter = levels.drop_last();
        lemma_level_blocks_prefix(len, shorter, k);
        assert(shorter.take(k) =~= levels.take(k));
        let n = level_blocks(len, levels.take(k)).len() as int;
        assert(level_blocks(len, levels).subrange(0, n) =~= level_blocks(len, shorter).subrange(
            0,
            n,
        ));
    }
}

/// The packed form of a level reads as the level.
proof fn lemma_block_reads(data: Seq<u8>, cursor: int, level: nat, len: u64, raw: Seq<u8>)
    requires
        data.len() <= usize::MAX,
        0 <= cursor,
        cursor + level_block(len as nat, raw).len() <= data.len(),
        data.subrange(cursor, cursor + level_block(len as nat, raw).len()) == level_block(
            len as nat,
            raw,
        ),
        raw.len() % 8 == 0,
        8 * bit_words(len as nat) <= raw.len(),
    ensures
        level_at(data, cursor, level, len) == Ok::<(Seq<u8>, int), PackedWaveletError>(
            (raw, cursor + level_block(len as nat, raw).len()),
        ),
{
    let block = level_block(len as nat, raw);
    lemma_le_bytes_len(len as nat, 8);
    lemma_le_bytes_len(raw.len() / 8, 8);
    lemma_pow256();
    lemma_le_value_of_bytes(len as nat, 8);
    lemma_le_value_of_bytes(raw.len() / 8, 8);
    let piece = data.subrange(cursor, cursor + block.len());
    assert(data.subrange(cursor, cursor + 8) =~= piece.subrange(0, 8));
    assert(block.subrange(0, 8) =~= le_bytes(len as nat, 8));
    assert(data.subrange(cursor + 8, cursor + 16) =~= piece.subrange(8, 16));
    assert(block.subrange(8, 16) =~= le_bytes(raw.len() / 8, 8));
    assert(data.subrange(cursor + 16, cursor + block.len()) =~= piece.subrange(
        16,
        block.len() as int,
    ));
    assert(block.subrange(16, block.len() as int) =~= raw);
    assert(8 * (raw.len() / 8) == raw.len());
}

proof fn lemma_levels_round_trip(
    data: Seq<u8>,
    before: Seq<u8>,
    len: u64,
    levels: Seq<Seq<u8>>,
    k: nat,
)
    requires
        data == before + level_blocks(len as nat, levels),
        data.len() <= usize::MAX,
        k <= levels.len(),
        forall|j: int| #![trigger levels[j]]
            0 <= j < levels.len() ==> levels[j].len() % 8 == 0 && 8 * bit_words(len as nat)
                <= levels[j].len(),
    ensures
        levels_at(data, before.len() as int, k, len) == Ok::<
            (Seq<Seq<u8>>, int),
            PackedWaveletError,
        >(
            (
                levels.take(k as int),
                (before.len() + level_blocks(len as nat, levels.take(k as int)).len()) as int,
            ),
        ),
    decreases k,
{
    if k == 0 {
        assert(levels.take(0) =~= Seq::<Seq<u8>>::empty());
    } else {
        let j = k - 1;
        lemma_levels_round_trip(data, before, len, levels, j as nat);
        lemma_level_blocks_prefix(len as nat, levels, k as int);
        let raw = levels[j];
        let done = level_blocks(len as nat, levels.take(j));
        let cursor = (before.len() + done.len()) as int;
        let block = level_block(len as nat, raw);
        assert(levels.take(k as int).drop_last() =~= levels.take(j));
        assert(levels.take(k as int).last() == raw);
        assert(level_blocks(len as nat, levels.take(k as int)) == done + block);
        let all = level_blocks(len as nat, levels);
        assert(cursor + block.len() <= data.len());
        assert(data.subrange(cursor, cursor + block.len()) =~= block) by {
            assert forall|i: int| 0 <= i < block.len() implies data[cursor + i] == block[i] by {
                assert(all.subrange(0, (done + block).len() as int)[done.len() + i] == all[done.len()
                    + i]);
            }
        }
        lemma_block_reads(data, cursor, j as nat, len, raw);
        assert(levels.take(k as int) =~= levels.take(j).push(raw));
    }
}

/// Reading the packed form of a wavelet tree gives its parts back. The tree has at
/// most `u32::MAX` levels for this, and its packed form fits into memory.
pub proof fn law_wavelet_round_trip(parts: WaveletParts)
    requires
        parts_valid(parts),
        parts.levels.len() <= u32::MAX,
        parts.len <= usize::MAX,
        packed_wavelet(parts).len() <= usize::MAX,
    ensures
        wavelet_parsed(packed_wavelet(parts)) == Ok::<WaveletParts, PackedWaveletError>(parts),
{
    let data = packed_wavelet(parts);
    let n = parts.symbols.len();
    let height = parts.levels.len();
    let header = wavelet_header(parts);
    let words = le_u64s(parts.symbols);
    let blocks = level_blocks(parts.len, parts.levels);
    assert(words.len() == 8 * n);
    lemma_header_reads(parts, words + blocks);
    assert(data =~= header + (words + blocks));
    assert(data.subrange(40, 40 + 8 * n as int) =~= words);
    lemma_u64s_round_trip(parts.symbols);
    let before = header + words;
    assert(data == before + blocks);
    lemma_levels_round_trip(data, before, parts.len as u64, parts.levels, height);
    assert(parts.levels.take(height as int) =~= parts.levels);
    let bits = raw_bits(parts.levels, parts.len);
    lemma_no_bad_level(bits, parts.len as usize, bits.len());
    lemma_no_bad_symbol(parts.symbols, n);
    assert(parts.symbols.take(n as int) =~= parts.symbols);
}

/// The header says what it was made from.
proof fn lemma_header_reads(parts: WaveletParts, rest: Seq<u8>)
    requires
        parts.symbols.len() <= usize::MAX,
        parts.len <= usize::MAX,
        parts.levels.len() <= u32::MAX,
    ensures
        ({
            let data = wavelet_header(parts) + rest;
            &&& wavelet_header(parts).len() == 40
            &&& data.subrange(0, 4) == wavelet_magic().subrange(0, 4)
            &&& data[4] == 1
            &&& le_value(data.subrange(8, 12)) == parts.levels.len()
            &&& le_value(data.subrange(16, 24)) == parts.symbols.len()
            &&& le_value(data.subrange(24, 32)) == parts.len
            &&& le_value(data.subrange(32, 40)) == parts.symbols.len()
        }),
{
    let data = wavelet_header(parts) + rest;
    let n = parts.symbols.len();
    let height = parts.levels.len();
    lemma_le_bytes_len(height, 4);
    lemma_le_bytes_len(n, 8);
    lemma_le_bytes_len(parts.len, 8);
    lemma_pow256();
    lemma_le_value_of_bytes(height, 4);
    lemma_le_value_of_bytes(n, 8);
    lemma_le_value_of_bytes(parts.len, 8);
    assert(data.subrange(0, 4) =~= wavelet_magic().subrange(0, 4));
    assert(data.subrange(8, 12) =~= le_bytes(height, 4));
    assert(data.subrange(16, 24) =~= le_bytes(n, 8));
    assert(data.subrange(24, 32) =~= le_bytes(parts.len, 8));
    assert(data.subrange(32, 40) =~= le_bytes(n, 8));
}

/// The parts of a tree fix the symbol at every position.
pub proof fn law_parts_fix_symbols(tree: WaveletTree, i: int)
    requires
        tree.is_valid(),
    ensures
        tree.symbol(i) == symbol_at(
            raw_bits(wavelet_parts(tree).levels, wavelet_parts(tree).len),
            wavelet_parts(tree).len,
            wavelet_parts(tree).symbols,
            i,
        ),
{
    let parts = wavelet_parts(tree);
    let own = levels_bits(tree.level_vectors());
    assert(own =~= raw_bits(parts.levels, parts.len)) by {
        assert forall|k: int| 0 <= k < own.len() implies own[k] == raw_bits(
            parts.levels,
            parts.len,
        )[k] by {
            assert(tree.level_vectors()[k].bits().len() == tree.count());
        }
    }
}

/// The layout of a packed wavelet tree: "WTRE", the version one and three zeros, the
/// height in four bytes and four zeros, the size of the alphabet, the length of the
/// sequence and the number of symbols in eight bytes each, the symbols, and the levels.
pub proof fn law_layout_of_trees(parts: WaveletParts)
    ensures
        packed_wavelet(parts).subrange(0, 8) == seq![
            'W' as u8,
            'T' as u8,
            'R' as u8,
            'E' as u8,
            1u8,
            0u8,
            0u8,
            0u8,
        ],
        parts.levels.len() <= 0xffff_ffff ==> packed_wavelet(parts).subrange(8, 12) == le_bytes(
            parts.levels.len(),
            4,
        ),
        parts.levels.len() > 0xffff_ffff ==> packed_wavelet(parts).subrange(8, 12) == le_bytes(
            0xffff_ffff,
            4,
        ),
        packed_wavelet(parts).subrange(12, 16) == seq![0u8, 0u8, 0u8, 0u8],
        packed_wavelet(parts).subrange(16, 24) == le_bytes(parts.symbols.len(), 8),
        packed_wavelet(parts).subrange(24, 32) == le_bytes(parts.len, 8),
        packed_wavelet(parts).subrange(32, 40) == le_bytes(parts.symbols.len(), 8),
        packed_wavelet(parts).skip(40) == le_u64s(parts.symbols) + level_blocks(
            parts.len,
            parts.levels,
        ),
{
    let all = packed_wavelet(parts);
    lemma_le_bytes_len(packed_height(parts.levels.len()), 4);
    lemma_le_bytes_len(parts.symbols.len(), 8);
    lemma_le_bytes_len(parts.len, 8);
    assert(all.subrange(0, 8) =~= wavelet_magic());
    assert(all.subrange(8, 12) =~= le_bytes(packed_height(parts.levels.len()), 4));
    assert(all.subrange(12, 16) =~= seq![0u8, 0u8, 0u8, 0u8]);
    assert(all.subrange(16, 24) =~= le_bytes(parts.symbols.len(), 8));
    assert(all.subrange(24, 32) =~= le_bytes(parts.len, 8));
    assert(all.subrange(32, 40) =~= le_bytes(parts.symbols.len(), 8));
    assert(all.skip(40) =~= le_u64s(parts.symbols) + level_blocks(parts.len, parts.levels));
}

/// Levels stand one after the other, from the first: the number of bits, the number of
/// words, and the words.
pub proof fn law_layout_of_levels(len: nat, levels: Seq<Seq<u8>>, raw: Seq<u8>)
    ensures
        level_blocks(len, Seq::empty()) == Seq::<u8>::empty(),
        level_blocks(len, levels.push(raw)) == level_blocks(len, levels) + (le_bytes(len, 8)
            + le_bytes(raw.len() / 8, 8) + raw),
{
    assert(levels.push(raw).drop_last() =~= levels);
}

/// The parts of a tree are its symbols, its length, and the bytes of its levels in their
/// order.
pub proof fn law_parts_of_a_tree(tree: WaveletTree, k: int)
    ensures
        wavelet_parts(tree).symbols == tree.alphabet(),
        wavelet_parts(tree).len == tree.count(),
        wavelet_parts(tree).levels.len() == tree.level_vectors().len(),
        0 <= k < tree.level_vectors().len() ==> wavelet_parts(tree).levels[k]
            == tree.level_vectors()[k].vector().raw(),
{
}

/// Why bytes are no packed wavelet tree.
pub proof fn law_why_trees_are_rejected(data: Seq<u8>)
    ensures
        data.len() < 40 ==> wavelet_parsed(data) == Err::<WaveletParts, PackedWaveletError>(
            PackedWaveletError::TruncatedHeader,
        ),
        data.len() >= 40 && !(data[0] == 'W' as u8 && data[1] == 'T' as u8 && data[2] == 'R' as u8
            && data[3] == 'E' as u8) ==> wavelet_parsed(data) == Err::<
            WaveletParts,
            PackedWaveletError,
        >(PackedWaveletError::BadMagic),
        data.len() >= 40 && data[0] == 'W' as u8 && data[1] == 'T' as u8 && data[2] == 'R' as u8
            && data[3] == 'E' as u8 && data[4] != 1 ==> wavelet_parsed(data) == Err::<
            WaveletParts,
            PackedWaveletError,
        >(PackedWaveletError::UnsupportedVersion(data[4])),
        data.len() >= 40 && data[0] == 'W' as u8 && data[1] == 'T' as u8 && data[2] == 'R' as u8
            && data[3] == 'E' as u8 && data[4] == 1 && (le_value(data.subrange(24, 32))
            > usize::MAX || 40 + 8 * le_value(data.subrange(32, 40)) > usize::MAX)
            ==> wavelet_parsed(data) == Err::<WaveletParts, PackedWaveletError>(
            PackedWaveletError::SizeOverflow,
        ),
        data.len() >= 40 && data[0] == 'W' as u8 && data[1] == 'T' as u8 && data[2] == 'R' as u8
            && data[3] == 'E' as u8 && data[4] == 1 && le_value(data.subrange(24, 32)) <= usize::MAX
            && data.len() < 40 + 8 * le_value(data.subrange(32, 40)) <= usize::MAX
            ==> wavelet_parsed(data) == Err::<WaveletParts, PackedWaveletError>(
            PackedWaveletError::Truncated { region: "symbols" },
        ),
{
    if data.len() >= 40 {
        lemma_first_four(data, wavelet_magic());
    }
}

/// Why bytes are no level of a tree.
pub proof fn law_why_levels_are_rejected(data: Seq<u8>, cursor: int, level: usize, len: u64)
    requires
        0 <= cursor,
        cursor + 16 <= usize::MAX,
    ensures
        cursor + 16 > data.len() ==> level_at(data, cursor, level as nat, len) == Err::<
            (Seq<u8>, int),
            PackedWaveletError,
        >(PackedWaveletError::Truncated { region: "level header" }),
        cursor + 16 <= data.len() && le_value(data.subrange(cursor, cursor + 8)) != len
            ==> level_at(data, cursor, level as nat, len) == Err::<
            (Seq<u8>, int),
            PackedWaveletError,
        >(
            PackedWaveletError::BitCountMismatch {
                level,
                expected: len,
                actual: le_value(data.subrange(cursor, cursor + 8)) as u64,
            },
        ),
        cursor + 16 <= data.len() && le_value(data.subrange(cursor, cursor + 8)) == len
            && data.len() < cursor + 16 + 8 * le_value(data.subrange(cursor + 8, cursor + 16))
            <= usize::MAX ==> level_at(data, cursor, level as nat, len) == Err::<
            (Seq<u8>, int),
            PackedWaveletError,
        >(PackedWaveletError::Truncated { region: "level data" }),
        cursor + 16 <= data.len() <= usize::MAX && le_value(data.subrange(cursor, cursor + 8))
            == len && cursor + 16 + 8 * le_value(data.subrange(cursor + 8, cursor + 16))
            <= data.len() && 64 * le_value(data.subrange(cursor + 8, cursor + 16)) < len
            ==> level_at(data, cursor, level as nat, len) == Err::<
            (Seq<u8>, int),
            PackedWaveletError,
        >(PackedWaveletError::Truncated { region: "level bits" }),
{
}

/// The texts of errors.
pub proof fn law_texts_of_tree_errors(
    v: u8,
    region: &'static str,
    level: usize,
    expected: u64,
    actual: u64,
    e: WaveletInvariantError,
)
    ensures
        wavelet_error_text(PackedWaveletError::TruncatedHeader)
            == "packed wavelet header truncated"@,
        wavelet_error_text(PackedWaveletError::BadMagic)
            == "packed wavelet bad magic (expected 'WTRE')"@,
        wavelet_error_text(PackedWaveletError::UnsupportedVersion(v))
            == "packed wavelet unsupported version "@ + decimal(v as nat),
        wavelet_error_text(PackedWaveletError::Truncated { region })
            == "packed wavelet truncated in "@ + region@,
        wavelet_error_text(PackedWaveletError::SizeOverflow)
            == "packed wavelet size field overflows usize"@,
        wavelet_error_text(PackedWaveletError::BitCountMismatch { level, expected, actual })
            == "packed wavelet bit count mismatch at level "@ + decimal(level as nat)
            + ": expected "@ + decimal(expected as nat) + ", got "@ + decimal(actual as nat),
        wavelet_error_text(PackedWaveletError::InvariantViolation(e))
            == "packed wavelet invariant violation: "@ + wavelet_fault_text(e),
{
}

/// The first eight bytes of a packed wavelet tree.
fn push_magic(buf: &mut Vec<u8>)
    ensures
        final(buf)@ == old(buf)@ + wavelet_magic(),
{
    buf.push(0x57);
    buf.push(0x54);
    buf.push(0x52);
    buf.push(0x45);
    buf.push(1);
    buf.push(0);
    buf.push(0);
    buf.push(0);
    assert(buf@ =~= old(buf)@ + wavelet_magic());
}

/// Whether the bytes begin with the magic of a packed wavelet tree.
fn has_magic(data: &[u8]) -> (r: bool)
    requires
        data@.len() >= 4,
    ensures
        r == (data@.subrange(0, 4) == wavelet_magic().subrange(0, 4)),
{
    let r: bool = data[0] == 0x57 && data[1] == 0x54 && data[2] == 0x52 && data[3] == 0x45;
    proof {
        let want = wavelet_magic().subrange(0, 4);
        let got = data@.subrange(0, 4);
        assert(want[0] == 0x57 && want[1] == 0x54 && want[2] == 0x52 && want[3] == 0x45);
        assert(got[0] == data@[0] && got[1] == data@[1] && got[2] == data@[2] && got[3]
            == data@[3]);
        if r {
            assert(got =~= want);
        }
    }
    r
}

/// Appends the levels.
fn push_levels(buf: &mut Vec<u8>, levels: &[SuccinctBitVector], len: usize)
    requires
        forall|k: int| #![trigger levels@[k]]
            0 <= k < levels@.len() ==> levels@[k].bits().len() == len,
    ensures
        final(buf)@ == old(buf)@ + level_blocks(
            len as nat,
            levels@.map_values(|l: SuccinctBitVector| l.vector().raw()),
        ),
        forall|k: int| #![trigger levels@[k]]
            0 <= k < levels@.len() ==> levels@[k].vector().raw().len() % 8 == 0 && 8 * bit_words(
                len as nat,
            ) <= levels@[k].vector().raw().len(),
{
    let ghost before = buf@;
    let ghost raws = levels@.map_values(|l: SuccinctBitVector| l.vector().raw());
    let mut i: usize = 0;
    assert(buf@ =~= before + level_blocks(len as nat, raws.take(0)));
    while i < levels.len()
        invariant
            i <= levels@.len(),
            raws == levels@.map_values(|l: SuccinctBitVector| l.vector().raw()),
            forall|k: int| #![trigger levels@[k]]
                0 <= k < levels@.len() ==> levels@[k].bits().len() == len,
            buf@ == before + level_blocks(len as nat, raws.take(i as int)),
            forall|k: int| #![trigger levels@[k]]
                0 <= k < i ==> levels@[k].vector().raw().len() % 8 == 0 && 8 * bit_words(
                    len as nat,
                ) <= levels@[k].vector().raw().len(),
        decreases levels.len() - i,
    {
        let level: &BitVector = levels[i].inner();
        let bit_count: u64 = level.len() as u64;
        let data: Bytes = level.data_bytes();
        let bytes: &[u8] = bytes_as_slice(&data);
        let word_count: u64 = (bytes.len() / 8) as u64;
        let ghost so_far = buf@;
        push_u64_le(buf, bit_count);
        push_u64_le(buf, word_count);
        buf.extend_from_slice(bytes);
        proof {
            assert(bit_count == len);
            assert(raws.take(i + 1).drop_last() =~= raws.take(i as int));
            assert(raws.take(i + 1).last() == bytes@);
            assert(buf@ =~= so_far + level_block(len as nat, bytes@));
            assert(buf@ =~= before + level_blocks(len as nat, raws.take(i + 1)));
        }
        i = i + 1;
    }
    assert(raws.take(i as int) =~= raws);
}

/// Packs a wavelet tree.
#[must_use]
pub fn serialize_wavelet_tree(tree: &WaveletTree) -> (r: Vec<u8>)
    ensures
        r@ == packed_wavelet(wavelet_parts(*tree)),
        parts_valid(wavelet_parts(*tree)),
{
    let symbols: &[u64] = tree.symbols_slice();
    let height: usize = tree.height();
    let sigma: u64 = tree.sigma();
    let len: usize = tree.len();
    let mut buf: Vec<u8> = Vec::new();
    push_magic(&mut buf);
    let stored: u32 = if height as u64 <= u32::MAX as u64 {
        height as u32
    } else {
        u32::MAX
    };
    push_u32_le(&mut buf, stored);
    buf.push(0);
    buf.push(0);
    buf.push(0);
    buf.push(0);
    push_u64_le(&mut buf, sigma);
    push_u64_le(&mut buf, len as u64);
    push_u64_le(&mut buf, symbols.len() as u64);
    assert(buf@ =~= wavelet_header(wavelet_parts(*tree)));
    push_u64s_le(&mut buf, symbols);
    push_levels(&mut buf, tree.levels_slice(), len);
    buf
}

/// Reads one level.
fn read_level(data: &Bytes, cursor: usize, level: usize, len_raw: u64, len: usize) -> (r: Result<
    (SuccinctBitVector, usize),
    PackedWaveletError,
>)
    requires
        cursor <= bytes_content(*data).len(),
        len_raw == len,
    ensures
        match r {
            Ok((v, end)) => level_at(
                bytes_content(*data),
                cursor as int,
                level as nat,
                len_raw,
            ) == Ok::<(Seq<u8>, int), PackedWaveletError>((v.vector().raw(), end as int))
                && v.vector().count() == len && end <= bytes_content(*data).len(),
            Err(e) => level_at(bytes_content(*data), cursor as int, level as nat, len_raw) == Err::<
                (Seq<u8>, int),
                PackedWaveletError,
            >(e),
        },
{
    let bytes: &[u8] = bytes_as_slice(data);
    if usize::MAX - cursor < 16 {
        return Err(PackedWaveletError::SizeOverflow);
    }
    let start: usize = cursor + 16;
    if start > bytes.len() {
        return Err(PackedWaveletError::Truncated { region: "level header" });
    }
    let bit_count: u64 = read_u64_le(bytes, cursor);
    let word_count: u64 = read_u64_le(bytes, cursor + 8);
    if bit_count != len_raw {
        return Err(
            PackedWaveletError::BitCountMismatch { level, expected: len_raw, actual: bit_count },
        );
    }
    let end: u128 = start as u128 + 8 * (word_count as u128);
    if end > usize::MAX as u128 {
        return Err(PackedWaveletError::SizeOverflow);
    }
    let end: usize = end as usize;
    if end > bytes.len() {
        return Err(PackedWaveletError::Truncated { region: "level data" });
    }
    let slice: Bytes = bytes_slice(data, start, end);
    match BitVector::from_mmap(slice, len) {
        Ok(bits) => Ok((SuccinctBitVector::from_bitvec(bits), end)),
        Err(_) => Err(PackedWaveletError::Truncated { region: "level bits" }),
    }
}

/// Reads `count` symbols.
fn read_symbols(bytes: &[u8], count: usize) -> (r: Vec<u64>)
    requires
        40 + 8 * count <= bytes@.len(),
    ensures
        r@ == u64s_of(bytes@.subrange(40, 40 + 8 * count)),
{
    let ghost region = bytes@.subrange(40, 40 + 8 * count);
    let ghost values = u64s_of(region);
    let size: usize = bytes.len();
    let mut symbols: Vec<u64> = Vec::new();
    let mut i: usize = 0;
    while i < count
        invariant
            i <= count,
            40 + 8 * count <= size == bytes@.len(),
            region == bytes@.subrange(40, 40 + 8 * count),
            values == u64s_of(region),
            values.len() == count,
            symbols@ == values.take(i as int),
        decreases count - i,
    {
        let symbol: u64 = read_u64_le(bytes, 40 + 8 * i);
        symbols.push(symbol);
        proof {
            assert(region.subrange(8 * i, 8 * i + 8) =~= bytes@.subrange(
                40 + 8 * i,
                40 + 8 * i + 8,
            ));
            lemma_le_value_bound(region.subrange(8 * i, 8 * i + 8));
            lemma_pow256();
            assert(values[i as int] == symbol);
            assert(symbols@ =~= values.take(i + 1));
        }
        i = i + 1;
    }
    assert(symbols@ =~= values);
    symbols
}

/// Reads a packed wavelet tree and rebuilds its counts. Nothing of the levels is
/// copied.
pub fn deserialize_wavelet_tree(data: Bytes) -> (r: Result<WaveletTree, PackedWaveletError>)
    ensures
        match r {
            Ok(tree) => wavelet_parsed(bytes_content(data)) == Ok::<
                WaveletParts,
                PackedWaveletError,
            >(wavelet_parts(tree)),
            Err(e) => wavelet_parsed(bytes_content(data)) == Err::<
                WaveletParts,
                PackedWaveletError,
            >(e),
        },
{
    let bytes: &[u8] = bytes_as_slice(&data);
    if bytes.len() < HEADER_SIZE {
        return Err(PackedWaveletError::TruncatedHeader);
    }
    if !has_magic(bytes) {
        return Err(PackedWaveletError::BadMagic);
    }
    let version: u8 = bytes[4];
    if version != 1 {
        return Err(PackedWaveletError::UnsupportedVersion(version));
    }
    let height: usize = read_u32_le(bytes, 8) as usize;
    let sigma: u64 = read_u64_le(bytes, 16);
    let len_raw: u64 = read_u64_le(bytes, 24);
    let symbol_count_raw: u64 = read_u64_le(bytes, 32);
    let symbols_end: u128 = 40 + 8 * (symbol_count_raw as u128);
    if len_raw as u128 > usize::MAX as u128 || symbols_end > usize::MAX as u128 {
        return Err(PackedWaveletError::SizeOverflow);
    }
    let len: usize = len_raw as usize;
    let symbols_end: usize = symbols_end as usize;
    if symbols_end > bytes.len() {
        return Err(PackedWaveletError::Truncated { region: "symbols" });
    }
    let symbols: Vec<u64> = read_symbols(bytes, symbol_count_raw as usize);
    let mut cursor: usize = symbols_end;
    let mut levels: Vec<SuccinctBitVector> = Vec::new();
    let mut level: usize = 0;
    let ghost content = bytes_content(data);
    assert(levels@.map_values(|l: SuccinctBitVector| l.vector().raw()) =~= Seq::<
        Seq<u8>,
    >::empty());
    while level < height
        invariant
            level <= height,
            levels@.len() == level,
            len == len_raw,
            content == bytes_content(data),
            symbols_end <= content.len(),
            cursor <= content.len(),
            levels_at(content, symbols_end as int, level as nat, len_raw) == Ok::<
                (Seq<Seq<u8>>, int),
                PackedWaveletError,
            >((levels@.map_values(|l: SuccinctBitVector| l.vector().raw()), cursor as int)),
            forall|k: int| #![trigger levels@[k]]
                0 <= k < level ==> levels@[k].vector().count() == len,
            levels_at(content, symbols_end as int, height as nat, len_raw) matches Err(e)
                ==> wavelet_parsed(content) == Err::<WaveletParts, PackedWaveletError>(e),
        decreases height - level,
    {
        match read_level(&data, cursor, level, len_raw, len) {
            Err(e) => {
                proof {
                    lemma_levels_fail(content, symbols_end as int, (level + 1) as nat, height as nat, len_raw);
                }
                return Err(e);
            },
            Ok((v, end)) => {
                let ghost before = levels@.map_values(|l: SuccinctBitVector| l.vector().raw());
                levels.push(v);
                assert(levels@.map_values(|l: SuccinctBitVector| l.vector().raw()) =~= before.push(
                    v.vector().raw(),
                ));
                cursor = end;
            },
        }
        level = level + 1;
    }
    proof {
        let raws = levels@.map_values(|l: SuccinctBitVector| l.vector().raw());
        assert(levels_bits(levels@) =~= raw_bits(raws, len as nat)) by {
            assert forall|k: int| 0 <= k < levels@.len() implies levels_bits(levels@)[k]
                == raw_bits(raws, len as nat)[k] by {
                assert(levels@[k].vector().count() == len);
            }
        }
    }
    match WaveletTree::from_packed_parts(levels, height, sigma, len, symbols) {
        Ok(tree) => Ok(tree),
        Err(e) => Err(PackedWaveletError::InvariantViolation(e)),
    }
}

proof fn lemma_levels_fail(data: Seq<u8>, start: int, k: nat, n: nat, len: u64)
    requires
        levels_at(data, start, k, len) is Err,
        k <= n,
    ensures
        levels_at(data, start, n, len) == levels_at(data, start, k, len),
    decreases n,
{
    if k < n {
        lemma_levels_fail(data, start, k, (n - 1) as nat, len);
    }
}

} // verus!
