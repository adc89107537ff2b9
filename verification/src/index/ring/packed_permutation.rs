//! The packed form of a permutation.
//!
//! Only the forward mapping is stored, four bytes per position; the inverse is
//! rebuilt when the permutation is read.
//!
//! ```text
//! header (16 bytes):
//!     0..4    magic "PERM"
//!     4       version, 1
//!     5..8    zero
//!     8..16   n, as eight little-endian bytes
//! forward: n times four little-endian bytes
//! ```

use bytes::Bytes;
use vstd::prelude::*;
use vstd::string::StringExecFns;

use crate::index::ring::permutation::is_bijection;
use crate::index::ring::permutation::SuccinctPermutation;
use crate::le::{
    law_words_stand_in_order, le_bytes, le_u32s, le_value, lemma_first_four, lemma_le_bytes_len,
    lemma_le_u32s_push, lemma_le_value_bound, lemma_le_value_of_bytes, lemma_pow256, lemma_u32s_round_trip, u32s_of,
};
use crate::le::{push_u32_le, push_u64_le, read_u32_le, read_u64_le};
use crate::text::decimal;
use crate::text::push_decimal;
use crate::trusted::buffer::bytes_as_slice;
use crate::trusted::buffer::bytes_content;

verus! {

/// The length of the header.
pub const HEADER_SIZE: usize = 16;

/// Why a packed permutation cannot be read.
#[derive(Debug, Clone, Copy, PartialEq, Eq, Structural)]
pub enum PackedPermutationError {
    /// The bytes end before the header does.
    TruncatedHeader,
    /// The magic is not "PERM".
    BadMagic,
    /// The version is not known.
    UnsupportedVersion(u8),
    /// The forward mapping is shorter than the header says.
    TruncatedForward {
        /// Bytes that the mapping takes.
        expected: usize,
        /// Bytes that are there.
        actual: usize,
    },
    /// The number of positions is too large for this machine.
    SizeOverflow,
    /// A target is no position.
    InvalidPermutation {
        /// The position with the target.
        index: usize,
        /// The target.
        value: u32,
    },
    /// A target occurs twice.
    DuplicateTarget {
        /// The later position with the target.
        index: usize,
        /// The target.
        value: u32,
    },
}

/// The text of an error.
pub open spec fn permutation_error_text(e: PackedPermutationError) -> Seq<char> {
    match e {
        PackedPermutationError::TruncatedHeader => "packed permutation header truncated"@,
        PackedPermutationError::BadMagic => "packed permutation bad magic (expected 'PERM')"@,
        PackedPermutationError::UnsupportedVersion(v) => "packed permutation unsupported version "@
            + decimal(v as nat),
        PackedPermutationError::TruncatedForward { expected, actual } =>
        "packed permutation forward truncated: expected "@ + decimal(expected as nat)
            + " bytes, got "@ + decimal(actual as nat),
        PackedPermutationError::SizeOverflow => "packed permutation size field overflows usize"@,
        PackedPermutationError::InvalidPermutation { index, value } =>
        "packed permutation forward["@ + decimal(index as nat) + "] = "@ + decimal(value as nat)
            + " is out of range"@,
        PackedPermutationError::DuplicateTarget { index, value } => "packed permutation forward["@
            + decimal(index as nat) + "] = "@ + decimal(value as nat)
            + " duplicates an earlier entry"@,
    }
}

impl PackedPermutationError {
    /// The text of the error.
    #[must_use]
    pub fn message(&self) -> (r: String)
        ensures
            r@ == permutation_error_text(*self),
    {
        let mut out: String = String::new();
        match self {
            PackedPermutationError::TruncatedHeader => out.append(
                "packed permutation header truncated",
            ),
            PackedPermutationError::BadMagic => out.append(
                "packed permutation bad magic (expected 'PERM')",
            ),
            PackedPermutationError::UnsupportedVersion(v) => {
                out.append("packed permutation unsupported version ");
                push_decimal(&mut out, *v as u64);
            },
            PackedPermutationError::TruncatedForward { expected, actual } => {
                out.append("packed permutation forward truncated: expected ");
                push_decimal(&mut out, *expected as u64);
                out.append(" bytes, got ");
                push_decimal(&mut out, *actual as u64);
            },
            PackedPermutationError::SizeOverflow => out.append(
                "packed permutation size field overflows usize",
            ),
            PackedPermutationError::InvalidPermutation { index, value } => {
                out.append("packed permutation forward[");
                push_decimal(&mut out, *index as u64);
                out.append("] = ");
                push_decimal(&mut out, *value as u64);
                out.append(" is out of range");
            },
            PackedPermutationError::DuplicateTarget { index, value } => {
                out.append("packed permutation forward[");
                push_decimal(&mut out, *index as u64);
                out.append("] = ");
                push_decimal(&mut out, *value as u64);
                out.append(" duplicates an earlier entry");
            },
        }
        assert(out@ =~= permutation_error_text(*self));
        out
    }
}

/// The first eight bytes: magic, version and zeros.
pub open spec fn permutation_magic() -> Seq<u8> {
    seq![0x50u8, 0x45u8, 0x52u8, 0x4du8, 1u8, 0u8, 0u8, 0u8]
}

/// A target as it is written: what does not fit into four bytes is cut to the
/// largest that does.
pub open spec fn packed_target(target: usize) -> u32 {
    if target <= u32::MAX {
        target as u32
    } else {
        u32::MAX
    }
}

/// The packed form of a list of targets.
pub open spec fn packed_permutation(targets: Seq<usize>) -> Seq<u8> {
    permutation_magic() + le_bytes(targets.len(), 8) + le_u32s(
        targets.map_values(|t: usize| packed_target(t)),
    )
}

/// What is wrong with the first `k` of `values` as targets, if anything: the first
/// that is no position, or that occurred before.
pub open spec fn target_fault(values: Seq<u32>, k: nat) -> Option<PackedPermutationError>
    decreases k,
{
    if k == 0 {
        None
    } else {
        match target_fault(values, (k - 1) as nat) {
            Some(e) => Some(e),
            None => {
                let value = values[k - 1];
                let index = (k - 1) as usize;
                if value >= values.len() {
                    Some(PackedPermutationError::InvalidPermutation { index, value })
                } else if values.take(k - 1).contains(value) {
                    Some(PackedPermutationError::DuplicateTarget { index, value })
                } else {
                    None
                }
            },
        }
    }
}

/// What a packed permutation says: its targets, or why it cannot be read.
pub open spec fn permutation_parsed(data: Seq<u8>) -> Result<Seq<u32>, PackedPermutationError> {
    let n = le_value(data.subrange(8, 16)) as int;
    let values = u32s_of(data.subrange(16, 16 + 4 * n));
    if data.len() < HEADER_SIZE {
        Err(PackedPermutationError::TruncatedHeader)
    } else if data.subrange(0, 4) != permutation_magic().subrange(0, 4) {
        Err(PackedPermutationError::BadMagic)
    } else if data[4] != 1 {
        Err(PackedPermutationError::UnsupportedVersion(data[4]))
    } else if 16 + 4 * n > usize::MAX {
        Err(PackedPermutationError::SizeOverflow)
    } else if 16 + 4 * n > data.len() {
        Err(
            PackedPermutationError::TruncatedForward {
                expected: (4 * n) as usize,
                actual: (data.len() - 16) as usize,
            },
        )
    } else if n > u32::MAX {
        Err(PackedPermutationError::SizeOverflow)
    } else {
        match target_fault(values, values.len()) {
            Some(e) => Err(e),
            None => Ok(values),
        }
    }
}

proof fn lemma_no_fault(values: Seq<u32>, k: nat)
    requires
        k <= values.len(),
        forall|i: int| #![trigger values[i]] 0 <= i < values.len() ==> values[i] < values.len(),
        forall|i: int, j: int| 0 <= i < j < values.len() ==> values[i] != values[j],
    ensures
        target_fault(values, k) is None,
    decreases k,
{
    if k > 0 {
        lemma_no_fault(values, (k - 1) as nat);
    }
}

/// Reading the packed form of a permutation gives its targets back. A permutation
/// has at most `u32::MAX` positions for this, and its packed form fits into
/// memory.
pub proof fn law_permutation_round_trip(targets: Seq<usize>)
    requires
        is_bijection(targets),
        targets.len() <= u32::MAX,
        16 + 4 * targets.len() <= usize::MAX,
    ensures
        permutation_parsed(packed_permutation(targets)) == Ok::<Seq<u32>, PackedPermutationError>(
            targets.map_values(|t: usize| t as u32),
        ),
{
    let n = targets.len();
    let packed = targets.map_values(|t: usize| packed_target(t));
    let data = packed_permutation(targets);
    lemma_le_bytes_len(n, 8);
    lemma_pow256();
    lemma_le_value_of_bytes(n, 8);
    assert(data.subrange(8, 16) =~= le_bytes(n, 8));
    assert(data.subrange(0, 4) =~= permutation_magic().subrange(0, 4));
    assert(data.subrange(16, 16 + 4 * n as int) =~= le_u32s(packed));
    lemma_u32s_round_trip(packed);
    assert forall|i: int, j: int| 0 <= i < j < packed.len() implies packed[i] != packed[j] by {
        assert(targets[i] != targets[j]);
        assert(targets[i] < n && targets[j] < n);
    }
    assert forall|i: int| #![trigger packed[i]] 0 <= i < packed.len() implies packed[i]
        < packed.len() by {
        assert(targets[i] < n);
    }
    lemma_no_fault(packed, n);
    assert(packed =~= targets.map_values(|t: usize| t as u32)) by {
        assert forall|i: int| 0 <= i < n implies packed[i] == targets[i] as u32 by {
            assert(targets[i] < n);
        }
    }
}

/// The layout of a packed permutation: "PERM", the version one and three zeros, the
/// number of positions in eight bytes, and four bytes for the target of each. A target
/// that four bytes do not hold is written as the largest that they do.
pub proof fn law_layout_of_permutations(targets: Seq<usize>, i: int)
    ensures
        packed_permutation(targets).len() == 16 + 4 * targets.len(),
        packed_permutation(targets).subrange(0, 8) == seq![
            'P' as u8,
            'E' as u8,
            'R' as u8,
            'M' as u8,
            1u8,
            0u8,
            0u8,
            0u8,
        ],
        packed_permutation(targets).subrange(8, 16) == le_bytes(targets.len(), 8),
        0 <= i < targets.len() && targets[i] <= 0xffff_ffff ==> packed_permutation(
            targets,
        ).subrange(16 + 4 * i, 20 + 4 * i) == le_bytes(targets[i] as nat, 4),
        0 <= i < targets.len() && targets[i] > 0xffff_ffff ==> packed_permutation(
            targets,
        ).subrange(16 + 4 * i, 20 + 4 * i) == le_bytes(0xffff_ffff, 4),
{
    let all = packed_permutation(targets);
    let words = targets.map_values(|t: usize| packed_target(t));
    lemma_le_bytes_len(targets.len(), 8);
    law_words_stand_in_order(Seq::empty(), words, i);
    assert(all.subrange(0, 8) =~= permutation_magic());
    assert(all.subrange(8, 16) =~= le_bytes(targets.len(), 8));
    if 0 <= i < targets.len() {
        assert(all.subrange(16 + 4 * i, 20 + 4 * i) =~= le_u32s(words).subrange(
            4 * i,
            4 * i + 4,
        ));
        assert(words[i] == packed_target(targets[i]));
    }
}

/// Targets are at fault at the first that is no position, or that occurred before, and
/// only if there is one.
pub proof fn law_first_bad_target_is_told(values: Seq<u32>, k: nat, index: usize)
    requires
        k <= values.len(),
        values.len() <= usize::MAX,
    ensures
        target_fault(values, k) is None <==> (forall|i: int|
            0 <= i < k ==> #[trigger] values[i] < values.len()) && values.take(
            k as int,
        ).no_duplicates(),
        index < k && target_fault(values, index as nat) is None && values[index as int]
            >= values.len() ==> target_fault(values, k) == Some(
            PackedPermutationError::InvalidPermutation { index, value: values[index as int] },
        ),
        index < k && target_fault(values, index as nat) is None && values[index as int]
            < values.len() && values.take(index as int).contains(values[index as int])
            ==> target_fault(values, k) == Some(
            PackedPermutationError::DuplicateTarget { index, value: values[index as int] },
        ),
    decreases k,
{
    if k > 0 {
        law_first_bad_target_is_told(values, (k - 1) as nat, index);
        let before = values.take(k - 1);
        let now = values.take(k as int);
        assert(now =~= before.push(values[k - 1]));
        if before.no_duplicates() && !before.contains(values[k - 1]) {
            assert(now.no_duplicates());
        }
        if now.no_duplicates() {
            assert forall|i: int, j: int|
                0 <= i < before.len() && 0 <= j < before.len() && i != j implies before[i]
                != before[j] by {
                assert(now[i] == before[i] && now[j] == before[j]);
            }
            if before.contains(values[k - 1]) {
                let i = choose|i: int| 0 <= i < before.len() && before[i] == values[k - 1];
                assert(now[i] == now[k - 1]);
            }
        }
    }
}

/// Why bytes are no packed permutation.
pub proof fn law_why_permutations_are_rejected(data: Seq<u8>)
    ensures
        data.len() < 16 ==> permutation_parsed(data) == Err::<Seq<u32>, PackedPermutationError>(
            PackedPermutationError::TruncatedHeader,
        ),
        data.len() >= 16 && !(data[0] == 'P' as u8 && data[1] == 'E' as u8 && data[2] == 'R' as u8
            && data[3] == 'M' as u8) ==> permutation_parsed(data) == Err::<
            Seq<u32>,
            PackedPermutationError,
        >(PackedPermutationError::BadMagic),
        data.len() >= 16 && data[0] == 'P' as u8 && data[1] == 'E' as u8 && data[2] == 'R' as u8
            && data[3] == 'M' as u8 && data[4] != 1 ==> permutation_parsed(data) == Err::<
            Seq<u32>,
            PackedPermutationError,
        >(PackedPermutationError::UnsupportedVersion(data[4])),
        data.len() >= 16 && data[0] == 'P' as u8 && data[1] == 'E' as u8 && data[2] == 'R' as u8
            && data[3] == 'M' as u8 && data[4] == 1 && data.len() - 16 < 4 * le_value(
            data.subrange(8, 16),
        ) && 16 + 4 * le_value(data.subrange(8, 16)) <= usize::MAX ==> permutation_parsed(data)
            == Err::<Seq<u32>, PackedPermutationError>(
            PackedPermutationError::TruncatedForward {
                expected: (4 * le_value(data.subrange(8, 16))) as usize,
                actual: (data.len() - 16) as usize,
            },
        ),
        data.len() >= 16 && data[0] == 'P' as u8 && data[1] == 'E' as u8 && data[2] == 'R' as u8
            && data[3] == 'M' as u8 && data[4] == 1 && 16 + 4 * le_value(data.subrange(8, 16))
            > usize::MAX ==> permutation_parsed(data) == Err::<Seq<u32>, PackedPermutationError>(
            PackedPermutationError::SizeOverflow,
        ),
{
    if data.len() >= 16 {
        lemma_first_four(data, permutation_magic());
    }
}

/// The texts of errors.
pub proof fn law_texts_of_permutation_errors(v: u8, expected: usize, actual: usize, value: u32)
    ensures
        permutation_error_text(PackedPermutationError::TruncatedHeader)
            == "packed permutation header truncated"@,
        permutation_error_text(PackedPermutationError::BadMagic)
            == "packed permutation bad magic (expected 'PERM')"@,
        permutation_error_text(PackedPermutationError::UnsupportedVersion(v))
            == "packed permutation unsupported version "@ + decimal(v as nat),
        permutation_error_text(PackedPermutationError::TruncatedForward { expected, actual })
            == "packed permutation forward truncated: expected "@ + decimal(expected as nat)
            + " bytes, got "@ + decimal(actual as nat),
        permutation_error_text(PackedPermutationError::SizeOverflow)
            == "packed permutation size field overflows usize"@,
        permutation_error_text(
            PackedPermutationError::InvalidPermutation { index: expected, value },
        ) == "packed permutation forward["@ + decimal(expected as nat) + "] = "@ + decimal(
            value as nat,
        ) + " is out of range"@,
        permutation_error_text(PackedPermutationError::DuplicateTarget { index: expected, value })
            == "packed permutation forward["@ + decimal(expected as nat) + "] = "@ + decimal(
            value as nat,
        ) + " duplicates an earlier entry"@,
{
}

/// The first eight bytes of a packed permutation.
fn push_magic(buf: &mut Vec<u8>)
    ensures
        final(buf)@ == old(buf)@ + permutation_magic(),
{
    buf.push(0x50);
    buf.push(0x45);
    buf.push(0x52);
    buf.push(0x4d);
    buf.push(1);
    buf.push(0);
    buf.push(0);
    buf.push(0);
    assert(buf@ =~= old(buf)@ + permutation_magic());
}

/// Packs a permutation.
#[must_use]
pub fn serialize_permutation(perm: &SuccinctPermutation) -> (r: Vec<u8>)
    ensures
        r@ == packed_permutation(perm.targets()),
{
    let n: usize = perm.len();
    let ghost packed = perm.targets().map_values(|t: usize| packed_target(t));
    let mut buf: Vec<u8> = Vec::new();
    push_magic(&mut buf);
    push_u64_le(&mut buf, n as u64);
    let ghost header = buf@;
    let mut i: usize = 0;
    assert(packed.take(0) =~= Seq::<u32>::empty());
    assert(le_u32s(packed.take(0)) =~= Seq::<u8>::empty());
    assert(buf@ =~= header + le_u32s(packed.take(0)));
    while i < n
        invariant
            i <= n == perm.targets().len(),
            packed == perm.targets().map_values(|t: usize| packed_target(t)),
            buf@ == header + le_u32s(packed.take(i as int)),
        decreases n - i,
    {
        let target: usize = match perm.apply(i) {
            Some(t) => t,
            None => 0,
        };
        let value: u32 = if target as u64 <= u32::MAX as u64 {
            target as u32
        } else {
            u32::MAX
        };
        push_u32_le(&mut buf, value);
        proof {
            assert(packed.take(i + 1) =~= packed.take(i as int).push(value));
            lemma_le_u32s_push(packed.take(i as int), value);
            assert(buf@ =~= header + le_u32s(packed.take(i + 1)));
        }
        i = i + 1;
    }
    assert(packed.take(n as int) =~= packed);
    assert(buf@ =~= packed_permutation(perm.targets()));
    buf
}

/// Whether the bytes begin with the magic of a packed permutation.
fn has_magic(data: &[u8]) -> (r: bool)
    requires
        data@.len() >= 4,
    ensures
        r == (data@.subrange(0, 4) == permutation_magic().subrange(0, 4)),
{
    let r: bool = data[0] == 0x50 && data[1] == 0x45 && data[2] == 0x52 && data[3] == 0x4d;
    proof {
        let want = permutation_magic().subrange(0, 4);
        let got = data@.subrange(0, 4);
        assert(want[0] == 0x50 && want[1] == 0x45 && want[2] == 0x52 && want[3] == 0x4d);
        assert(got[0] == data@[0] && got[1] == data@[1] && got[2] == data@[2] && got[3]
            == data@[3]);
        if r {
            assert(got =~= want);
        }
    }
    r
}

/// Reads a packed permutation and rebuilds its inverse.
pub fn deserialize_permutation(data: Bytes) -> (r: Result<
    SuccinctPermutation,
    PackedPermutationError,
>)
    ensures
        match r {
            Ok(perm) => permutation_parsed(bytes_content(data)) == Ok::<
                Seq<u32>,
                PackedPermutationError,
            >(perm.targets().map_values(|t: usize| t as u32)) && is_bijection(perm.targets())
                && perm.targets().len() <= u32::MAX,
            Err(e) => permutation_parsed(bytes_content(data)) == Err::<
                Seq<u32>,
                PackedPermutationError,
            >(e),
        },
{
    let bytes: &[u8] = bytes_as_slice(&data);
    if bytes.len() < HEADER_SIZE {
        return Err(PackedPermutationError::TruncatedHeader);
    }
    if !has_magic(bytes) {
        return Err(PackedPermutationError::BadMagic);
    }
    let version: u8 = bytes[4];
    if version != 1 {
        return Err(PackedPermutationError::UnsupportedVersion(version));
    }
    let n_raw: u64 = read_u64_le(bytes, 8);
    let total: u128 = 16 + 4 * (n_raw as u128);
    if total > usize::MAX as u128 {
        return Err(PackedPermutationError::SizeOverflow);
    }
    let n: usize = n_raw as usize;
    if 16 + 4 * n > bytes.len() {
        return Err(
            PackedPermutationError::TruncatedForward {
                expected: 4 * n,
                actual: bytes.len() - HEADER_SIZE,
            },
        );
    }
    if n_raw > u32::MAX as u64 {
        return Err(PackedPermutationError::SizeOverflow);
    }
    let ghost region = bytes@.subrange(16, 16 + 4 * n);
    let ghost values = u32s_of(region);
    let mut forward: Vec<usize> = Vec::new();
    let mut seen: Vec<bool> = vec![false; n];
    let mut i: usize = 0;
    while i < n
        invariant
            i <= n <= u32::MAX,
            bytes@ == bytes_content(data),
            16 + 4 * n <= bytes@.len() <= usize::MAX,
            region == bytes@.subrange(16, 16 + 4 * n),
            values == u32s_of(region),
            values.len() == n,
            seen@.len() == n,
            forward@.len() == i,
            target_fault(values, i as nat) is None,
            forall|k: int| #![trigger forward@[k]]
                0 <= k < i ==> forward@[k] == values[k] && forward@[k] < n,
            forall|v: int| #![trigger seen@[v]]
                0 <= v < n ==> (seen@[v] <==> values.take(i as int).contains(v as u32)),
            forall|a: int, b: int| 0 <= a < b < i ==> forward@[a] != forward@[b],
            permutation_parsed(bytes@) == (match target_fault(values, n as nat) {
                Some(e) => Err::<Seq<u32>, PackedPermutationError>(e),
                None => Ok(values),
            }),
        decreases n - i,
    {
        let value: u32 = read_u32_le(bytes, 16 + 4 * i);
        proof {
            assert(region.subrange(4 * i, 4 * i + 4) =~= bytes@.subrange(
                16 + 4 * i,
                16 + 4 * i + 4,
            ));
            lemma_le_value_bound(region.subrange(4 * i, 4 * i + 4));
            lemma_pow256();
            assert(values[i as int] == value);
        }
        if value as u64 >= n as u64 {
            proof {
                lemma_fault_stays(values, (i + 1) as nat, n as nat);
            }
            return Err(PackedPermutationError::InvalidPermutation { index: i, value });
        }
        if seen[value as usize] {
            proof {
                lemma_fault_stays(values, (i + 1) as nat, n as nat);
            }
            return Err(PackedPermutationError::DuplicateTarget { index: i, value });
        }
        seen.set(value as usize, true);
        forward.push(value as usize);
        proof {
            let before = values.take(i as int);
            assert(values.take(i + 1) =~= before.push(value));
            assert forall|v: int| #![trigger seen@[v]] 0 <= v < n implies (seen@[v]
                <==> values.take(i + 1).contains(v as u32)) by {
                vstd::seq_lib::lemma_seq_contains_after_push(before, value, v as u32);
            }
            assert forall|a: int, b: int| 0 <= a < b < i + 1 implies forward@[a] != forward@[b] by {
                if b == i {
                    assert(before[a] == forward@[a]);
                    assert(before.contains(values[a]));
                }
            }
        }
        i = i + 1;
    }
    let perm = SuccinctPermutation::new(forward.as_slice());
    assert(perm.targets().map_values(|t: usize| t as u32) =~= values);
    Ok(perm)
}

proof fn lemma_fault_stays(values: Seq<u32>, k: nat, n: nat)
    requires
        target_fault(values, k) is Some,
        k <= n,
    ensures
        target_fault(values, n) == target_fault(values, k),
    decreases n,
{
    if k < n {
        lemma_fault_stays(values, k, (n - 1) as nat);
    }
}

} // verus!
