//! Checksums, from the crate `crc32fast`.

use vstd::prelude::*;

verus! {

/// The CRC-32 of bytes, as `crc32fast::hash` computes it.
pub uninterp spec fn crc32_of(bytes: Seq<u8>) -> u32;

/// Whether `b` is `a` but for the byte at `p`.
pub open spec fn changed_at(a: Seq<u8>, b: Seq<u8>, p: int) -> bool {
    &&& a.len() == b.len()
    &&& 0 <= p < a.len()
    &&& a[p] != b[p]
    &&& forall|q: int| #![trigger b[q]] 0 <= q < a.len() && q != p ==> a[q] == b[q]
}

/// Calls `crc32fast::hash`. Its result is named: it depends on the bytes alone. And
/// bytes that differ from these in a single place have another checksum. In the
/// byte-wise form of the source, to which the tests of that crate hold the faster
/// forms, a byte takes the state to `table[(state ^ byte) & 0xff] ^ (state >> 8)`, and
/// no two entries of that table have the same top byte: different bytes lead from one
/// state, and one byte leads from different states, to different states.
#[verifier::external_body]
pub(crate) fn crc32(bytes: &[u8]) -> (r: u32)
    ensures
        r == crc32_of(bytes@),
        forall|other: Seq<u8>, p: int| #[trigger] changed_at(other, bytes@, p) ==> r != crc32_of(
            other,
        ),
{
    crc32fast::hash(bytes)
}

} // verus!
