//! The reference-counted byte buffers of the `bytes` crate.

use bytes::{Bytes, BytesMut};
use vstd::prelude::*;

verus! {

/// The immutable buffer of the `bytes` crate, taken as opaque.
#[verifier::external_type_specification]
#[verifier::external_body]
pub struct ExBytes(bytes::Bytes);

/// The growable buffer of the `bytes` crate, taken as opaque.
#[verifier::external_type_specification]
#[verifier::external_body]
pub struct ExBytesMut(bytes::BytesMut);

/// The bytes that a `Bytes` holds.
pub uninterp spec fn bytes_content(b: Bytes) -> Seq<u8>;

/// The bytes that a `BytesMut` holds so far.
pub uninterp spec fn bytes_mut_content(b: BytesMut) -> Seq<u8>;

/// Calls `<Bytes as AsRef<[u8]>>::as_ref`: the slice shows the buffer's bytes.
#[verifier::external_body]
pub(crate) fn bytes_as_slice(b: &Bytes) -> (r: &[u8])
    ensures
        r@ == bytes_content(*b),
{
    b.as_ref()
}

/// `<Bytes as Clone>::clone`: the clone shares the memory, so it holds the same
/// bytes.
pub assume_specification [<bytes::Bytes as Clone>::clone] (b: &bytes::Bytes) -> (r: bytes::Bytes)
    ensures
        bytes_content(r) == bytes_content(*b),
;

/// Calls `Bytes::copy_from_slice`: a new buffer with a copy of the bytes.
#[verifier::external_body]
pub(crate) fn bytes_copy_from_slice(data: &[u8]) -> (r: Bytes)
    ensures
        bytes_content(r) == data@,
{
    Bytes::copy_from_slice(data)
}

/// Calls `Bytes::slice`: a buffer that shares the memory and holds the bytes of
/// the range. The range must lie within the buffer.
#[verifier::external_body]
pub(crate) fn bytes_slice(b: &Bytes, start: usize, end: usize) -> (r: Bytes)
    requires
        start <= end <= bytes_content(*b).len(),
    ensures
        bytes_content(r) == bytes_content(*b).subrange(start as int, end as int),
{
    b.slice(start..end)
}

/// Calls `BytesMut::new`: an empty buffer.
#[verifier::external_body]
pub(crate) fn bytes_mut_new() -> (r: BytesMut)
    ensures
        bytes_mut_content(r) == Seq::<u8>::empty(),
{
    BytesMut::new()
}

/// Calls `BytesMut::extend_from_slice`: appends the given bytes.
#[verifier::external_body]
pub(crate) fn bytes_mut_extend(b: &mut BytesMut, data: &[u8])
    ensures
        bytes_mut_content(*final(b)) == bytes_mut_content(*old(b)) + data@,
{
    b.extend_from_slice(data)
}

/// Calls `BytesMut::freeze`: an immutable buffer with the bytes collected.
#[verifier::external_body]
pub(crate) fn bytes_mut_freeze(b: BytesMut) -> (r: Bytes)
    ensures
        bytes_content(r) == bytes_mut_content(b),
{
    b.freeze()
}

} // verus!
