//! Snapshots that show whether they were tampered with.
//!
//! ```text
//! "GSN1", the payload, and the 32 bytes of the HMAC-SHA256 of both
//! ```
//!
//! The tag covers the magic too, so that a signed snapshot cannot be passed off as
//! an unsigned one by cutting its header off.

use vstd::prelude::*;
use vstd::string::StringExecFns;

use crate::text::decimal;
use crate::text::push_decimal;
use crate::trusted::mac::hmac_sha256_of;
use crate::trusted::mac::{hmac_sha256, hmac_sha256_accepts};

verus! {

/// The length of the magic.
pub const MAGIC_LEN: usize = 4;

/// The length of the tag.
pub const TAG_LEN: usize = 32;

/// The length of a signed snapshot with an empty payload.
pub const MIN_LEN: usize = 36;

/// The largest snapshot that is taken in. A larger one could use up the memory
/// while it is decoded.
pub const MAX_SNAPSHOT_BYTES: usize = 134_217_728;

/// "GSN1".
pub open spec fn snapshot_magic() -> Seq<u8> {
    seq![0x47u8, 0x53u8, 0x4eu8, 0x31u8]
}

/// Whether bytes begin with the magic.
pub open spec fn has_magic(data: Seq<u8>) -> bool {
    data.len() >= MAGIC_LEN && data.subrange(0, MAGIC_LEN as int) == snapshot_magic()
}

/// A payload with its magic and a tag.
pub open spec fn signed_form(payload: Seq<u8>, tag: Seq<u8>) -> Seq<u8> {
    snapshot_magic() + payload + tag
}

/// The signed form of a payload under a key.
pub open spec fn wrapped(key: Seq<u8>, payload: Seq<u8>) -> Seq<u8> {
    signed_form(payload, hmac_sha256_of(key, snapshot_magic() + payload)@)
}

/// What the tag of a signed snapshot covers.
pub open spec fn snapshot_body(data: Seq<u8>) -> Seq<u8> {
    data.subrange(0, data.len() - TAG_LEN)
}

/// The tag of a signed snapshot.
pub open spec fn snapshot_tag(data: Seq<u8>) -> Seq<u8> {
    data.subrange(data.len() - TAG_LEN, data.len() as int)
}

/// What a signed snapshot holds, where `accepted` says whether its tag is the tag of
/// its body: the payload, or why it is rejected.
pub open spec fn opened(data: Seq<u8>, accepted: bool) -> Result<Seq<u8>, Seq<char>> {
    if data.len() < MIN_LEN {
        Err(
            "snapshot too small: "@ + decimal(data.len()) + " bytes, need at least "@ + decimal(
                MIN_LEN as nat,
            ),
        )
    } else if !has_magic(data) {
        Err(
            "snapshot is missing the GSN1 signed-format header; use importSnapshot() for unsigned exports"@,
        )
    } else if !accepted {
        Err(
            "HMAC verification failed: snapshot was tampered with or signed with a different key"@,
        )
    } else {
        Ok(data.subrange(MAGIC_LEN as int, data.len() - TAG_LEN))
    }
}

/// What a snapshot holds for who has the key: the payload if the tag is the tag of
/// its body under that key, or why it is rejected.
pub open spec fn unwrapped(key: Seq<u8>, data: Seq<u8>) -> Result<Seq<u8>, Seq<char>> {
    opened(data, snapshot_tag(data) == hmac_sha256_of(key, snapshot_body(data))@)
}

/// What was wrapped under a key is unwrapped under that key.
pub proof fn law_unwrap_inverts_wrap(key: Seq<u8>, payload: Seq<u8>)
    ensures
        has_magic(wrapped(key, payload)),
        unwrapped(key, wrapped(key, payload)) == Ok::<Seq<u8>, Seq<char>>(payload),
{
    let data = wrapped(key, payload);
    let tag = hmac_sha256_of(key, snapshot_magic() + payload)@;
    assert(tag.len() == 32);
    assert(data.subrange(0, 4) =~= snapshot_magic());
    assert(snapshot_body(data) =~= snapshot_magic() + payload);
    assert(snapshot_tag(data) =~= tag);
    assert(data.subrange(4, data.len() - 32) =~= payload);
}

/// Only what was wrapped under a key is unwrapped under that key: whatever is
/// accepted is the signed form of the payload that comes out.
pub proof fn law_only_wrapped_is_accepted(key: Seq<u8>, data: Seq<u8>)
    requires
        unwrapped(key, data) is Ok,
    ensures
        data == wrapped(key, unwrapped(key, data)->Ok_0),
{
    let payload = unwrapped(key, data)->Ok_0;
    assert(snapshot_body(data) =~= snapshot_magic() + payload) by {
        let front = data.subrange(0, 4);
        assert forall|i: int| 0 <= i < 4 implies data[i] == snapshot_magic()[i] by {
            assert(front[i] == data[i]);
        }
    }
    assert(data =~= snapshot_body(data) + snapshot_tag(data));
}

/// The layout of a signed snapshot: the bytes of "GSN1", the payload as it is, and the
/// tag of both under the key.
pub proof fn law_layout_of_snapshots(key: Seq<u8>, payload: Seq<u8>, i: int)
    ensures
        wrapped(key, payload).len() == payload.len() + 36,
        wrapped(key, payload)[0] == 'G' as u8 && wrapped(key, payload)[1] == 'S' as u8 && wrapped(
            key,
            payload,
        )[2] == 'N' as u8 && wrapped(key, payload)[3] == '1' as u8,
        0 <= i < payload.len() ==> wrapped(key, payload)[4 + i] == payload[i],
        wrapped(key, payload).skip(4 + payload.len() as int) == hmac_sha256_of(
            key,
            wrapped(key, payload).take(4 + payload.len() as int),
        )@,
{
    let tag = hmac_sha256_of(key, snapshot_magic() + payload)@;
    let all = wrapped(key, payload);
    assert(tag.len() == 32);
    assert(all.take(4 + payload.len() as int) =~= snapshot_magic() + payload);
    assert(all.skip(4 + payload.len() as int) =~= tag);
}

/// What is no signed snapshot is rejected, and it is said why: it is shorter than the
/// magic and a tag, or it does not begin with "GSN1", or its tag was not accepted.
pub proof fn law_why_snapshots_are_rejected(data: Seq<u8>, accepted: bool)
    ensures
        has_magic(data) <==> data.len() >= 4 && data[0] == 'G' as u8 && data[1] == 'S' as u8
            && data[2] == 'N' as u8 && data[3] == '1' as u8,
        data.len() < 36 ==> opened(data, accepted) == Err::<Seq<u8>, Seq<char>>(
            "snapshot too small: "@ + decimal(data.len()) + " bytes, need at least "@ + decimal(36),
        ),
        data.len() >= 36 && !has_magic(data) ==> opened(data, accepted) == Err::<
            Seq<u8>,
            Seq<char>,
        >(
            "snapshot is missing the GSN1 signed-format header; use importSnapshot() for unsigned exports"@,
        ),
        data.len() >= 36 && has_magic(data) && !accepted ==> opened(data, accepted) == Err::<
            Seq<u8>,
            Seq<char>,
        >("HMAC verification failed: snapshot was tampered with or signed with a different key"@),
        data.len() >= 36 && has_magic(data) && accepted ==> opened(data, accepted) == Ok::<
            Seq<u8>,
            Seq<char>,
        >(data.subrange(4, data.len() - 32)),
        MAX_SNAPSHOT_BYTES == 128 * 1024 * 1024,
{
    if data.len() >= 4 {
        let front = data.subrange(0, 4);
        assert(front[0] == data[0] && front[1] == data[1] && front[2] == data[2] && front[3]
            == data[3]);
        if data[0] == 'G' as u8 && data[1] == 'S' as u8 && data[2] == 'N' as u8 && data[3]
            == '1' as u8 {
            assert(front =~= snapshot_magic());
        }
    }
}

/// Whether data begins with the magic of a signed snapshot.
#[must_use]
pub fn looks_signed(data: &[u8]) -> (r: bool)
    ensures
        r == has_magic(data@),
{
    if data.len() < MAGIC_LEN {
        return false;
    }
    let r: bool = data[0] == 0x47 && data[1] == 0x53 && data[2] == 0x4e && data[3] == 0x31;
    proof {
        let got = data@.subrange(0, 4);
        assert(got[0] == data@[0] && got[1] == data@[1] && got[2] == data@[2] && got[3]
            == data@[3]);
        if r {
            assert(got =~= snapshot_magic());
        }
    }
    r
}

/// Puts the magic in front of a payload.
fn with_magic(payload: &[u8]) -> (r: Vec<u8>)
    ensures
        r@ == snapshot_magic() + payload@,
{
    let mut out: Vec<u8> = Vec::new();
    out.push(0x47);
    out.push(0x53);
    out.push(0x4e);
    out.push(0x31);
    out.extend_from_slice(payload);
    assert(out@ =~= snapshot_magic() + payload@);
    out
}

/// Puts a payload, the magic and a tag together.
#[must_use]
pub fn sign_with(payload: &[u8], tag: &[u8]) -> (r: Vec<u8>)
    ensures
        r@ == signed_form(payload@, tag@),
{
    let mut out: Vec<u8> = with_magic(payload);
    out.extend_from_slice(tag);
    out
}

/// Wraps a payload with the magic and the tag under a key.
#[must_use]
pub fn wrap(key: &[u8], payload: &[u8]) -> (r: Vec<u8>)
    ensures
        r@ == wrapped(key@, payload@),
{
    let mut out: Vec<u8> = with_magic(payload);
    let tag: [u8; 32] = hmac_sha256(key, out.as_slice());
    out.extend_from_slice(tag.as_slice());
    out
}

/// Takes the payload out of a signed snapshot, where `accepted` says whether its tag
/// is the tag of its body.
pub fn open_with(data: &[u8], accepted: bool) -> (r: Result<&[u8], String>)
    ensures
        match r {
            Ok(payload) => opened(data@, accepted) == Ok::<Seq<u8>, Seq<char>>(payload@),
            Err(e) => opened(data@, accepted) == Err::<Seq<u8>, Seq<char>>(e@),
        },
{
    if data.len() < MIN_LEN {
        let mut text: String = String::new();
        text.append("snapshot too small: ");
        push_decimal(&mut text, data.len() as u64);
        text.append(" bytes, need at least ");
        push_decimal(&mut text, MIN_LEN as u64);
        proof {
            let want = "snapshot too small: "@ + decimal(data@.len()) + " bytes, need at least "@
                + decimal(MIN_LEN as nat);
            assert(text@ =~= want);
        }
        return Err(text);
    }
    if !looks_signed(data) {
        return Err(
            "snapshot is missing the GSN1 signed-format header; use importSnapshot() for unsigned exports".to_owned(),
        );
    }
    if !accepted {
        return Err(
            "HMAC verification failed: snapshot was tampered with or signed with a different key".to_owned(),
        );
    }
    Ok(vstd::slice::slice_subrange(data, MAGIC_LEN, data.len() - TAG_LEN))
}

/// Checks the tag of a signed snapshot and takes the payload out.
pub fn unwrap<'a>(key: &[u8], data: &'a [u8]) -> (r: Result<&'a [u8], String>)
    ensures
        match r {
            Ok(payload) => unwrapped(key@, data@) == Ok::<Seq<u8>, Seq<char>>(payload@),
            Err(e) => unwrapped(key@, data@) == Err::<Seq<u8>, Seq<char>>(e@),
        },
{
    if data.len() < MIN_LEN || !looks_signed(data) {
        return open_with(data, false);
    }
    let split: usize = data.len() - TAG_LEN;
    let body: &[u8] = vstd::slice::slice_subrange(data, 0, split);
    let tag: &[u8] = vstd::slice::slice_subrange(data, split, data.len());
    open_with(data, hmac_sha256_accepts(key, body, tag))
}

} // verus!
