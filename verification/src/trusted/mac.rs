//! Message authentication codes, from the crates `hmac` and `sha2`.

use hmac::{Hmac, KeyInit, Mac};
use sha2::Sha256;
use vstd::prelude::*;

verus! {

/// The HMAC-SHA256 of data under a key, as `hmac::Hmac<sha2::Sha256>` computes it.
pub uninterp spec fn hmac_sha256_of(key: Seq<u8>, data: Seq<u8>) -> [u8; 32];

/// Calls `Hmac::<Sha256>::new_from_slice`, which takes a key of any length, `update`
/// and `finalize`. The tag is named: it depends on the key and the data alone.
#[verifier::external_body]
pub(crate) fn hmac_sha256(key: &[u8], data: &[u8]) -> (r: [u8; 32])
    ensures
        r == hmac_sha256_of(key@, data@),
{
    let mut mac = Hmac::<Sha256>::new_from_slice(key).expect("HMAC accepts any key length");
    mac.update(data);
    mac.finalize().into_bytes().into()
}

/// Calls `Hmac::<Sha256>::new_from_slice`, `update` and `verify_slice`, which compares
/// in constant time: a tag is accepted when it is the tag of the data, all of it.
#[verifier::external_body]
pub(crate) fn hmac_sha256_accepts(key: &[u8], data: &[u8], tag: &[u8]) -> (r: bool)
    ensures
        r == (tag@ == hmac_sha256_of(key@, data@)@),
{
    let mut mac = Hmac::<Sha256>::new_from_slice(key).expect("HMAC accepts any key length");
    mac.update(data);
    mac.verify_slice(tag).is_ok()
}

} // verus!
