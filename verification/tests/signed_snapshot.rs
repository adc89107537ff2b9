use grafeo::bindings::signed_snapshot::{looks_signed, unwrap, wrap};

const MAGIC: &[u8; 4] = b"GSN1";

#[test]
fn roundtrip_returns_original_payload() {
    let key = b"0123456789abcdef0123456789abcdef";
    let payload = b"some snapshot bytes";
    let signed = wrap(key, payload);
    let unwrapped = unwrap(key, &signed).expect("verify ok");
    assert_eq!(unwrapped, payload);
}

#[test]
fn wrong_key_fails_verification() {
    let signed = wrap(b"key-a", b"payload");
    let err = unwrap(b"key-b", &signed).unwrap_err();
    assert!(err.contains("HMAC"));
}

#[test]
fn tampered_payload_fails_verification() {
    let key = b"secret";
    let mut signed = wrap(key, b"payload");
    // Flip a byte in the middle of the payload.
    let mid = signed.len() / 2;
    signed[mid] ^= 0x01;
    assert!(unwrap(key, &signed).is_err());
}

#[test]
fn truncated_tag_fails_verification() {
    let key = b"secret";
    let mut signed = wrap(key, b"payload");
    signed.truncate(signed.len() - 1);
    assert!(unwrap(key, &signed).is_err());
}

#[test]
fn stripped_magic_fails_verification() {
    let key = b"secret";
    let signed = wrap(key, b"payload");
    // Drop the magic header: the caller should not be able to pass this
    // off as a raw-unsigned snapshot via importSnapshotSigned.
    let body_and_tag = &signed[MAGIC.len()..];
    assert!(unwrap(key, body_and_tag).is_err());
}

#[test]
fn empty_snapshot_rejected() {
    let err = unwrap(b"k", &[]).unwrap_err();
    assert!(err.contains("too small"));
}

#[test]
fn looks_signed_detects_magic() {
    let signed = wrap(b"k", b"payload");
    assert!(looks_signed(&signed));
    assert!(!looks_signed(b"payload"));
    assert!(!looks_signed(b""));
    assert!(!looks_signed(b"GSN"));
}
