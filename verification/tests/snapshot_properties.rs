use grafeo::bindings::signed_snapshot::{
    looks_signed, open_with, sign_with, unwrap, wrap, MAX_SNAPSHOT_BYTES, MIN_LEN, TAG_LEN,
};

#[test]
fn signed_form_is_magic_payload_and_tag() {
    let signed = wrap(b"", b"");
    assert_eq!(signed.len(), MIN_LEN);
    assert_eq!(&signed[..4], b"GSN1");
    assert_eq!(sign_with(b"", &signed[4..]), signed);
    assert_eq!(MAX_SNAPSHOT_BYTES, 128 * 1024 * 1024);
}

#[test]
fn tag_is_the_hmac_of_magic_and_payload() {
    let signed = wrap(b"key", b"The quick brown fox");
    let tag = &signed[signed.len() - TAG_LEN..];
    let want = [
        0x3c, 0x9a, 0xeb, 0xf6, 0xbd, 0x82, 0x63, 0xb0, 0xc8, 0x2c, 0xce, 0xf7,
        0x5e, 0xd4, 0x36, 0x95, 0x9a, 0x7e, 0xf8, 0x0c, 0xf3, 0x77, 0x2e, 0xbf,
        0xeb, 0x26, 0x70, 0x78, 0xbb, 0xd9, 0xf3, 0x3f,
    ];
    assert_eq!(tag, &want[..]);
}

#[test]
fn rejections_and_their_texts() {
    assert_eq!(
        unwrap(b"k", b"GSN1").unwrap_err(),
        "snapshot too small: 4 bytes, need at least 36"
    );
    assert_eq!(
        unwrap(b"k", &[0u8; 40]).unwrap_err(),
        "snapshot is missing the GSN1 signed-format header; use importSnapshot() for unsigned exports"
    );
    let mut signed = wrap(b"k", b"payload");
    signed[5] ^= 1;
    assert_eq!(
        unwrap(b"k", &signed).unwrap_err(),
        "HMAC verification failed: snapshot was tampered with or signed with a different key"
    );
}

#[test]
fn what_is_accepted_is_what_was_wrapped() {
    let signed = wrap(b"k", b"payload");
    assert_eq!(open_with(&signed, true).unwrap(), b"payload");
    assert!(open_with(&signed, false).is_err());
    let payload = unwrap(b"k", &signed).unwrap();
    assert_eq!(wrap(b"k", payload), signed);
    assert!(looks_signed(&signed));
}
