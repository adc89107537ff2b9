use bytes::Bytes;
use grafeo::index::ring::packed_permutation::{
    deserialize_permutation, serialize_permutation, PackedPermutationError, HEADER_SIZE,
};
use grafeo::index::ring::SuccinctPermutation;

const MAGIC: &[u8; 4] = b"PERM";
const VERSION: u8 = 1;

fn build_perm(forward: &[usize]) -> SuccinctPermutation {
    SuccinctPermutation::new(forward)
}

#[test]
fn alix_packed_perm_roundtrip_small() {
    let forward = vec![3usize, 0, 4, 1, 2];
    let perm = build_perm(&forward);
    let bytes = serialize_permutation(&perm);
    let restored = deserialize_permutation(Bytes::from(bytes)).expect("deserialize");
    assert_eq!(restored.len(), perm.len());
    for i in 0..perm.len() {
        assert_eq!(restored.apply(i), perm.apply(i));
        assert_eq!(restored.apply_inverse(i), perm.apply_inverse(i));
    }
}

#[test]
fn gus_packed_perm_roundtrip_identity() {
    let forward: Vec<usize> = (0..256).collect();
    let perm = build_perm(&forward);
    let bytes = serialize_permutation(&perm);
    let restored = deserialize_permutation(Bytes::from(bytes)).expect("deserialize");
    for i in 0..256 {
        assert_eq!(restored.apply(i), Some(i));
    }
}

#[test]
fn vincent_packed_perm_roundtrip_reverse() {
    let forward: Vec<usize> = (0..128).rev().collect();
    let perm = build_perm(&forward);
    let bytes = serialize_permutation(&perm);
    let restored = deserialize_permutation(Bytes::from(bytes)).expect("deserialize");
    for i in 0..128 {
        assert_eq!(restored.apply(i), Some(127 - i));
        // Inverse of reverse is also reverse.
        assert_eq!(restored.apply_inverse(i), Some(127 - i));
    }
}

#[test]
fn jules_packed_perm_empty() {
    let perm = build_perm(&[]);
    let bytes = serialize_permutation(&perm);
    assert_eq!(bytes.len(), HEADER_SIZE);
    let restored = deserialize_permutation(Bytes::from(bytes)).expect("empty");
    assert_eq!(restored.len(), 0);
    assert!(restored.is_empty());
}

#[test]
fn mia_packed_perm_bad_magic_rejected() {
    let bad = Bytes::from(vec![0u8; HEADER_SIZE]);
    assert_eq!(
        deserialize_permutation(bad).unwrap_err(),
        PackedPermutationError::BadMagic
    );
}

#[test]
fn shosanna_packed_perm_truncated_header_rejected() {
    let short = Bytes::from(vec![b'P', b'E', b'R', b'M']);
    assert_eq!(
        deserialize_permutation(short).unwrap_err(),
        PackedPermutationError::TruncatedHeader
    );
}

#[test]
fn beatrix_packed_perm_unsupported_version_rejected() {
    let mut buf = vec![0u8; HEADER_SIZE];
    buf[..4].copy_from_slice(MAGIC);
    buf[4] = 99;
    assert_eq!(
        deserialize_permutation(Bytes::from(buf)).unwrap_err(),
        PackedPermutationError::UnsupportedVersion(99)
    );
}

#[test]
fn hans_packed_perm_invalid_target_rejected() {
    // n=2 but forward[0] = 5 (out of range)
    let mut buf = Vec::with_capacity(HEADER_SIZE + 8);
    buf.extend_from_slice(MAGIC);
    buf.push(VERSION);
    buf.extend_from_slice(&[0u8; 3]);
    buf.extend_from_slice(&2u64.to_le_bytes());
    buf.extend_from_slice(&5u32.to_le_bytes()); // bad
    buf.extend_from_slice(&0u32.to_le_bytes());
    let result = deserialize_permutation(Bytes::from(buf));
    assert!(matches!(
        result.unwrap_err(),
        PackedPermutationError::InvalidPermutation { index: 0, value: 5 }
    ));
}

#[test]
fn django_packed_perm_duplicate_target_rejected() {
    // n=3, forward = [0, 0, 2] — 0 appears twice.
    let mut buf = Vec::with_capacity(HEADER_SIZE + 12);
    buf.extend_from_slice(MAGIC);
    buf.push(VERSION);
    buf.extend_from_slice(&[0u8; 3]);
    buf.extend_from_slice(&3u64.to_le_bytes());
    buf.extend_from_slice(&0u32.to_le_bytes());
    buf.extend_from_slice(&0u32.to_le_bytes()); // dup
    buf.extend_from_slice(&2u32.to_le_bytes());
    let result = deserialize_permutation(Bytes::from(buf));
    assert!(matches!(
        result.unwrap_err(),
        PackedPermutationError::DuplicateTarget { index: 1, value: 0 }
    ));
}
