use bytes::Bytes;
use grafeo::codec::succinct::WaveletTree;
use grafeo::index::ring::packed_wavelet::{
    deserialize_wavelet_tree, serialize_wavelet_tree, PackedWaveletError, HEADER_SIZE,
};

const MAGIC: &[u8; 4] = b"WTRE";

fn build_tree(seq: &[u64]) -> WaveletTree {
    WaveletTree::new(seq)
}

fn assert_trees_equal(orig: &WaveletTree, restored: &WaveletTree) {
    assert_eq!(orig.len(), restored.len());
    assert_eq!(orig.sigma(), restored.sigma());
    for i in 0..orig.len() {
        assert_eq!(
            orig.access(i),
            restored.access(i),
            "access mismatch at position {i}"
        );
    }
}

#[test]
fn alix_packed_wavelet_roundtrip_small() {
    let seq = vec![1u64, 3, 2, 1, 2, 3, 1, 2];
    let tree = build_tree(&seq);
    let bytes = serialize_wavelet_tree(&tree);
    let restored = deserialize_wavelet_tree(Bytes::from(bytes)).expect("deserialize");
    assert_trees_equal(&tree, &restored);
}

#[test]
fn gus_packed_wavelet_roundtrip_large() {
    // 1024 symbols drawn from an alphabet of 16 — exercises multi-level
    // wavelet structure at non-trivial size.
    let seq: Vec<u64> = (0..1024u64).map(|i| (i * 7) % 16).collect();
    let tree = build_tree(&seq);
    let bytes = serialize_wavelet_tree(&tree);
    let restored = deserialize_wavelet_tree(Bytes::from(bytes)).expect("deserialize");
    assert_trees_equal(&tree, &restored);
}

#[test]
fn vincent_packed_wavelet_empty() {
    let tree = WaveletTree::new(&[]);
    let bytes = serialize_wavelet_tree(&tree);
    let restored = deserialize_wavelet_tree(Bytes::from(bytes)).expect("deserialize");
    assert_eq!(restored.len(), 0);
    assert!(restored.is_empty());
}

#[test]
fn jules_packed_wavelet_single_symbol() {
    // sigma = 1; height ends up = 1 per `WaveletTree::new`.
    let seq = vec![42u64; 16];
    let tree = build_tree(&seq);
    let bytes = serialize_wavelet_tree(&tree);
    let restored = deserialize_wavelet_tree(Bytes::from(bytes)).expect("deserialize");
    assert_trees_equal(&tree, &restored);
}

#[test]
fn mia_packed_wavelet_bad_magic_rejected() {
    let bad = Bytes::from(vec![0u8; HEADER_SIZE]);
    assert_eq!(
        deserialize_wavelet_tree(bad).unwrap_err(),
        PackedWaveletError::BadMagic
    );
}

#[test]
fn shosanna_packed_wavelet_truncated_header_rejected() {
    let short = Bytes::from(vec![b'W', b'T', b'R', b'E']);
    assert_eq!(
        deserialize_wavelet_tree(short).unwrap_err(),
        PackedWaveletError::TruncatedHeader
    );
}

#[test]
fn beatrix_packed_wavelet_unsupported_version_rejected() {
    let mut buf = vec![0u8; HEADER_SIZE];
    buf[..4].copy_from_slice(MAGIC);
    buf[4] = 99;
    assert_eq!(
        deserialize_wavelet_tree(Bytes::from(buf)).unwrap_err(),
        PackedWaveletError::UnsupportedVersion(99)
    );
}

#[test]
fn django_packed_wavelet_zero_copy_per_level() {
    // Round-trip and confirm restored levels' inner BitVector data
    // shares the underlying source allocation (zero-copy mmap path).
    let seq = vec![1u64, 2, 3, 4, 5, 6, 7, 8];
    let tree = build_tree(&seq);
    let bytes = serialize_wavelet_tree(&tree);
    let source = Bytes::from(bytes);
    let source_ptr = source.as_ptr();
    let source_len = source.len();

    let restored = deserialize_wavelet_tree(source).expect("deserialize");
    for (idx, level) in restored.levels_slice().iter().enumerate() {
        let inner_ptr = level.inner().data_bytes().as_ptr();
        let offset = inner_ptr as usize - source_ptr as usize;
        assert!(
            offset < source_len,
            "level {idx}: inner BitVector should be inside source allocation; offset={offset}"
        );
    }
}
