use grafeo::codec::bitpack::{BitPackedInts, DeltaBitPacked};

/// The compression ratio, or one where there is nothing to compress.
fn ratio_of(sizes: Option<(usize, usize)>) -> f64 {
    match sizes {
        Some((plain, packed)) => plain as f64 / packed as f64,
        None => 1.0,
    }
}

#[test]
fn test_bitpack_basic() {
    let values = vec![5u64, 2, 3, 5, 5, 8, 2];
    let packed = BitPackedInts::pack(&values);
    let unpacked = packed.unpack();
    assert_eq!(values, unpacked);
}

#[test]
fn test_bitpack_empty() {
    let values: Vec<u64> = vec![];
    let packed = BitPackedInts::pack(&values);
    assert!(packed.is_empty());
    assert_eq!(packed.unpack(), values);
}

#[test]
fn test_bitpack_single() {
    let values = vec![42u64];
    let packed = BitPackedInts::pack(&values);
    assert_eq!(packed.len(), 1);
    assert_eq!(packed.unpack(), values);
}

#[test]
fn test_bitpack_all_zeros() {
    let values = vec![0u64; 100];
    let packed = BitPackedInts::pack(&values);
    assert_eq!(packed.bits_per_value(), 1);
    assert_eq!(packed.unpack(), values);
}

#[test]
fn test_bitpack_powers_of_two() {
    for bits in 1..=64u8 {
        let max_val = if bits == 64 {
            u64::MAX
        } else {
            (1u64 << bits) - 1
        };
        let values = vec![0, max_val / 2, max_val];
        let packed = BitPackedInts::pack(&values);
        assert_eq!(packed.bits_per_value(), bits);
        assert_eq!(packed.unpack(), values);
    }
}

#[test]
fn test_bitpack_get() {
    let values = vec![1u64, 2, 3, 4, 5];
    let packed = BitPackedInts::pack(&values);

    for (i, &expected) in values.iter().enumerate() {
        assert_eq!(packed.get(i), Some(expected));
    }
    assert_eq!(packed.get(100), None);
}

#[test]
fn test_bitpack_compression() {
    // 100 values all <= 15 (4 bits each)
    let values: Vec<u64> = (0..100).map(|i| i % 16).collect();
    let packed = BitPackedInts::pack(&values);
    assert_eq!(packed.bits_per_value(), 4);
    // 100 * 64 bits -> 100 * 4 bits = 16x compression
    let ratio = ratio_of(packed.compression_sizes());
    assert!(ratio > 10.0, "Expected ratio > 10, got {}", ratio);
}

#[test]
fn test_bitpack_serialization() {
    let values = vec![1u64, 3, 7, 15, 31];
    let packed = BitPackedInts::pack(&values);
    let bytes = packed.to_bytes().unwrap();
    let restored = BitPackedInts::from_bytes(&bytes).unwrap();
    assert_eq!(packed.unpack(), restored.unpack());
}

#[test]
fn test_delta_bitpacked_basic() {
    let values = vec![100u64, 105, 107, 110, 115, 120, 128, 130];
    let encoded = DeltaBitPacked::encode(&values);
    let decoded = encoded.decode();
    assert_eq!(values, decoded);
}

#[test]
fn test_delta_bitpacked_sequential() {
    // Sequential values: deltas are all 1, needs only 1 bit each
    let values: Vec<u64> = (1000..1100).collect();
    let encoded = DeltaBitPacked::encode(&values);
    assert_eq!(encoded.bits_per_delta(), 1);
    assert_eq!(encoded.decode(), values);

    // Great compression: 100 * 64 bits -> 8 (base) + ~100 bits
    let ratio = ratio_of(encoded.compression_sizes());
    assert!(ratio > 5.0, "Expected ratio > 5, got {}", ratio);
}

#[test]
fn test_delta_bitpacked_empty() {
    let values: Vec<u64> = vec![];
    let encoded = DeltaBitPacked::encode(&values);
    assert!(encoded.is_empty());
    assert_eq!(encoded.decode(), values);
}

#[test]
fn test_delta_bitpacked_single() {
    let values = vec![42u64];
    let encoded = DeltaBitPacked::encode(&values);
    assert_eq!(encoded.len(), 1);
    assert_eq!(encoded.decode(), values);
}

#[test]
fn test_delta_bitpacked_serialization() {
    let values = vec![100u64, 105, 107, 110, 115];
    let encoded = DeltaBitPacked::encode(&values);
    let bytes = encoded.to_bytes().unwrap();
    let restored = DeltaBitPacked::from_bytes(&bytes).unwrap();
    assert_eq!(encoded.decode(), restored.decode());
}

#[test]
fn test_bits_needed() {
    assert_eq!(BitPackedInts::bits_needed(0), 1);
    assert_eq!(BitPackedInts::bits_needed(1), 1);
    assert_eq!(BitPackedInts::bits_needed(2), 2);
    assert_eq!(BitPackedInts::bits_needed(3), 2);
    assert_eq!(BitPackedInts::bits_needed(4), 3);
    assert_eq!(BitPackedInts::bits_needed(7), 3);
    assert_eq!(BitPackedInts::bits_needed(8), 4);
    assert_eq!(BitPackedInts::bits_needed(255), 8);
    assert_eq!(BitPackedInts::bits_needed(256), 9);
    assert_eq!(BitPackedInts::bits_needed(u64::MAX), 64);
}

#[test]
fn test_bitpack_word_at_returns_words_from_bytes() {
    // Pack 5 values at 4 bits each → fits in one u64 word.
    let packed = BitPackedInts::pack(&[1u64, 3, 7, 15, 4]);
    assert_eq!(packed.word_count(), 1);
    let word = packed.word_at(0).unwrap();
    // 4-bit values packed LE: bit 0..3 = 1, 4..7 = 3, 8..11 = 7, 12..15 = 15, 16..19 = 4.
    assert_eq!(word & 0xF, 1);
    assert_eq!((word >> 4) & 0xF, 3);
    assert_eq!((word >> 8) & 0xF, 7);
    assert_eq!((word >> 12) & 0xF, 15);
    assert_eq!((word >> 16) & 0xF, 4);
}

#[test]
fn test_bitpack_word_at_out_of_range_returns_none() {
    let packed = BitPackedInts::pack(&[1u64, 2, 3]);
    assert!(packed.word_at(packed.word_count()).is_none());
    assert!(packed.word_at(usize::MAX).is_none());
}

#[test]
fn test_bitpack_data_bytes_length_matches_word_count() {
    let packed = BitPackedInts::pack_with_bits(
        &(0u64..200).collect::<Vec<_>>(),
        8, // 200 values × 8 bits = 1600 bits = 25 u64 words = 200 bytes
    );
    assert_eq!(packed.data_bytes().len(), packed.word_count() * 8);
    // Round-trip: read each word via word_at, recombine, unpack still works.
    let unpacked = packed.unpack();
    assert_eq!(unpacked, (0u64..200).collect::<Vec<_>>());
}

#[test]
fn test_bitpack_round_trip_through_to_bytes_and_from_bytes() {
    let values: Vec<u64> = (0u64..50).map(|i| i * 7 % 1024).collect();
    let packed = BitPackedInts::pack(&values);
    let serialized = packed.to_bytes().unwrap();
    let restored = BitPackedInts::from_bytes(&serialized).unwrap();
    assert_eq!(packed.unpack(), restored.unpack());
    assert_eq!(packed.bits_per_value(), restored.bits_per_value());
    assert_eq!(packed.len(), restored.len());
}

#[test]
fn test_bitpack_inline_storage_word_slice_via_pack() {
    let values: Vec<u64> = (0..1000).map(|i| i % 16).collect();
    let packed = BitPackedInts::pack(&values);

    let slice = packed.as_words_slice();
    assert!(
        slice.is_some(),
        "BitPackedInts::pack must produce Inline storage so scans skip per-element decode"
    );
}

#[test]
fn test_bitpack_inline_storage_word_slice_matches_input() {
    let words = vec![0xDEAD_BEEFu64, 0xCAFE_BABE];
    let packed = BitPackedInts::from_raw_parts(words.clone(), 8, 16);
    let slice = packed.as_words_slice().expect("Vec input is Inline");
    assert_eq!(slice, words.as_slice());
}

#[test]
fn test_bitpack_mapped_storage_no_word_slice() {
    let words: Vec<u64> = vec![1, 2, 3];
    let mut buf = bytes::BytesMut::with_capacity(words.len() * 8);
    for &w in &words {
        buf.extend_from_slice(&w.to_le_bytes());
    }
    let packed = BitPackedInts::from_bytes_storage(buf.freeze(), 8, 24);

    assert!(
        packed.as_words_slice().is_none(),
        "Bytes-backed (mmap) storage cannot expose a u64 slice"
    );
    assert_eq!(packed.word_at(0), Some(1));
    assert_eq!(packed.word_at(2), Some(3));
}

#[test]
fn test_bitpack_get_matches_between_inline_and_mapped_storage() {
    let values: Vec<u64> = (0..2_000).map(|i| (i * 7) % 31).collect();
    let inline = BitPackedInts::pack(&values);

    // Build a Mapped equivalent by re-encoding through bytes.
    let bytes = inline.data_bytes();
    let mapped =
        BitPackedInts::from_bytes_storage(bytes, inline.bits_per_value(), values.len());

    for i in 0..values.len() {
        assert_eq!(inline.get(i), Some(values[i]), "inline mismatch at {i}");
        assert_eq!(mapped.get(i), Some(values[i]), "mapped mismatch at {i}");
    }
    assert_eq!(inline.get(values.len()), None);
    assert_eq!(mapped.get(values.len()), None);
}
