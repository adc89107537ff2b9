use bytes::Bytes;
use grafeo::codec::bitpack::{BitPackError, BitPackedInts, DeltaBitPacked, DeltaError};
use grafeo::codec::dictionary::{DictionaryBuilder, IntoDictionaryEncoding};
use grafeo::codec::succinct::{
    BitVector, BitVectorError, SuccinctBitVector, WaveletInvariantError, WaveletTree,
};

#[test]
fn packing_and_unpacking_gives_the_values() {
    let values: Vec<u64> = vec![0, 1, 15, 7, 8, 3, 14, 2, 9, 15, 0, 4, 6, 5, 1, 12, 11];
    let packed = BitPackedInts::pack(&values);
    assert_eq!(packed.bits_per_value(), 4);
    assert_eq!(packed.word_count(), 2);
    assert_eq!(packed.unpack(), values);
    for (i, v) in values.iter().enumerate() {
        assert_eq!(packed.get(i), Some(*v));
    }
    assert_eq!(packed.get(values.len()), None);
}

#[test]
fn packed_words_hold_the_first_value_lowest() {
    let packed = BitPackedInts::pack(&[1, 2, 3]);
    assert_eq!(packed.bits_per_value(), 2);
    assert_eq!(packed.as_words_slice(), Some(&[0b11_10_01u64][..]));
    assert_eq!(packed.word_at(0), Some(0b11_10_01));
    assert_eq!(packed.word_at(1), None);
}

#[test]
fn packed_bytes_are_width_count_and_words() {
    let packed = BitPackedInts::pack(&[5, 5, 5]);
    let bytes = packed.to_bytes().unwrap();
    let mut want = vec![3u8, 3, 0, 0, 0];
    want.extend_from_slice(&0b101_101_101u64.to_le_bytes());
    assert_eq!(bytes, want);
    let back = BitPackedInts::from_bytes(&bytes).unwrap();
    assert_eq!(back.unpack(), vec![5, 5, 5]);
    assert_eq!(back.data_bytes(), packed.data_bytes());
}

#[test]
fn mapped_words_read_as_inline_words() {
    let packed = BitPackedInts::pack(&[9, 8, 7, 6, 5, 4, 3, 2, 1, 0]);
    let mapped =
        BitPackedInts::from_bytes_storage(packed.data_bytes(), packed.bits_per_value(), 10);
    assert_eq!(mapped.unpack(), packed.unpack());
    assert!(mapped.as_words_slice().is_none());
    assert_eq!(mapped.word_at(0), packed.word_at(0));
}

#[test]
fn bit_pack_errors_and_their_texts() {
    assert_eq!(BitPackedInts::from_bytes(&[1, 2]).unwrap_err(), BitPackError::TooShort);
    assert_eq!(
        BitPackedInts::from_bytes(&[65, 1, 0, 0, 0]).unwrap_err(),
        BitPackError::WidthTooLarge(65)
    );
    assert_eq!(
        BitPackedInts::from_bytes(&[8, 9, 0, 0, 0, 1, 2, 3]).unwrap_err(),
        BitPackError::Truncated
    );
    assert_eq!(BitPackError::TooShort.message(), "BitPackedInts too short");
    assert_eq!(BitPackError::Truncated.message(), "BitPackedInts truncated");
    assert_eq!(
        BitPackError::WidthTooLarge(65).message(),
        "BitPackedInts bits_per_value 65 exceeds 64"
    );
    assert_eq!(
        BitPackError::CountTooLarge(5_000_000_000).message(),
        "BitPackedInts count 5000000000 exceeds u32::MAX, cannot serialize"
    );
    assert_eq!(DeltaBitPacked::from_bytes(&[0; 7]).unwrap_err(), DeltaError::TooShort);
    assert_eq!(
        DeltaBitPacked::from_bytes(&[0; 9]).unwrap_err(),
        DeltaError::Deltas(BitPackError::TooShort)
    );
    assert_eq!(DeltaError::TooShort.message(), "DeltaBitPacked too short");
    assert_eq!(
        DeltaError::Deltas(BitPackError::Truncated).message(),
        "BitPackedInts truncated"
    );
}

#[test]
fn deltas_of_sorted_values_give_the_values_back() {
    let values: Vec<u64> = vec![1_000_000, 1_000_003, 1_000_003, 1_000_010, 1_000_100];
    let delta = DeltaBitPacked::encode(&values);
    assert_eq!(delta.base(), 1_000_000);
    assert_eq!(delta.bits_per_delta(), 7);
    assert_eq!(delta.decode(), values);
    let back = DeltaBitPacked::from_bytes(&delta.to_bytes().unwrap()).unwrap();
    assert_eq!(back.decode(), values);
}

#[test]
fn a_single_zero_is_not_the_empty_sequence() {
    let zero = DeltaBitPacked::encode(&[0]);
    assert!(!zero.is_empty());
    assert_eq!(zero.len(), 1);
    assert_eq!(zero.base(), 0);
    assert_eq!(zero.decode(), vec![0]);
    assert_eq!(zero.clone().decode(), vec![0]);
    assert_eq!(zero.compression_sizes(), Some((8, 8)));
    let bytes = zero.to_bytes().unwrap();
    assert_eq!(bytes, vec![0, 0, 0, 0, 0, 0, 0, 0, 1, 0, 0, 0, 0]);
    let back = DeltaBitPacked::from_bytes(&bytes).unwrap();
    assert_eq!(back.len(), 1);
    assert_eq!(back.decode(), vec![0]);

    let nothing = DeltaBitPacked::encode(&[]);
    assert!(nothing.is_empty());
    assert_eq!(nothing.len(), 0);
    assert_eq!(nothing.compression_sizes(), None);
    let bytes = nothing.to_bytes().unwrap();
    assert_eq!(bytes, vec![0; 13]);
    let back = DeltaBitPacked::from_bytes(&bytes).unwrap();
    assert!(back.is_empty());
    assert_eq!(back.decode(), Vec::<u64>::new());

    let zeros = DeltaBitPacked::encode(&[0, 0, 0]);
    assert_eq!(zeros.decode(), vec![0, 0, 0]);
}

#[test]
fn dictionary_codes_lead_back_to_strings() {
    let dict = vec!["b", "a", "b", "c"].into_dictionary_encoding();
    assert_eq!(dict.codes(), vec![0, 1, 0, 2]);
    let strings: Vec<&str> = dict.dictionary().iter().map(|s| &**s).collect();
    assert_eq!(strings, vec!["b", "a", "c"]);
    let same = ["b", "a", "b", "c"].into_dictionary_encoding();
    assert_eq!(same.codes(), dict.codes());
    assert_eq!(same.iter(), dict.iter());
    for s in ["a", "b", "c"] {
        let code = dict.encode(s).unwrap();
        assert_eq!(&*dict.dictionary()[code as usize], s);
    }
    assert_eq!(dict.encode("d"), None);
    assert_eq!(dict.filter_by_code(|c| c == 0), vec![0, 2]);
}

#[test]
fn dictionary_nulls_are_no_strings() {
    let mut builder = DictionaryBuilder::new();
    assert_eq!(builder.add_optional(Some("x")), Some(0));
    assert_eq!(builder.add_optional(None), None);
    assert_eq!(builder.add("x"), 0);
    let dict = builder.build();
    assert_eq!(dict.iter(), vec![Some("x"), None, Some("x")]);
    assert!(dict.is_null(1));
    assert_eq!(dict.get_code(1), None);
}

#[test]
fn bit_vector_counts_ones_before_a_position() {
    let bits: Vec<bool> = (0..200).map(|i| i % 3 == 0).collect();
    let vector = SuccinctBitVector::from_bitvec(BitVector::from_bools(&bits));
    assert_eq!(vector.len(), 200);
    let mut ones = 0;
    for (i, b) in bits.iter().enumerate() {
        assert_eq!(vector.rank1(i), ones);
        assert_eq!(vector.get(i), Some(*b));
        ones += usize::from(*b);
    }
    assert_eq!(vector.rank1(200), ones);
    assert_eq!(vector.get(200), None);
}

#[test]
fn bit_vector_needs_whole_words_enough() {
    assert_eq!(
        BitVector::from_mmap(Bytes::from(vec![0u8; 8]), 65).unwrap_err(),
        BitVectorError
    );
    assert_eq!(
        BitVector::from_mmap(Bytes::from(vec![0u8; 9]), 64).unwrap_err(),
        BitVectorError
    );
    let v = BitVector::from_mmap(Bytes::from(vec![0b101u8, 0, 0, 0, 0, 0, 0, 0]), 3).unwrap();
    assert_eq!((v.get(0), v.get(1), v.get(2), v.get(3)), (Some(true), Some(false), Some(true), None));
}

#[test]
fn wavelet_tree_gives_back_its_sequence() {
    let sequence: Vec<u64> = (0..500u64).map(|i| (i * i + 7) % 23 * 1000).collect();
    let tree = WaveletTree::new(&sequence);
    for (i, s) in sequence.iter().enumerate() {
        assert_eq!(tree.access(i), Some(*s));
    }
    assert_eq!(tree.access(500), None);
    assert!(tree.symbols_slice().windows(2).all(|w| w[0] < w[1]));
}

#[test]
fn wavelet_tree_heights() {
    assert_eq!(WaveletTree::new(&[]).height(), 0);
    assert_eq!(WaveletTree::new(&[9, 9]).height(), 1);
    assert_eq!(WaveletTree::new(&[1, 2]).height(), 1);
    assert_eq!(WaveletTree::new(&[1, 2, 3]).height(), 2);
    assert_eq!(WaveletTree::new(&[1, 2, 3, 4, 5]).height(), 3);
}

#[test]
fn wavelet_parts_that_do_not_fit() {
    let level = || SuccinctBitVector::from_bitvec(BitVector::from_bools(&vec![true, false]));
    assert_eq!(
        WaveletTree::from_packed_parts(vec![level()], 2, 2, 2, vec![1, 2]).unwrap_err(),
        WaveletInvariantError::LevelCount { expected: 2, actual: 1 }
    );
    assert_eq!(
        WaveletTree::from_packed_parts(vec![level()], 1, 2, 3, vec![1, 2]).unwrap_err(),
        WaveletInvariantError::LevelLength { level: 0, expected: 3, actual: 2 }
    );
    assert_eq!(
        WaveletTree::from_packed_parts(vec![level()], 1, 3, 2, vec![1, 2]).unwrap_err(),
        WaveletInvariantError::SymbolCount { expected: 3, actual: 2 }
    );
    assert_eq!(
        WaveletTree::from_packed_parts(vec![level()], 1, 2, 2, vec![2, 2]).unwrap_err(),
        WaveletInvariantError::UnsortedSymbols { index: 1 }
    );
    let tree = WaveletTree::from_packed_parts(vec![level()], 1, 2, 2, vec![5, 6]).unwrap();
    assert_eq!((tree.access(0), tree.access(1)), (Some(6), Some(5)));
}

#[test]
fn a_builder_with_room_is_empty() {
    let mut builder = DictionaryBuilder::with_capacity(8, 4);
    assert_eq!((builder.len(), builder.dictionary_size()), (0, 0));
    builder.add("a");
    let encoding = builder.build();
    assert!(encoding.as_null_words_slice().is_none());
    assert!(!encoding.is_null(0));
}
