use std::sync::Arc;

use grafeo::codec::dictionary::{DictionaryBuilder, DictionaryEncoding, IntoDictionaryEncoding};

/// The compression ratio, or one where there is nothing to compress.
fn ratio_of_dictionary(sizes: Option<(usize, usize)>) -> f64 {
    match sizes {
        Some((plain, packed)) => plain as f64 / packed as f64,
        None => 1.0,
    }
}

#[test]
fn test_dictionary_builder_basic() {
    let mut builder = DictionaryBuilder::new();
    builder.add("apple");
    builder.add("banana");
    builder.add("apple");
    builder.add("cherry");
    builder.add("apple");

    let dict = builder.build();

    assert_eq!(dict.len(), 5);
    assert_eq!(dict.dictionary_size(), 3);

    assert_eq!(dict.get(0), Some("apple"));
    assert_eq!(dict.get(1), Some("banana"));
    assert_eq!(dict.get(2), Some("apple"));
    assert_eq!(dict.get(3), Some("cherry"));
    assert_eq!(dict.get(4), Some("apple"));
}

#[test]
fn test_dictionary_codes() {
    let mut builder = DictionaryBuilder::new();
    let code_apple = builder.add("apple");
    let code_banana = builder.add("banana");
    let code_apple2 = builder.add("apple");

    assert_eq!(code_apple, code_apple2);
    assert_ne!(code_apple, code_banana);

    let dict = builder.build();
    assert_eq!(dict.codes(), vec![0, 1, 0]);
}

#[test]
fn test_dictionary_with_nulls() {
    let mut builder = DictionaryBuilder::new();
    builder.add("apple");
    builder.add_null();
    builder.add("banana");
    builder.add_null();

    let dict = builder.build();

    assert_eq!(dict.len(), 4);
    assert_eq!(dict.get(0), Some("apple"));
    assert_eq!(dict.get(1), None);
    assert!(dict.is_null(1));
    assert_eq!(dict.get(2), Some("banana"));
    assert_eq!(dict.get(3), None);
    assert!(dict.is_null(3));
}

#[test]
fn test_dictionary_encode_lookup() {
    let mut builder = DictionaryBuilder::new();
    builder.add("apple");
    builder.add("banana");
    builder.add("cherry");

    let dict = builder.build();

    assert_eq!(dict.encode("apple"), Some(0));
    assert_eq!(dict.encode("banana"), Some(1));
    assert_eq!(dict.encode("cherry"), Some(2));
    assert_eq!(dict.encode("date"), None);
}

#[test]
fn test_dictionary_filter_by_code() {
    let mut builder = DictionaryBuilder::new();
    builder.add("apple");
    builder.add("banana");
    builder.add("apple");
    builder.add("cherry");
    builder.add("apple");

    let dict = builder.build();
    let apple_code = dict.encode("apple").unwrap();

    let indices = dict.filter_by_code(|code| code == apple_code);
    assert_eq!(indices, vec![0, 2, 4]);
}

#[test]
fn test_compression_ratio() {
    let mut builder = DictionaryBuilder::new();

    // Add many repeated long strings
    for _ in 0..100 {
        builder.add("this_is_a_very_long_string_that_repeats_many_times");
    }

    let dict = builder.build();

    // Compression ratio should be > 1 for highly repetitive data
    let ratio = ratio_of_dictionary(dict.compression_sizes());
    assert!(ratio > 1.0, "Expected compression ratio > 1, got {}", ratio);
}

#[test]
fn test_into_dictionary_encoding() {
    let strings = vec!["apple", "banana", "apple", "cherry"];
    let dict: DictionaryEncoding = strings.into_dictionary_encoding();

    assert_eq!(dict.len(), 4);
    assert_eq!(dict.dictionary_size(), 3);
}

#[test]
fn test_empty_dictionary() {
    let builder = DictionaryBuilder::new();
    let dict = builder.build();

    assert!(dict.is_empty());
    assert_eq!(dict.dictionary_size(), 0);
    assert_eq!(dict.get(0), None);
}

#[test]
fn test_single_value() {
    let mut builder = DictionaryBuilder::new();
    builder.add("only_value");

    let dict = builder.build();

    assert_eq!(dict.len(), 1);
    assert_eq!(dict.dictionary_size(), 1);
    assert_eq!(dict.get(0), Some("only_value"));
}

#[test]
fn test_all_unique() {
    let mut builder = DictionaryBuilder::new();
    builder.add("a");
    builder.add("b");
    builder.add("c");
    builder.add("d");

    let dict = builder.build();

    assert_eq!(dict.len(), 4);
    assert_eq!(dict.dictionary_size(), 4);
    assert_eq!(dict.codes(), vec![0, 1, 2, 3]);
}

#[test]
fn test_all_same() {
    let mut builder = DictionaryBuilder::new();
    for _ in 0..10 {
        builder.add("same");
    }

    let dict = builder.build();

    assert_eq!(dict.len(), 10);
    assert_eq!(dict.dictionary_size(), 1);
    assert!(dict.codes().iter().all(|&c| c == 0));
}

#[test]
fn test_dict_inline_codes_slice_via_builder() {
    let mut b = DictionaryBuilder::new();
    for s in ["alpha", "beta", "alpha", "gamma", "beta"] {
        b.add(s);
    }
    let dict = b.build();

    let slice = dict.as_codes_slice();
    assert!(
        slice.is_some(),
        "DictionaryBuilder must produce Inline codes for fast scan"
    );
    let codes = slice.unwrap();
    assert_eq!(codes.len(), 5);
    assert_eq!(codes[0], codes[2]); // both "alpha"
    assert_eq!(codes[1], codes[4]); // both "beta"
}

#[test]
fn test_dict_mapped_codes_yield_no_slice() {
    let dictionary: Arc<[Arc<str>]> = Arc::from(vec![Arc::from("a"), Arc::from("b")]);
    let codes_le: Vec<u8> = [0u32, 1, 0, 1]
        .iter()
        .flat_map(|c| c.to_le_bytes())
        .collect();
    let dict =
        DictionaryEncoding::from_bytes_storage(dictionary, bytes::Bytes::from(codes_le), 4);
    assert!(dict.as_codes_slice().is_none());
    assert_eq!(dict.code_at(0), Some(0));
    assert_eq!(dict.code_at(3), Some(1));
}

#[test]
fn test_dict_inline_null_words_slice_via_with_nulls() {
    let mut b = DictionaryBuilder::new();
    for s in ["x", "y", "z"] {
        b.add(s);
    }
    let dict = b.build().with_nulls(vec![0b0000_0010_u64]); // index 1 is null

    assert!(
        dict.as_null_words_slice().is_some(),
        "with_nulls(Vec<u64>) must produce Inline null bitmap"
    );
    assert!(!dict.is_null(0));
    assert!(dict.is_null(1));
    assert!(!dict.is_null(2));
}

#[test]
fn test_dict_filter_by_code_matches_between_inline_and_mapped() {
    let strings = ["a", "b", "c", "a", "a", "b", "c", "a", "b", "a"];
    let mut b = DictionaryBuilder::new();
    for s in strings {
        b.add(s);
    }
    let inline = b.build();

    let codes_b = inline.codes_bytes();
    let dict_arc = inline.dictionary().clone();
    let mapped = DictionaryEncoding::from_bytes_storage(dict_arc, codes_b, strings.len());

    let target = inline.encode("a").unwrap();
    let from_inline = inline.filter_by_code(|c| c == target);
    let from_mapped = mapped.filter_by_code(|c| c == target);
    assert_eq!(from_inline, from_mapped);
    assert_eq!(from_inline, vec![0, 3, 4, 7, 9]);
}

#[test]
fn test_dict_filter_by_code_respects_inline_null_bitmap() {
    let mut b = DictionaryBuilder::new();
    for s in ["x", "y", "x", "y"] {
        b.add(s);
    }
    // Mark index 2 ("x") as null.
    let dict = b.build().with_nulls(vec![0b0000_0100_u64]);
    let target = dict.encode("x").unwrap();
    let hits = dict.filter_by_code(|c| c == target);
    assert_eq!(hits, vec![0]); // index 2 excluded by null bit
}

#[test]
fn test_dict_filter_by_code_fallback_with_mapped_codes_and_mapped_nulls() {
    let dictionary: Arc<[Arc<str>]> = Arc::from(vec![Arc::from("a"), Arc::from("b")]);

    // Codes: a, b, a, b, a -> 0, 1, 0, 1, 0
    let codes_le: Vec<u8> = [0u32, 1, 0, 1, 0]
        .iter()
        .flat_map(|c| c.to_le_bytes())
        .collect();
    let codes_bytes = bytes::Bytes::from(codes_le);

    // Null bitmap as LE u64 bytes: mark index 2 (the third "a") as null.
    // 0b0000_0100 -> bit 2 set
    let null_le: Vec<u8> = 0b0000_0100_u64.to_le_bytes().to_vec();
    let null_bytes = bytes::Bytes::from(null_le);

    let dict = DictionaryEncoding::from_bytes_storage(dictionary, codes_bytes, 5)
        .with_null_bytes(null_bytes);

    let target_a = dict.encode("a").expect("'a' is in dictionary");
    // "a" is at indices 0, 2, 4. Index 2 is null. So result should be [0, 4].
    let hits = dict.filter_by_code(|c| c == target_a);
    assert_eq!(hits, vec![0, 4]);
}
