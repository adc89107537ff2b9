use bytes::Bytes;
use grafeo::codec::succinct::{WaveletInvariantError, WaveletTree};
use grafeo::graph::rdf::dictionary::TermDictionary;
use grafeo::graph::rdf::term::Term;
use grafeo::graph::rdf::triple::{Triple, TriplePattern};
use grafeo::index::ring::packed_dict::{
    deserialize_term_dictionary, serialize_term_dictionary, PackedDictError,
};
use grafeo::index::ring::packed_format::{parse_triple_ring, serialize_ring_body};
use grafeo::index::ring::{
    deserialize_permutation, deserialize_triple_ring, deserialize_wavelet_tree,
    serialize_permutation, serialize_triple_ring, serialize_wavelet_tree, PackedPermutationError,
    PackedRingError, PackedWaveletError, SuccinctPermutation, TripleRing,
    TripleRingInvariantError,
};

fn triple(s: &str, p: &str, o: &str) -> Triple {
    Triple::new(Term::iri(s), Term::iri(p), Term::literal(o))
}

fn sample() -> TripleRing {
    TripleRing::from_triples(vec![
        triple("b", "p", "1"),
        triple("a", "q", "2"),
        triple("a", "p", "1"),
        triple("a", "p", "1"),
    ])
}

fn any() -> TriplePattern {
    TriplePattern { subject: None, predicate: None, object: None }
}

/// Sets the trailer to the checksum of what stands before it.
fn reseal(bytes: &mut [u8]) {
    let end = bytes.len() - 4;
    let crc = crc32fast::hash(&bytes[..end]);
    bytes[end..].copy_from_slice(&crc.to_le_bytes());
}

#[test]
fn every_changed_bit_is_noticed() {
    let packed = serialize_triple_ring(&sample());
    for p in 0..packed.len() {
        for bit in 0..8 {
            let mut bytes = packed.clone();
            bytes[p] ^= 1 << bit;
            let changed = bytes[p];
            let error = deserialize_triple_ring(Bytes::from(bytes)).unwrap_err();
            if p < 4 {
                assert_eq!(error, PackedRingError::BadMagic);
            } else if p == 4 {
                assert_eq!(error, PackedRingError::UnsupportedVersion(changed));
            } else {
                assert!(matches!(error, PackedRingError::ChecksumMismatch { .. }));
            }
        }
    }
    assert!(deserialize_triple_ring(Bytes::from(packed)).is_ok());
}

#[test]
fn permutation_and_inverse_lead_back() {
    let perm = SuccinctPermutation::new(&[2, 0, 3, 1]);
    for i in 0..4 {
        assert_eq!(perm.apply_inverse(perm.apply(i).unwrap()), Some(i));
        assert_eq!(perm.apply(perm.apply_inverse(i).unwrap()), Some(i));
    }
    assert_eq!(perm.apply(4), None);
    assert_eq!(perm.apply_inverse(4), None);
}

#[test]
fn packed_permutation_bytes() {
    let bytes = serialize_permutation(&SuccinctPermutation::new(&[1, 0]));
    let mut want = b"PERM".to_vec();
    want.extend_from_slice(&[1, 0, 0, 0]);
    want.extend_from_slice(&2u64.to_le_bytes());
    want.extend_from_slice(&1u32.to_le_bytes());
    want.extend_from_slice(&0u32.to_le_bytes());
    assert_eq!(bytes, want);
}

#[test]
fn packed_permutation_other_errors_and_texts() {
    let mut bytes = serialize_permutation(&SuccinctPermutation::new(&[1, 0]));
    bytes.truncate(20);
    assert_eq!(
        deserialize_permutation(Bytes::from(bytes.clone())).unwrap_err(),
        PackedPermutationError::TruncatedForward { expected: 8, actual: 4 }
    );
    bytes[8..16].copy_from_slice(&u64::MAX.to_le_bytes());
    assert_eq!(
        deserialize_permutation(Bytes::from(bytes)).unwrap_err(),
        PackedPermutationError::SizeOverflow
    );
    assert_eq!(
        PackedPermutationError::TruncatedForward { expected: 8, actual: 4 }.message(),
        "packed permutation forward truncated: expected 8 bytes, got 4"
    );
    assert_eq!(
        PackedPermutationError::DuplicateTarget { index: 1, value: 0 }.message(),
        "packed permutation forward[1] = 0 duplicates an earlier entry"
    );
}

#[test]
fn packed_wavelet_bytes() {
    let bytes = serialize_wavelet_tree(&WaveletTree::new(&[7, 3, 7]));
    let mut want = b"WTRE".to_vec();
    want.extend_from_slice(&[1, 0, 0, 0]);
    want.extend_from_slice(&1u32.to_le_bytes());
    want.extend_from_slice(&[0; 4]);
    want.extend_from_slice(&2u64.to_le_bytes());
    want.extend_from_slice(&3u64.to_le_bytes());
    want.extend_from_slice(&2u64.to_le_bytes());
    want.extend_from_slice(&3u64.to_le_bytes());
    want.extend_from_slice(&7u64.to_le_bytes());
    want.extend_from_slice(&3u64.to_le_bytes());
    want.extend_from_slice(&1u64.to_le_bytes());
    want.extend_from_slice(&0b101u64.to_le_bytes());
    assert_eq!(bytes, want);
}

#[test]
fn packed_wavelet_other_errors() {
    let bytes = serialize_wavelet_tree(&WaveletTree::new(&[7, 3, 7]));
    let read = |b: &[u8]| deserialize_wavelet_tree(Bytes::copy_from_slice(b)).unwrap_err();
    assert_eq!(read(&bytes[..48]), PackedWaveletError::Truncated { region: "symbols" });
    assert_eq!(read(&bytes[..60]), PackedWaveletError::Truncated { region: "level header" });
    assert_eq!(read(&bytes[..76]), PackedWaveletError::Truncated { region: "level data" });

    let mut few_words = bytes.clone();
    few_words[64..72].copy_from_slice(&0u64.to_le_bytes());
    assert_eq!(read(&few_words), PackedWaveletError::Truncated { region: "level bits" });

    let mut many_words = bytes.clone();
    many_words[64..72].copy_from_slice(&u64::MAX.to_le_bytes());
    assert_eq!(read(&many_words), PackedWaveletError::SizeOverflow);

    let mut other_count = bytes.clone();
    other_count[56..64].copy_from_slice(&9u64.to_le_bytes());
    assert_eq!(
        read(&other_count),
        PackedWaveletError::BitCountMismatch { level: 0, expected: 3, actual: 9 }
    );

    let mut unsorted = bytes.clone();
    unsorted[40..48].copy_from_slice(&8u64.to_le_bytes());
    assert_eq!(
        read(&unsorted),
        PackedWaveletError::InvariantViolation(WaveletInvariantError::UnsortedSymbols { index: 1 })
    );

    let mut other_sigma = bytes;
    other_sigma[16..24].copy_from_slice(&5u64.to_le_bytes());
    assert_eq!(
        read(&other_sigma),
        PackedWaveletError::InvariantViolation(WaveletInvariantError::SymbolCount {
            expected: 5,
            actual: 2
        })
    );
}

#[test]
fn packed_wavelet_texts() {
    assert_eq!(
        PackedWaveletError::Truncated { region: "level data" }.message(),
        "packed wavelet truncated in level data"
    );
    assert_eq!(
        PackedWaveletError::BitCountMismatch { level: 2, expected: 3, actual: 9 }.message(),
        "packed wavelet bit count mismatch at level 2: expected 3, got 9"
    );
    assert_eq!(
        PackedWaveletError::UnsupportedVersion(9).message(),
        "packed wavelet unsupported version 9"
    );
    assert_eq!(
        PackedWaveletError::InvariantViolation(WaveletInvariantError::UnsortedSymbols { index: 1 })
            .message(),
        "packed wavelet invariant violation: symbol 1 is not larger than the one before it"
    );
}

#[test]
fn packed_dictionary_keeps_ids() {
    let mut dict = TermDictionary::new();
    let terms = [
        Term::iri("http://x"),
        Term::blank("b"),
        Term::literal("héllo\n"),
        Term::lang_literal("chat".to_string(), "fr".to_string()),
        Term::typed_literal("1".to_string(), "http://int".to_string()),
    ];
    for t in &terms {
        dict.get_or_insert(t);
    }
    let back = deserialize_term_dictionary(Bytes::from(serialize_term_dictionary(&dict))).unwrap();
    assert_eq!(back.len(), 5);
    for (i, t) in terms.iter().enumerate() {
        assert_eq!(back.get_term(i as u32), Some(t));
        assert_eq!(back.get_id(t), Some(i as u32));
    }
}

#[test]
fn packed_dictionary_errors() {
    let mut dict = TermDictionary::new();
    dict.get_or_insert(&Term::iri("ab"));
    let bytes = serialize_term_dictionary(&dict);
    let read = |b: &[u8]| deserialize_term_dictionary(Bytes::copy_from_slice(b)).unwrap_err();
    assert_eq!(read(&bytes[..15]), PackedDictError::TruncatedHeader);
    assert_eq!(read(&bytes[..16]), PackedDictError::Truncated { term: 0 });
    assert_eq!(read(&bytes[..bytes.len() - 1]), PackedDictError::Truncated { term: 0 });
    let change = |at: usize, value: u8| {
        let mut b = bytes.clone();
        b[at] = value;
        read(&b)
    };
    assert_eq!(change(0, 0), PackedDictError::BadMagic);
    assert_eq!(change(4, 7), PackedDictError::UnsupportedVersion(7));
    assert_eq!(change(12, 1), PackedDictError::TooManyTerms((1 << 32) + 1));
    assert_eq!(change(16, 9), PackedDictError::InvalidTerm { term: 0 });
    assert_eq!(change(25, 0xff), PackedDictError::InvalidUtf8 { term: 0 });
    let mut twice = bytes.clone();
    twice[8] = 2;
    twice.extend_from_slice(&bytes[16..]);
    assert_eq!(read(&twice), PackedDictError::DuplicateTerm { term: 1 });
}

#[test]
fn ring_keeps_each_triple_once() {
    let ring = sample();
    assert_eq!(ring.len(), 3);
    assert_eq!(ring.num_terms(), 6);
    assert!(!ring.is_empty());
    assert_eq!(ring.count(&any()), 3);
    let found = ring.find(&TriplePattern::with_subject(Term::iri("a")));
    assert_eq!(found.len(), 2);
    assert!(found.contains(&triple("a", "p", "1")));
    assert!(found.contains(&triple("a", "q", "2")));
    assert_eq!(ring.count(&TriplePattern::with_subject(Term::iri("unknown"))), 0);
    assert_eq!(ring.count(&TriplePattern::with_subject(Term::literal("1"))), 0);
}

#[test]
fn packed_ring_gives_back_the_triples() {
    let ring = sample();
    let bytes = serialize_triple_ring(&ring);
    assert_eq!(&bytes[..5], b"GRFR\x02");
    assert_eq!(&bytes[8..16], &3u64.to_le_bytes());
    assert_eq!(&bytes[16..24], &64u64.to_le_bytes());
    let back = deserialize_triple_ring(Bytes::from(bytes)).unwrap();
    assert_eq!(back.find(&any()), ring.find(&any()));
}

#[test]
fn trailer_is_the_checksum_of_the_body() {
    let ring = sample();
    let body = serialize_ring_body(&ring);
    let bytes = serialize_triple_ring(&ring);
    assert_eq!(&bytes[..body.len()], &body[..]);
    assert_eq!(&bytes[body.len()..], &crc32fast::hash(&body).to_le_bytes());
    let given = crc32fast::hash(&body) ^ 1;
    assert_eq!(
        parse_triple_ring(Bytes::from(bytes), given).unwrap_err(),
        PackedRingError::ChecksumMismatch { expected: given ^ 1, actual: given }
    );
}

#[test]
fn packed_ring_offset_errors() {
    let good = serialize_triple_ring(&sample());
    let with = |at: usize, value: u64| {
        let mut b = good.clone();
        b[at..at + 8].copy_from_slice(&value.to_le_bytes());
        reseal(&mut b);
        deserialize_triple_ring(Bytes::from(b)).unwrap_err()
    };
    let names = ["dict", "subjects", "predicates", "objects", "spo_to_pos", "spo_to_osp"];
    for (k, section) in names.into_iter().enumerate() {
        assert_eq!(
            with(16 + 8 * k, 1_000_000),
            PackedRingError::OffsetOutOfBounds { section, offset: 1_000_000 }
        );
    }
    assert_eq!(
        with(24, 64),
        PackedRingError::OffsetOutOfBounds { section: "(non-monotonic offsets)", offset: 64 }
    );
    assert_eq!(
        with(8, 2),
        PackedRingError::NumTriplesMismatch { declared: 2, observed: 3 }
    );
}

#[test]
fn packed_ring_section_errors() {
    let good = serialize_triple_ring(&sample());
    let start = |k: usize| {
        u64::from_le_bytes(good[16 + 8 * k..24 + 8 * k].try_into().unwrap()) as usize
    };
    let broken = |k: usize| {
        let mut b = good.clone();
        b[start(k)] = 0;
        reseal(&mut b);
        deserialize_triple_ring(Bytes::from(b)).unwrap_err()
    };
    assert_eq!(broken(0), PackedRingError::from(PackedDictError::BadMagic));
    for k in 1..4 {
        assert_eq!(broken(k), PackedRingError::from(PackedWaveletError::BadMagic));
    }
    for k in 4..6 {
        assert_eq!(broken(k), PackedRingError::from(PackedPermutationError::BadMagic));
    }
}

#[test]
fn packed_ring_with_an_unknown_term() {
    let mut b = serialize_triple_ring(&sample());
    let subjects = u64::from_le_bytes(b[24..32].try_into().unwrap()) as usize;
    let count = u64::from_le_bytes(b[subjects + 32..subjects + 40].try_into().unwrap()) as usize;
    let last = subjects + 40 + 8 * (count - 1);
    b[last..last + 8].copy_from_slice(&99u64.to_le_bytes());
    reseal(&mut b);
    let error = deserialize_triple_ring(Bytes::from(b)).unwrap_err();
    assert!(matches!(
        error,
        PackedRingError::RingInvariantViolation(TripleRingInvariantError::UnknownTerm {
            part: "subjects",
            ..
        })
    ));
}

#[test]
fn ring_parts_of_different_lengths() {
    let error = TripleRing::from_packed_parts(
        TermDictionary::new(),
        1,
        WaveletTree::new(&[0]),
        WaveletTree::new(&[]),
        WaveletTree::new(&[0]),
        SuccinctPermutation::new(&[0]),
        SuccinctPermutation::new(&[0]),
    )
    .unwrap_err();
    assert_eq!(
        error,
        TripleRingInvariantError::LengthMismatch { part: "predicates", expected: 1, actual: 0 }
    );
}

#[test]
fn packed_ring_texts() {
    assert_eq!(
        PackedRingError::ChecksumMismatch { expected: 0x1a2b, actual: 0xdead_beef }.message(),
        "ring v2 CRC mismatch: expected 0x00001A2B, got 0xDEADBEEF"
    );
    assert_eq!(
        PackedRingError::OffsetOutOfBounds { section: "dict", offset: 7 }.message(),
        "ring v2 offset out of bounds: section 'dict' at 7"
    );
    assert_eq!(
        PackedRingError::Wavelet(PackedWaveletError::BadMagic).message(),
        "ring v2 wavelet parse error: packed wavelet bad magic (expected 'WTRE')"
    );
    assert_eq!(
        PackedRingError::NumTriplesMismatch { declared: 2, observed: 3 }.message(),
        "ring v2 num_triples mismatch: declared 2, observed 3"
    );
    assert_eq!(
        PackedRingError::Permutation(PackedPermutationError::SizeOverflow).message(),
        "ring v2 permutation parse error: packed permutation size field overflows usize"
    );
}
