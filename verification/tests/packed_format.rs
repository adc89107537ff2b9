use bytes::Bytes;
use grafeo::graph::rdf::term::Term;
use grafeo::graph::rdf::triple::{Triple, TriplePattern};
use grafeo::index::ring::packed_format::{HEADER_SIZE, TRAILER_SIZE};
use grafeo::index::ring::{
    deserialize_triple_ring, serialize_triple_ring, PackedRingError, TripleRing,
};

const MAGIC: &[u8; 4] = b"GRFR";

fn build_test_ring() -> TripleRing {
    let triples = vec![
        Triple::new(
            Term::iri("http://ex.org/alix"),
            Term::iri("http://xmlns.com/foaf/0.1/name"),
            Term::literal("Alix"),
        ),
        Triple::new(
            Term::iri("http://ex.org/gus"),
            Term::iri("http://xmlns.com/foaf/0.1/name"),
            Term::literal("Gus"),
        ),
        Triple::new(
            Term::iri("http://ex.org/alix"),
            Term::iri("http://xmlns.com/foaf/0.1/knows"),
            Term::iri("http://ex.org/gus"),
        ),
    ];
    TripleRing::from_triples(triples)
}

#[test]
fn alix_packed_ring_roundtrip() {
    let ring = build_test_ring();
    let bytes = serialize_triple_ring(&ring);
    let restored = deserialize_triple_ring(Bytes::from(bytes)).expect("deserialize");

    assert_eq!(restored.len(), ring.len());
    assert_eq!(restored.num_terms(), ring.num_terms());

    // Query equivalence: foaf:name predicate should match 2 triples.
    let pattern = TriplePattern {
        subject: None,
        predicate: Some(Term::iri("http://xmlns.com/foaf/0.1/name")),
        object: None,
    };
    assert_eq!(restored.count(&pattern), ring.count(&pattern));
    assert_eq!(restored.count(&pattern), 2);
}

#[test]
fn gus_packed_ring_empty() {
    let ring = TripleRing::from_triples(Vec::new());
    let bytes = serialize_triple_ring(&ring);
    let restored = deserialize_triple_ring(Bytes::from(bytes)).expect("deserialize empty");
    assert_eq!(restored.len(), 0);
    assert!(restored.is_empty());
}

#[test]
fn vincent_packed_ring_bad_magic_rejected() {
    let bad = Bytes::from(vec![0u8; HEADER_SIZE + TRAILER_SIZE]);
    assert_eq!(
        deserialize_triple_ring(bad).unwrap_err(),
        PackedRingError::BadMagic
    );
}

#[test]
fn jules_packed_ring_truncated_header_rejected() {
    let short = Bytes::from(vec![b'G', b'R', b'F', b'R']);
    assert_eq!(
        deserialize_triple_ring(short).unwrap_err(),
        PackedRingError::TruncatedHeader
    );
}

#[test]
fn mia_packed_ring_unsupported_version_rejected() {
    // Build a header that has the right magic but a wrong version
    // byte. The trailer doesn't matter for this assertion path
    // because version is checked before CRC.
    let mut buf = vec![0u8; HEADER_SIZE + TRAILER_SIZE];
    buf[..4].copy_from_slice(MAGIC);
    buf[4] = 99;
    let crc = crc32fast::hash(&buf[..buf.len() - TRAILER_SIZE]);
    let len = buf.len();
    buf[len - 4..].copy_from_slice(&crc.to_le_bytes());
    assert_eq!(
        deserialize_triple_ring(Bytes::from(buf)).unwrap_err(),
        PackedRingError::UnsupportedVersion(99)
    );
}

#[test]
fn shosanna_packed_ring_corrupted_byte_caught_by_crc() {
    let ring = build_test_ring();
    let mut bytes = serialize_triple_ring(&ring);
    // Flip a byte deep inside the body.
    let len = bytes.len();
    bytes[len / 2] ^= 0x01;
    let result = deserialize_triple_ring(Bytes::from(bytes));
    assert!(matches!(
        result.unwrap_err(),
        PackedRingError::ChecksumMismatch { .. }
    ));
}

#[test]
fn beatrix_packed_ring_query_correctness() {
    // Build a richer graph and verify several query patterns
    // round-trip correctly.
    let triples = vec![
        Triple::new(
            Term::iri("http://ex.org/a"),
            Term::iri("http://ex.org/p"),
            Term::iri("http://ex.org/x"),
        ),
        Triple::new(
            Term::iri("http://ex.org/a"),
            Term::iri("http://ex.org/p"),
            Term::iri("http://ex.org/y"),
        ),
        Triple::new(
            Term::iri("http://ex.org/b"),
            Term::iri("http://ex.org/p"),
            Term::iri("http://ex.org/x"),
        ),
        Triple::new(
            Term::iri("http://ex.org/b"),
            Term::iri("http://ex.org/q"),
            Term::iri("http://ex.org/y"),
        ),
    ];
    let ring = TripleRing::from_triples(triples);
    let bytes = serialize_triple_ring(&ring);
    let restored = deserialize_triple_ring(Bytes::from(bytes)).expect("deserialize");

    // All-? pattern: count every triple.
    let all = TriplePattern {
        subject: None,
        predicate: None,
        object: None,
    };
    assert_eq!(restored.count(&all), 4);

    // ?, p, ?: 3 matches.
    let p_only = TriplePattern {
        subject: None,
        predicate: Some(Term::iri("http://ex.org/p")),
        object: None,
    };
    assert_eq!(restored.count(&p_only), 3);
    assert_eq!(restored.count(&p_only), ring.count(&p_only));

    // ?, ?, x: 2 matches.
    let x_only = TriplePattern {
        subject: None,
        predicate: None,
        object: Some(Term::iri("http://ex.org/x")),
    };
    assert_eq!(restored.count(&x_only), 2);

    // a, p, ?: 2 matches.
    let a_p = TriplePattern {
        subject: Some(Term::iri("http://ex.org/a")),
        predicate: Some(Term::iri("http://ex.org/p")),
        object: None,
    };
    assert_eq!(restored.count(&a_p), 2);
}
