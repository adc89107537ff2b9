use grafeo::graph::rdf::dictionary::TermDictionary;
use grafeo::graph::rdf::term::Term;

#[test]
fn roundtrip() {
    let mut dict = TermDictionary::new();
    let t1 = Term::iri("http://example.org/alix");
    let t2 = Term::literal("Alix");
    let t3 = Term::iri("http://example.org/gus");

    let id1 = dict.get_or_insert(&t1).unwrap();
    let id2 = dict.get_or_insert(&t2).unwrap();
    let id3 = dict.get_or_insert(&t3).unwrap();

    assert_ne!(id1, id2);
    assert_ne!(id2, id3);
    assert_eq!(
        dict.get_or_insert(&t1),
        Some(id1),
        "same term returns same ID"
    );

    assert_eq!(dict.get_term(id1), Some(&t1));
    assert_eq!(dict.get_term(id2), Some(&t2));
    assert_eq!(dict.get_term(id3), Some(&t3));
    assert_eq!(dict.get_id(&t1), Some(id1));
    assert_eq!(dict.len(), 3);
}

#[test]
fn unknown_term_returns_none() {
    let dict = TermDictionary::new();
    assert_eq!(dict.get_id(&Term::iri("http://unknown")), None);
    assert_eq!(dict.get_term(999), None);
}

#[test]
fn with_capacity_works() {
    let dict = TermDictionary::with_capacity(100);
    assert!(dict.is_empty());
    assert_eq!(dict.len(), 0);
}

#[test]
fn default_creates_empty() {
    let dict = TermDictionary::default();
    assert!(dict.is_empty());
}

#[test]
fn stable_ids_across_inserts() {
    let mut dict = TermDictionary::new();
    let t1 = Term::iri("http://example.org/a");
    let t2 = Term::literal("value");
    let id1 = dict.get_or_insert(&t1).unwrap();
    let id2 = dict.get_or_insert(&t2).unwrap();
    // IDs should be sequential starting from 0
    assert_eq!(id1, 0);
    assert_eq!(id2, 1);
    // Re-insert should return same IDs
    assert_eq!(dict.get_or_insert(&t1), Some(0));
    assert_eq!(dict.get_or_insert(&t2), Some(1));
    assert_eq!(dict.len(), 2);
}

#[test]
fn mixed_term_types() {
    let mut dict = TermDictionary::new();
    let iri = Term::iri("http://example.org/x");
    let lit = Term::literal("hello");
    let blank = Term::blank("b0");
    let lang = Term::lang_literal("bonjour".to_string(), "fr".to_string());
    assert!(dict.get_or_insert(&iri).is_some());
    assert!(dict.get_or_insert(&lit).is_some());
    assert!(dict.get_or_insert(&blank).is_some());
    assert!(dict.get_or_insert(&lang).is_some());
    assert_eq!(dict.len(), 4);
    assert!(dict.get_id(&iri).is_some());
    assert!(dict.get_id(&blank).is_some());
    assert!(dict.get_id(&lang).is_some());
}

#[test]
fn get_or_insert_returns_existing() {
    let mut dict = TermDictionary::new();
    let term = Term::iri("http://example.org/a");
    let id1 = dict.get_or_insert(&term);
    let id2 = dict.get_or_insert(&term);
    assert_eq!(id1, id2);
    assert_eq!(id1, Some(0));
}
