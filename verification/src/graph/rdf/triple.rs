//! RDF triples and patterns of triples.

use vstd::prelude::*;

use crate::graph::rdf::term::Term;

verus! {

/// A triple of terms.
#[derive(Debug, PartialEq, Eq)]
pub struct Triple {
    /// The subject.
    pub subject: Term,
    /// The predicate.
    pub predicate: Term,
    /// The object.
    pub object: Term,
}

/// What a triple is.
#[verifier::ext_equal]
pub ghost struct TripleModel {
    /// The subject.
    pub subject: (u8, Seq<char>, Seq<char>),
    /// The predicate.
    pub predicate: (u8, Seq<char>, Seq<char>),
    /// The object.
    pub object: (u8, Seq<char>, Seq<char>),
}

impl View for Triple {
    type V = TripleModel;

    open spec fn view(&self) -> TripleModel {
        TripleModel {
            subject: self.subject@,
            predicate: self.predicate@,
            object: self.object@,
        }
    }
}

/// What triples are.
pub open spec fn triples_view(triples: Seq<Triple>) -> Seq<TripleModel> {
    triples.map_values(|t: Triple| t@)
}

impl Triple {
    /// The triple of three terms.
    #[must_use]
    pub fn new(subject: Term, predicate: Term, object: Term) -> (r: Self)
        ensures
            r@ == (TripleModel {
                subject: subject@,
                predicate: predicate@,
                object: object@,
            }),
    {
        Self { subject, predicate, object }
    }
}

/// A triple is its subject, its predicate and its object, each in its own place.
pub proof fn law_parts_of_triples(t: Triple, triples: Seq<Triple>, i: int)
    ensures
        t@.subject == t.subject@,
        t@.predicate == t.predicate@,
        t@.object == t.object@,
        triples_view(triples).len() == triples.len(),
        0 <= i < triples.len() ==> triples_view(triples)[i] == triples[i]@,
{
}

/// A pattern of triples: a term where it asks for one, and `None` where any term
/// will do.
#[derive(Debug, PartialEq, Eq)]
pub struct TriplePattern {
    /// The subject, if it matters.
    pub subject: Option<Term>,
    /// The predicate, if it matters.
    pub predicate: Option<Term>,
    /// The object, if it matters.
    pub object: Option<Term>,
}

/// Whether a term is what a part of a pattern asks for.
pub open spec fn part_matches(part: Option<Term>, term: (u8, Seq<char>, Seq<char>)) -> bool {
    part matches Some(t) ==> t@ == term
}

impl TriplePattern {
    /// Whether a triple is what the pattern asks for.
    pub open spec fn matches_triple(&self, t: TripleModel) -> bool {
        &&& part_matches(self.subject, t.subject)
        &&& part_matches(self.predicate, t.predicate)
        &&& part_matches(self.object, t.object)
    }

    /// A triple is what a pattern asks for exactly if each term that the pattern asks for
    /// is the one in the same place. Where it asks for none, any will do.
    pub proof fn law_what_patterns_ask_for(self, t: TripleModel)
        ensures
            self.subject is None && self.predicate is None && self.object is None
                ==> self.matches_triple(t),
            self.subject is Some && self.subject->0@ != t.subject ==> !self.matches_triple(t),
            self.predicate is Some && self.predicate->0@ != t.predicate ==> !self.matches_triple(
                t,
            ),
            self.object is Some && self.object->0@ != t.object ==> !self.matches_triple(t),
            (self.subject is None || self.subject->0@ == t.subject) && (self.predicate is None
                || self.predicate->0@ == t.predicate) && (self.object is None || self.object->0@
                == t.object) ==> self.matches_triple(t),
    {
    }

    /// The pattern that asks for a subject.
    #[must_use]
    pub fn with_subject(subject: Term) -> (r: Self)
        ensures
            r.subject == Some(subject),
            r.predicate is None,
            r.object is None,
    {
        Self { subject: Some(subject), predicate: None, object: None }
    }
}

} // verus!
