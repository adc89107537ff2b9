//! RDF terms, triples, and patterns of triples.

use vstd::prelude::*;

use crate::trusted::text::str_eq;

verus! {

/// An RDF term.
#[derive(Debug, PartialEq, Eq)]
pub enum Term {
    /// A resource, by its IRI.
    Iri(String),
    /// A blank node, by its label.
    Blank(String),
    /// A literal without language and datatype.
    Literal(String),
    /// A literal in a language.
    LangLiteral {
        /// The text.
        value: String,
        /// The language tag.
        language: String,
    },
    /// A literal of a datatype.
    TypedLiteral {
        /// The text.
        value: String,
        /// The IRI of the datatype.
        datatype: String,
    },
}

/// The kind of an IRI.
pub const KIND_IRI: u8 = 0;

/// The kind of a blank node.
pub const KIND_BLANK: u8 = 1;

/// The kind of a plain literal.
pub const KIND_LITERAL: u8 = 2;

/// The kind of a literal with a language.
pub const KIND_LANG: u8 = 3;

/// The kind of a literal with a datatype.
pub const KIND_TYPED: u8 = 4;

/// What is a term: the kind is known, and a kind without language and datatype has
/// neither.
pub open spec fn is_term(term: (u8, Seq<char>, Seq<char>)) -> bool {
    term.0 <= KIND_TYPED && (term.0 <= KIND_LITERAL ==> term.2.len() == 0)
}

/// A term is its kind, its text, and its language or datatype if it has one.
impl View for Term {
    type V = (u8, Seq<char>, Seq<char>);

    open spec fn view(&self) -> (u8, Seq<char>, Seq<char>) {
        match self {
            Term::Iri(s) => (KIND_IRI, s@, Seq::empty()),
            Term::Blank(s) => (KIND_BLANK, s@, Seq::empty()),
            Term::Literal(s) => (KIND_LITERAL, s@, Seq::empty()),
            Term::LangLiteral { value, language } => (KIND_LANG, value@, language@),
            Term::TypedLiteral { value, datatype } => (KIND_TYPED, value@, datatype@),
        }
    }
}

/// What terms are told apart by: a number for the kind, the text, and the language or
/// the datatype.
pub proof fn law_parts_of_terms(text: String, extra: String)
    ensures
        Term::Iri(text)@ == (0u8, text@, Seq::<char>::empty()),
        Term::Blank(text)@ == (1u8, text@, Seq::<char>::empty()),
        Term::Literal(text)@ == (2u8, text@, Seq::<char>::empty()),
        (Term::LangLiteral { value: text, language: extra })@ == (3u8, text@, extra@),
        (Term::TypedLiteral { value: text, datatype: extra })@ == (4u8, text@, extra@),
        is_term((3u8, text@, extra@)) && is_term((4u8, text@, extra@)),
        is_term((0u8, text@, extra@)) <==> extra@.len() == 0,
        is_term((1u8, text@, extra@)) <==> extra@.len() == 0,
        is_term((2u8, text@, extra@)) <==> extra@.len() == 0,
        forall|kind: u8| kind > 4 ==> !(#[trigger] is_term((kind, text@, extra@))),
{
}

impl Clone for Term {
    fn clone(&self) -> (r: Self)
        ensures
            r@ == self@,
    {
        match self {
            Term::Iri(s) => Term::Iri(s.clone()),
            Term::Blank(s) => Term::Blank(s.clone()),
            Term::Literal(s) => Term::Literal(s.clone()),
            Term::LangLiteral { value, language } => Term::LangLiteral {
                value: value.clone(),
                language: language.clone(),
            },
            Term::TypedLiteral { value, datatype } => Term::TypedLiteral {
                value: value.clone(),
                datatype: datatype.clone(),
            },
        }
    }
}

impl Term {
    /// The term of an IRI.
    #[must_use]
    pub fn iri(iri: &str) -> (r: Self)
        ensures
            r@ == (KIND_IRI, iri@, Seq::<char>::empty()),
    {
        Term::Iri(iri.to_owned())
    }

    /// The term of a blank node.
    #[must_use]
    pub fn blank(label: &str) -> (r: Self)
        ensures
            r@ == (KIND_BLANK, label@, Seq::<char>::empty()),
    {
        Term::Blank(label.to_owned())
    }

    /// A plain literal.
    #[must_use]
    pub fn literal(value: &str) -> (r: Self)
        ensures
            r@ == (KIND_LITERAL, value@, Seq::<char>::empty()),
    {
        Term::Literal(value.to_owned())
    }

    /// A literal in a language.
    #[must_use]
    pub fn lang_literal(value: String, language: String) -> (r: Self)
        ensures
            r@ == (KIND_LANG, value@, language@),
    {
        Term::LangLiteral { value, language }
    }

    /// A literal of a datatype.
    #[must_use]
    pub fn typed_literal(value: String, datatype: String) -> (r: Self)
        ensures
            r@ == (KIND_TYPED, value@, datatype@),
    {
        Term::TypedLiteral { value, datatype }
    }

    /// The three parts that tell terms apart.
    #[must_use]
    pub fn key(&self) -> (r: (u8, String, String))
        ensures
            (r.0, r.1@, r.2@) == self@,
    {
        match self {
            Term::Iri(s) => (KIND_IRI, s.clone(), String::new()),
            Term::Blank(s) => (KIND_BLANK, s.clone(), String::new()),
            Term::Literal(s) => (KIND_LITERAL, s.clone(), String::new()),
            Term::LangLiteral { value, language } => (KIND_LANG, value.clone(), language.clone()),
            Term::TypedLiteral { value, datatype } => (KIND_TYPED, value.clone(), datatype.clone()),
        }
    }

    /// The term that three parts stand for. An unknown kind stands for none, and
    /// a part that the kind does not have must be empty.
    #[must_use]
    pub fn from_parts(kind: u8, text: &str, extra: &str) -> (r: Option<Self>)
        ensures
            r is Some <==> kind <= KIND_TYPED && (kind <= KIND_LITERAL ==> extra@.len() == 0),
            r matches Some(t) ==> t@ == (kind, text@, extra@),
    {
        let bare: bool = extra.is_empty();
        assert(extra@.len() == 0 ==> extra@ =~= Seq::<char>::empty());
        match kind {
            KIND_IRI if bare => Some(Term::Iri(text.to_owned())),
            KIND_BLANK if bare => Some(Term::Blank(text.to_owned())),
            KIND_LITERAL if bare => Some(Term::Literal(text.to_owned())),
            KIND_LANG => Some(
                Term::LangLiteral { value: text.to_owned(), language: extra.to_owned() },
            ),
            KIND_TYPED => Some(
                Term::TypedLiteral { value: text.to_owned(), datatype: extra.to_owned() },
            ),
            _ => None,
        }
    }

    /// Whether two terms are the same.
    #[must_use]
    pub fn same(&self, other: &Term) -> (r: bool)
        ensures
            r == (self@ == other@),
    {
        match (self, other) {
            (Term::Iri(a), Term::Iri(b)) => str_eq(a.as_str(), b.as_str()),
            (Term::Blank(a), Term::Blank(b)) => str_eq(a.as_str(), b.as_str()),
            (Term::Literal(a), Term::Literal(b)) => str_eq(a.as_str(), b.as_str()),
            (
                Term::LangLiteral { value: a, language: x },
                Term::LangLiteral { value: b, language: y },
            ) => str_eq(a.as_str(), b.as_str()) && str_eq(x.as_str(), y.as_str()),
            (
                Term::TypedLiteral { value: a, datatype: x },
                Term::TypedLiteral { value: b, datatype: y },
            ) => str_eq(a.as_str(), b.as_str()) && str_eq(x.as_str(), y.as_str()),
            _ => false,
        }
    }
}

} // verus!
