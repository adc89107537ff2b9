//! A dictionary of RDF terms.
//!
//! Triple scans hand out compact integer ids in place of terms, and the ids are
//! turned back into terms where results are shown.

use vstd::prelude::*;

use crate::graph::rdf::term::is_term;
use crate::graph::rdf::term::Term;
use crate::trusted::term_map::term_ids;
use crate::trusted::term_map::{
    term_map_clone, term_map_get, term_map_insert, term_map_new, TermIdMap,
};

verus! {

/// What terms are.
pub open spec fn terms_view(terms: Seq<Term>) -> Seq<(u8, Seq<char>, Seq<char>)> {
    terms.map_values(|t: Term| t@)
}

/// A mapping between terms and ids, both ways.
#[derive(Debug)]
pub struct TermDictionary {
    term_to_id: TermIdMap,
    id_to_term: Vec<Term>,
}

impl TermDictionary {
    /// The terms by id.
    pub closed spec fn terms(&self) -> Seq<(u8, Seq<char>, Seq<char>)> {
        terms_view(self.id_to_term@)
    }

    /// The table and the list say the same: each term has the id that is its
    /// position.
    #[verifier::type_invariant]
    spec fn well_formed(&self) -> bool {
        &&& forall|i: int| #![trigger self.terms()[i]]
            0 <= i < self.terms().len() ==> term_ids(self.term_to_id).dom().contains(
                self.terms()[i],
            ) && term_ids(self.term_to_id)[self.terms()[i]] == i
        &&& forall|k: (u8, Seq<char>, Seq<char>)| #[trigger]
            term_ids(self.term_to_id).dom().contains(k) ==> {
                let id = term_ids(self.term_to_id)[k];
                id < self.terms().len() && self.terms()[id as int] == k
            }
        &&& self.terms().len() <= u32::MAX
    }

    /// No term has two ids.
    proof fn lemma_distinct(&self)
        requires
            self.well_formed(),
        ensures
            self.terms().no_duplicates(),
    {
        assert forall|i: int, j: int|
            0 <= i < self.terms().len() && 0 <= j < self.terms().len() && i
                != j implies self.terms()[i] != self.terms()[j] by {
            assert(term_ids(self.term_to_id)[self.terms()[i]] == i);
            assert(term_ids(self.term_to_id)[self.terms()[j]] == j);
        }
    }

    /// Creates an empty dictionary.
    #[must_use]
    pub fn new() -> (r: Self)
        ensures
            r.terms() == Seq::<(u8, Seq<char>, Seq<char>)>::empty(),
    {
        let r = Self { term_to_id: term_map_new(), id_to_term: Vec::new() };
        assert(r.terms() =~= Seq::<(u8, Seq<char>, Seq<char>)>::empty());
        r
    }

    /// Creates an empty dictionary with room for a number of terms.
    #[must_use]
    pub fn with_capacity(capacity: usize) -> (r: Self)
        ensures
            r.terms() == Seq::<(u8, Seq<char>, Seq<char>)>::empty(),
    {
        let r = Self { term_to_id: term_map_new(), id_to_term: Vec::with_capacity(capacity) };
        assert(r.terms() =~= Seq::<(u8, Seq<char>, Seq<char>)>::empty());
        r
    }

    /// The id of a term, which is added if it is new. `None` if it is new and the
    /// dictionary has `u32::MAX` terms already. A term never gets a second id, and
    /// ids that were given out stay.
    pub fn get_or_insert(&mut self, term: &Term) -> (r: Option<u32>)
        ensures
            final(self).terms() == if old(self).terms().contains(term@) || old(self).terms().len()
                >= u32::MAX {
                old(self).terms()
            } else {
                old(self).terms().push(term@)
            },
            match r {
                Some(id) => id < final(self).terms().len() && final(self).terms()[id as int]
                    == term@,
                None => !old(self).terms().contains(term@) && old(self).terms().len() >= u32::MAX,
            },
            final(self).terms().no_duplicates(),
    {
        proof {
            use_type_invariant(&*self);
            self.lemma_distinct();
        }
        let key: (u8, String, String) = term.key();
        let found: Option<u32> = term_map_get(&self.term_to_id, &key);
        if let Some(id) = found {
            assert(self.terms()[id as int] == term@);
            return Some(id);
        }
        proof {
            if self.terms().contains(term@) {
                let i = self.terms().index_of(term@);
                assert(term_ids(self.term_to_id).dom().contains(self.terms()[i]));
                assert(false);
            }
        }
        let count: usize = self.id_to_term.len();
        if count as u64 >= u32::MAX as u64 {
            return None;
        }
        let id: u32 = count as u32;
        let copy: Term = term.clone();
        let mut grown = TermDictionary::new();
        std::mem::swap(self, &mut grown);
        let TermDictionary { mut term_to_id, mut id_to_term } = grown;
        let ghost before = terms_view(id_to_term@);
        let ghost ids = term_ids(term_to_id);
        id_to_term.push(copy);
        term_map_insert(&mut term_to_id, key, id);
        proof {
            let after = terms_view(id_to_term@);
            assert(after =~= before.push(term@));
            let new_ids = term_ids(term_to_id);
            assert forall|i: int| #![trigger after[i]] 0 <= i < after.len() implies new_ids.dom().contains(
                after[i],
            ) && new_ids[after[i]] == i by {
                if i < before.len() {
                    assert(after[i] == before[i]);
                    assert(before.contains(before[i]));
                }
            }
            assert forall|k: (u8, Seq<char>, Seq<char>)| #[trigger]
                new_ids.dom().contains(k) implies ({
                let x = new_ids[k];
                x < after.len() && after[x as int] == k
            }) by {
                if k != term@ {
                    assert(ids.dom().contains(k));
                    assert(before[ids[k] as int] == k);
                }
            }
        }
        *self = TermDictionary { term_to_id, id_to_term };
        Some(id)
    }

    /// The id of a term, or `None` if the term is unknown.
    #[must_use]
    pub fn get_id(&self, term: &Term) -> (r: Option<u32>)
        ensures
            match r {
                Some(id) => id < self.terms().len() && self.terms()[id as int] == term@,
                None => !self.terms().contains(term@),
            },
            self.terms().no_duplicates(),
    {
        proof {
            use_type_invariant(self);
            self.lemma_distinct();
        }
        let key: (u8, String, String) = term.key();
        let found: Option<u32> = term_map_get(&self.term_to_id, &key);
        proof {
            if found is None && self.terms().contains(term@) {
                let i = self.terms().index_of(term@);
                assert(term_ids(self.term_to_id).dom().contains(self.terms()[i]));
            }
        }
        found
    }

    /// The term of an id, or `None` if there is none.
    #[must_use]
    pub fn get_term(&self, id: u32) -> (r: Option<&Term>)
        ensures
            match r {
                Some(t) => id < self.terms().len() && t@ == self.terms()[id as int],
                None => id >= self.terms().len(),
            },
    {
        if (id as u64) < (self.id_to_term.len() as u64) {
            Some(&self.id_to_term[id as usize])
        } else {
            None
        }
    }

    /// The number of terms.
    #[must_use]
    pub fn len(&self) -> (r: usize)
        ensures
            r == self.terms().len(),
            r <= u32::MAX,
            self.terms().no_duplicates(),
            forall|i: int| #![trigger self.terms()[i]]
                0 <= i < self.terms().len() ==> is_term(self.terms()[i]),
    {
        proof {
            use_type_invariant(self);
            self.lemma_distinct();
        }
        self.id_to_term.len()
    }

    /// Whether there are no terms.
    #[must_use]
    pub fn is_empty(&self) -> (r: bool)
        ensures
            r == (self.terms().len() == 0),
    {
        self.id_to_term.is_empty()
    }
}

impl Default for TermDictionary {
    fn default() -> (r: Self)
        ensures
            r.terms() == Seq::<(u8, Seq<char>, Seq<char>)>::empty(),
    {
        Self::new()
    }
}

impl Clone for TermDictionary {
    fn clone(&self) -> (r: Self)
        ensures
            r.terms() == self.terms(),
    {
        proof {
            use_type_invariant(self);
        }
        let mut id_to_term: Vec<Term> = Vec::new();
        let mut i: usize = 0;
        while i < self.id_to_term.len()
            invariant
                i <= self.id_to_term@.len(),
                terms_view(id_to_term@) == self.terms().take(i as int),
            decreases self.id_to_term.len() - i,
        {
            let ghost before = id_to_term@;
            let copy: Term = self.id_to_term[i].clone();
            id_to_term.push(copy);
            i = i + 1;
            proof {
                assert(terms_view(id_to_term@) =~= terms_view(before).push(copy@));
                assert(terms_view(id_to_term@) =~= self.terms().take(i as int));
            }
        }
        assert(terms_view(id_to_term@) =~= self.terms());
        Self { term_to_id: term_map_clone(&self.term_to_id), id_to_term }
    }
}

} // verus!
