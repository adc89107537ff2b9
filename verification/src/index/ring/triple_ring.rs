//! The ring: a set of triples as three columns and two permutations.
//!
//! The triples have three orders: by subject, predicate and object; by predicate,
//! object and subject; and by object, subject and predicate. The ring keeps the
//! first column of each order in a wavelet tree, and how the triples move from the
//! first order to the other two.

use vstd::prelude::*;
use vstd::string::StringExecFns;

use crate::codec::succinct::WaveletTree;
use crate::graph::rdf::dictionary::TermDictionary;
use crate::graph::rdf::term::Term;
use crate::graph::rdf::triple::{part_matches, triples_view, TripleModel};
use crate::graph::rdf::triple::{Triple, TriplePattern};
use crate::index::ring::permutation::is_bijection;
use crate::index::ring::permutation::SuccinctPermutation;
use crate::text::decimal;
use crate::text::push_decimal;

verus! {

/// Why parts make no ring.
#[derive(Debug, Clone, Copy, PartialEq, Eq)]
pub enum TripleRingInvariantError {
    /// A part has another length than there are triples.
    LengthMismatch {
        /// The part.
        part: &'static str,
        /// The number of triples.
        expected: usize,
        /// The length of the part.
        actual: usize,
    },
    /// A column holds no id of a term at a position.
    UnknownTerm {
        /// The column.
        part: &'static str,
        /// The position.
        index: usize,
    },
}

/// The text of an error.
pub open spec fn ring_fault_text(e: TripleRingInvariantError) -> Seq<char> {
    match e {
        TripleRingInvariantError::LengthMismatch { part, expected, actual } => part@ + " has "@
            + decimal(actual as nat) + " entries, expected "@ + decimal(expected as nat),
        TripleRingInvariantError::UnknownTerm { part, index } => part@
            + " has no known term at "@ + decimal(index as nat),
    }
}

impl TripleRingInvariantError {
    /// Appends the text of the error.
    pub fn push_text(&self, out: &mut String)
        ensures
            final(out)@ == old(out)@ + ring_fault_text(*self),
    {
        match self {
            TripleRingInvariantError::LengthMismatch { part, expected, actual } => {
                out.append(part);
                out.append(" has ");
                push_decimal(out, *actual as u64);
                out.append(" entries, expected ");
                push_decimal(out, *expected as u64);
            },
            TripleRingInvariantError::UnknownTerm { part, index } => {
                out.append(part);
                out.append(" has no known term at ");
                push_decimal(out, *index as u64);
            },
        }
        assert(out@ =~= old(out)@ + ring_fault_text(*self));
    }
}

/// The symbols of a wavelet tree, position by position.
pub open spec fn tree_column(tree: WaveletTree) -> Seq<Option<u64>> {
    Seq::new(tree.count(), |i: int| tree.symbol(i))
}

/// An entry of a column is the id of one of `terms` terms.
pub open spec fn known_id(entry: Option<u64>, terms: nat) -> bool {
    entry matches Some(id) && id < terms
}

/// The first of the first `k` positions of a column that holds no id of a term.
pub open spec fn column_fault(
    part: &'static str,
    column: Seq<Option<u64>>,
    k: nat,
    terms: nat,
) -> Option<TripleRingInvariantError>
    decreases k,
{
    if k == 0 {
        None
    } else {
        match column_fault(part, column, (k - 1) as nat, terms) {
            Some(e) => Some(e),
            None => if known_id(column[k - 1], terms) {
                None
            } else {
                Some(TripleRingInvariantError::UnknownTerm { part, index: (k - 1) as usize })
            },
        }
    }
}

/// A part whose length is not the number of triples.
pub open spec fn length_fault(part: &'static str, expected: usize, actual: nat) -> Option<
    TripleRingInvariantError,
> {
    if actual != expected {
        Some(
            TripleRingInvariantError::LengthMismatch { part, expected, actual: actual as usize },
        )
    } else {
        None
    }
}

/// The first of two faults.
pub open spec fn first_fault(
    a: Option<TripleRingInvariantError>,
    b: Option<TripleRingInvariantError>,
) -> Option<TripleRingInvariantError> {
    if a is Some {
        a
    } else {
        b
    }
}

/// What is wrong with the parts of a ring, if anything.
pub open spec fn ring_fault(
    terms: nat,
    n: usize,
    subjects: Seq<Option<u64>>,
    predicates: Seq<Option<u64>>,
    objects: Seq<Option<u64>>,
    spo_to_pos: nat,
    spo_to_osp: nat,
) -> Option<TripleRingInvariantError> {
    let lengths = first_fault(
        length_fault("subjects", n, subjects.len()),
        first_fault(
            length_fault("predicates", n, predicates.len()),
            first_fault(
                length_fault("objects", n, objects.len()),
                first_fault(
                    length_fault("spo_to_pos", n, spo_to_pos),
                    length_fault("spo_to_osp", n, spo_to_osp),
                ),
            ),
        ),
    );
    let ids = first_fault(
        column_fault("subjects", subjects, n as nat, terms),
        first_fault(
            column_fault("predicates", predicates, n as nat, terms),
            column_fault("objects", objects, n as nat, terms),
        ),
    );
    first_fault(lengths, ids)
}

/// A column is at fault at the first position that holds no id of a term, and only if
/// there is one.
proof fn lemma_column_fault(
    part: &'static str,
    column: Seq<Option<u64>>,
    k: nat,
    terms: nat,
    index: usize,
)
    requires
        k <= usize::MAX,
    ensures
        column_fault(part, column, k, terms) is None <==> forall|i: int|
            0 <= i < k ==> #[trigger] known_id(column[i], terms),
        index < k && !known_id(column[index as int], terms) && (forall|i: int|
            0 <= i < index ==> #[trigger] known_id(column[i], terms)) ==> column_fault(
            part,
            column,
            k,
            terms,
        ) == Some(TripleRingInvariantError::UnknownTerm { part, index }),
    decreases k,
{
    if k > 0 {
        lemma_column_fault(part, column, (k - 1) as nat, terms, index);
        assert(known_id(column[k - 1], terms) || !known_id(column[k - 1], terms));
    }
}

/// Parts make a ring exactly if each is as long as there are triples, and each entry of
/// a column is the id of a term.
pub proof fn law_which_parts_make_a_ring(
    terms: nat,
    n: usize,
    subjects: Seq<Option<u64>>,
    predicates: Seq<Option<u64>>,
    objects: Seq<Option<u64>>,
    spo_to_pos: nat,
    spo_to_osp: nat,
)
    ensures
        ring_fault(terms, n, subjects, predicates, objects, spo_to_pos, spo_to_osp) is None <==> {
            &&& subjects.len() == n && predicates.len() == n && objects.len() == n
            &&& spo_to_pos == n && spo_to_osp == n
            &&& forall|i: int|
                0 <= i < n ==> (#[trigger] subjects[i]) is Some && subjects[i]->0 < terms
            &&& forall|i: int|
                0 <= i < n ==> (#[trigger] predicates[i]) is Some && predicates[i]->0 < terms
            &&& forall|i: int|
                0 <= i < n ==> (#[trigger] objects[i]) is Some && objects[i]->0 < terms
        },
{
    lemma_column_fault("subjects", subjects, n as nat, terms, 0);
    lemma_column_fault("predicates", predicates, n as nat, terms, 0);
    lemma_column_fault("objects", objects, n as nat, terms, 0);
    assert forall|i: int| 0 <= i < n implies (#[trigger] known_id(subjects[i], terms) <==> (
    subjects[i] is Some && subjects[i]->0 < terms)) by {}
    assert forall|i: int| 0 <= i < n implies (#[trigger] known_id(predicates[i], terms) <==> (
    predicates[i] is Some && predicates[i]->0 < terms)) by {}
    assert forall|i: int| 0 <= i < n implies (#[trigger] known_id(objects[i], terms) <==> (
    objects[i] is Some && objects[i]->0 < terms)) by {}
    let known = |c: Seq<Option<u64>>| forall|i: int|
        0 <= i < n ==> #[trigger] known_id(c[i], terms);
    assert(known(subjects) <==> forall|i: int|
        0 <= i < n ==> (#[trigger] subjects[i]) is Some && subjects[i]->0 < terms) by {
        if forall|i: int| 0 <= i < n ==> (#[trigger] subjects[i]) is Some && subjects[i]->0 < terms {
            assert forall|i: int| 0 <= i < n implies #[trigger] known_id(subjects[i], terms) by {}
        }
        if known(subjects) {
            assert forall|i: int| 0 <= i < n implies (#[trigger] subjects[i]) is Some
                && subjects[i]->0 < terms by {
                assert(known_id(subjects[i], terms));
            }
        }
    }
    assert(known(predicates) <==> forall|i: int|
        0 <= i < n ==> (#[trigger] predicates[i]) is Some && predicates[i]->0 < terms) by {
        if known(predicates) {
            assert forall|i: int| 0 <= i < n implies (#[trigger] predicates[i]) is Some
                && predicates[i]->0 < terms by {
                assert(known_id(predicates[i], terms));
            }
        }
    }
    assert(known(objects) <==> forall|i: int|
        0 <= i < n ==> (#[trigger] objects[i]) is Some && objects[i]->0 < terms) by {
        if known(objects) {
            assert forall|i: int| 0 <= i < n implies (#[trigger] objects[i]) is Some
                && objects[i]->0 < terms by {
                assert(known_id(objects[i], terms));
            }
        }
    }
}

/// What is wrong is said of the first part that is: a length before an entry, and in the
/// order of subjects, predicates, objects and the two permutations.
pub proof fn law_which_fault_is_told(
    terms: nat,
    n: usize,
    subjects: Seq<Option<u64>>,
    predicates: Seq<Option<u64>>,
    objects: Seq<Option<u64>>,
    spo_to_pos: nat,
    spo_to_osp: nat,
    index: usize,
)
    ensures
        subjects.len() != n ==> ring_fault(
            terms,
            n,
            subjects,
            predicates,
            objects,
            spo_to_pos,
            spo_to_osp,
        ) == Some(
            TripleRingInvariantError::LengthMismatch {
                part: "subjects",
                expected: n,
                actual: subjects.len() as usize,
            },
        ),
        subjects.len() == n && predicates.len() != n ==> ring_fault(
            terms,
            n,
            subjects,
            predicates,
            objects,
            spo_to_pos,
            spo_to_osp,
        ) == Some(
            TripleRingInvariantError::LengthMismatch {
                part: "predicates",
                expected: n,
                actual: predicates.len() as usize,
            },
        ),
        subjects.len() == n && predicates.len() == n && objects.len() != n ==> ring_fault(
            terms,
            n,
            subjects,
            predicates,
            objects,
            spo_to_pos,
            spo_to_osp,
        ) == Some(
            TripleRingInvariantError::LengthMismatch {
                part: "objects",
                expected: n,
                actual: objects.len() as usize,
            },
        ),
        subjects.len() == n && predicates.len() == n && objects.len() == n && spo_to_pos == n
            && spo_to_osp == n && index < n && !known_id(subjects[index as int], terms) && (forall|
            i: int,
        | 0 <= i < index ==> #[trigger] known_id(subjects[i], terms)) ==> ring_fault(
            terms,
            n,
            subjects,
            predicates,
            objects,
            spo_to_pos,
            spo_to_osp,
        ) == Some(TripleRingInvariantError::UnknownTerm { part: "subjects", index }),
        subjects.len() == n && predicates.len() == n && objects.len() == n && spo_to_pos != n
            ==> ring_fault(
            terms,
            n,
            subjects,
            predicates,
            objects,
            spo_to_pos,
            spo_to_osp,
        ) == Some(
            TripleRingInvariantError::LengthMismatch {
                part: "spo_to_pos",
                expected: n,
                actual: spo_to_pos as usize,
            },
        ),
        subjects.len() == n && predicates.len() == n && objects.len() == n && spo_to_pos == n
            && spo_to_osp != n ==> ring_fault(
            terms,
            n,
            subjects,
            predicates,
            objects,
            spo_to_pos,
            spo_to_osp,
        ) == Some(
            TripleRingInvariantError::LengthMismatch {
                part: "spo_to_osp",
                expected: n,
                actual: spo_to_osp as usize,
            },
        ),
{
    lemma_column_fault("subjects", subjects, n as nat, terms, index);
}

/// The text of an error names the part, what it has, and what was expected.
pub proof fn law_ring_faults_name_the_part(
    part: &'static str,
    expected: usize,
    actual: usize,
    index: usize,
)
    ensures
        ring_fault_text(TripleRingInvariantError::LengthMismatch { part, expected, actual }) == part@
            + " has "@ + decimal(actual as nat) + " entries, expected "@ + decimal(expected as nat),
        ring_fault_text(TripleRingInvariantError::UnknownTerm { part, index }) == part@
            + " has no known term at "@ + decimal(index as nat),
{
}

/// The term of an entry.
pub open spec fn term_of(terms: Seq<(u8, Seq<char>, Seq<char>)>, entry: Option<u64>) -> (
    u8,
    Seq<char>,
    Seq<char>,
) {
    terms[entry->0 as int]
}

/// The triples of a ring, in its first order.
pub open spec fn ring_triples(
    terms: Seq<(u8, Seq<char>, Seq<char>)>,
    subjects: Seq<Option<u64>>,
    predicates: Seq<Option<u64>>,
    objects: Seq<Option<u64>>,
    spo_to_pos: Seq<usize>,
    spo_to_osp: Seq<usize>,
) -> Seq<TripleModel> {
    Seq::new(
        subjects.len(),
        |i: int|
            TripleModel {
                subject: term_of(terms, subjects[i]),
                predicate: term_of(terms, predicates[spo_to_pos[i] as int]),
                object: term_of(terms, objects[spo_to_osp[i] as int]),
            },
    )
}

/// A column without fault holds only ids of terms.
proof fn lemma_no_column_fault(
    part: &'static str,
    column: Seq<Option<u64>>,
    k: nat,
    terms: nat,
)
    requires
        k <= column.len(),
    ensures
        column_fault(part, column, k, terms) is None <==> forall|i: int| #![trigger column[i]]
            0 <= i < k ==> known_id(column[i], terms),
    decreases k,
{
    if k > 0 {
        lemma_no_column_fault(part, column, (k - 1) as nat, terms);
    }
}

proof fn lemma_column_fault_stays(
    part: &'static str,
    column: Seq<Option<u64>>,
    k: nat,
    n: nat,
    terms: nat,
)
    requires
        column_fault(part, column, k, terms) is Some,
        k <= n,
    ensures
        column_fault(part, column, n, terms) == column_fault(part, column, k, terms),
    decreases n,
{
    if k < n {
        lemma_column_fault_stays(part, column, k, (n - 1) as nat, terms);
    }
}

/// A triple of ids comes before another.
pub open spec fn row_before(a: (u64, u64, u64), b: (u64, u64, u64)) -> bool {
    a.0 < b.0 || (a.0 == b.0 && (a.1 < b.1 || (a.1 == b.1 && a.2 < b.2)))
}

/// Rows are ordered by their first ids, those with the same by their second, and those
/// with the same there too by their third.
pub proof fn law_order_of_rows(a: (u64, u64, u64), b: (u64, u64, u64))
    ensures
        a.0 != b.0 ==> (row_before(a, b) <==> a.0 < b.0),
        a.0 == b.0 && a.1 != b.1 ==> (row_before(a, b) <==> a.1 < b.1),
        a.0 == b.0 && a.1 == b.1 ==> (row_before(a, b) <==> a.2 < b.2),
        rotated(a) == (a.1, a.2, a.0),
        rotated(rotated(a)) == (a.2, a.0, a.1),
{
}

/// Each row comes before those after it.
pub open spec fn rows_sorted(rows: Seq<(u64, u64, u64)>) -> bool {
    forall|i: int, j: int| 0 <= i < j < rows.len() ==> row_before(rows[i], rows[j])
}

/// Among sorted rows one stands before another exactly if it comes before it.
proof fn lemma_places_follow_order(rows: Seq<(u64, u64, u64)>, i: int, j: int)
    requires
        rows_sorted(rows),
        0 <= i < rows.len(),
        0 <= j < rows.len(),
    ensures
        i < j <==> row_before(rows[i], rows[j]),
{
    if j < i {
        assert(row_before(rows[j], rows[i]));
    }
}

/// Whether a row comes before another.
fn is_before(a: (u64, u64, u64), b: (u64, u64, u64)) -> (r: bool)
    ensures
        r == row_before(a, b),
{
    a.0 < b.0 || (a.0 == b.0 && (a.1 < b.1 || (a.1 == b.1 && a.2 < b.2)))
}

/// The first position whose row does not come before `key`.
fn place(rows: &Vec<(u64, u64, u64)>, key: (u64, u64, u64)) -> (r: usize)
    requires
        rows_sorted(rows@),
    ensures
        r <= rows@.len(),
        forall|k: int| #![trigger rows@[k]] 0 <= k < r ==> row_before(rows@[k], key),
        forall|k: int| #![trigger rows@[k]] r <= k < rows@.len() ==> !row_before(rows@[k], key),
{
    let mut lo: usize = 0;
    let mut hi: usize = rows.len();
    while lo < hi
        invariant
            lo <= hi <= rows@.len(),
            rows_sorted(rows@),
            forall|k: int| #![trigger rows@[k]] 0 <= k < lo ==> row_before(rows@[k], key),
            forall|k: int| #![trigger rows@[k]]
                hi <= k < rows@.len() ==> !row_before(rows@[k], key),
        decreases hi - lo,
    {
        let mid: usize = lo + (hi - lo) / 2;
        let ghost pivot = rows@[mid as int];
        if is_before(rows[mid], key) {
            proof {
                assert forall|k: int| #![trigger rows@[k]] 0 <= k < mid + 1 implies row_before(
                    rows@[k],
                    key,
                ) by {
                    if k < mid {
                        assert(row_before(rows@[k], pivot));
                    }
                }
            }
            lo = mid + 1;
        } else {
            proof {
                assert forall|k: int| #![trigger rows@[k]]
                    mid <= k < rows@.len() implies !row_before(rows@[k], key) by {
                    if k > mid {
                        assert(row_before(pivot, rows@[k]));
                    }
                }
            }
            hi = mid;
        }
    }
    lo
}

/// A row that is among sorted rows stands at its place.
proof fn lemma_place_of_row(rows: Seq<(u64, u64, u64)>, key: (u64, u64, u64), at: int)
    requires
        rows_sorted(rows),
        rows.contains(key),
        0 <= at <= rows.len(),
        forall|k: int| #![trigger rows[k]] 0 <= k < at ==> row_before(rows[k], key),
        forall|k: int| #![trigger rows[k]] at <= k < rows.len() ==> !row_before(rows[k], key),
    ensures
        at < rows.len(),
        rows[at] == key,
{
    let k = rows.index_of(key);
    assert(rows[k] == key);
    assert(k >= at);
    if k > at {
        assert(row_before(rows[at], rows[k]));
    }
}

/// Adds a row to sorted rows, unless it is there.
fn insert_row(rows: &mut Vec<(u64, u64, u64)>, key: (u64, u64, u64))
    requires
        rows_sorted(old(rows)@),
    ensures
        rows_sorted(final(rows)@),
        forall|x: (u64, u64, u64)| #[trigger]
            final(rows)@.contains(x) <==> old(rows)@.contains(x) || x == key,
{
    let at: usize = place(rows, key);
    let ghost before = rows@;
    if at < rows.len() {
        let there: (u64, u64, u64) = rows[at];
        if there.0 == key.0 && there.1 == key.1 && there.2 == key.2 {
            assert(before[at as int] == key);
            return;
        }
    }
    rows.insert(at, key);
    proof {
        let t = before.insert(at as int, key);
        assert(rows@ =~= t);
        assert forall|k: int| #![trigger before[k]] at <= k < before.len() implies row_before(
            key,
            before[k],
        ) by {
            if k > at {
                assert(row_before(before[at as int], before[k]));
            }
        }
        assert forall|i: int, j: int| 0 <= i < j < t.len() implies row_before(t[i], t[j]) by {
            if j < at {
                assert(t[i] == before[i] && t[j] == before[j]);
            } else if j == at {
                assert(t[i] == before[i]);
            } else if i < at {
                assert(t[i] == before[i] && t[j] == before[j - 1]);
                assert(row_before(before[i], before[j - 1]));
            } else if i == at {
                assert(t[j] == before[j - 1]);
            } else {
                assert(t[i] == before[i - 1] && t[j] == before[j - 1]);
            }
        }
        assert forall|x: (u64, u64, u64)| #[trigger] t.contains(x) <==> before.contains(x) || x
            == key by {
            if before.contains(x) {
                let k = before.index_of(x);
                if k < at {
                    assert(t[k] == x);
                } else {
                    assert(t[k + 1] == x);
                }
            }
            if x == key {
                assert(t[at as int] == x);
            }
            if t.contains(x) {
                let k = t.index_of(x);
                if k < at {
                    assert(before[k] == x);
                } else if k > at {
                    assert(before[k - 1] == x);
                }
            }
        }
    }
}

/// The rows of a list, each once and in order.
fn sorted_rows(list: &Vec<(u64, u64, u64)>) -> (r: Vec<(u64, u64, u64)>)
    ensures
        rows_sorted(r@),
        forall|x: (u64, u64, u64)| #[trigger] r@.contains(x) <==> list@.contains(x),
{
    let mut out: Vec<(u64, u64, u64)> = Vec::new();
    let mut i: usize = 0;
    assert(list@.take(0) =~= Seq::<(u64, u64, u64)>::empty());
    while i < list.len()
        invariant
            i <= list@.len(),
            rows_sorted(out@),
            forall|x: (u64, u64, u64)| #[trigger]
                out@.contains(x) <==> list@.take(i as int).contains(x),
        decreases list.len() - i,
    {
        let key: (u64, u64, u64) = list[i];
        let ghost before = out@;
        insert_row(&mut out, key);
        proof {
            assert(list@.take(i + 1) =~= list@.take(i as int).push(key));
            assert forall|x: (u64, u64, u64)| #[trigger]
                out@.contains(x) <==> list@.take(i + 1).contains(x) by {
                vstd::seq_lib::lemma_seq_contains_after_push(list@.take(i as int), key, x);
                assert(before.contains(x) <==> list@.take(i as int).contains(x));
            }
        }
        i = i + 1;
    }
    assert(list@.take(i as int) =~= list@);
    out
}

/// A row with its first id moved to the end.
pub open spec fn rotated(row: (u64, u64, u64)) -> (u64, u64, u64) {
    (row.1, row.2, row.0)
}

/// The rows with their first ids moved to the end.
fn rotate_rows(rows: &Vec<(u64, u64, u64)>) -> (r: Vec<(u64, u64, u64)>)
    ensures
        r@ == rows@.map_values(|row: (u64, u64, u64)| rotated(row)),
{
    let mut out: Vec<(u64, u64, u64)> = Vec::new();
    let mut i: usize = 0;
    while i < rows.len()
        invariant
            i <= rows@.len(),
            out@.len() == i,
            forall|k: int| #![trigger out@[k]] 0 <= k < i ==> out@[k] == rotated(rows@[k]),
        decreases rows.len() - i,
    {
        let row: (u64, u64, u64) = rows[i];
        out.push((row.1, row.2, row.0));
        i = i + 1;
    }
    assert(out@ =~= rows@.map_values(|row: (u64, u64, u64)| rotated(row)));
    out
}

/// The first ids of rows.
fn first_ids(rows: &Vec<(u64, u64, u64)>) -> (r: Vec<u64>)
    ensures
        r@ == rows@.map_values(|row: (u64, u64, u64)| row.0),
{
    let mut out: Vec<u64> = Vec::new();
    let mut i: usize = 0;
    while i < rows.len()
        invariant
            i <= rows@.len(),
            out@.len() == i,
            forall|k: int| #![trigger out@[k]] 0 <= k < i ==> out@[k] == rows@[k].0,
        decreases rows.len() - i,
    {
        out.push(rows[i].0);
        i = i + 1;
    }
    assert(out@ =~= rows@.map_values(|row: (u64, u64, u64)| row.0));
    out
}

/// Where each of `keys`, no two of which are the same, stands among the same rows
/// in order.
fn places(keys: &Vec<(u64, u64, u64)>, rows: &Vec<(u64, u64, u64)>) -> (r: Vec<usize>)
    requires
        rows_sorted(rows@),
        keys@.no_duplicates(),
        forall|x: (u64, u64, u64)| #[trigger] rows@.contains(x) <==> keys@.contains(x),
    ensures
        r@.len() == keys@.len(),
        rows@.len() == keys@.len(),
        is_bijection(r@),
        forall|i: int| #![trigger r@[i]] 0 <= i < r@.len() ==> rows@[r@[i] as int] == keys@[i],
{
    proof {
        lemma_same_length(keys@, rows@);
    }
    let mut out: Vec<usize> = Vec::new();
    let mut i: usize = 0;
    while i < keys.len()
        invariant
            i <= keys@.len(),
            rows_sorted(rows@),
            rows@.len() == keys@.len(),
            forall|x: (u64, u64, u64)| #[trigger] rows@.contains(x) <==> keys@.contains(x),
            out@.len() == i,
            forall|k: int| #![trigger out@[k]]
                0 <= k < i ==> out@[k] < rows@.len() && rows@[out@[k] as int] == keys@[k],
        decreases keys.len() - i,
    {
        let key: (u64, u64, u64) = keys[i];
        let at: usize = place(rows, key);
        proof {
            assert(keys@.contains(key)) by {
                assert(keys@[i as int] == key);
            }
            assert(rows@.contains(key));
            lemma_place_of_row(rows@, key, at as int);
        }
        out.push(at);
        i = i + 1;
    }
    proof {
        assert forall|a: int, b: int| 0 <= a < b < out@.len() implies out@[a] != out@[b] by {
            assert(keys@[a] != keys@[b]);
            assert(rows@[out@[a] as int] == keys@[a]);
            assert(rows@[out@[b] as int] == keys@[b]);
        }
    }
    out
}

/// Two lists of the same rows, each without repetition, are equally long.
proof fn lemma_same_length(a: Seq<(u64, u64, u64)>, b: Seq<(u64, u64, u64)>)
    requires
        a.no_duplicates(),
        rows_sorted(b),
        forall|x: (u64, u64, u64)| #[trigger] b.contains(x) <==> a.contains(x),
    ensures
        a.len() == b.len(),
{
    lemma_sorted_distinct(b);
    a.unique_seq_to_set();
    b.unique_seq_to_set();
    assert(a.to_set() =~= b.to_set()) by {
        assert forall|x: (u64, u64, u64)| a.to_set().contains(x) <==> b.to_set().contains(x) by {
            assert(b.contains(x) <==> a.contains(x));
        }
    }
}

/// Sorted rows have no repetition.
proof fn lemma_sorted_distinct(rows: Seq<(u64, u64, u64)>)
    requires
        rows_sorted(rows),
    ensures
        rows.no_duplicates(),
{
    assert forall|i: int, j: int|
        0 <= i < rows.len() && 0 <= j < rows.len() && i != j implies rows[i] != rows[j] by {
        if i < j {
            assert(row_before(rows[i], rows[j]));
        } else {
            assert(row_before(rows[j], rows[i]));
        }
    }
}

/// A list of terms with one more, unless it is there.
pub open spec fn with_term(
    terms: Seq<(u8, Seq<char>, Seq<char>)>,
    term: (u8, Seq<char>, Seq<char>),
) -> Seq<(u8, Seq<char>, Seq<char>)> {
    if terms.contains(term) {
        terms
    } else {
        terms.push(term)
    }
}

/// The terms of triples, each where it occurs first.
pub open spec fn terms_in(triples: Seq<TripleModel>) -> Seq<(u8, Seq<char>, Seq<char>)>
    decreases triples.len(),
{
    if triples.len() == 0 {
        Seq::empty()
    } else {
        let t = triples.last();
        with_term(
            with_term(with_term(terms_in(triples.drop_last()), t.subject), t.predicate),
            t.object,
        )
    }
}

/// The terms of one more triple come after those that were there: its subject, its
/// predicate and its object, each unless it is there.
pub proof fn law_terms_come_in_order(triples: Seq<TripleModel>, t: TripleModel)
    ensures
        terms_in(Seq::empty()).len() == 0,
        terms_in(triples).is_prefix_of(terms_in(triples.push(t))),
        terms_in(triples.push(t)).contains(t.subject),
        terms_in(triples.push(t)).contains(t.predicate),
        terms_in(triples.push(t)).contains(t.object),
        !terms_in(triples).contains(t.subject) && !terms_in(triples).contains(t.predicate)
            && !terms_in(triples).contains(t.object) && t.subject != t.predicate && t.predicate
            != t.object && t.subject != t.object ==> terms_in(triples.push(t)) == terms_in(
            triples,
        ) + seq![t.subject, t.predicate, t.object],
        terms_in(triples).contains(t.subject) && terms_in(triples).contains(t.predicate)
            && terms_in(triples).contains(t.object) ==> terms_in(triples.push(t)) == terms_in(
            triples,
        ),
{
    assert(triples.push(t).drop_last() =~= triples);
    let before = terms_in(triples);
    let one = with_term(before, t.subject);
    let two = with_term(one, t.predicate);
    let three = with_term(two, t.object);
    lemma_with_term(before, t.subject);
    lemma_with_term(one, t.predicate);
    lemma_with_term(two, t.object);
    assert(two.contains(t.subject)) by {
        let k = choose|k: int| 0 <= k < one.len() && one[k] == t.subject;
        assert(two[k] == t.subject);
    }
    assert(three.contains(t.subject)) by {
        let k = choose|k: int| 0 <= k < two.len() && two[k] == t.subject;
        assert(three[k] == t.subject);
    }
    assert(three.contains(t.predicate)) by {
        let k = choose|k: int| 0 <= k < two.len() && two[k] == t.predicate;
        assert(three[k] == t.predicate);
    }
    assert(before =~= three.take(before.len() as int));
    if !before.contains(t.subject) && !before.contains(t.predicate) && !before.contains(t.object)
        && t.subject != t.predicate && t.predicate != t.object && t.subject != t.object {
        assert(!one.contains(t.predicate));
        assert(!two.contains(t.object));
        assert(three =~= before + seq![t.subject, t.predicate, t.object]);
    }
}

proof fn lemma_with_term(
    terms: Seq<(u8, Seq<char>, Seq<char>)>,
    term: (u8, Seq<char>, Seq<char>),
)
    ensures
        with_term(terms, term).contains(term),
        with_term(terms, term).len() >= terms.len(),
        forall|i: int| 0 <= i < terms.len() ==> #[trigger] with_term(terms, term)[i] == terms[i],
{
    if !terms.contains(term) {
        assert(with_term(terms, term)[terms.len() as int] == term);
    }
}

/// A part of triples has at most as many terms as the whole.
proof fn lemma_terms_of_prefix(triples: Seq<TripleModel>, n: int)
    requires
        0 <= n <= triples.len(),
    ensures
        terms_in(triples.take(n)).len() <= terms_in(triples).len(),
    decreases triples.len() - n,
{
    if n < triples.len() {
        lemma_terms_of_prefix(triples, n + 1);
        assert(triples.take(n + 1).drop_last() =~= triples.take(n));
    } else {
        assert(triples.take(n) =~= triples);
    }
}

/// The triple that three ids stand for.
spec fn decoded(terms: Seq<(u8, Seq<char>, Seq<char>)>, row: (u64, u64, u64)) -> TripleModel {
    TripleModel {
        subject: terms[row.0 as int],
        predicate: terms[row.1 as int],
        object: terms[row.2 as int],
    }
}

spec fn row_known(terms: nat, row: (u64, u64, u64)) -> bool {
    row.0 < terms && row.1 < terms && row.2 < terms
}

/// A set of triples.
#[derive(Debug)]
pub struct TripleRing {
    dict: TermDictionary,
    num_triples: usize,
    subjects: WaveletTree,
    predicates: WaveletTree,
    objects: WaveletTree,
    spo_to_pos: SuccinctPermutation,
    spo_to_osp: SuccinctPermutation,
}

/// What a part of a pattern asks for, in terms of ids.
enum Wanted {
    Any,
    Id(u32),
    Nothing,
}

impl TripleRing {
    #[verifier::type_invariant]
    spec fn well_formed(&self) -> bool {
        ring_fault(
            self.dict.terms().len(),
            self.num_triples,
            tree_column(self.subjects),
            tree_column(self.predicates),
            tree_column(self.objects),
            self.spo_to_pos.targets().len(),
            self.spo_to_osp.targets().len(),
        ) is None && is_bijection(self.spo_to_pos.targets()) && is_bijection(
            self.spo_to_osp.targets(),
        )
    }

    /// The terms by id.
    pub closed spec fn terms(&self) -> Seq<(u8, Seq<char>, Seq<char>)> {
        self.dict.terms()
    }

    /// The column of subjects, in the first order.
    pub closed spec fn subjects_tree(&self) -> WaveletTree {
        self.subjects
    }

    /// The column of predicates, in the second order.
    pub closed spec fn predicates_tree(&self) -> WaveletTree {
        self.predicates
    }

    /// The column of objects, in the third order.
    pub closed spec fn objects_tree(&self) -> WaveletTree {
        self.objects
    }

    /// How triples move from the first to the second order.
    pub closed spec fn pos_targets(&self) -> Seq<usize> {
        self.spo_to_pos.targets()
    }

    /// How triples move from the first to the third order.
    pub closed spec fn osp_targets(&self) -> Seq<usize> {
        self.spo_to_osp.targets()
    }

    /// The triples, in the first order.
    pub open spec fn triples(&self) -> Seq<TripleModel> {
        ring_triples(
            self.terms(),
            tree_column(self.subjects_tree()),
            tree_column(self.predicates_tree()),
            tree_column(self.objects_tree()),
            self.pos_targets(),
            self.osp_targets(),
        )
    }

    /// The ids of the subject, the predicate and the object of the triple at `i`.
    pub open spec fn ids_at(&self, i: int) -> (u64, u64, u64) {
        (
            self.subjects_tree().symbol(i)->0,
            self.predicates_tree().symbol(self.pos_targets()[i] as int)->0,
            self.objects_tree().symbol(self.osp_targets()[i] as int)->0,
        )
    }

    /// Whether the ids stand in the three orders: first by subject, predicate and
    /// object, then by predicate, object and subject, and then by object, subject and
    /// predicate.
    pub open spec fn in_three_orders(&self) -> bool {
        forall|i: int, j: int| #![trigger self.ids_at(i), self.ids_at(j)]
            0 <= i < self.triples().len() && 0 <= j < self.triples().len() ==> {
                &&& i < j <==> row_before(self.ids_at(i), self.ids_at(j))
                &&& self.pos_targets()[i] < self.pos_targets()[j] <==> row_before(
                    rotated(self.ids_at(i)),
                    rotated(self.ids_at(j)),
                )
                &&& self.osp_targets()[i] < self.osp_targets()[j] <==> row_before(
                    rotated(rotated(self.ids_at(i))),
                    rotated(rotated(self.ids_at(j))),
                )
            }
    }

    /// Each triple has its subject from the first column, its predicate from the second
    /// and its object from the third, where the permutations lead from its place.
    pub proof fn law_columns_make_the_triples(self, i: int)
        requires
            0 <= i < self.triples().len(),
        ensures
            self.triples()[i].subject == self.terms()[self.ids_at(i).0 as int],
            0 <= self.pos_targets()[i] < self.predicates_tree().count()
                ==> self.triples()[i].predicate == self.terms()[self.ids_at(i).1 as int],
            0 <= self.osp_targets()[i] < self.objects_tree().count() ==> self.triples()[i].object
                == self.terms()[self.ids_at(i).2 as int],
    {
    }

    /// What holds of every ring.
    pub open spec fn is_valid(&self) -> bool {
        &&& ring_fault(
            self.terms().len(),
            self.triples().len() as usize,
            tree_column(self.subjects_tree()),
            tree_column(self.predicates_tree()),
            tree_column(self.objects_tree()),
            self.pos_targets().len(),
            self.osp_targets().len(),
        ) is None
        &&& is_bijection(self.pos_targets())
        &&& is_bijection(self.osp_targets())
        &&& self.triples().len() <= usize::MAX
        &&& self.subjects_tree().is_valid()
        &&& self.predicates_tree().is_valid()
        &&& self.objects_tree().is_valid()
    }

    /// Builds the ring of triples. A triple that occurs twice is kept once. There
    /// must be an id for each term.
    #[must_use]
    pub fn from_triples(triples: Vec<Triple>) -> (r: Self)
        requires
            terms_in(triples_view(triples@)).len() <= u32::MAX,
        ensures
            forall|t: TripleModel| #[trigger]
                r.triples().contains(t) <==> triples_view(triples@).contains(t),
            r.triples().no_duplicates(),
            r.triples().len() <= triples@.len(),
            r.terms() == terms_in(triples_view(triples@)),
            r.in_three_orders(),
            r.subjects_tree().level_vectors().len() <= 64,
            r.predicates_tree().level_vectors().len() <= 64,
            r.objects_tree().level_vectors().len() <= 64,
    {
        let ghost models = triples_view(triples@);
        let mut dict: TermDictionary = TermDictionary::new();
        let mut list: Vec<(u64, u64, u64)> = Vec::new();
        let mut i: usize = 0;
        assert(models.take(0) =~= Seq::<TripleModel>::empty());
        while i < triples.len()
            invariant
                i <= triples@.len(),
                models == triples_view(triples@),
                terms_in(models).len() <= u32::MAX,
                list@.len() == i,
                dict.terms() == terms_in(models.take(i as int)),
                forall|k: int| #![trigger list@[k]]
                    0 <= k < i ==> row_known(dict.terms().len(), list@[k]) && decoded(
                        dict.terms(),
                        list@[k],
                    ) == models[k],
            decreases triples.len() - i,
        {
            let t: &Triple = &triples[i];
            let ghost terms0 = dict.terms();
            proof {
                assert(models.take(i + 1).drop_last() =~= models.take(i as int));
                assert(models.take(i + 1).last() == t@);
                lemma_terms_of_prefix(models, i + 1);
            }
            let s: u64 = Self::id_for(&mut dict, &t.subject);
            let p: u64 = Self::id_for(&mut dict, &t.predicate);
            let o: u64 = Self::id_for(&mut dict, &t.object);
            list.push((s, p, o));
            proof {
                assert forall|k: int| #![trigger list@[k]] 0 <= k < i + 1 implies row_known(
                    dict.terms().len(),
                    list@[k],
                ) && decoded(dict.terms(), list@[k]) == models[k] by {
                    if k < i {
                        assert(decoded(terms0, list@[k]) == models[k]);
                    }
                }
            }
            i = i + 1;
        }
        assert(models.take(i as int) =~= models);
        let rows: Vec<(u64, u64, u64)> = sorted_rows(&list);
        let pos_keys: Vec<(u64, u64, u64)> = rotate_rows(&rows);
        let osp_keys: Vec<(u64, u64, u64)> = rotate_rows(&pos_keys);
        proof {
            lemma_sorted_distinct(rows@);
            lemma_rotation_distinct(rows@, pos_keys@);
            lemma_rotation_distinct(pos_keys@, osp_keys@);
        }
        let pos_rows: Vec<(u64, u64, u64)> = sorted_rows(&pos_keys);
        let osp_rows: Vec<(u64, u64, u64)> = sorted_rows(&osp_keys);
        let pos: Vec<usize> = places(&pos_keys, &pos_rows);
        let osp: Vec<usize> = places(&osp_keys, &osp_rows);
        let s_ids: Vec<u64> = first_ids(&rows);
        let p_ids: Vec<u64> = first_ids(&pos_rows);
        let o_ids: Vec<u64> = first_ids(&osp_rows);
        let subjects = WaveletTree::new(s_ids.as_slice());
        let predicates = WaveletTree::new(p_ids.as_slice());
        let objects = WaveletTree::new(o_ids.as_slice());
        let spo_to_pos = SuccinctPermutation::new(pos.as_slice());
        let spo_to_osp = SuccinctPermutation::new(osp.as_slice());
        let n: usize = rows.len();
        let term_count: usize = dict.len();
        proof {
            let terms = term_count as nat;
            assert forall|k: int| #![trigger rows@[k]] 0 <= k < rows@.len() implies row_known(
                terms,
                rows@[k],
            ) by {
                assert(rows@.contains(rows@[k]));
                let m = list@.index_of(rows@[k]);
                assert(row_known(terms, list@[m]));
            }
            assert forall|k: int| 0 <= k < n implies known_id(
                #[trigger] tree_column(subjects)[k],
                terms,
            ) by {
                assert(subjects.symbol(k) == Some(s_ids@[k]));
                assert(row_known(terms, rows@[k]));
            }
            assert forall|k: int| 0 <= k < n implies known_id(
                #[trigger] tree_column(predicates)[k],
                terms,
            ) by {
                assert(predicates.symbol(k) == Some(p_ids@[k]));
                assert(pos_rows@.contains(pos_rows@[k]));
                let m = pos_keys@.index_of(pos_rows@[k]);
                assert(pos_keys@[m] == rotated(rows@[m]));
                assert(row_known(terms, rows@[m]));
            }
            assert forall|k: int| 0 <= k < n implies known_id(
                #[trigger] tree_column(objects)[k],
                terms,
            ) by {
                assert(objects.symbol(k) == Some(o_ids@[k]));
                assert(osp_rows@.contains(osp_rows@[k]));
                let m = osp_keys@.index_of(osp_rows@[k]);
                assert(osp_keys@[m] == rotated(pos_keys@[m]));
                assert(pos_keys@[m] == rotated(rows@[m]));
                assert(row_known(terms, rows@[m]));
            }
            lemma_no_column_fault("subjects", tree_column(subjects), n as nat, terms);
            lemma_no_column_fault("predicates", tree_column(predicates), n as nat, terms);
            lemma_no_column_fault("objects", tree_column(objects), n as nat, terms);
        }
        let r = Self {
            dict,
            num_triples: n,
            subjects,
            predicates,
            objects,
            spo_to_pos,
            spo_to_osp,
        };
        proof {
            let terms = r.terms();
            let all = r.triples();
            assert forall|k: int| #![trigger all[k]] 0 <= k < n implies all[k] == decoded(
                terms,
                rows@[k],
            ) by {
                assert(subjects.symbol(k) == Some(s_ids@[k]));
                assert(predicates.symbol(pos@[k] as int) == Some(p_ids@[pos@[k] as int]));
                assert(objects.symbol(osp@[k] as int) == Some(o_ids@[osp@[k] as int]));
                assert(pos_rows@[pos@[k] as int] == pos_keys@[k]);
                assert(osp_rows@[osp@[k] as int] == osp_keys@[k]);
                assert(pos_keys@[k] == rotated(rows@[k]));
                assert(osp_keys@[k] == rotated(pos_keys@[k]));
            }
            assert forall|k: int| #![trigger r.ids_at(k)] 0 <= k < n implies r.ids_at(k)
                == rows@[k] by {
                assert(subjects.symbol(k) == Some(s_ids@[k]));
                assert(predicates.symbol(pos@[k] as int) == Some(p_ids@[pos@[k] as int]));
                assert(objects.symbol(osp@[k] as int) == Some(o_ids@[osp@[k] as int]));
                assert(pos_rows@[pos@[k] as int] == pos_keys@[k]);
                assert(osp_rows@[osp@[k] as int] == osp_keys@[k]);
                assert(pos_keys@[k] == rotated(rows@[k]));
                assert(osp_keys@[k] == rotated(pos_keys@[k]));
            }
            assert forall|i: int, j: int| #![trigger r.ids_at(i), r.ids_at(j)]
                0 <= i < n && 0 <= j < n implies {
                &&& i < j <==> row_before(r.ids_at(i), r.ids_at(j))
                &&& pos@[i] < pos@[j] <==> row_before(
                    rotated(r.ids_at(i)),
                    rotated(r.ids_at(j)),
                )
                &&& osp@[i] < osp@[j] <==> row_before(
                    rotated(rotated(r.ids_at(i))),
                    rotated(rotated(r.ids_at(j))),
                )
            } by {
                assert(pos_rows@[pos@[i] as int] == pos_keys@[i]);
                assert(pos_rows@[pos@[j] as int] == pos_keys@[j]);
                assert(osp_rows@[osp@[i] as int] == osp_keys@[i]);
                assert(osp_rows@[osp@[j] as int] == osp_keys@[j]);
                assert(pos_keys@[i] == rotated(rows@[i]) && pos_keys@[j] == rotated(rows@[j]));
                assert(osp_keys@[i] == rotated(pos_keys@[i]) && osp_keys@[j] == rotated(
                    pos_keys@[j],
                ));
                lemma_places_follow_order(rows@, i, j);
                lemma_places_follow_order(pos_rows@, pos@[i] as int, pos@[j] as int);
                lemma_places_follow_order(osp_rows@, osp@[i] as int, osp@[j] as int);
            }
            assert forall|t: TripleModel| #[trigger] all.contains(t) <==> models.contains(t) by {
                if all.contains(t) {
                    let k = all.index_of(t);
                    assert(all[k] == decoded(terms, rows@[k]));
                    assert(rows@.contains(rows@[k]));
                    let m = list@.index_of(rows@[k]);
                    assert(decoded(terms, list@[m]) == models[m]);
                }
                if models.contains(t) {
                    let m = models.index_of(t);
                    assert(decoded(terms, list@[m]) == models[m]);
                    assert(list@.contains(list@[m]));
                    assert(rows@.contains(list@[m]));
                    let k = rows@.index_of(list@[m]);
                    assert(all[k] == t);
                }
            }
            assert forall|a: int, b: int|
                0 <= a < all.len() && 0 <= b < all.len() && a != b implies all[a] != all[b] by {
                assert(rows@[a] != rows@[b]);
                assert(row_known(terms.len(), rows@[a]) && row_known(terms.len(), rows@[b]));
            }
            all.unique_seq_to_set();
            models.lemma_cardinality_of_set();
            assert(all.to_set().subset_of(models.to_set()));
            vstd::set_lib::lemma_len_subset(all.to_set(), models.to_set());
        }
        r
    }

    /// The id of a term, which is added if it is new.
    fn id_for(dict: &mut TermDictionary, term: &Term) -> (r: u64)
        requires
            with_term(old(dict).terms(), term@).len() <= u32::MAX,
        ensures
            final(dict).terms() == with_term(old(dict).terms(), term@),
            r < final(dict).terms().len(),
            final(dict).terms()[r as int] == term@,
    {
        match dict.get_or_insert(term) {
            Some(id) => id as u64,
            None => 0,
        }
    }

    /// Puts a ring together from its parts, if they fit together.
    pub fn from_packed_parts(
        dict: TermDictionary,
        num_triples: usize,
        subjects: WaveletTree,
        predicates: WaveletTree,
        objects: WaveletTree,
        spo_to_pos: SuccinctPermutation,
        spo_to_osp: SuccinctPermutation,
    ) -> (r: Result<Self, TripleRingInvariantError>)
        ensures
            match r {
                Ok(ring) => ring_fault(
                    dict.terms().len(),
                    num_triples,
                    tree_column(subjects),
                    tree_column(predicates),
                    tree_column(objects),
                    spo_to_pos.targets().len(),
                    spo_to_osp.targets().len(),
                ) is None && ring.terms() == dict.terms() && ring.subjects_tree() == subjects
                    && ring.predicates_tree() == predicates && ring.objects_tree() == objects
                    && ring.pos_targets() == spo_to_pos.targets() && ring.osp_targets()
                    == spo_to_osp.targets(),
                Err(e) => ring_fault(
                    dict.terms().len(),
                    num_triples,
                    tree_column(subjects),
                    tree_column(predicates),
                    tree_column(objects),
                    spo_to_pos.targets().len(),
                    spo_to_osp.targets().len(),
                ) == Some(e),
            },
    {
        let terms: usize = dict.len();
        if let Some(e) = check_length("subjects", num_triples, subjects.len()) {
            return Err(e);
        }
        if let Some(e) = check_length("predicates", num_triples, predicates.len()) {
            return Err(e);
        }
        if let Some(e) = check_length("objects", num_triples, objects.len()) {
            return Err(e);
        }
        if let Some(e) = check_length("spo_to_pos", num_triples, spo_to_pos.len()) {
            return Err(e);
        }
        if let Some(e) = check_length("spo_to_osp", num_triples, spo_to_osp.len()) {
            return Err(e);
        }
        if let Some(e) = check_column("subjects", &subjects, terms) {
            return Err(e);
        }
        if let Some(e) = check_column("predicates", &predicates, terms) {
            return Err(e);
        }
        if let Some(e) = check_column("objects", &objects, terms) {
            return Err(e);
        }
        Ok(Self { dict, num_triples, subjects, predicates, objects, spo_to_pos, spo_to_osp })
    }

    /// The number of triples.
    #[must_use]
    pub fn len(&self) -> (r: usize)
        ensures
            r == self.triples().len(),
            self.is_valid(),
    {
        proof {
            use_type_invariant(self);
        }
        let _ = (self.subjects.len(), self.predicates.len(), self.objects.len());
        self.num_triples
    }

    /// Whether there are no triples.
    #[must_use]
    pub fn is_empty(&self) -> (r: bool)
        ensures
            r == (self.triples().len() == 0),
    {
        proof {
            use_type_invariant(self);
        }
        self.num_triples == 0
    }

    /// The number of terms.
    #[must_use]
    pub fn num_terms(&self) -> (r: usize)
        ensures
            r == self.terms().len(),
    {
        self.dict.len()
    }

    /// The dictionary of the terms.
    #[must_use]
    pub fn dictionary(&self) -> (r: &TermDictionary)
        ensures
            r.terms() == self.terms(),
    {
        &self.dict
    }

    /// The column of subjects.
    #[must_use]
    pub fn subjects_wt(&self) -> (r: &WaveletTree)
        ensures
            *r == self.subjects_tree(),
    {
        &self.subjects
    }

    /// The column of predicates.
    #[must_use]
    pub fn predicates_wt(&self) -> (r: &WaveletTree)
        ensures
            *r == self.predicates_tree(),
    {
        &self.predicates
    }

    /// The column of objects.
    #[must_use]
    pub fn objects_wt(&self) -> (r: &WaveletTree)
        ensures
            *r == self.objects_tree(),
    {
        &self.objects
    }

    /// How triples move to the second order.
    #[must_use]
    pub fn spo_to_pos_perm(&self) -> (r: &SuccinctPermutation)
        ensures
            r.targets() == self.pos_targets(),
    {
        &self.spo_to_pos
    }

    /// How triples move to the third order.
    #[must_use]
    pub fn spo_to_osp_perm(&self) -> (r: &SuccinctPermutation)
        ensures
            r.targets() == self.osp_targets(),
    {
        &self.spo_to_osp
    }

    /// What a part of a pattern asks for.
    fn resolve(&self, part: &Option<Term>) -> (r: Wanted)
        ensures
            forall|id: int| #![trigger self.terms()[id]]
                0 <= id < self.terms().len() ==> (wants(r, id) <==> part_matches(
                    *part,
                    self.terms()[id],
                )),
    {
        match part {
            None => Wanted::Any,
            Some(term) => match self.dict.get_id(term) {
                Some(id) => Wanted::Id(id),
                None => {
                    assert forall|id: int| #![trigger self.terms()[id]]
                        0 <= id < self.terms().len() implies self.terms()[id] != term@ by {
                        assert(self.terms().contains(self.terms()[id]));
                    }
                    Wanted::Nothing
                },
            },
        }
    }

    /// The ids of a triple.
    fn row(&self, i: usize) -> (r: (u64, u64, u64))
        requires
            i < self.triples().len(),
        ensures
            row_known(self.terms().len(), r),
            decoded(self.terms(), r) == self.triples()[i as int],
    {
        proof {
            use_type_invariant(self);
            let terms = self.terms().len();
            let n = self.num_triples as nat;
            lemma_no_column_fault("subjects", tree_column(self.subjects), n, terms);
            lemma_no_column_fault("predicates", tree_column(self.predicates), n, terms);
            lemma_no_column_fault("objects", tree_column(self.objects), n, terms);
            let (p, o) = (self.pos_targets()[i as int], self.osp_targets()[i as int]);
            assert(known_id(tree_column(self.subjects)[i as int], terms));
            assert(known_id(tree_column(self.predicates)[p as int], terms));
            assert(known_id(tree_column(self.objects)[o as int], terms));
        }
        let p: usize = match self.spo_to_pos.apply(i) {
            Some(x) => x,
            None => 0,
        };
        let o: usize = match self.spo_to_osp.apply(i) {
            Some(x) => x,
            None => 0,
        };
        (
            entry(self.subjects.access(i)),
            entry(self.predicates.access(p)),
            entry(self.objects.access(o)),
        )
    }

    /// How many triples are what a pattern asks for.
    #[must_use]
    pub fn count(&self, pattern: &TriplePattern) -> (r: usize)
        ensures
            r == self.triples().filter(|t: TripleModel| pattern.matches_triple(t)).len(),
    {
        let n: usize = self.len();
        let s: Wanted = self.resolve(&pattern.subject);
        let p: Wanted = self.resolve(&pattern.predicate);
        let o: Wanted = self.resolve(&pattern.object);
        let ghost all = self.triples();
        let ghost asked = |t: TripleModel| pattern.matches_triple(t);
        let mut found: usize = 0;
        let mut i: usize = 0;
        proof {
            reveal(Seq::filter);
            assert(all.take(0) =~= Seq::<TripleModel>::empty());
        }
        while i < n
            invariant
                i <= n == all.len(),
                all == self.triples(),
                asked == (|t: TripleModel| pattern.matches_triple(t)),
                found <= i,
                found == all.take(i as int).filter(asked).len(),
                forall|id: int| #![trigger self.terms()[id]]
                    0 <= id < self.terms().len() ==> (wants(s, id) <==> part_matches(
                        pattern.subject,
                        self.terms()[id],
                    )),
                forall|id: int| #![trigger self.terms()[id]]
                    0 <= id < self.terms().len() ==> (wants(p, id) <==> part_matches(
                        pattern.predicate,
                        self.terms()[id],
                    )),
                forall|id: int| #![trigger self.terms()[id]]
                    0 <= id < self.terms().len() ==> (wants(o, id) <==> part_matches(
                        pattern.object,
                        self.terms()[id],
                    )),
            decreases n - i,
        {
            let row: (u64, u64, u64) = self.row(i);
            let hit: bool = is_wanted(&s, row.0) && is_wanted(&p, row.1) && is_wanted(&o, row.2);
            proof {
                reveal(Seq::filter);
                assert(all.take(i + 1).drop_last() =~= all.take(i as int));
                assert(hit == asked(all[i as int]));
            }
            if hit {
                found = found + 1;
            }
            i = i + 1;
        }
        assert(all.take(n as int) =~= all);
        found
    }

    /// The triples that are what a pattern asks for, in the first order.
    #[must_use]
    pub fn find(&self, pattern: &TriplePattern) -> (r: Vec<Triple>)
        ensures
            triples_view(r@) == self.triples().filter(
                |t: TripleModel| pattern.matches_triple(t),
            ),
    {
        let n: usize = self.len();
        let s: Wanted = self.resolve(&pattern.subject);
        let p: Wanted = self.resolve(&pattern.predicate);
        let o: Wanted = self.resolve(&pattern.object);
        let ghost all = self.triples();
        let ghost asked = |t: TripleModel| pattern.matches_triple(t);
        let mut found: Vec<Triple> = Vec::new();
        let mut i: usize = 0;
        proof {
            reveal(Seq::filter);
            assert(all.take(0) =~= Seq::<TripleModel>::empty());
            assert(triples_view(found@) =~= Seq::<TripleModel>::empty());
        }
        while i < n
            invariant
                i <= n == all.len(),
                all == self.triples(),
                asked == (|t: TripleModel| pattern.matches_triple(t)),
                triples_view(found@) == all.take(i as int).filter(asked),
                forall|id: int| #![trigger self.terms()[id]]
                    0 <= id < self.terms().len() ==> (wants(s, id) <==> part_matches(
                        pattern.subject,
                        self.terms()[id],
                    )),
                forall|id: int| #![trigger self.terms()[id]]
                    0 <= id < self.terms().len() ==> (wants(p, id) <==> part_matches(
                        pattern.predicate,
                        self.terms()[id],
                    )),
                forall|id: int| #![trigger self.terms()[id]]
                    0 <= id < self.terms().len() ==> (wants(o, id) <==> part_matches(
                        pattern.object,
                        self.terms()[id],
                    )),
            decreases n - i,
        {
            let row: (u64, u64, u64) = self.row(i);
            let hit: bool = is_wanted(&s, row.0) && is_wanted(&p, row.1) && is_wanted(&o, row.2);
            proof {
                reveal(Seq::filter);
                assert(all.take(i + 1).drop_last() =~= all.take(i as int));
                assert(hit == asked(all[i as int]));
            }
            if hit {
                let triple: Triple = Triple::new(
                    self.term(row.0),
                    self.term(row.1),
                    self.term(row.2),
                );
                let ghost before = found@;
                found.push(triple);
                assert(triples_view(found@) =~= triples_view(before).push(all[i as int]));
            }
            i = i + 1;
        }
        assert(all.take(n as int) =~= all);
        found
    }

    /// The term of an id.
    fn term(&self, id: u64) -> (r: Term)
        requires
            id < self.terms().len(),
        ensures
            r@ == self.terms()[id as int],
    {
        let count: usize = self.dict.len();
        match self.dict.get_term(id as u32) {
            Some(t) => t.clone(),
            None => Term::iri(""),
        }
    }
}

/// Whether an id is asked for.
spec fn wants(w: Wanted, id: int) -> bool {
    match w {
        Wanted::Any => true,
        Wanted::Id(x) => x == id,
        Wanted::Nothing => false,
    }
}

/// Whether an id is asked for.
fn is_wanted(w: &Wanted, id: u64) -> (r: bool)
    ensures
        r == wants(*w, id as int),
{
    match w {
        Wanted::Any => true,
        Wanted::Id(x) => *x as u64 == id,
        Wanted::Nothing => false,
    }
}

/// The id of an entry.
fn entry(e: Option<u64>) -> (r: u64)
    ensures
        e matches Some(id) ==> r == id,
{
    match e {
        Some(id) => id,
        None => 0,
    }
}

/// What is wrong with the length of a part, if anything.
fn check_length(part: &'static str, expected: usize, actual: usize) -> (r: Option<
    TripleRingInvariantError,
>)
    ensures
        r == length_fault(part, expected, actual as nat),
{
    if actual != expected {
        Some(TripleRingInvariantError::LengthMismatch { part, expected, actual })
    } else {
        None
    }
}

/// What is wrong with a column, if anything.
fn check_column(part: &'static str, tree: &WaveletTree, terms: usize) -> (r: Option<
    TripleRingInvariantError,
>)
    ensures
        r == column_fault(part, tree_column(*tree), tree_column(*tree).len(), terms as nat),
{
    let n: usize = tree.len();
    let ghost column = tree_column(*tree);
    let mut i: usize = 0;
    while i < n
        invariant
            i <= n == column.len(),
            column == tree_column(*tree),
            column_fault(part, column, i as nat, terms as nat) is None,
        decreases n - i,
    {
        let known: bool = match tree.access(i) {
            Some(id) => (id as u128) < (terms as u128),
            None => false,
        };
        assert(known == known_id(column[i as int], terms as nat));
        if !known {
            proof {
                lemma_column_fault_stays(part, column, (i + 1) as nat, n as nat, terms as nat);
            }
            return Some(TripleRingInvariantError::UnknownTerm { part, index: i });
        }
        i = i + 1;
    }
    None
}

/// Rotation keeps rows apart.
proof fn lemma_rotation_distinct(rows: Seq<(u64, u64, u64)>, turned: Seq<(u64, u64, u64)>)
    requires
        rows.no_duplicates(),
        turned == rows.map_values(|row: (u64, u64, u64)| rotated(row)),
    ensures
        turned.no_duplicates(),
{
    assert forall|i: int, j: int|
        0 <= i < turned.len() && 0 <= j < turned.len() && i != j implies turned[i]
        != turned[j] by {
        assert(rows[i] != rows[j]);
    }
}

} // verus!
