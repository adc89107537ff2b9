//! Subgraph isomorphism.
//!
//! Finds all mappings of the nodes of a pattern to nodes of a target graph that
//! preserve adjacency, by backtracking with pruning. Both graphs are taken as
//! undirected. Counting triangles is the case where the pattern is a triangle.

use std::collections::{HashMap, HashSet};

use vstd::arithmetic::power::pow;
use vstd::prelude::*;

use crate::algorithms::params::{AlgorithmResult, ParameterDef, ParameterType, Parameters};
use crate::graph::compact::zone_map::signed;
use crate::graph::store::{Direction, EdgeId, GraphStore, NodeId};
use crate::text::{chars_of, parse_usize, split_chars};
use crate::text::{decimal, fields_view, parsed_number, split_at_char};
use crate::text::{
    law_decimal_stands_for_its_number, law_numbers_are_read_back, lemma_split_extends,
};
use crate::types::value::Value;
use crate::types::value::ValueModel;

verus! {

broadcast use vstd::std_specs::hash::group_hash_axioms;

/// An undirected graph on the positions `0..size`.
#[verifier::ext_equal]
pub struct Links {
    pub size: nat,
    pub pairs: Set<(int, int)>,
}

impl Links {
    /// Whether two positions are adjacent.
    pub open spec fn adjacent(self, i: int, j: int) -> bool {
        self.pairs.contains((i, j))
    }

    /// Adjacency goes both ways and stays within the positions.
    pub open spec fn is_undirected(self) -> bool {
        &&& forall|i: int, j: int| #[trigger] self.adjacent(i, j) ==> self.adjacent(j, i)
        &&& forall|i: int, j: int| #[trigger]
            self.adjacent(i, j) ==> 0 <= i < self.size && 0 <= j < self.size
    }
}

/// `f` maps each position of the pattern to a position of the target, no two to
/// the same, so that adjacent positions have adjacent images.
pub open spec fn is_embedding(target: Links, pattern: Links, f: Seq<int>) -> bool {
    f.len() == pattern.size && is_partial_embedding(target, pattern, f)
}

/// `f` maps the first positions of the pattern as an embedding does.
pub open spec fn is_partial_embedding(target: Links, pattern: Links, f: Seq<int>) -> bool {
    &&& f.len() <= pattern.size
    &&& forall|i: int| #![trigger f[i]] 0 <= i < f.len() ==> 0 <= f[i] < target.size
    &&& forall|i: int, j: int| 0 <= i < j < f.len() ==> f[i] != f[j]
    &&& forall|i: int, j: int| #![trigger f[i], f[j]]
        0 <= i < f.len() && 0 <= j < f.len() && pattern.adjacent(i, j) ==> target.adjacent(
            f[i],
            f[j],
        )
}

/// Whether mapping the next position of the pattern to `x` keeps a partial
/// embedding one.
pub open spec fn extends(target: Links, pattern: Links, f: Seq<int>, x: int) -> bool {
    is_partial_embedding(target, pattern, f.push(x))
}

/// The embeddings that begin with `f`, by the positions that they map to.
pub open spec fn listing(target: Links, pattern: Links, f: Seq<int>) -> Seq<Seq<int>>
    decreases pattern.size - f.len(), target.size + 1,
{
    if f.len() >= pattern.size {
        seq![f]
    } else {
        listing_below(target, pattern, f, target.size)
    }
}

/// The embeddings that begin with `f` and map the next position below `x`.
pub open spec fn listing_below(
    target: Links,
    pattern: Links,
    f: Seq<int>,
    x: nat,
) -> Seq<Seq<int>>
    decreases pattern.size - f.len(), x,
{
    if f.len() >= pattern.size || x == 0 {
        Seq::empty()
    } else {
        listing_below(target, pattern, f, (x - 1) as nat) + if extends(
            target,
            pattern,
            f,
            x - 1,
        ) {
            listing(target, pattern, f.push(x - 1))
        } else {
            Seq::empty()
        }
    }
}

/// All embeddings of the pattern in the target.
pub open spec fn all_embeddings(target: Links, pattern: Links) -> Seq<Seq<int>> {
    listing(target, pattern, Seq::empty())
}

proof fn lemma_listed_are_embeddings(target: Links, pattern: Links, f: Seq<int>, g: Seq<int>)
    requires
        is_partial_embedding(target, pattern, f),
        listing(target, pattern, f).contains(g),
    ensures
        is_embedding(target, pattern, g),
        f.is_prefix_of(g),
    decreases pattern.size - f.len(), target.size + 1,
{
    if f.len() >= pattern.size {
        assert(g == f);
    } else {
        lemma_listed_below(target, pattern, f, target.size, g);
    }
}

proof fn lemma_listed_below(target: Links, pattern: Links, f: Seq<int>, x: nat, g: Seq<int>)
    requires
        is_partial_embedding(target, pattern, f),
        f.len() < pattern.size,
        listing_below(target, pattern, f, x).contains(g),
    ensures
        is_embedding(target, pattern, g),
        f.is_prefix_of(g),
        0 <= g[f.len() as int] < x,
    decreases pattern.size - f.len(), x,
{
    if x > 0 {
        let below = listing_below(target, pattern, f, (x - 1) as nat);
        if below.contains(g) {
            lemma_listed_below(target, pattern, f, (x - 1) as nat, g);
        } else {
            let k = choose|k: int|
                0 <= k < listing_below(target, pattern, f, x).len() && listing_below(
                    target,
                    pattern,
                    f,
                    x,
                )[k] == g;
            if k < below.len() {
                assert(below[k] == g);
                assert(below.contains(g));
            }
            let here = listing(target, pattern, f.push(x - 1));
            assert(here[k - below.len()] == g);
            assert(here.contains(g));
            lemma_listed_are_embeddings(target, pattern, f.push(x - 1), g);
            assert(f.push(x - 1).is_prefix_of(g));
            assert(g.take(f.len() as int + 1) =~= f.push(x - 1));
            assert(g.take(f.len() as int) =~= f);
            assert(g[f.len() as int] == f.push(x - 1)[f.len() as int]);
        }
    }
}

proof fn lemma_embeddings_are_listed(target: Links, pattern: Links, n: nat, g: Seq<int>)
    requires
        is_embedding(target, pattern, g),
        n <= g.len(),
    ensures
        listing(target, pattern, g.take(n as int)).contains(g),
    decreases pattern.size - n,
{
    let f = g.take(n as int);
    if n == g.len() {
        assert(f =~= g);
        assert(seq![f][0] == g);
    } else {
        let x = g[n as int];
        lemma_embeddings_are_listed(target, pattern, n + 1, g);
        assert(g.take(n as int + 1) =~= f.push(x));
        assert(extends(target, pattern, f, x)) by {
            let h = f.push(x);
            assert forall|i: int| 0 <= i < h.len() implies h[i] == g[i] by {}
        }
        lemma_listed_above(target, pattern, f, x, target.size, g);
    }
}

proof fn lemma_listed_above(
    target: Links,
    pattern: Links,
    f: Seq<int>,
    x: int,
    upto: nat,
    g: Seq<int>,
)
    requires
        f.len() < pattern.size,
        0 <= x < upto,
        extends(target, pattern, f, x),
        listing(target, pattern, f.push(x)).contains(g),
    ensures
        listing_below(target, pattern, f, upto).contains(g),
    decreases upto,
{
    let below = listing_below(target, pattern, f, (upto - 1) as nat);
    let whole = listing_below(target, pattern, f, upto);
    if x == upto - 1 {
        let here = listing(target, pattern, f.push(x));
        let k = choose|k: int| 0 <= k < here.len() && here[k] == g;
        assert(whole[below.len() + k] == g);
    } else {
        lemma_listed_above(target, pattern, f, x, (upto - 1) as nat, g);
        let k = choose|k: int| 0 <= k < below.len() && below[k] == g;
        assert(whole[k] == g);
    }
}

proof fn lemma_listing_distinct(target: Links, pattern: Links, f: Seq<int>)
    requires
        is_partial_embedding(target, pattern, f),
    ensures
        listing(target, pattern, f).no_duplicates(),
    decreases pattern.size - f.len(), target.size + 1,
{
    if f.len() < pattern.size {
        lemma_below_distinct(target, pattern, f, target.size);
    }
}

proof fn lemma_below_distinct(target: Links, pattern: Links, f: Seq<int>, x: nat)
    requires
        is_partial_embedding(target, pattern, f),
        f.len() < pattern.size,
    ensures
        listing_below(target, pattern, f, x).no_duplicates(),
    decreases pattern.size - f.len(), x,
{
    if x > 0 {
        let below = listing_below(target, pattern, f, (x - 1) as nat);
        lemma_below_distinct(target, pattern, f, (x - 1) as nat);
        if extends(target, pattern, f, x - 1) {
            let here = listing(target, pattern, f.push(x - 1));
            lemma_listing_distinct(target, pattern, f.push(x - 1));
            let whole = below + here;
            assert forall|i: int, j: int|
                0 <= i < whole.len() && 0 <= j < whole.len() && i != j implies whole[i]
                != whole[j] by {
                if i < below.len() && j >= below.len() {
                    lemma_sides_differ(target, pattern, f, x, below[i], here[j - below.len()]);
                } else if j < below.len() && i >= below.len() {
                    lemma_sides_differ(target, pattern, f, x, below[j], here[i - below.len()]);
                }
            }
        } else {
            assert(listing_below(target, pattern, f, x) =~= below);
        }
    }
}

proof fn lemma_sides_differ(
    target: Links,
    pattern: Links,
    f: Seq<int>,
    x: nat,
    g: Seq<int>,
    h: Seq<int>,
)
    requires
        is_partial_embedding(target, pattern, f),
        f.len() < pattern.size,
        x > 0,
        extends(target, pattern, f, x - 1),
        listing_below(target, pattern, f, (x - 1) as nat).contains(g),
        listing(target, pattern, f.push(x - 1)).contains(h),
    ensures
        g != h,
{
    lemma_listed_below(target, pattern, f, (x - 1) as nat, g);
    lemma_listed_are_embeddings(target, pattern, f.push(x - 1), h);
    assert(h.take(f.len() as int + 1) =~= f.push(x - 1));
    assert(h[f.len() as int] == h.take(f.len() as int + 1)[f.len() as int]);
}

/// The search finds every embedding, nothing else, and nothing twice.
pub proof fn law_search_is_exact(target: Links, pattern: Links)
    ensures
        all_embeddings(target, pattern).no_duplicates(),
        forall|g: Seq<int>| #[trigger]
            all_embeddings(target, pattern).contains(g) <==> is_embedding(target, pattern, g),
{
    let start = Seq::<int>::empty();
    assert(is_partial_embedding(target, pattern, start));
    lemma_listing_distinct(target, pattern, start);
    assert forall|g: Seq<int>| #[trigger]
        all_embeddings(target, pattern).contains(g) <==> is_embedding(target, pattern, g) by {
        if all_embeddings(target, pattern).contains(g) {
            lemma_listed_are_embeddings(target, pattern, start, g);
        }
        if is_embedding(target, pattern, g) {
            lemma_embeddings_are_listed(target, pattern, 0, g);
            assert(g.take(0) =~= start);
        }
    }
}

/// What an embedding is: it maps each position of the pattern to a position of the
/// target, different positions to different ones, and adjacent ones to adjacent ones.
pub proof fn law_what_embeddings_are(target: Links, pattern: Links, f: Seq<int>)
    ensures
        is_embedding(target, pattern, f) <==> f.len() == pattern.size && (forall|i: int|
            #![trigger f[i]]
            0 <= i < f.len() ==> 0 <= f[i] < target.size) && (forall|i: int, j: int|
            #![trigger f[i], f[j]]
            0 <= i < f.len() && 0 <= j < f.len() && i != j ==> f[i] != f[j]) && (forall|
            i: int,
            j: int,
        | #![trigger f[i], f[j]]
            0 <= i < f.len() && 0 <= j < f.len() && pattern.pairs.contains((i, j))
                ==> target.pairs.contains((f[i], f[j]))),
{
    assert forall|i: int, j: int| #![trigger pattern.adjacent(i, j)] pattern.adjacent(i, j)
        <==> pattern.pairs.contains((i, j)) by {}
    if is_embedding(target, pattern, f) {
        assert forall|i: int, j: int| #![trigger f[i], f[j]]
            0 <= i < f.len() && 0 <= j < f.len() && i != j implies f[i] != f[j] by {
            if i < j {
                assert(f[i] != f[j]);
            } else {
                assert(f[j] != f[i]);
            }
        }
        assert forall|i: int, j: int| #![trigger f[i], f[j]]
            0 <= i < f.len() && 0 <= j < f.len() && pattern.pairs.contains((i, j))
            implies target.pairs.contains((f[i], f[j])) by {
            assert(pattern.adjacent(i, j));
            assert(target.adjacent(f[i], f[j]));
        }
    }
}

/// Whether two mappings agree up to a position where the first maps to less.
pub open spec fn comes_first(g: Seq<int>, h: Seq<int>) -> bool {
    exists|p: int| #![trigger g[p]]
        0 <= p < g.len() && p < h.len() && g.take(p) == h.take(p) && g[p] < h[p]
}

/// Embeddings come in the order of the positions that they map to: of two, the one that
/// maps to less where they first differ comes first.
pub proof fn law_embeddings_come_in_order(target: Links, pattern: Links, i: int, j: int)
    requires
        0 <= i < j < all_embeddings(target, pattern).len(),
    ensures
        comes_first(all_embeddings(target, pattern)[i], all_embeddings(target, pattern)[j]),
{
    assert(is_partial_embedding(target, pattern, Seq::empty()));
    lemma_listing_ascends(target, pattern, Seq::empty(), i, j);
}

proof fn lemma_listing_ascends(target: Links, pattern: Links, f: Seq<int>, i: int, j: int)
    requires
        is_partial_embedding(target, pattern, f),
        0 <= i < j < listing(target, pattern, f).len(),
    ensures
        comes_first(listing(target, pattern, f)[i], listing(target, pattern, f)[j]),
    decreases pattern.size - f.len(), target.size + 1,
{
    if f.len() < pattern.size {
        lemma_below_ascends(target, pattern, f, target.size, i, j);
    }
}

proof fn lemma_below_ascends(
    target: Links,
    pattern: Links,
    f: Seq<int>,
    x: nat,
    i: int,
    j: int,
)
    requires
        is_partial_embedding(target, pattern, f),
        f.len() < pattern.size,
        0 <= i < j < listing_below(target, pattern, f, x).len(),
    ensures
        comes_first(
            listing_below(target, pattern, f, x)[i],
            listing_below(target, pattern, f, x)[j],
        ),
    decreases pattern.size - f.len(), x,
{
    let below = listing_below(target, pattern, f, (x - 1) as nat);
    let whole = listing_below(target, pattern, f, x);
    if j < below.len() {
        lemma_below_ascends(target, pattern, f, (x - 1) as nat, i, j);
        assert(whole[i] == below[i] && whole[j] == below[j]);
    } else {
        let here = listing(target, pattern, f.push(x - 1));
        assert(extends(target, pattern, f, x - 1));
        assert(whole[j] == here[j - below.len()]);
        if i >= below.len() {
            lemma_listing_ascends(target, pattern, f.push(x - 1), i - below.len(), j - below.len());
            assert(whole[i] == here[i - below.len()]);
        } else {
            let (g, h) = (whole[i], whole[j]);
            assert(g == below[i]);
            assert(below.contains(g));
            assert(here.contains(h));
            lemma_listed_below(target, pattern, f, (x - 1) as nat, g);
            lemma_listed_are_embeddings(target, pattern, f.push(x - 1), h);
            let p = f.len() as int;
            assert(h.take(p + 1) =~= f.push(x - 1));
            assert(h[p] == h.take(p + 1)[p]);
            assert(h.take(p) =~= f);
            assert(g.take(p) =~= f);
            assert(g[p] < h[p]);
        }
    }
}

/// The count is the number of embeddings.
pub proof fn law_count_is_cardinality(target: Links, pattern: Links)
    ensures
        Set::new(|g: Seq<int>| is_embedding(target, pattern, g)).finite(),
        Set::new(|g: Seq<int>| is_embedding(target, pattern, g)).len() == all_embeddings(
            target,
            pattern,
        ).len(),
{
    law_search_is_exact(target, pattern);
    let list = all_embeddings(target, pattern);
    list.unique_seq_to_set();
    assert(list.to_set() =~= Set::new(|g: Seq<int>| is_embedding(target, pattern, g)));
    vstd::seq_lib::seq_to_set_is_finite(list);
}

/// There are at most `n^k` embeddings of a pattern with `k` nodes in a target with `n`.
pub proof fn law_count_is_bounded(target: Links, pattern: Links)
    ensures
        all_embeddings(target, pattern).len() <= pow(target.size as int, pattern.size),
{
    lemma_listing_bound(target, pattern, Seq::empty());
}

proof fn lemma_listing_bound(target: Links, pattern: Links, f: Seq<int>)
    requires
        f.len() <= pattern.size,
    ensures
        listing(target, pattern, f).len() <= pow(
            target.size as int,
            (pattern.size - f.len()) as nat,
        ),
    decreases pattern.size - f.len(), target.size + 1,
{
    reveal(pow);
    if f.len() < pattern.size {
        lemma_listing_below_bound(target, pattern, f, target.size);
    }
}

proof fn lemma_listing_below_bound(target: Links, pattern: Links, f: Seq<int>, x: nat)
    requires
        f.len() < pattern.size,
    ensures
        listing_below(target, pattern, f, x).len() <= x * pow(
            target.size as int,
            (pattern.size - f.len() - 1) as nat,
        ),
    decreases pattern.size - f.len(), x,
{
    let each = pow(target.size as int, (pattern.size - f.len() - 1) as nat);
    lemma_pow_of_size(target.size, (pattern.size - f.len() - 1) as nat);
    if x > 0 {
        lemma_listing_below_bound(target, pattern, f, (x - 1) as nat);
        lemma_listing_bound(target, pattern, f.push(x - 1));
        assert(x * each == (x - 1) * each + each) by (nonlinear_arith)
            requires
                x > 0,
        ;
    }
}

proof fn lemma_pow_of_size(n: nat, k: nat)
    ensures
        pow(n as int, k) >= 0,
    decreases k,
{
    reveal(pow);
    if k > 0 {
        lemma_pow_of_size(n, (k - 1) as nat);
        let rest = pow(n as int, (k - 1) as nat);
        assert(n * rest >= 0) by (nonlinear_arith)
            requires
                n >= 0,
                rest >= 0,
        ;
    }
}

/// A pattern without nodes has one embedding, the empty one.
pub proof fn law_empty_pattern(target: Links, pattern: Links)
    requires
        pattern.size == 0,
    ensures
        all_embeddings(target, pattern) == seq![Seq::<int>::empty()],
{
}

/// Whether an edge leads from position `i` to position `j`.
pub open spec fn points_to<G: GraphStore>(store: &G, i: int, j: int) -> bool {
    exists|e: int| #![trigger store.edges(store.nodes()[i], Direction::Outgoing)[e]]
        0 <= e < store.edges(store.nodes()[i], Direction::Outgoing).len() && store.edges(
            store.nodes()[i],
            Direction::Outgoing,
        )[e].0 == store.nodes()[j]
}

/// The undirected graph of a store: two positions of its node list are adjacent
/// where an edge leads from one to the other.
pub open spec fn store_links<G: GraphStore>(store: &G) -> Links {
    Links {
        size: store.nodes().len(),
        pairs: Set::new(
            |p: (int, int)|
                0 <= p.0 < store.nodes().len() && 0 <= p.1 < store.nodes().len() && (points_to(
                    store,
                    p.0,
                    p.1,
                ) || points_to(store, p.1, p.0)),
        ),
    }
}

/// Whether an edge between `i` and `j` is among the first `n`.
pub open spec fn edge_listed(edges: Seq<(usize, usize)>, n: int, i: int, j: int) -> bool {
    exists|e: int| #![trigger edges[e]]
        0 <= e < n && ((edges[e].0 == i && edges[e].1 == j) || (edges[e].0 == j && edges[e].1
            == i))
}

/// The undirected graph of an edge list. Edges that go out of range are ignored.
pub open spec fn edge_links(edges: Seq<(usize, usize)>, node_count: nat) -> Links {
    Links {
        size: node_count,
        pairs: Set::new(
            |p: (int, int)|
                0 <= p.0 < node_count && 0 <= p.1 < node_count && edge_listed(
                    edges,
                    edges.len() as int,
                    p.0,
                    p.1,
                ),
        ),
    }
}

/// Positions of a store are adjacent exactly if an edge leads from one to the other,
/// either way; and those of an edge list exactly if it has an edge between them, either
/// way, and both are positions.
pub proof fn law_what_is_adjacent<G: GraphStore>(
    store: &G,
    edges: Seq<(usize, usize)>,
    node_count: nat,
    i: int,
    j: int,
)
    ensures
        store_links(store).size == store.nodes().len(),
        store_links(store).adjacent(i, j) <==> 0 <= i < store.nodes().len() && 0 <= j
            < store.nodes().len() && ((exists|e: int| #![trigger store.edges(store.nodes()[i], Direction::Outgoing)[e]]
            0 <= e < store.edges(store.nodes()[i], Direction::Outgoing).len() && store.edges(
                store.nodes()[i],
                Direction::Outgoing,
            )[e].0 == store.nodes()[j]) || (exists|e: int| #![trigger store.edges(store.nodes()[j], Direction::Outgoing)[e]]
            0 <= e < store.edges(store.nodes()[j], Direction::Outgoing).len() && store.edges(
                store.nodes()[j],
                Direction::Outgoing,
            )[e].0 == store.nodes()[i])),
        edge_links(edges, node_count).size == node_count,
        edge_links(edges, node_count).adjacent(i, j) <==> 0 <= i < node_count && 0 <= j < node_count
            && exists|e: int| #![trigger edges[e]]
            0 <= e < edges.len() && ((edges[e].0 == i && edges[e].1 == j) || (edges[e].0 == j
                && edges[e].1 == i)),
{
}

/// The graph that adjacency sets stand for.
spec fn sets_links(sets: Seq<HashSet<usize>>) -> Links {
    Links {
        size: sets.len(),
        pairs: Set::new(
            |p: (int, int)|
                0 <= p.0 < sets.len() && 0 <= p.1 < sets.len() && sets[p.0]@.contains(
                    p.1 as usize,
                ),
        ),
    }
}

/// Adjacency sets are finite and hold positions only.
spec fn sets_in_range(sets: Seq<HashSet<usize>>) -> bool {
    &&& forall|i: int, x: usize| #![trigger sets[i]@.contains(x)]
        0 <= i < sets.len() && sets[i]@.contains(x) ==> x < sets.len()
    &&& forall|i: int| #![trigger sets[i]] 0 <= i < sets.len() ==> sets[i]@.finite()
}

/// Empty adjacency sets.
fn empty_sets(n: usize) -> (r: Vec<HashSet<usize>>)
    ensures
        r@.len() == n,
        forall|i: int| #![trigger r@[i]] 0 <= i < n ==> r@[i]@ == Set::<usize>::empty(),
{
    let mut sets: Vec<HashSet<usize>> = Vec::new();
    let mut i: usize = 0;
    while i < n
        invariant
            i <= n,
            sets@.len() == i,
            forall|k: int| #![trigger sets@[k]] 0 <= k < i ==> sets@[k]@ == Set::<usize>::empty(),
        decreases n - i,
    {
        sets.push(HashSet::new());
        i = i + 1;
    }
    sets
}

/// Makes two positions adjacent.
fn link(sets: &mut Vec<HashSet<usize>>, u: usize, v: usize)
    requires
        u < old(sets)@.len(),
        v < old(sets)@.len(),
        sets_in_range(old(sets)@),
    ensures
        final(sets)@.len() == old(sets)@.len(),
        sets_in_range(final(sets)@),
        forall|i: int, x: usize| #![trigger final(sets)@[i]@.contains(x)]
            0 <= i < final(sets)@.len() ==> (final(sets)@[i]@.contains(x) <==> (old(
                sets,
            )@[i]@.contains(x) || (i == u && x == v) || (i == v && x == u))),
{
    let ghost before = sets@;
    sets[u].insert(v);
    let ghost between = sets@;
    sets[v].insert(u);
    assert forall|i: int, x: usize| #![trigger sets@[i]@.contains(x)]
        0 <= i < sets@.len() implies (sets@[i]@.contains(x) <==> (before[i]@.contains(x) || (i == u
        && x == v) || (i == v && x == u))) by {
        assert(between[i]@.contains(x) <==> (before[i]@.contains(x) || (i == u && x == v)));
    }
}

/// What the edges read so far link: all of the nodes before `i`, and the first
/// `e` of node `i`.
spec fn seen<G: GraphStore>(store: &G, i: int, e: int, a: int, b: int) -> bool {
    ||| a < i && points_to(store, a, b)
    ||| a == i && exists|k: int| #![trigger store.edges(store.nodes()[i], Direction::Outgoing)[k]]
        0 <= k < e && store.edges(store.nodes()[i], Direction::Outgoing)[k].0 == store.nodes()[b]
}

/// The positions of node ids in a node list.
fn index_nodes(nodes: &Vec<NodeId>) -> (r: HashMap<u64, usize>)
    requires
        nodes@.no_duplicates(),
    ensures
        forall|k: u64| #[trigger]
            r@.dom().contains(k) ==> r@[k] < nodes@.len() && nodes@[r@[k] as int] == NodeId(k),
        forall|i: int| #![trigger nodes@[i]]
            0 <= i < nodes@.len() ==> r@.dom().contains(nodes@[i].0) && r@[nodes@[i].0] == i,
{
    let mut map: HashMap<u64, usize> = HashMap::new();
    let mut i: usize = 0;
    while i < nodes.len()
        invariant
            i <= nodes@.len(),
            nodes@.no_duplicates(),
            forall|k: u64| #[trigger]
                map@.dom().contains(k) ==> map@[k] < i && nodes@[map@[k] as int] == NodeId(k),
            forall|j: int| #![trigger nodes@[j]]
                0 <= j < i ==> map@.dom().contains(nodes@[j].0) && map@[nodes@[j].0] == j,
        decreases nodes.len() - i,
    {
        let id: NodeId = nodes[i];
        map.insert(id.0, i);
        i = i + 1;
    }
    map
}

/// The adjacency sets of a store's undirected graph, by position in the node
/// list.
fn build_undirected_adj<G: GraphStore>(store: &G, nodes: &Vec<NodeId>) -> (r: Vec<HashSet<usize>>)
    requires
        nodes@ == store.nodes(),
        nodes@.no_duplicates(),
    ensures
        sets_links(r@) == store_links(store),
        sets_in_range(r@),
{
    let n: usize = nodes.len();
    let positions: HashMap<u64, usize> = index_nodes(nodes);
    let mut adj: Vec<HashSet<usize>> = empty_sets(n);
    let mut i: usize = 0;
    while i < n
        invariant
            i <= n == nodes@.len() == adj@.len(),
            nodes@ == store.nodes(),
            forall|k: u64| #[trigger]
                positions@.dom().contains(k) ==> positions@[k] < n && nodes@[positions@[k] as int]
                    == NodeId(k),
            forall|j: int| #![trigger nodes@[j]]
                0 <= j < n ==> positions@.dom().contains(nodes@[j].0) && positions@[nodes@[j].0]
                    == j,
            sets_in_range(adj@),
            forall|a: int, x: usize| #![trigger adj@[a]@.contains(x)]
                0 <= a < n && x < n ==> (adj@[a]@.contains(x) <==> seen(
                    store,
                    i as int,
                    0,
                    a,
                    x as int,
                ) || seen(store, i as int, 0, x as int, a)),
        decreases n - i,
    {
        let edges: Vec<(NodeId, EdgeId)> = store.edges_from(nodes[i], Direction::Outgoing);
        let mut e: usize = 0;
        while e < edges.len()
            invariant
                i < n == nodes@.len() == adj@.len(),
                nodes@ == store.nodes(),
                edges@ == store.edges(store.nodes()[i as int], Direction::Outgoing),
                e <= edges@.len(),
                forall|k: u64| #[trigger]
                    positions@.dom().contains(k) ==> positions@[k] < n
                        && nodes@[positions@[k] as int] == NodeId(k),
                forall|j: int| #![trigger nodes@[j]]
                    0 <= j < n ==> positions@.dom().contains(nodes@[j].0)
                        && positions@[nodes@[j].0] == j,
                sets_in_range(adj@),
                forall|a: int, x: usize| #![trigger adj@[a]@.contains(x)]
                    0 <= a < n && x < n ==> (adj@[a]@.contains(x) <==> seen(
                        store,
                        i as int,
                        e as int,
                        a,
                        x as int,
                    ) || seen(store, i as int, e as int, x as int, a)),
            decreases edges.len() - e,
        {
            let neighbor: NodeId = edges[e].0;
            let ghost before = adj@;
            assert(store.edges(store.nodes()[i as int], Direction::Outgoing)[e as int].0
                == neighbor);
            match positions.get(&neighbor.0) {
                Some(j) => {
                    link(&mut adj, i, *j);
                    assert(nodes@[*j as int] == neighbor);
                    proof {
                        assert forall|a: int, x: usize| #![trigger adj@[a]@.contains(x)]
                            0 <= a < n && x < n implies (adj@[a]@.contains(x) <==> seen(
                            store,
                            i as int,
                            e + 1,
                            a,
                            x as int,
                        ) || seen(store, i as int, e + 1, x as int, a)) by {
                            lemma_seen_step(store, i as int, e as int, a, x as int, *j as int);
                            lemma_seen_step(store, i as int, e as int, x as int, a, *j as int);
                            assert(before[a]@.contains(x) <==> seen(
                                store,
                                i as int,
                                e as int,
                                a,
                                x as int,
                            ) || seen(store, i as int, e as int, x as int, a));
                        }
                    }
                },
                None => {
                    proof {
                        assert forall|a: int, x: usize| #![trigger adj@[a]@.contains(x)]
                            0 <= a < n && x < n implies (adj@[a]@.contains(x) <==> seen(
                            store,
                            i as int,
                            e + 1,
                            a,
                            x as int,
                        ) || seen(store, i as int, e + 1, x as int, a)) by {
                            lemma_seen_dangling(store, i as int, e as int, a, x as int);
                            lemma_seen_dangling(store, i as int, e as int, x as int, a);
                        }
                    }
                },
            }
            e = e + 1;
        }
        proof {
            assert forall|a: int, x: usize| #![trigger adj@[a]@.contains(x)]
                0 <= a < n && x < n implies (adj@[a]@.contains(x) <==> seen(
                store,
                i + 1,
                0,
                a,
                x as int,
            ) || seen(store, i + 1, 0, x as int, a)) by {
                assert(seen(store, i as int, e as int, a, x as int) == seen(
                    store,
                    i + 1,
                    0,
                    a,
                    x as int,
                ));
                assert(seen(store, i as int, e as int, x as int, a) == seen(
                    store,
                    i + 1,
                    0,
                    x as int,
                    a,
                ));
            }
        }
        i = i + 1;
    }
    proof {
        let got = sets_links(adj@);
        let want = store_links(store);
        assert forall|p: (int, int)| got.pairs.contains(p) <==> want.pairs.contains(p) by {
            let (a, b) = p;
            if 0 <= a < n && 0 <= b < n {
                assert(adj@[a]@.contains(b as usize) <==> seen(store, n as int, 0, a, b) || seen(
                    store,
                    n as int,
                    0,
                    b,
                    a,
                ));
            }
        }
        assert(got.pairs =~= want.pairs);
    }
    adj
}

proof fn lemma_seen_step<G: GraphStore>(store: &G, i: int, e: int, a: int, b: int, j: int)
    requires
        store.nodes().no_duplicates(),
        0 <= i < store.nodes().len(),
        0 <= a < store.nodes().len(),
        0 <= b < store.nodes().len(),
        0 <= j < store.nodes().len(),
        0 <= e < store.edges(store.nodes()[i], Direction::Outgoing).len(),
        store.edges(store.nodes()[i], Direction::Outgoing)[e].0 == store.nodes()[j],
    ensures
        seen(store, i, e + 1, a, b) == (seen(store, i, e, a, b) || (a == i && b == j)),
{
    let edges = store.edges(store.nodes()[i], Direction::Outgoing);
    if a == i && b == j {
        assert(edges[e].0 == store.nodes()[b]);
    }
}

proof fn lemma_seen_dangling<G: GraphStore>(store: &G, i: int, e: int, a: int, b: int)
    requires
        0 <= i < store.nodes().len(),
        0 <= a < store.nodes().len(),
        0 <= b < store.nodes().len(),
        0 <= e < store.edges(store.nodes()[i], Direction::Outgoing).len(),
        !store.nodes().contains(store.edges(store.nodes()[i], Direction::Outgoing)[e].0),
    ensures
        seen(store, i, e + 1, a, b) == seen(store, i, e, a, b),
{
    assert(store.nodes()[b] != store.edges(store.nodes()[i], Direction::Outgoing)[e].0);
}

/// The adjacency sets of an edge list.
fn build_pattern_adjacency(edges: &[(usize, usize)], node_count: usize) -> (r: Vec<HashSet<usize>>)
    ensures
        sets_links(r@) == edge_links(edges@, node_count as nat),
        sets_in_range(r@),
{
    let mut adj: Vec<HashSet<usize>> = empty_sets(node_count);
    let mut e: usize = 0;
    while e < edges.len()
        invariant
            e <= edges@.len(),
            adj@.len() == node_count,
            sets_in_range(adj@),
            forall|a: int, x: usize| #![trigger adj@[a]@.contains(x)]
                0 <= a < node_count && x < node_count ==> (adj@[a]@.contains(x) <==> edge_listed(
                    edges@,
                    e as int,
                    a,
                    x as int,
                )),
        decreases edges.len() - e,
    {
        let (u, v): (usize, usize) = edges[e];
        let ghost before = adj@;
        if u < node_count && v < node_count {
            link(&mut adj, u, v);
        }
        proof {
            assert forall|a: int, x: usize| #![trigger adj@[a]@.contains(x)]
                0 <= a < node_count && x < node_count implies (adj@[a]@.contains(x)
                <==> edge_listed(edges@, e + 1, a, x as int)) by {
                assert(before[a]@.contains(x) <==> edge_listed(edges@, e as int, a, x as int));
                if edge_listed(edges@, e as int, a, x as int) {
                    let k = choose|k: int| #![trigger edges@[k]]
                        0 <= k < e && ((edges@[k].0 == a && edges@[k].1 == x) || (edges@[k].0 == x
                            && edges@[k].1 == a));
                    assert(edges@[k] == edges@[k]);
                }
                assert(edges@[e as int] == (u, v));
            }
        }
        e = e + 1;
    }
    proof {
        let got = sets_links(adj@);
        let want = edge_links(edges@, node_count as nat);
        assert forall|p: (int, int)| got.pairs.contains(p) <==> want.pairs.contains(p) by {
            let (a, b) = p;
            if 0 <= a < node_count && 0 <= b < node_count {
                assert(adj@[a]@.contains(b as usize) <==> edge_listed(
                    edges@,
                    edges@.len() as int,
                    a,
                    b,
                ));
            }
        }
        assert(got.pairs =~= want.pairs);
    }
    adj
}

/// The graph of a store goes both ways.
proof fn lemma_store_undirected<G: GraphStore>(store: &G)
    ensures
        store_links(store).is_undirected(),
{
}

/// The graph of an edge list goes both ways.
proof fn lemma_edges_undirected(edges: Seq<(usize, usize)>, node_count: nat)
    ensures
        edge_links(edges, node_count).is_undirected(),
{
    let g = edge_links(edges, node_count);
    assert forall|i: int, j: int| #[trigger] g.adjacent(i, j) implies g.adjacent(j, i) by {
        let n = edges.len() as int;
        let e = choose|e: int| #![trigger edges[e]]
            0 <= e < n && ((edges[e].0 == i && edges[e].1 == j) || (edges[e].0 == j && edges[e].1
                == i));
        assert(edges[e] == edges[e]);
        assert(edge_listed(edges, n, j, i));
    }
}

/// The state of the search: both graphs, and the mapping so far.
struct VF2State {
    target_adj: Vec<HashSet<usize>>,
    pattern_adj: Vec<HashSet<usize>>,
    mapping: Vec<usize>,
    mapped_targets: HashSet<usize>,
}

/// The positions as integers.
spec fn positions_view(s: Seq<usize>) -> Seq<int> {
    s.map_values(|x: usize| x as int)
}

/// The positions of embeddings as integers.
spec fn results_view(s: Seq<Vec<usize>>) -> Seq<Seq<int>> {
    s.map_values(|x: Vec<usize>| positions_view(x@))
}

impl VF2State {
    spec fn target(&self) -> Links {
        sets_links(self.target_adj@)
    }

    spec fn pattern(&self) -> Links {
        sets_links(self.pattern_adj@)
    }

    spec fn prefix(&self) -> Seq<int> {
        positions_view(self.mapping@)
    }

    spec fn well_formed(&self) -> bool {
        &&& sets_in_range(self.target_adj@)
        &&& sets_in_range(self.pattern_adj@)
        &&& self.target().is_undirected()
        &&& self.pattern().is_undirected()
        &&& is_partial_embedding(self.target(), self.pattern(), self.prefix())
        &&& forall|x: usize| #[trigger]
            self.mapped_targets@.contains(x) <==> self.mapping@.contains(x)
    }

    /// The same graphs and the same mapping.
    spec fn same_as(&self, other: &Self) -> bool {
        &&& self.target_adj@ == other.target_adj@
        &&& self.pattern_adj@ == other.pattern_adj@
        &&& self.mapping@ == other.mapping@
    }

    fn new(target_adj: Vec<HashSet<usize>>, pattern_adj: Vec<HashSet<usize>>) -> (r: Self)
        requires
            sets_in_range(target_adj@),
            sets_in_range(pattern_adj@),
            sets_links(target_adj@).is_undirected(),
            sets_links(pattern_adj@).is_undirected(),
        ensures
            r.well_formed(),
            r.target() == sets_links(target_adj@),
            r.pattern() == sets_links(pattern_adj@),
            r.prefix() == Seq::<int>::empty(),
    {
        let r = Self {
            target_adj,
            pattern_adj,
            mapping: Vec::new(),
            mapped_targets: HashSet::new(),
        };
        assert(r.prefix() =~= Seq::<int>::empty());
        r
    }

    /// The number of embeddings.
    fn count_all(&mut self) -> (r: u64)
        requires
            old(self).well_formed(),
            old(self).prefix() == Seq::<int>::empty(),
            all_embeddings(old(self).target(), old(self).pattern()).len() <= u64::MAX,
        ensures
            r == all_embeddings(old(self).target(), old(self).pattern()).len(),
    {
        if self.pattern_adj.len() == 0 {
            return 1;
        }
        self.backtrack_count()
    }

    /// The embeddings in order, at most `limit` of them. A pattern without nodes
    /// yields none.
    fn enumerate(&mut self, limit: Option<usize>) -> (r: Vec<Vec<usize>>)
        requires
            old(self).well_formed(),
            old(self).prefix() == Seq::<int>::empty(),
        ensures
            results_view(r@) == if old(self).pattern().size == 0 {
                Seq::<Seq<int>>::empty()
            } else {
                limited(all_embeddings(old(self).target(), old(self).pattern()), limit, 0)
            },
    {
        let mut results: Vec<Vec<usize>> = Vec::new();
        assert(results_view(results@) =~= Seq::<Seq<int>>::empty());
        if self.pattern_adj.len() == 0 {
            return results;
        }
        self.backtrack_enumerate(&mut results, limit);
        assert(Seq::<Seq<int>>::empty() + limited(
            all_embeddings(old(self).target(), old(self).pattern()),
            limit,
            0,
        ) =~= limited(all_embeddings(old(self).target(), old(self).pattern()), limit, 0));
        results
    }

    /// Maps the next position of the pattern.
    fn assign(&mut self, x: usize)
        requires
            old(self).well_formed(),
            extends(old(self).target(), old(self).pattern(), old(self).prefix(), x as int),
        ensures
            final(self).well_formed(),
            final(self).target_adj@ == old(self).target_adj@,
            final(self).pattern_adj@ == old(self).pattern_adj@,
            final(self).mapping@ == old(self).mapping@.push(x),
            final(self).prefix() == old(self).prefix().push(x as int),
    {
        self.mapping.push(x);
        self.mapped_targets.insert(x);
        proof {
            assert(self.prefix() =~= old(self).prefix().push(x as int));
            assert forall|y: usize| #[trigger]
                self.mapped_targets@.contains(y) <==> self.mapping@.contains(y) by {
                vstd::seq_lib::lemma_seq_contains_after_push(old(self).mapping@, x, y);
            }
        }
    }

    /// Takes the last assignment back.
    fn unassign(&mut self, x: usize, Ghost(before): Ghost<Seq<usize>>)
        requires
            old(self).well_formed(),
            old(self).mapping@ == before.push(x),
        ensures
            final(self).well_formed(),
            final(self).target_adj@ == old(self).target_adj@,
            final(self).pattern_adj@ == old(self).pattern_adj@,
            final(self).mapping@ == before,
    {
        let ghost full = self.prefix();
        self.mapping.pop();
        self.mapped_targets.remove(&x);
        proof {
            assert(self.mapping@ =~= before);
            let n = before.len() as int;
            assert(full[n] == x);
            let shorter = self.prefix();
            assert forall|i: int| 0 <= i < n implies full[i] == shorter[i] by {}
            assert forall|i: int, j: int| #![trigger shorter[i], shorter[j]]
                0 <= i < n && 0 <= j < n && self.pattern().adjacent(
                    i,
                    j,
                ) implies self.target().adjacent(shorter[i], shorter[j]) by {
                assert(full[i] == shorter[i] && full[j] == shorter[j]);
            }
            assert(is_partial_embedding(self.target(), self.pattern(), shorter));
            assert forall|y: usize| #[trigger]
                self.mapped_targets@.contains(y) <==> self.mapping@.contains(y) by {
                vstd::seq_lib::lemma_seq_contains_after_push(before, x, y);
                if y == x && before.contains(x) {
                    let k = choose|k: int| 0 <= k < before.len() && before[k] == x;
                    assert(full[k] == x);
                    assert(full[k] != full[n]);
                }
            }
        }
    }

    /// Counts the embeddings that begin with the mapping so far.
    fn backtrack_count(&mut self) -> (r: u64)
        requires
            old(self).well_formed(),
            listing(old(self).target(), old(self).pattern(), old(self).prefix()).len() <= u64::MAX,
        ensures
            r == listing(old(self).target(), old(self).pattern(), old(self).prefix()).len(),
            final(self).well_formed(),
            final(self).same_as(old(self)),
        decreases old(self).pattern_adj@.len() - old(self).mapping@.len(),
    {
        if self.mapping.len() == self.pattern_adj.len() {
            return 1;
        }
        let ghost t = self.target();
        let ghost p = self.pattern();
        let ghost f = self.prefix();
        let n: usize = self.target_adj.len();
        let mut count: u64 = 0;
        let mut i: usize = 0;
        while i < n
            invariant
                i <= n,
                self.well_formed(),
                self.same_as(old(self)),
                old(self).mapping@.len() < old(self).pattern_adj@.len(),
                n == self.target_adj@.len(),
                t == self.target(),
                p == self.pattern(),
                f == self.prefix(),
                t.size == n,
                f.len() < p.size,
                listing(t, p, f) == listing_below(t, p, f, n as nat),
                listing(t, p, f).len() <= u64::MAX,
                count == listing_below(t, p, f, i as nat).len(),
            decreases n - i,
        {
            proof {
                lemma_below_grows(t, p, f, (i + 1) as nat, n as nat);
            }
            let feasible: bool = self.is_feasible(i);
            if feasible {
                let ghost before = self.mapping@;
                self.assign(i);
                let more: u64 = self.backtrack_count();
                self.unassign(i, Ghost(before));
                count = count + more;
            }
            i = i + 1;
        }
        count
    }

    /// Appends the embeddings that begin with the mapping so far, until there are
    /// `limit` of them.
    fn backtrack_enumerate(&mut self, results: &mut Vec<Vec<usize>>, limit: Option<usize>)
        requires
            old(self).well_formed(),
        ensures
            results_view(final(results)@) == results_view(old(results)@) + limited(
                listing(old(self).target(), old(self).pattern(), old(self).prefix()),
                limit,
                old(results)@.len(),
            ),
            final(self).well_formed(),
            final(self).same_as(old(self)),
        decreases old(self).pattern_adj@.len() - old(self).mapping@.len(),
    {
        let ghost start = results_view(results@);
        if let Some(max) = limit {
            if results.len() >= max {
                assert(limited(
                    listing(self.target(), self.pattern(), self.prefix()),
                    limit,
                    results@.len(),
                ) =~= Seq::<Seq<int>>::empty());
                assert(results_view(results@) =~= start + Seq::<Seq<int>>::empty());
                return;
            }
        }
        let ghost t = self.target();
        let ghost p = self.pattern();
        let ghost f = self.prefix();
        if self.mapping.len() == self.pattern_adj.len() {
            let copy: Vec<usize> = self.mapping.clone();
            assert(copy@ =~= self.mapping@);
            let ghost before = results@;
            results.push(copy);
            proof {
                assert(results_view(results@) =~= results_view(before).push(f));
                assert(limited(seq![f], limit, before.len()) =~= seq![f]);
            }
            return;
        }
        let n: usize = self.target_adj.len();
        let mut i: usize = 0;
        assert(limited(listing_below(t, p, f, 0), limit, results@.len())
            =~= Seq::<Seq<int>>::empty());
        assert(results_view(results@) =~= start + Seq::<Seq<int>>::empty());
        while i < n
            invariant
                i <= n,
                self.well_formed(),
                self.same_as(old(self)),
                old(self).mapping@.len() < old(self).pattern_adj@.len(),
                n == self.target_adj@.len(),
                t == self.target(),
                p == self.pattern(),
                f == self.prefix(),
                t.size == n,
                f.len() < p.size,
                listing(t, p, f) == listing_below(t, p, f, n as nat),
                start.len() == old(results)@.len(),
                start == results_view(old(results)@),
                limit matches Some(max) ==> start.len() < max,
                results_view(results@) == start + limited(
                    listing_below(t, p, f, i as nat),
                    limit,
                    start.len(),
                ),
                limit matches Some(max) ==> results@.len() < max || i == 0,
            decreases n - i,
        {
            let ghost below = listing_below(t, p, f, i as nat);
            let ghost next = listing_below(t, p, f, (i + 1) as nat);
            let ghost middle = results@;
            let feasible: bool = self.is_feasible(i);
            if feasible {
                let ghost before = self.mapping@;
                self.assign(i);
                self.backtrack_enumerate(results, limit);
                self.unassign(i, Ghost(before));
                proof {
                    let here = listing(t, p, f.push(i as int));
                    assert(next == below + here);
                    assert(results_view(middle).len() == middle.len());
                    lemma_limited_concat(below, here, limit, start.len());
                    assert(results_view(results@) =~= start + limited(next, limit, start.len()));
                }
                if let Some(max) = limit {
                    if results.len() >= max {
                        proof {
                            assert(results_view(results@).len() == results@.len());
                            lemma_below_prefix(t, p, f, (i + 1) as nat, n as nat);
                            lemma_limit_reached(
                                next,
                                listing_below(t, p, f, n as nat),
                                max,
                                start.len(),
                            );
                        }
                        return;
                    }
                }
            } else {
                assert(next =~= below);
            }
            i = i + 1;
        }
    }

    /// Whether the next position of the pattern can be mapped to `x`: `x` is free,
    /// it is adjacent to the images of all mapped neighbours, and it has at least
    /// as many neighbours as the position. Where the last condition fails, no
    /// embedding is lost.
    fn is_feasible(&self, x: usize) -> (r: bool)
        requires
            self.well_formed(),
            x < self.target_adj@.len(),
            self.mapping@.len() < self.pattern_adj@.len(),
        ensures
            r ==> extends(self.target(), self.pattern(), self.prefix(), x as int),
            !r ==> !extends(self.target(), self.pattern(), self.prefix(), x as int) || listing(
                self.target(),
                self.pattern(),
                self.prefix().push(x as int),
            ).len() == 0,
    {
        let ghost t = self.target();
        let ghost p = self.pattern();
        let ghost f = self.prefix();
        let ghost h = f.push(x as int);
        let depth: usize = self.mapping.len();
        if self.mapped_targets.contains(&x) {
            proof {
                assert(self.mapping@.contains(x));
                let k = choose|k: int| 0 <= k < self.mapping@.len() && self.mapping@[k] == x;
                assert(h[k] == x && h[depth as int] == x);
            }
            return false;
        }
        if self.pattern_adj[depth].contains(&depth) && !self.target_adj[x].contains(&x) {
            proof {
                assert(p.adjacent(depth as int, depth as int));
                assert(h[depth as int] == x);
                assert(!t.adjacent(x as int, x as int));
            }
            return false;
        }
        let mut i: usize = 0;
        while i < depth
            invariant
                i <= depth == self.mapping@.len(),
                depth < self.pattern_adj@.len(),
                x < self.target_adj@.len(),
                self.well_formed(),
                t == self.target(),
                p == self.pattern(),
                f == self.prefix(),
                h == f.push(x as int),
                forall|k: int| #![trigger f[k]]
                    0 <= k < i && p.adjacent(depth as int, k) ==> t.adjacent(x as int, f[k]),
            decreases depth - i,
        {
            let image: usize = self.mapping[i];
            assert(f[i as int] == image);
            if self.pattern_adj[depth].contains(&i) && !self.target_adj[x].contains(&image) {
                proof {
                    assert(p.adjacent(depth as int, i as int));
                    assert(h[depth as int] == x && h[i as int] == image);
                    assert(!t.adjacent(x as int, image as int));
                }
                return false;
            }
            proof {
                assert(p.adjacent(depth as int, i as int) == self.pattern_adj@[depth as int]@.contains(
                    i,
                ));
                assert(t.adjacent(x as int, image as int) == self.target_adj@[x as int]@.contains(
                    image,
                ));
            }
            i = i + 1;
        }
        proof {
            assert forall|a: int, b: int| #![trigger h[a], h[b]]
                0 <= a < h.len() && 0 <= b < h.len() && p.adjacent(a, b) implies t.adjacent(
                h[a],
                h[b],
            ) by {
                let d = depth as int;
                if a < d && b < d {
                    assert(h[a] == f[a] && h[b] == f[b]);
                } else if a == d && b < d {
                    assert(h[b] == f[b]);
                } else if a < d && b == d {
                    assert(h[a] == f[a]);
                    assert(p.adjacent(b, a));
                    assert(t.adjacent(x as int, f[a]));
                } else {
                    assert(self.pattern_adj@[d]@.contains(depth));
                }
            }
            assert forall|a: int, b: int| 0 <= a < b < h.len() implies h[a] != h[b] by {
                if b == depth {
                    assert(h[a] == self.mapping@[a]);
                    assert(self.mapping@.contains(self.mapping@[a]));
                }
            }
            assert(is_partial_embedding(t, p, h));
        }
        if self.target_adj[x].len() < self.pattern_adj[depth].len() {
            proof {
                assert(self.target_adj.len() == self.target_adj@.len());
                assert(self.pattern_adj.len() == self.pattern_adj@.len());
                lemma_too_few_neighbours(self.target_adj@, self.pattern_adj@, f, x as int);
            }
            return false;
        }
        true
    }
}

/// The first of `items` that still fit when `used` places of `limit` are taken.
pub open spec fn limited(items: Seq<Seq<int>>, limit: Option<usize>, used: nat) -> Seq<Seq<int>> {
    match limit {
        Some(max) => if used >= max {
            Seq::empty()
        } else if items.len() <= max - used {
            items
        } else {
            items.take(max - used)
        },
        None => items,
    }
}

proof fn lemma_limited_concat(a: Seq<Seq<int>>, b: Seq<Seq<int>>, limit: Option<usize>, used: nat)
    ensures
        limited(a + b, limit, used) == limited(a, limit, used) + limited(
            b,
            limit,
            used + limited(a, limit, used).len(),
        ),
{
    assert(limited(a + b, limit, used) =~= limited(a, limit, used) + limited(
        b,
        limit,
        used + limited(a, limit, used).len(),
    ));
}

proof fn lemma_limit_reached(a: Seq<Seq<int>>, whole: Seq<Seq<int>>, max: usize, used: nat)
    requires
        a.is_prefix_of(whole),
        used + limited(a, Some(max), used).len() >= max,
        used < max,
    ensures
        limited(a, Some(max), used) == limited(whole, Some(max), used),
{
    assert(a =~= whole.take(a.len() as int));
    assert(limited(a, Some(max), used) =~= limited(whole, Some(max), used));
}

proof fn lemma_below_prefix(target: Links, pattern: Links, f: Seq<int>, x: nat, y: nat)
    requires
        x <= y,
        f.len() < pattern.size,
    ensures
        listing_below(target, pattern, f, x).is_prefix_of(listing_below(target, pattern, f, y)),
    decreases y,
{
    if x < y {
        lemma_below_prefix(target, pattern, f, x, (y - 1) as nat);
        let a = listing_below(target, pattern, f, x);
        let b = listing_below(target, pattern, f, (y - 1) as nat);
        let c = listing_below(target, pattern, f, y);
        assert(b =~= c.take(b.len() as int));
        assert(a =~= c.take(a.len() as int));
    }
}

proof fn lemma_below_grows(target: Links, pattern: Links, f: Seq<int>, x: nat, y: nat)
    requires
        x <= y,
        f.len() < pattern.size,
    ensures
        listing_below(target, pattern, f, x).len() <= listing_below(target, pattern, f, y).len(),
{
    lemma_below_prefix(target, pattern, f, x, y);
}

/// A limit keeps the first items, as many as it says, and all where there are no more.
pub proof fn law_limits_keep_the_first(items: Seq<Seq<int>>, max: usize)
    ensures
        limited(items, None, 0) == items,
        items.len() <= max ==> limited(items, Some(max), 0) == items,
        items.len() > max ==> limited(items, Some(max), 0).len() == max,
        limited(items, Some(max), 0).is_prefix_of(items),
{
    assert(items.take(items.len() as int) =~= items);
    assert(items.take(0) =~= Seq::<Seq<int>>::empty());
}

/// A position with more neighbours than `x` has cannot be mapped to `x`.
proof fn lemma_too_few_neighbours(
    target: Seq<HashSet<usize>>,
    pattern: Seq<HashSet<usize>>,
    f: Seq<int>,
    x: int,
)
    requires
        sets_in_range(target),
        sets_in_range(pattern),
        f.len() < pattern.len(),
        0 <= x < target.len() <= usize::MAX,
        pattern.len() <= usize::MAX,
        extends(sets_links(target), sets_links(pattern), f, x),
        target[x]@.len() < pattern[f.len() as int]@.len(),
    ensures
        listing(sets_links(target), sets_links(pattern), f.push(x)).len() == 0,
{
    let t = sets_links(target);
    let p = sets_links(pattern);
    let d = f.len() as int;
    let list = listing(t, p, f.push(x));
    if list.len() > 0 {
        let g = list[0];
        assert(list.contains(g));
        lemma_listed_are_embeddings(t, p, f.push(x), g);
        assert(g.take(d + 1) =~= f.push(x));
        assert(g[d] == g.take(d + 1)[d]);
        let mine = pattern[d]@;
        let theirs = target[x]@;
        let image = |j: usize| g[j as int] as usize;
        let mapped = mine.map(image);
        assert forall|a: usize, b: usize|
            mine.contains(a) && mine.contains(b) && image(a) == image(b) implies a == b by {
            if a < b {
                assert(g[a as int] != g[b as int]);
            } else if b < a {
                assert(g[b as int] != g[a as int]);
            }
        }
        assert(vstd::relations::injective_on(image, mine));
        vstd::set_lib::lemma_map_size(mine, mapped, image);
        assert forall|y: usize| mapped.contains(y) implies theirs.contains(y) by {
            let j = choose|j: usize| mine.contains(j) && image(j) == y;
            assert(p.adjacent(d, j as int));
            assert(t.adjacent(g[d], g[j as int]));
        }
        vstd::set_lib::lemma_len_subset(mapped, theirs);
    }
}

/// Counts all subgraph isomorphisms of `pattern` in `target`: the mappings of the
/// pattern's nodes to distinct nodes of the target that preserve adjacency.
///
/// Each distinct subgraph is counted once per automorphism of the pattern.
pub fn subgraph_isomorphism_count<T: GraphStore, P: GraphStore>(target: &T, pattern: &P) -> (r: u64)
    requires
        all_embeddings(store_links(target), store_links(pattern)).len() <= u64::MAX,
    ensures
        r == all_embeddings(store_links(target), store_links(pattern)).len(),
{
    let target_nodes: Vec<NodeId> = target.node_ids();
    let pattern_nodes: Vec<NodeId> = pattern.node_ids();
    let target_adj: Vec<HashSet<usize>> = build_undirected_adj(target, &target_nodes);
    let pattern_adj: Vec<HashSet<usize>> = build_undirected_adj(pattern, &pattern_nodes);
    proof {
        lemma_store_undirected(target);
        lemma_store_undirected(pattern);
    }
    let mut state = VF2State::new(target_adj, pattern_adj);
    state.count_all()
}

/// The pairs of pattern node and target node that an embedding stands for.
pub open spec fn named_pairs(
    pattern_nodes: Seq<NodeId>,
    target_nodes: Seq<NodeId>,
    f: Seq<int>,
) -> Seq<(NodeId, NodeId)> {
    Seq::new(f.len(), |i: int| (pattern_nodes[i], target_nodes[f[i]]))
}

/// Each node of the pattern stands beside the node of the target that it is mapped to.
pub proof fn law_nodes_stand_beside_their_images(
    pattern_nodes: Seq<NodeId>,
    target_nodes: Seq<NodeId>,
    f: Seq<int>,
    i: int,
)
    requires
        0 <= i < f.len(),
    ensures
        named_pairs(pattern_nodes, target_nodes, f).len() == f.len(),
        named_pairs(pattern_nodes, target_nodes, f)[i].0 == pattern_nodes[i],
        named_pairs(pattern_nodes, target_nodes, f)[i].1 == target_nodes[f[i]],
{
}

/// Enumerates subgraph isomorphisms, at most `limit` of them. Each mapping is a
/// list of pairs of a pattern node and a target node. A pattern without nodes
/// yields none.
pub fn subgraph_isomorphism<T: GraphStore, P: GraphStore>(
    target: &T,
    pattern: &P,
    limit: Option<usize>,
) -> (r: Vec<Vec<(NodeId, NodeId)>>)
    ensures
        ({
            let found = if pattern.nodes().len() == 0 {
                Seq::<Seq<int>>::empty()
            } else {
                limited(all_embeddings(store_links(target), store_links(pattern)), limit, 0)
            };
            &&& r@.len() == found.len()
            &&& forall|k: int| #![trigger r@[k]]
                0 <= k < r@.len() ==> r@[k]@ == named_pairs(
                    pattern.nodes(),
                    target.nodes(),
                    found[k],
                )
        }),
{
    let target_nodes: Vec<NodeId> = target.node_ids();
    let pattern_nodes: Vec<NodeId> = pattern.node_ids();
    let target_adj: Vec<HashSet<usize>> = build_undirected_adj(target, &target_nodes);
    let pattern_adj: Vec<HashSet<usize>> = build_undirected_adj(pattern, &pattern_nodes);
    let ghost t = store_links(target);
    let ghost p = store_links(pattern);
    proof {
        lemma_store_undirected(target);
        lemma_store_undirected(pattern);
        law_search_is_exact(t, p);
    }
    let mut state = VF2State::new(target_adj, pattern_adj);
    let found: Vec<Vec<usize>> = state.enumerate(limit);
    let ghost listed = results_view(found@);
    proof {
        assert forall|k: int| 0 <= k < listed.len() implies is_embedding(t, p, #[trigger] listed[k]) by {
            assert(all_embeddings(t, p)[k] == listed[k]);
            assert(all_embeddings(t, p).contains(listed[k]));
        }
    }
    let mut out: Vec<Vec<(NodeId, NodeId)>> = Vec::new();
    let mut k: usize = 0;
    while k < found.len()
        invariant
            k <= found@.len(),
            listed == results_view(found@),
            target_nodes@ == target.nodes(),
            pattern_nodes@ == pattern.nodes(),
            t == store_links(target),
            p == store_links(pattern),
            forall|j: int|
                0 <= j < listed.len() ==> is_embedding(t, p, #[trigger] listed[j]),
            out@.len() == k,
            forall|j: int| #![trigger out@[j]]
                0 <= j < k ==> out@[j]@ == named_pairs(
                    pattern.nodes(),
                    target.nodes(),
                    listed[j],
                ),
        decreases found.len() - k,
    {
        let mut pairs: Vec<(NodeId, NodeId)> = Vec::new();
        let ghost g = listed[k as int];
        assert(g == positions_view(found@[k as int]@));
        assert(is_embedding(t, p, g));
        let mut i: usize = 0;
        while i < found[k].len()
            invariant
                k < found@.len(),
                i <= found@[k as int]@.len(),
                g == positions_view(found@[k as int]@),
                target_nodes@ == target.nodes(),
                pattern_nodes@ == pattern.nodes(),
                t == store_links(target),
                p == store_links(pattern),
                is_embedding(t, p, g),
                pairs@ == named_pairs(pattern.nodes(), target.nodes(), g).take(i as int),
            decreases found@[k as int]@.len() - i,
        {
            let x: usize = found[k][i];
            assert(g[i as int] == x);
            pairs.push((pattern_nodes[i], target_nodes[x]));
            i = i + 1;
            assert(pairs@ =~= named_pairs(pattern.nodes(), target.nodes(), g).take(i as int));
        }
        assert(pairs@ =~= named_pairs(pattern.nodes(), target.nodes(), g));
        out.push(pairs);
        k = k + 1;
    }
    out
}

/// Counts subgraph isomorphisms of a pattern that is given by its edges, as pairs
/// of positions, and its number of nodes. Edges that go out of range are ignored.
pub fn subgraph_isomorphism_count_from_edges<T: GraphStore>(
    target: &T,
    pattern_edges: &[(usize, usize)],
    pattern_node_count: usize,
) -> (r: u64)
    requires
        all_embeddings(
            store_links(target),
            edge_links(pattern_edges@, pattern_node_count as nat),
        ).len() <= u64::MAX,
    ensures
        r == all_embeddings(
            store_links(target),
            edge_links(pattern_edges@, pattern_node_count as nat),
        ).len(),
{
    let target_nodes: Vec<NodeId> = target.node_ids();
    let target_adj: Vec<HashSet<usize>> = build_undirected_adj(target, &target_nodes);
    let pattern_adj: Vec<HashSet<usize>> = build_pattern_adjacency(
        pattern_edges,
        pattern_node_count,
    );
    proof {
        lemma_store_undirected(target);
        lemma_edges_undirected(pattern_edges@, pattern_node_count as nat);
    }
    let mut state = VF2State::new(target_adj, pattern_adj);
    state.count_all()
}

/// The edge that a field like `0-1` stands for.
pub open spec fn field_edge(field: Seq<char>) -> Option<(usize, usize)> {
    let parts = split_at_char(field, '-');
    if parts.len() == 2 {
        match (
            parsed_number(parts[0], usize::MAX as nat),
            parsed_number(parts[1], usize::MAX as nat),
        ) {
            (Some(u), Some(v)) => Some((u as usize, v as usize)),
            _ => None,
        }
    } else {
        None
    }
}

/// The edges that fields stand for. Fields that are no edge are skipped.
pub open spec fn fields_edges(fields: Seq<Seq<char>>) -> Seq<(usize, usize)>
    decreases fields.len(),
{
    if fields.len() == 0 {
        Seq::empty()
    } else {
        let rest = fields_edges(fields.drop_last());
        match field_edge(fields.last()) {
            Some(edge) => rest.push(edge),
            None => rest,
        }
    }
}

/// The edges of a pattern like `0-1,1-2,2-0`.
pub open spec fn pattern_text_edges(text: Seq<char>) -> Seq<(usize, usize)> {
    fields_edges(split_at_char(text, ','))
}

/// Reads the edges of a pattern like `0-1,1-2,2-0`. Fields that are no edge are
/// skipped.
pub fn parse_pattern_edges(text: &str) -> (r: Vec<(usize, usize)>)
    ensures
        r@ == pattern_text_edges(text@),
{
    let chars: Vec<char> = chars_of(text);
    let fields: Vec<Vec<char>> = split_chars(&chars, ',');
    let ghost all = fields_view(fields@);
    let mut edges: Vec<(usize, usize)> = Vec::new();
    let mut i: usize = 0;
    assert(all.take(0) =~= Seq::<Seq<char>>::empty());
    while i < fields.len()
        invariant
            i <= fields@.len(),
            all == fields_view(fields@),
            edges@ == fields_edges(all.take(i as int)),
        decreases fields.len() - i,
    {
        proof {
            assert(all.take(i + 1).drop_last() =~= all.take(i as int));
            assert(all.take(i + 1).last() == fields@[i as int]@);
        }
        let parts: Vec<Vec<char>> = split_chars(&fields[i], '-');
        if parts.len() == 2 {
            proof {
                assert(fields_view(parts@)[0] == parts@[0]@);
                assert(fields_view(parts@)[1] == parts@[1]@);
            }
            if let Some(u) = parse_usize(&parts[0]) {
                if let Some(v) = parse_usize(&parts[1]) {
                    edges.push((u, v));
                }
            }
        }
        i = i + 1;
    }
    assert(all.take(i as int) =~= all);
    edges
}

/// Fields give edges one by one and in their order. A field that is two numbers with a
/// hyphen between them is the edge between these, and any other gives none.
pub proof fn law_fields_give_edges(a: Seq<Seq<char>>, b: Seq<Seq<char>>, u: usize, v: usize)
    ensures
        fields_edges(a + b) == fields_edges(a) + fields_edges(b),
        fields_edges(seq![decimal(u as nat).push('-') + decimal(v as nat)]) == seq![(u, v)],
    decreases b.len(),
{
    lemma_edge_is_read(u, v);
    let field = decimal(u as nat).push('-') + decimal(v as nat);
    assert(seq![field].drop_last() =~= Seq::<Seq<char>>::empty());
    assert(fields_edges(Seq::empty()) == Seq::<(usize, usize)>::empty());
    assert(fields_edges(seq![field]) =~= seq![(u, v)]);
    if b.len() > 0 {
        law_fields_give_edges(a, b.drop_last(), u, v);
        assert((a + b).drop_last() =~= a + b.drop_last());
        assert((a + b).last() == b.last());
        assert(fields_edges(a + b) =~= fields_edges(a) + fields_edges(b));
    } else {
        assert(a + b =~= a);
        assert(fields_edges(a) + fields_edges(b) =~= fields_edges(a));
    }
}

proof fn lemma_edge_is_read(u: usize, v: usize)
    ensures
        field_edge(decimal(u as nat).push('-') + decimal(v as nat)) == Some((u, v)),
{
    let (x, y) = (decimal(u as nat), decimal(v as nat));
    law_decimal_stands_for_its_number(u as nat);
    law_decimal_stands_for_its_number(v as nat);
    law_numbers_are_read_back(0, u as nat, usize::MAX as nat, x);
    law_numbers_are_read_back(0, v as nat, usize::MAX as nat, y);
    let none = Seq::<char>::empty();
    assert(split_at_char(none, '-') =~= seq![none]);
    lemma_split_extends(none, x, '-');
    assert(none + x =~= x);
    assert(split_at_char(x, '-') =~= seq![x]);
    let lead = x.push('-');
    assert(lead.drop_last() =~= x);
    assert(split_at_char(lead, '-') =~= seq![x, none]);
    lemma_split_extends(lead, y, '-');
    assert(none + y =~= y);
    assert(split_at_char(lead + y, '-') =~= seq![x, y]);
}

/// A field with another number of hyphens than one is no edge, and neither is one whose
/// parts are no numbers.
pub proof fn law_fields_that_are_no_edge(field: Seq<char>)
    ensures
        split_at_char(field, '-').len() != 2 ==> field_edge(field) is None,
        split_at_char(field, '-').len() == 2 && (parsed_number(
            split_at_char(field, '-')[0],
            usize::MAX as nat,
        ) is None || parsed_number(split_at_char(field, '-')[1], usize::MAX as nat) is None)
            ==> field_edge(field) is None,
        field_edge(field) is None ==> fields_edges(seq![field]).len() == 0,
        pattern_text_edges(field) == fields_edges(split_at_char(field, ',')),
{
    assert(seq![field].drop_last() =~= Seq::<Seq<char>>::empty());
    assert(fields_edges(Seq::empty()) == Seq::<(usize, usize)>::empty());
}

/// The number of pattern nodes that a parameter stands for: zero where it is
/// missing, negative or too large.
pub open spec fn node_count_of(params: Parameters) -> nat {
    if params.numbers().dom().contains("pattern_nodes"@) {
        let n = params.numbers()["pattern_nodes"@];
        if 0 <= n <= usize::MAX {
            n as nat
        } else {
            0
        }
    } else {
        0
    }
}

/// The pattern that parameters describe.
pub open spec fn pattern_of(params: Parameters) -> Links {
    let text = if params.texts().dom().contains("pattern_edges"@) {
        params.texts()["pattern_edges"@]
    } else {
        ""@
    };
    edge_links(pattern_text_edges(text), node_count_of(params))
}

/// The pattern has as many nodes as "pattern_nodes" says and the edges of
/// "pattern_edges"; it has none of what is not given, and no nodes where the number is
/// below zero.
pub proof fn law_parameters_give_the_pattern(params: Parameters)
    ensures
        pattern_of(params).size == node_count_of(params),
        !params.numbers().dom().contains("pattern_nodes"@) ==> node_count_of(params) == 0,
        params.numbers().dom().contains("pattern_nodes"@) && 0
            <= params.numbers()["pattern_nodes"@] <= usize::MAX ==> node_count_of(params)
            == params.numbers()["pattern_nodes"@],
        params.numbers().dom().contains("pattern_nodes"@) && params.numbers()["pattern_nodes"@] < 0
            ==> node_count_of(params) == 0,
        params.texts().dom().contains("pattern_edges"@) ==> pattern_of(params) == edge_links(
            pattern_text_edges(params.texts()["pattern_edges"@]),
            node_count_of(params),
        ),
        !params.texts().dom().contains("pattern_edges"@) ==> pattern_of(params) == edge_links(
            pattern_text_edges(""@),
            node_count_of(params),
        ),
{
}

/// The parameters of the algorithm: the edges of the pattern and its number of
/// nodes, both required.
fn subgraph_iso_params() -> (r: Vec<ParameterDef>)
    ensures
        r@.len() == 2,
        r@[0].name@ == "pattern_edges"@,
        r@[0].param_type == ParameterType::String,
        r@[1].name@ == "pattern_nodes"@,
        r@[1].param_type == ParameterType::Integer,
        forall|i: int| #![trigger r@[i]]
            0 <= i < 2 ==> r@[i].required && r@[i].default is None,
        r@[0].description@ == "Pattern as comma-separated edge pairs: '0-1,1-2,2-0'"@,
        r@[1].description@ == "Number of nodes in the pattern"@,
{
    let mut defs: Vec<ParameterDef> = Vec::new();
    defs.push(
        ParameterDef {
            name: "pattern_edges".to_owned(),
            description: "Pattern as comma-separated edge pairs: '0-1,1-2,2-0'".to_owned(),
            param_type: ParameterType::String,
            required: true,
            default: None,
        },
    );
    defs.push(
        ParameterDef {
            name: "pattern_nodes".to_owned(),
            description: "Number of nodes in the pattern".to_owned(),
            param_type: ParameterType::Integer,
            required: true,
            default: None,
        },
    );
    defs
}

/// Subgraph isomorphism as a named algorithm.
pub struct SubgraphIsomorphismAlgorithm;

impl SubgraphIsomorphismAlgorithm {
    /// The name.
    pub fn name(&self) -> (r: &'static str)
        ensures
            r@ == "subgraph_isomorphism"@,
    {
        "subgraph_isomorphism"
    }

    /// What it does.
    pub fn description(&self) -> (r: &'static str)
        ensures
            r@ == "Count subgraph isomorphisms of a pattern in the graph"@,
    {
        "Count subgraph isomorphisms of a pattern in the graph"
    }

    /// The parameters: the edges of the pattern and its number of nodes, both
    /// required.
    pub fn parameters(&self) -> (r: Vec<ParameterDef>)
        ensures
            r@.len() == 2,
            r@[0].name@ == "pattern_edges"@,
            r@[0].param_type == ParameterType::String,
            r@[1].name@ == "pattern_nodes"@,
            r@[1].param_type == ParameterType::Integer,
            forall|i: int| #![trigger r@[i]]
                0 <= i < 2 ==> r@[i].required && r@[i].default is None,
            r@[0].description@ == "Pattern as comma-separated edge pairs: '0-1,1-2,2-0'"@,
            r@[1].description@ == "Number of nodes in the pattern"@,
    {
        subgraph_iso_params()
    }

    /// Counts the embeddings of the pattern that the parameters describe. The
    /// result is a single row with the count, as the 64 bits of a signed integer.
    pub fn execute<G: GraphStore>(&self, store: &G, params: &Parameters) -> (r: AlgorithmResult)
        requires
            all_embeddings(store_links(store), pattern_of(*params)).len() <= u64::MAX,
        ensures
            r.columns@.len() == 1,
            r.columns@[0]@ == "count"@,
            r.rows@.len() == 1,
            r.rows@[0]@.len() == 1,
            r.rows@[0]@[0]@ == ValueModel::Int64(
                signed(all_embeddings(store_links(store), pattern_of(*params)).len()) as i64,
            ),
    {
        let text: &str = match params.get_string("pattern_edges") {
            Some(t) => t,
            None => "",
        };
        let node_count: usize = match params.get_int("pattern_nodes") {
            Some(n) => {
                if n < 0 {
                    0
                } else if n as u64 <= usize::MAX as u64 {
                    n as usize
                } else {
                    0
                }
            },
            None => 0,
        };
        let edges: Vec<(usize, usize)> = parse_pattern_edges(text);
        let count: u64 = subgraph_isomorphism_count_from_edges(
            store,
            edges.as_slice(),
            node_count,
        );
        proof {
            assert(count >= 0x8000_0000_0000_0000u64 ==> (count as i64) as int == count as int
                - 0x1_0000_0000_0000_0000) by (bit_vector);
            assert(count < 0x8000_0000_0000_0000u64 ==> (count as i64) as int == count as int)
                by (bit_vector);
        }
        let mut columns: Vec<String> = Vec::new();
        columns.push("count".to_owned());
        let mut output = AlgorithmResult::new(columns);
        let mut row: Vec<Value> = Vec::new();
        row.push(Value::Int64(count as i64));
        output.add_row(row);
        output
    }
}

} // verus!
