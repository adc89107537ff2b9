//! How often a subgraph is counted.
//!
//! An embedding picks out a subgraph of the target: the nodes and the links that it
//! maps to. Embeddings that differ by an automorphism of the pattern pick out the same
//! subgraph, and no others do.

use vstd::prelude::*;
use vstd::relations::injective_on;
use vstd::set_lib::{lemma_int_range, lemma_map_size, lemma_subset_equality, set_int_range};

use crate::algorithms::isomorphism::{is_embedding, law_count_is_cardinality, Links};

verus! {

/// `a` maps the positions of a graph to each other, no two to the same, so that
/// positions are adjacent exactly when their images are.
pub open spec fn is_automorphism(graph: Links, a: Seq<int>) -> bool {
    &&& is_embedding(graph, graph, a)
    &&& forall|i: int, j: int| #![trigger a[i], a[j]]
        0 <= i < a.len() && 0 <= j < a.len() && graph.adjacent(a[i], a[j]) ==> graph.adjacent(i, j)
}

/// The automorphisms of a graph.
pub open spec fn automorphisms(graph: Links) -> Set<Seq<int>> {
    Set::new(|a: Seq<int>| is_automorphism(graph, a))
}

/// First `a`, then `f`.
pub open spec fn after(f: Seq<int>, a: Seq<int>) -> Seq<int> {
    Seq::new(a.len(), |i: int| f[a[i]])
}

/// The nodes that `f` maps to.
pub open spec fn image_nodes(f: Seq<int>) -> Set<int> {
    f.to_set()
}

/// Whether `f` maps two adjacent positions to `x` and `y`.
pub open spec fn links_to(pattern: Links, f: Seq<int>, x: int, y: int) -> bool {
    exists|i: int, j: int| #![trigger pattern.adjacent(i, j)]
        pattern.adjacent(i, j) && f[i] == x && f[j] == y
}

/// The links that `f` maps to.
pub open spec fn image_links(pattern: Links, f: Seq<int>) -> Set<(int, int)> {
    Set::new(|e: (int, int)| links_to(pattern, f, e.0, e.1))
}

/// Whether two embeddings pick out the same subgraph.
pub open spec fn same_subgraph(pattern: Links, f: Seq<int>, g: Seq<int>) -> bool {
    image_nodes(f) == image_nodes(g) && image_links(pattern, f) == image_links(pattern, g)
}

/// The embeddings that pick out the subgraph that `f` does.
pub open spec fn embeddings_onto(target: Links, pattern: Links, f: Seq<int>) -> Set<Seq<int>> {
    Set::new(|g: Seq<int>| is_embedding(target, pattern, g) && same_subgraph(pattern, f, g))
}

/// An automorphism reaches every position.
proof fn lemma_reaches_all(graph: Links, a: Seq<int>, k: int)
    requires
        is_automorphism(graph, a),
        0 <= k < graph.size,
    ensures
        exists|i: int| 0 <= i < a.len() && #[trigger] a[i] == k,
{
    assert(a.no_duplicates());
    a.unique_seq_to_set();
    lemma_int_range(0, graph.size as int);
    let all = set_int_range(0, graph.size as int);
    assert(a.to_set().subset_of(all));
    vstd::seq_lib::seq_to_set_is_finite(a);
    lemma_subset_equality(a.to_set(), all);
    assert(a.to_set().contains(k));
}

/// An embedding after an automorphism is an embedding that picks out the same subgraph.
pub proof fn law_automorphism_keeps_subgraph(
    target: Links,
    pattern: Links,
    f: Seq<int>,
    a: Seq<int>,
)
    requires
        pattern.is_undirected(),
        is_embedding(target, pattern, f),
        is_automorphism(pattern, a),
    ensures
        is_embedding(target, pattern, after(f, a)),
        same_subgraph(pattern, f, after(f, a)),
{
    let g = after(f, a);
    assert forall|i: int, j: int| 0 <= i < j < g.len() implies g[i] != g[j] by {
        assert(a[i] != a[j]);
        if a[i] < a[j] {
            assert(f[a[i]] != f[a[j]]);
        } else {
            assert(f[a[j]] != f[a[i]]);
        }
    }
    assert forall|i: int, j: int| #![trigger g[i], g[j]]
        0 <= i < g.len() && 0 <= j < g.len() && pattern.adjacent(i, j) implies target.adjacent(
        g[i],
        g[j],
    ) by {
        assert(pattern.adjacent(a[i], a[j]));
        assert(target.adjacent(f[a[i]], f[a[j]]));
    }
    assert forall|x: int| image_nodes(f).contains(x) <==> image_nodes(g).contains(x) by {
        if image_nodes(f).contains(x) {
            let k = choose|k: int| 0 <= k < f.len() && f[k] == x;
            lemma_reaches_all(pattern, a, k);
            let i = choose|i: int| 0 <= i < a.len() && #[trigger] a[i] == k;
            assert(g[i] == x);
        }
        if image_nodes(g).contains(x) {
            let i = choose|i: int| 0 <= i < g.len() && g[i] == x;
            assert(f[a[i]] == x);
        }
    }
    assert(image_nodes(f) =~= image_nodes(g));
    assert forall|x: int, y: int|
        #![trigger links_to(pattern, f, x, y)]
        #![trigger links_to(pattern, g, x, y)]
        links_to(pattern, f, x, y) <==> links_to(pattern, g, x, y) by {
        if links_to(pattern, f, x, y) {
            let (k, l) = choose|k: int, l: int| #![trigger pattern.adjacent(k, l)]
                pattern.adjacent(k, l) && f[k] == x && f[l] == y;
            lemma_reaches_all(pattern, a, k);
            lemma_reaches_all(pattern, a, l);
            let i = choose|i: int| 0 <= i < a.len() && #[trigger] a[i] == k;
            let j = choose|j: int| 0 <= j < a.len() && #[trigger] a[j] == l;
            assert(pattern.adjacent(a[i], a[j]));
            assert(pattern.adjacent(i, j));
            assert(g[i] == x && g[j] == y);
        }
        if links_to(pattern, g, x, y) {
            let (i, j) = choose|i: int, j: int| #![trigger pattern.adjacent(i, j)]
                pattern.adjacent(i, j) && g[i] == x && g[j] == y;
            assert(g[i] == f[a[i]] && g[j] == f[a[j]]);
            assert(pattern.adjacent(a[i], a[j]));
        }
    }
    assert forall|e: (int, int)|
        image_links(pattern, f).contains(e) <==> image_links(pattern, g).contains(e) by {
        assert(links_to(pattern, f, e.0, e.1) <==> links_to(pattern, g, e.0, e.1));
    }
    assert(image_links(pattern, f) =~= image_links(pattern, g));
}

/// Where an embedding maps to `x`.
spec fn position_of(f: Seq<int>, x: int) -> int {
    choose|k: int| 0 <= k < f.len() && f[k] == x
}

/// Two embeddings that pick out the same subgraph differ by an automorphism.
pub proof fn law_same_subgraph_by_automorphism(
    target: Links,
    pattern: Links,
    f: Seq<int>,
    g: Seq<int>,
)
    requires
        pattern.is_undirected(),
        is_embedding(target, pattern, f),
        is_embedding(target, pattern, g),
        same_subgraph(pattern, f, g),
    ensures
        exists|a: Seq<int>| is_automorphism(pattern, a) && g == #[trigger] after(f, a),
{
    let a = Seq::new(g.len(), |i: int| position_of(f, g[i]));
    assert forall|i: int| 0 <= i < g.len() implies 0 <= #[trigger] a[i] < f.len() && f[a[i]]
        == g[i] by {
        assert(image_nodes(g).contains(g[i]));
        assert(image_nodes(f).contains(g[i]));
    }
    assert(g =~= after(f, a));
    assert forall|i: int, j: int| 0 <= i < j < a.len() implies a[i] != a[j] by {
        assert(g[i] != g[j]);
    }
    assert forall|i: int, j: int| #![trigger a[i], a[j]]
        0 <= i < a.len() && 0 <= j < a.len() && pattern.adjacent(i, j) implies pattern.adjacent(
        a[i],
        a[j],
    ) by {
        assert(links_to(pattern, g, g[i], g[j]));
        assert(image_links(pattern, g).contains((g[i], g[j])));
        assert(links_to(pattern, f, g[i], g[j]));
        let (k, l) = choose|k: int, l: int| #![trigger pattern.adjacent(k, l)]
            pattern.adjacent(k, l) && f[k] == g[i] && f[l] == g[j];
        lemma_injective(target, pattern, f, k, a[i]);
        lemma_injective(target, pattern, f, l, a[j]);
    }
    assert forall|i: int, j: int| #![trigger a[i], a[j]]
        0 <= i < a.len() && 0 <= j < a.len() && pattern.adjacent(a[i], a[j]) implies pattern.adjacent(
        i,
        j,
    ) by {
        assert(links_to(pattern, f, f[a[i]], f[a[j]]));
        assert(image_links(pattern, f).contains((g[i], g[j])));
        assert(links_to(pattern, g, g[i], g[j]));
        let (k, l) = choose|k: int, l: int| #![trigger pattern.adjacent(k, l)]
            pattern.adjacent(k, l) && g[k] == g[i] && g[l] == g[j];
        lemma_injective(target, pattern, g, k, i);
        lemma_injective(target, pattern, g, l, j);
    }
    assert(is_automorphism(pattern, a));
}

/// An embedding maps no two positions to the same.
proof fn lemma_injective(target: Links, pattern: Links, f: Seq<int>, i: int, j: int)
    requires
        is_embedding(target, pattern, f),
        0 <= i < f.len(),
        0 <= j < f.len(),
        f[i] == f[j],
    ensures
        i == j,
{
    if i < j {
        assert(f[i] != f[j]);
    } else if j < i {
        assert(f[j] != f[i]);
    }
}

/// Each subgraph is counted once per automorphism of the pattern: as many embeddings
/// pick out the subgraph of a given one as the pattern has automorphisms.
pub proof fn law_counted_once_per_automorphism(target: Links, pattern: Links, f: Seq<int>)
    requires
        pattern.is_undirected(),
        is_embedding(target, pattern, f),
    ensures
        automorphisms(pattern).finite(),
        embeddings_onto(target, pattern, f).finite(),
        embeddings_onto(target, pattern, f).len() == automorphisms(pattern).len(),
{
    let autos = automorphisms(pattern);
    let onto = embeddings_onto(target, pattern, f);
    let compose = |a: Seq<int>| after(f, a);
    law_count_is_cardinality(pattern, pattern);
    assert(autos.subset_of(Set::new(|g: Seq<int>| is_embedding(pattern, pattern, g))));
    vstd::set_lib::lemma_set_subset_finite(
        Set::new(|g: Seq<int>| is_embedding(pattern, pattern, g)),
        autos,
    );
    assert forall|a: Seq<int>, b: Seq<int>|
        autos.contains(a) && autos.contains(b) && #[trigger] compose(a) == #[trigger] compose(
            b,
        ) implies a == b by {
        assert forall|i: int| 0 <= i < a.len() implies a[i] == b[i] by {
            assert(after(f, a)[i] == after(f, b)[i]);
            lemma_injective(target, pattern, f, a[i], b[i]);
        }
        assert(a =~= b);
    }
    assert(injective_on(compose, autos));
    assert forall|g: Seq<int>| autos.map(compose).contains(g) <==> onto.contains(g) by {
        if autos.map(compose).contains(g) {
            let a = choose|a: Seq<int>| autos.contains(a) && g == compose(a);
            law_automorphism_keeps_subgraph(target, pattern, f, a);
        }
        if onto.contains(g) {
            law_same_subgraph_by_automorphism(target, pattern, f, g);
            let a = choose|a: Seq<int>| is_automorphism(pattern, a) && g == #[trigger] after(f, a);
            assert(autos.contains(a) && compose(a) == g);
        }
    }
    assert(autos.map(compose) =~= onto);
    lemma_map_size(autos, onto, compose);
}

} // verus!
