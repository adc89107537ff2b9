use grafeo::algorithms::isomorphism::{
    subgraph_isomorphism, subgraph_isomorphism_count, subgraph_isomorphism_count_from_edges,
    SubgraphIsomorphismAlgorithm,
};
use grafeo::algorithms::params::Parameters;
use grafeo::graph::store::{LpgStore, NodeId};
use grafeo::types::value::Value;

fn create_triangle() -> LpgStore {
    let mut store = LpgStore::new();
    let n0 = store.create_node(&["Node"]);
    let n1 = store.create_node(&["Node"]);
    let n2 = store.create_node(&["Node"]);

    store.create_edge(n0, n1, "E");
    store.create_edge(n1, n0, "E");
    store.create_edge(n1, n2, "E");
    store.create_edge(n2, n1, "E");
    store.create_edge(n2, n0, "E");
    store.create_edge(n0, n2, "E");

    store
}

fn create_k4() -> LpgStore {
    let mut store = LpgStore::new();
    let nodes: Vec<NodeId> = (0..4).map(|_| store.create_node(&["Node"])).collect();
    for i in 0..4 {
        for j in (i + 1)..4 {
            store.create_edge(nodes[i], nodes[j], "E");
            store.create_edge(nodes[j], nodes[i], "E");
        }
    }
    store
}

#[test]
fn test_triangle_in_triangle() {
    let target = create_triangle();
    let pattern = create_triangle();

    // A triangle has 6 automorphisms (3! = 6), so counting all
    // isomorphisms of a triangle in a triangle gives 6.
    let count = subgraph_isomorphism_count(&target, &pattern);
    assert_eq!(count, 6, "Triangle in triangle should have 6 mappings (3!)");
}

#[test]
fn test_triangle_in_k4() {
    let target = create_k4();
    let pattern = create_triangle();

    // K_4 has C(4,3) = 4 triangles. Each has 3! = 6 automorphisms.
    // Total mappings = 4 * 6 = 24.
    let count = subgraph_isomorphism_count(&target, &pattern);
    assert_eq!(count, 24, "K_4 should have 24 triangle mappings (4 * 3!)");
}

#[test]
fn test_edge_in_k4() {
    // Pattern: single edge (2 nodes)
    let mut pattern = LpgStore::new();
    let p0 = pattern.create_node(&["Node"]);
    let p1 = pattern.create_node(&["Node"]);
    pattern.create_edge(p0, p1, "E");
    pattern.create_edge(p1, p0, "E");

    let target = create_k4();

    // K_4 has 6 edges. Each edge has 2! = 2 automorphisms.
    // Total = 6 * 2 = 12.
    let count = subgraph_isomorphism_count(&target, &pattern);
    assert_eq!(count, 12, "K_4 should have 12 edge mappings (6 * 2!)");
}

#[test]
fn test_from_edges_triangle_in_k4() {
    let target = create_k4();

    // Triangle pattern as edge list.
    let pattern_edges = [(0, 1), (1, 2), (2, 0)];
    let count = subgraph_isomorphism_count_from_edges(&target, &pattern_edges, 3);

    assert_eq!(count, 24, "Edge-list triangle in K_4 should give 24");
}

#[test]
fn test_k4_in_k4() {
    let target = create_k4();
    let pattern = create_k4();

    // K_4 in K_4: 4! = 24 automorphisms.
    let count = subgraph_isomorphism_count(&target, &pattern);
    assert_eq!(count, 24, "K_4 in K_4 should have 24 mappings (4!)");
}

#[test]
fn test_enumerate_triangle_in_triangle() {
    let target = create_triangle();
    let pattern = create_triangle();

    let mappings = subgraph_isomorphism(&target, &pattern, None);
    assert_eq!(mappings.len(), 6);

    // Each mapping should have 3 entries.
    for m in &mappings {
        assert_eq!(m.len(), 3);
    }
}

#[test]
fn test_enumerate_with_limit() {
    let target = create_k4();
    let pattern = create_triangle();

    let mappings = subgraph_isomorphism(&target, &pattern, Some(3));
    assert_eq!(mappings.len(), 3);
}

#[test]
fn test_no_match() {
    // Target is a path (no triangles), pattern is a triangle.
    let mut target = LpgStore::new();
    let n0 = target.create_node(&["Node"]);
    let n1 = target.create_node(&["Node"]);
    let n2 = target.create_node(&["Node"]);
    target.create_edge(n0, n1, "E");
    target.create_edge(n1, n0, "E");
    target.create_edge(n1, n2, "E");
    target.create_edge(n2, n1, "E");
    // No edge between n0 and n2: not a triangle.

    let pattern = create_triangle();
    let count = subgraph_isomorphism_count(&target, &pattern);
    assert_eq!(count, 0, "Path graph should have 0 triangle isomorphisms");
}

#[test]
fn test_empty_pattern() {
    let target = create_k4();
    let pattern = LpgStore::new();

    let count = subgraph_isomorphism_count(&target, &pattern);
    assert_eq!(count, 1, "Empty pattern should have 1 mapping (empty)");
}

#[test]
fn test_empty_target() {
    let target = LpgStore::new();
    let pattern = create_triangle();

    let count = subgraph_isomorphism_count(&target, &pattern);
    assert_eq!(count, 0, "Empty target should have 0 mappings");
}

#[test]
fn test_algorithm_wrapper() {

    let store = create_k4();
    let algo = SubgraphIsomorphismAlgorithm;

    let mut params = Parameters::new();
    params.set_string("pattern_edges", "0-1,1-2,2-0");
    params.set_int("pattern_nodes", 3);

    let result = algo.execute(&store, &params);
    assert_eq!(result.row_count(), 1);
    assert_eq!(result.rows[0][0], Value::Int64(24));
}
