use std::collections::HashMap;

use grafeo::algorithms::isomorphism::{
    parse_pattern_edges, subgraph_isomorphism, subgraph_isomorphism_count,
    subgraph_isomorphism_count_from_edges, SubgraphIsomorphismAlgorithm,
};
use grafeo::execution::chunk::{DataChunk, ValueVector};
use grafeo::execution::sort::{
    estimate_rows_memory, sort_rows, OperatorMemoryContext, SortKey, SpillManager,
    SpillableSortPushOperator, SORT_MIN_BUFFER_ROWS,
};
use grafeo::graph::compact::column::ColumnCodec;
use grafeo::graph::compact::zone_map::{compute_block_zone_maps, CompareOp};
use grafeo::graph::store::{LpgStore, NodeId};
use grafeo::storage::page_fetcher::{AccessHint, FetchError, InMemoryPages, PageFetcher};
use grafeo::testing::statement_failure::{
    disable_injection, enable_commit_failure_once, enable_statement_failure_after,
    maybe_fail_commit, maybe_fail_statement, FailureState,
};
use grafeo::types::float::FloatBits;
use grafeo::types::value::Value;

fn graph(size: usize, edges: &[(usize, usize)]) -> LpgStore {
    let mut store = LpgStore::new();
    let nodes: Vec<NodeId> = (0..size).map(|_| store.create_node(&["N"])).collect();
    for &(a, b) in edges {
        store.create_edge(nodes[a], nodes[b], "E");
    }
    store
}

#[test]
fn each_subgraph_is_counted_once_per_automorphism() {
    let target = graph(5, &[(0, 1), (1, 2), (2, 0), (2, 3), (3, 4), (4, 2), (0, 3)]);
    let patterns: [(usize, &[(usize, usize)], usize); 4] = [
        (3, &[(0, 1), (1, 2), (2, 0)], 6),
        (3, &[(0, 1), (1, 2)], 2),
        (2, &[(0, 1)], 2),
        (4, &[(0, 1), (0, 2), (0, 3)], 6),
    ];
    for (size, edges, automorphisms) in patterns {
        let pattern = graph(size, edges);
        let found = subgraph_isomorphism(&target, &pattern, None);
        assert_eq!(found.len() as u64, subgraph_isomorphism_count(&target, &pattern));
        assert_eq!(
            found.len() as u64,
            subgraph_isomorphism_count_from_edges(&target, edges, size)
        );
        assert!(found.len() <= 5usize.pow(size as u32));
        let mut subgraphs: HashMap<Vec<(u64, u64)>, usize> = HashMap::new();
        for mapping in &found {
            let to: HashMap<u64, u64> = mapping.iter().map(|(p, t)| (p.0, t.0)).collect();
            let ids = {
                let mut ids: Vec<u64> = to.keys().copied().collect();
                ids.sort_unstable();
                ids
            };
            let mut image: Vec<(u64, u64)> = edges
                .iter()
                .flat_map(|&(a, b)| {
                    let (x, y) = (to[&ids[a]], to[&ids[b]]);
                    [(x, y), (y, x)]
                })
                .collect();
            image.sort_unstable();
            *subgraphs.entry(image).or_default() += 1;
        }
        assert!(subgraphs.values().all(|&n| n == automorphisms));
    }
}

#[test]
fn loops_are_preserved() {
    let with_loop = graph(2, &[(0, 1), (0, 0)]);
    let looped = graph(1, &[(0, 0)]);
    assert_eq!(subgraph_isomorphism_count(&with_loop, &looped), 1);
    assert_eq!(subgraph_isomorphism_count(&graph(2, &[(0, 1)]), &looped), 0);
}

#[test]
fn pattern_texts() {
    assert_eq!(parse_pattern_edges("0-1,1-2,x-3,4,5-6-7,,+8-9"), vec![(0, 1), (1, 2), (8, 9)]);
    assert!(parse_pattern_edges("").is_empty());
    let parameters = SubgraphIsomorphismAlgorithm.parameters();
    assert_eq!(parameters[1].description, "Number of nodes in the pattern");
}

fn chunk(rows: &[(i64, i64)]) -> DataChunk {
    let first: Vec<Value> = rows.iter().map(|r| Value::Int64(r.0)).collect();
    let second: Vec<Value> = rows.iter().map(|r| Value::Int64(r.1)).collect();
    DataChunk::new(vec![ValueVector::from_values(&first), ValueVector::from_values(&second)])
}

#[test]
fn spilling_gives_the_same_rows() {
    let rows: Vec<(i64, i64)> = (0..50).map(|i| (i * 7 % 5, i)).collect();
    let keys = || vec![SortKey::descending(0)];
    let plain: Vec<Vec<Value>> =
        rows.iter().map(|r| vec![Value::Int64(r.0), Value::Int64(r.1)]).collect();
    let want = sort_rows(&plain, &keys());
    for threshold in [1, 3, 7, 100] {
        let manager = SpillManager { directory: "spill".to_string() };
        let mut sort = SpillableSortPushOperator::with_spilling(keys(), manager, threshold);
        let mut runs = Vec::new();
        for part in rows.chunks(4) {
            if let Some(run) = sort.push(&chunk(part), 64, false) {
                assert_eq!(run.num_columns, 2);
                runs.push(run.rows);
            }
        }
        let finished = sort.finalize(runs);
        assert!(finished.unregister.is_none());
        let out = finished.chunk.unwrap();
        let got: Vec<Vec<Value>> = (0..out.len()).map(|i| out.row(i)).collect();
        assert!(got == want);
    }
}

#[test]
fn memory_pressure_spares_small_buffers() {
    let context = OperatorMemoryContext {
        spill_manager: SpillManager { directory: "spill".to_string() },
    };
    let mut sort =
        SpillableSortPushOperator::with_memory_context(vec![SortKey::ascending(0)], context);
    assert!(sort.push(&chunk(&[(1, 1)]), 10, true).is_none());
    assert_eq!(sort.spill_state_mut().unwrap().usage(), 10);
    let many: Vec<(i64, i64)> = (0..SORT_MIN_BUFFER_ROWS as i64).map(|i| (i, i)).collect();
    sort.spill_state_mut().unwrap().request_eviction(5);
    let run = sort.push(&chunk(&many), 20, false).unwrap();
    assert_eq!(run.rows.len(), SORT_MIN_BUFFER_ROWS + 1);
    assert_eq!(sort.spill_state_mut().unwrap().usage(), 0);
    assert_eq!(sort.spill_state_mut().unwrap().take_eviction_request(), None);
    let finished = sort.finalize(vec![run.rows]);
    assert_eq!(finished.unregister.as_deref(), Some("SpillableSortPush"));
    assert_eq!(sort.spill_state_mut().unwrap().name(), "SpillableSortPush");
}

#[test]
fn memory_of_rows_is_estimated() {
    let rows = vec![vec![10, 20], vec![5, 0], vec![1, 1]];
    assert_eq!(estimate_rows_memory(&rows, 2, 24), Some(37 + 3 * 48));
    assert_eq!(estimate_rows_memory(&rows, 2, 0), Some(37));
    assert_eq!(estimate_rows_memory(&Vec::new(), 2, 24), Some(0));
    assert_eq!(estimate_rows_memory(&vec![vec![]], 0, usize::MAX), Some(0));
    assert_eq!(estimate_rows_memory(&vec![vec![usize::MAX]], 0, 24), Some(usize::MAX));
    assert_eq!(estimate_rows_memory(&vec![vec![usize::MAX, 1]], 0, 24), None);
    assert_eq!(estimate_rows_memory(&vec![vec![usize::MAX]], 1, 1), None);
    assert_eq!(estimate_rows_memory(&vec![vec![0]], 2, usize::MAX), None);
    assert_eq!(estimate_rows_memory(&vec![vec![usize::MAX], vec![1]], 0, 24), None);
}

#[test]
fn integers_and_doubles_are_skipped_together() {
    let double = |x: f64| Value::Float64(FloatBits { bits: x.to_bits() });
    let rows = vec![
        Some(Value::Int64(3)),
        Some(double(2.5)),
        None,
        Some(double(f64::NAN)),
        Some(Value::Int64(1 << 53)),
    ];
    let zone = compute_block_zone_maps(&ColumnCodec::new(rows, 16)).remove(0);
    assert!(zone.min == Some(double(2.5)));
    assert!(zone.max == Some(Value::Int64(1 << 53)));
    assert_eq!(zone.null_count, 1);
    assert!(!zone.might_match(CompareOp::Lt, &double(2.5)));
    assert!(zone.might_match(CompareOp::Le, &double(2.5)));
    assert!(!zone.might_match(CompareOp::Gt, &double(9_007_199_254_740_992.0)));
    assert!(zone.might_match(CompareOp::Ne, &Value::Int64(3)));
}

#[test]
fn rows_of_one_type_are_skipped_safely() {
    let double = |x: f64| Value::Float64(FloatBits { bits: x.to_bits() });
    let big: i64 = 1 << 53;
    // The rows round to 2^53 and 2^53 + 2 as doubles.
    let rows = vec![Some(Value::Int64(big + 1)), Some(Value::Int64(big + 2)), None];
    let zone = compute_block_zone_maps(&ColumnCodec::new(rows, 16)).remove(0);
    assert!(zone.min == Some(Value::Int64(big + 1)));
    assert!(zone.might_match(CompareOp::Eq, &double(9_007_199_254_740_992.0)));
    assert!(zone.might_match(CompareOp::Le, &double(9_007_199_254_740_992.0)));
    assert!(!zone.might_match(CompareOp::Lt, &double(9_007_199_254_740_992.0)));
    assert!(!zone.might_match(CompareOp::Gt, &double(9_007_199_254_740_994.0)));
    assert!(!zone.might_match(CompareOp::Eq, &double(9_007_199_254_740_996.0)));

    let rows = vec![Some(double(9_007_199_254_740_992.0)), Some(double(9_007_199_254_740_996.0))];
    let zone = compute_block_zone_maps(&ColumnCodec::new(rows, 16)).remove(0);
    // The integer 2^53 + 1 rounds to the lower bound.
    assert!(zone.might_match(CompareOp::Eq, &Value::Int64(big + 1)));
    assert!(zone.might_match(CompareOp::Le, &Value::Int64(big + 1)));
    assert!(!zone.might_match(CompareOp::Lt, &Value::Int64(big + 1)));
    assert!(!zone.might_match(CompareOp::Ge, &Value::Int64(big + 6)));
}

#[test]
fn ranges_of_a_region() {
    let pages = InMemoryPages::new(vec![1, 2, 3]);
    assert_eq!(pages.fetch(1, 2), Ok(&[2u8, 3][..]));
    assert_eq!(pages.fetch(3, 0), Ok(&[][..]));
    assert_eq!(pages.fetch(2, 2), Err(FetchError::UnexpectedEof));
    assert_eq!(pages.fetch(usize::MAX, 1), Err(FetchError::InvalidInput));
    pages.advise(9, 9, AccessHint::Random);
    assert!(!pages.is_empty() && pages.len() == 3);
}

#[test]
fn failures_hit_their_statement() {
    let mut state = FailureState::default();
    for _ in 0..3 {
        assert!(maybe_fail_statement(&mut state).is_ok());
    }
    enable_statement_failure_after(&mut state, 3);
    let outcomes: Vec<bool> = (0..5).map(|_| maybe_fail_statement(&mut state).is_err()).collect();
    assert_eq!(outcomes, vec![false, false, true, false, false]);
    enable_commit_failure_once(&mut state);
    assert_eq!(maybe_fail_commit(&mut state).unwrap_err().message(), "injected test failure");
    assert!(maybe_fail_commit(&mut state).is_ok());
    enable_statement_failure_after(&mut state, 1);
    disable_injection(&mut state);
    assert!(maybe_fail_statement(&mut state).is_ok());
}
