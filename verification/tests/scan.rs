use std::sync::Arc;

use grafeo::execution::scan::ScanOperator;
use grafeo::graph::store::{EpochId, LpgStore, NodeId, TransactionId};

#[test]
fn test_scan_by_label() {
    let mut store = LpgStore::new();

    store.create_node(&["Person"]);
    store.create_node(&["Person"]);
    store.create_node(&["Animal"]);

    let store = Arc::new(store);
    let mut scan =
        ScanOperator::with_label(store.clone(), "Person");

    let chunk = scan.next().unwrap();
    assert_eq!(chunk.row_count(), 2);

    // Should be exhausted
    let next = scan.next();
    assert!(next.is_none());
}

#[test]
fn test_scan_reset() {
    let mut store = LpgStore::new();
    store.create_node(&["Person"]);

    let store = Arc::new(store);
    let mut scan =
        ScanOperator::with_label(store.clone(), "Person");

    // First scan
    let chunk1 = scan.next().unwrap();
    assert_eq!(chunk1.row_count(), 1);

    // Reset
    scan.reset();

    // Second scan should work
    let chunk2 = scan.next().unwrap();
    assert_eq!(chunk2.row_count(), 1);
}

#[test]
fn test_full_scan() {
    let mut store = LpgStore::new();

    // Create nodes with different labels
    store.create_node(&["Person"]);
    store.create_node(&["Person"]);
    store.create_node(&["Animal"]);
    store.create_node(&["Place"]);

    // Full scan (no label filter) should return all nodes
    let store = Arc::new(store);
    let mut scan = ScanOperator::new(store.clone());

    let chunk = scan.next().unwrap();
    assert_eq!(chunk.row_count(), 4, "Full scan should return all 4 nodes");

    // Should be exhausted
    let next = scan.next();
    assert!(next.is_none());
}

#[test]
fn test_scan_with_mvcc_context() {
    let mut store = LpgStore::new();

    // Create nodes at epoch 1 (using SYSTEM tx so they get real epochs,
    // not PENDING; this test is about epoch-based time-travel scanning).
    let epoch1 = EpochId::new(1);
    store.create_node_versioned(&["Person"], epoch1, TransactionId::system());
    store.create_node_versioned(&["Person"], epoch1, TransactionId::system());

    // Create a node at epoch 5
    let epoch5 = EpochId::new(5);
    store.create_node_versioned(&["Person"], epoch5, TransactionId::system());

    // Scan at epoch 3 should see only the first 2 nodes (created at epoch 1)
    let store = Arc::new(store);
    let mut scan =
        ScanOperator::with_label(store.clone(), "Person")
            .with_transaction_context(EpochId::new(3), None);

    let chunk = scan.next().unwrap();
    assert_eq!(chunk.row_count(), 2, "Should see 2 nodes at epoch 3");

    // Scan at epoch 5 should see all 3 nodes
    let mut scan_all =
        ScanOperator::with_label(store.clone(), "Person")
            .with_transaction_context(EpochId::new(5), None);

    let chunk_all = scan_all.next().unwrap();
    assert_eq!(chunk_all.row_count(), 3, "Should see 3 nodes at epoch 5");
}

#[test]
fn test_scan_into_any() {
    let store = LpgStore::new();
    let store = Arc::new(store);
    let op = ScanOperator::with_label(store.clone(), "Person");
    let any: Box<dyn std::any::Any + Send> = Box::new(op);
    assert!(any.downcast::<ScanOperator<LpgStore>>().is_ok());
}

#[test]
fn test_pinned_scan_single_id_no_label() {
    let mut store = LpgStore::new();
    let _ = store.create_node(&["Person"]);
    let target = store.create_node(&["Person"]);
    let _ = store.create_node(&["Animal"]);

    let store = Arc::new(store);
    let mut scan = ScanOperator::with_node_ids(
        store.clone(),
        vec![target],
        None,
    );

    let chunk = scan.next().unwrap();
    assert_eq!(chunk.row_count(), 1);
    assert_eq!(chunk.get_node_id(0), Some(target));
    assert!(scan.next().is_none());
}

#[test]
fn test_pinned_scan_label_filter_drops_mismatch() {
    let mut store = LpgStore::new();
    let person = store.create_node(&["Person"]);
    let animal = store.create_node(&["Animal"]);

    let store = Arc::new(store);
    let mut scan = ScanOperator::with_node_ids(
        store.clone(),
        vec![person, animal],
        Some("Person".to_string()),
    );

    let chunk = scan.next().unwrap();
    assert_eq!(chunk.row_count(), 1, "Animal id should be filtered out");
    assert_eq!(chunk.get_node_id(0), Some(person));
}

#[test]
fn test_pinned_scan_missing_id_is_skipped() {
    let mut store = LpgStore::new();
    let real = store.create_node(&["Person"]);

    let store = Arc::new(store);
    let mut scan = ScanOperator::with_node_ids(
        store.clone(),
        vec![real, NodeId(9999), NodeId(10_000)],
        None,
    );

    let chunk = scan.next().unwrap();
    assert_eq!(chunk.row_count(), 1);
    assert_eq!(chunk.get_node_id(0), Some(real));
}

#[test]
fn test_pinned_scan_multiple_ids_preserves_order() {
    let mut store = LpgStore::new();
    let a = store.create_node(&["Person"]);
    let b = store.create_node(&["Person"]);
    let c = store.create_node(&["Person"]);

    let store = Arc::new(store);
    let mut scan = ScanOperator::with_node_ids(
        store.clone(),
        vec![c, a, b],
        Some("Person".to_string()),
    );

    let chunk = scan.next().unwrap();
    assert_eq!(chunk.row_count(), 3);
    assert_eq!(chunk.get_node_id(0), Some(c));
    assert_eq!(chunk.get_node_id(1), Some(a));
    assert_eq!(chunk.get_node_id(2), Some(b));
}

#[test]
fn test_pinned_scan_empty_after_label_filter() {
    let mut store = LpgStore::new();
    let animal = store.create_node(&["Animal"]);

    let store = Arc::new(store);
    let mut scan = ScanOperator::with_node_ids(
        store.clone(),
        vec![animal],
        Some("Person".to_string()),
    );

    assert!(scan.next().is_none());
}
