use grafeo::execution::chunk::{DataChunk, ValueVector};
use grafeo::execution::sort::{
    SortKey, SortPushOperator, SpillManager, SpillableSortPushOperator,
};
use grafeo::types::value::Value;


fn create_test_chunk(values: &[i64]) -> DataChunk {
    let v: Vec<Value> = values.iter().map(|&i| Value::Int64(i)).collect();
    let vector = ValueVector::from_values(&v);
    DataChunk::new(vec![vector])
}

#[test]
fn test_sort_ascending() {
    let mut sort = SortPushOperator::ascending(0);

    assert!(sort.push(&create_test_chunk(&[3, 1, 4, 1, 5, 9, 2, 6])));
    let sorted = sort.finalize();

    let chunks: Vec<DataChunk> = sorted.into_iter().collect();
    assert_eq!(chunks.len(), 1);

    let col = chunks[0].column(0).unwrap();
    assert_eq!(col.get_value(0), Some(Value::Int64(1)));
    assert_eq!(col.get_value(1), Some(Value::Int64(1)));
    assert_eq!(col.get_value(2), Some(Value::Int64(2)));
    assert_eq!(col.get_value(3), Some(Value::Int64(3)));
}

#[test]
fn test_sort_descending() {
    let mut sort = SortPushOperator::descending(0);

    assert!(sort.push(&create_test_chunk(&[3, 1, 4, 1, 5])));
    let sorted = sort.finalize();

    let chunks: Vec<DataChunk> = sorted.into_iter().collect();
    let col = chunks[0].column(0).unwrap();
    assert_eq!(col.get_value(0), Some(Value::Int64(5)));
    assert_eq!(col.get_value(1), Some(Value::Int64(4)));
    assert_eq!(col.get_value(2), Some(Value::Int64(3)));
}

#[test]
fn test_sort_multiple_chunks() {
    let mut sort = SortPushOperator::ascending(0);

    assert!(sort.push(&create_test_chunk(&[5, 3, 1])));
    assert!(sort.push(&create_test_chunk(&[4, 2, 6])));
    let sorted = sort.finalize();

    let chunks: Vec<DataChunk> = sorted.into_iter().collect();
    assert_eq!(chunks[0].len(), 6);

    let col = chunks[0].column(0).unwrap();
    assert_eq!(col.get_value(0), Some(Value::Int64(1)));
    assert_eq!(col.get_value(5), Some(Value::Int64(6)));
}

#[test]
fn test_spillable_sort_no_spill() {
    // When threshold is not reached, should work like normal sort
    let mut sort =
        SpillableSortPushOperator::new(vec![SortKey::ascending(0)]).with_threshold(100);
    let mut runs = Vec::new();

    runs.extend(sort.push(&create_test_chunk(&[3, 1, 4, 1, 5, 9, 2, 6]), 8, false));
    let runs = runs.into_iter().map(|run| run.rows).collect();
    let finished = sort.finalize(runs);

    let chunks: Vec<DataChunk> = finished.chunk.into_iter().collect();
    assert_eq!(chunks.len(), 1);

    let col = chunks[0].column(0).unwrap();
    assert_eq!(col.get_value(0), Some(Value::Int64(1)));
    assert_eq!(col.get_value(1), Some(Value::Int64(1)));
    assert_eq!(col.get_value(2), Some(Value::Int64(2)));
    assert_eq!(col.get_value(3), Some(Value::Int64(3)));
}

#[test]
fn test_spillable_sort_with_spilling() {
    let manager = SpillManager { directory: "spill".to_string() };

    // Set very low threshold to force spilling
    let mut sort = SpillableSortPushOperator::ascending_with_spilling(0, manager, 5);
    let mut runs = Vec::new();

    // Push more than threshold
    runs.extend(sort.push(&create_test_chunk(&[10, 8, 6, 4, 2]), 8, false));
    runs.extend(sort.push(&create_test_chunk(&[9, 7, 5, 3, 1]), 8, false));
    let runs = runs.into_iter().map(|run| run.rows).collect();
    let finished = sort.finalize(runs);

    let chunks: Vec<DataChunk> = finished.chunk.into_iter().collect();
    assert_eq!(chunks.len(), 1);
    assert_eq!(chunks[0].len(), 10);

    // Verify sorted order
    let col = chunks[0].column(0).unwrap();
    for i in 0..10 {
        assert_eq!(col.get_value(i), Some(Value::Int64((i + 1) as i64)));
    }
}

#[test]
fn test_spillable_sort_many_runs() {
    let manager = SpillManager { directory: "spill".to_string() };

    // Set very low threshold to force multiple spills
    let mut sort = SpillableSortPushOperator::ascending_with_spilling(0, manager, 3);
    let mut runs = Vec::new();

    // Push data in multiple chunks
    for i in 0..5 {
        runs.extend(sort.push(&create_test_chunk(&[i * 3 + 3, i * 3 + 2, i * 3 + 1]), 8, false));
    }
    let runs = runs.into_iter().map(|run| run.rows).collect();
    let finished = sort.finalize(runs);

    let chunks: Vec<DataChunk> = finished.chunk.into_iter().collect();
    assert_eq!(chunks.len(), 1);
    assert_eq!(chunks[0].len(), 15);

    // Verify sorted order
    let col = chunks[0].column(0).unwrap();
    for i in 0..15 {
        assert_eq!(col.get_value(i), Some(Value::Int64((i + 1) as i64)));
    }
}

#[test]
fn test_spillable_sort_descending_with_spilling() {
    let manager = SpillManager { directory: "spill".to_string() };

    let mut sort = SpillableSortPushOperator::descending_with_spilling(0, manager, 3);
    let mut runs = Vec::new();

    runs.extend(sort.push(&create_test_chunk(&[1, 3, 5]), 8, false));
    runs.extend(sort.push(&create_test_chunk(&[2, 4, 6]), 8, false));
    let runs = runs.into_iter().map(|run| run.rows).collect();
    let finished = sort.finalize(runs);

    let chunks: Vec<DataChunk> = finished.chunk.into_iter().collect();
    let col = chunks[0].column(0).unwrap();

    // Should be descending: 6, 5, 4, 3, 2, 1
    for i in 0..6 {
        assert_eq!(col.get_value(i), Some(Value::Int64((6 - i) as i64)));
    }
}
