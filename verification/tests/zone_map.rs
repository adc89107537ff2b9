use grafeo::graph::compact::zone_map::{CompareOp, ZoneMap};
use grafeo::types::value::Value;

/// Helper: builds a zone map with Int64 min/max.
fn int_zone(min: i64, max: i64, null_count: usize, row_count: usize) -> ZoneMap {
    ZoneMap {
        min: Some(Value::Int64(min)),
        max: Some(Value::Int64(max)),
        null_count,
        row_count,
    }
}

#[test]
fn test_eq_in_range() {
    let zm = int_zone(10, 50, 0, 100);
    assert!(zm.might_match(CompareOp::Eq, &Value::Int64(25)));
    assert!(zm.might_match(CompareOp::Eq, &Value::Int64(10)));
    assert!(zm.might_match(CompareOp::Eq, &Value::Int64(50)));
}

#[test]
fn test_eq_out_of_range() {
    let zm = int_zone(10, 50, 0, 100);
    assert!(!zm.might_match(CompareOp::Eq, &Value::Int64(5)));
    assert!(!zm.might_match(CompareOp::Eq, &Value::Int64(51)));
}

#[test]
fn test_lt() {
    let zm = int_zone(10, 50, 0, 100);
    // column < 20: min(10) < 20, so possible
    assert!(zm.might_match(CompareOp::Lt, &Value::Int64(20)));
    // column < 10: min(10) < 10 is false, so impossible
    assert!(!zm.might_match(CompareOp::Lt, &Value::Int64(10)));
    // column < 5: min(10) < 5 is false
    assert!(!zm.might_match(CompareOp::Lt, &Value::Int64(5)));
}

#[test]
fn test_le() {
    let zm = int_zone(10, 50, 0, 100);
    // column <= 10: min(10) <= 10, so possible
    assert!(zm.might_match(CompareOp::Le, &Value::Int64(10)));
    // column <= 9: min(10) <= 9 is false
    assert!(!zm.might_match(CompareOp::Le, &Value::Int64(9)));
}

#[test]
fn test_gt() {
    let zm = int_zone(10, 50, 0, 100);
    // column > 40: max(50) > 40, so possible
    assert!(zm.might_match(CompareOp::Gt, &Value::Int64(40)));
    // column > 50: max(50) > 50 is false
    assert!(!zm.might_match(CompareOp::Gt, &Value::Int64(50)));
    // column > 60: max(50) > 60 is false
    assert!(!zm.might_match(CompareOp::Gt, &Value::Int64(60)));
}

#[test]
fn test_ge() {
    let zm = int_zone(10, 50, 0, 100);
    // column >= 50: max(50) >= 50, so possible
    assert!(zm.might_match(CompareOp::Ge, &Value::Int64(50)));
    // column >= 51: max(50) >= 51 is false
    assert!(!zm.might_match(CompareOp::Ge, &Value::Int64(51)));
}

#[test]
fn test_ne() {
    let zm = int_zone(10, 50, 0, 100);
    // Range has spread, so Ne always matches.
    assert!(zm.might_match(CompareOp::Ne, &Value::Int64(10)));
    assert!(zm.might_match(CompareOp::Ne, &Value::Int64(25)));

    // Single-value range, no nulls: Ne with that value is impossible.
    let single = int_zone(42, 42, 0, 10);
    assert!(!single.might_match(CompareOp::Ne, &Value::Int64(42)));
    assert!(single.might_match(CompareOp::Ne, &Value::Int64(43)));
}

#[test]
fn test_ne_with_nulls() {
    // If there are nulls, Ne is always conservatively true.
    let zm = int_zone(42, 42, 5, 10);
    assert!(zm.might_match(CompareOp::Ne, &Value::Int64(42)));
}

#[test]
fn test_empty_zone_map() {
    let zm = ZoneMap::new();
    // No stats: must return true for all predicates (conservative).
    assert!(zm.might_match(CompareOp::Eq, &Value::Int64(1)));
    assert!(zm.might_match(CompareOp::Ne, &Value::Int64(1)));
    assert!(zm.might_match(CompareOp::Lt, &Value::Int64(1)));
    assert!(zm.might_match(CompareOp::Le, &Value::Int64(1)));
    assert!(zm.might_match(CompareOp::Gt, &Value::Int64(1)));
    assert!(zm.might_match(CompareOp::Ge, &Value::Int64(1)));
}

#[test]
fn test_string_zone_map() {
    let zm = ZoneMap {
        min: Some(Value::from("apple")),
        max: Some(Value::from("grape")),
        null_count: 0,
        row_count: 50,
    };

    assert!(zm.might_match(CompareOp::Eq, &Value::from("banana")));
    assert!(!zm.might_match(CompareOp::Eq, &Value::from("zebra")));
    assert!(zm.might_match(CompareOp::Lt, &Value::from("banana")));
    assert!(!zm.might_match(CompareOp::Gt, &Value::from("zebra")));
}

#[test]
fn test_incomparable_types_are_conservative() {
    let zm = int_zone(10, 50, 0, 100);
    // Comparing Int64 zone map against a String value: types are incomparable,
    // so we must conservatively return true.
    assert!(zm.might_match(CompareOp::Eq, &Value::from("hello")));
    assert!(zm.might_match(CompareOp::Lt, &Value::from("hello")));
}

#[test]
fn test_default() {
    let zm = ZoneMap::default();
    assert!(zm.min.is_none());
    assert!(zm.max.is_none());
    assert_eq!(zm.null_count, 0);
    assert_eq!(zm.row_count, 0);
}

#[test]
fn test_inline_value_round_trip_keeps_following_field_aligned() {
    // The string min plus an Int64 max must round-trip exactly: this
    // pins down the contract that `write_inline_value`/`read_inline_value`
    // never desynchronize the cursor (saturating an oversize length
    // while still emitting the bytes used to corrupt the next field).
    let zm = ZoneMap {
        min: Some(Value::from("apple")),
        max: Some(Value::Int64(99)),
        null_count: 1,
        row_count: 12,
    };
    let mut buf = Vec::new();
    zm.write_inline(&mut buf);
    let mut pos = 0;
    let recovered = ZoneMap::read_inline(&buf, &mut pos).expect("round-trip");
    assert_eq!(pos, buf.len(), "reader must consume the entire buffer");
    assert_eq!(recovered.min, zm.min);
    assert_eq!(recovered.max, zm.max);
    assert_eq!(recovered.null_count, zm.null_count);
    assert_eq!(recovered.row_count, zm.row_count);
}
