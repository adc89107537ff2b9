use grafeo::execution::chunk::{DataChunk, ValueVector};
use grafeo::execution::sort::{
    compare_rows, sort_rows, NullOrder, SortDirection, SortKey, SortPushOperator,
};
use grafeo::graph::compact::column::ColumnCodec;
use grafeo::graph::compact::zone_map::{compute_block_zone_maps, CompareOp, ZoneMap};
use grafeo::types::float::{compare_floats, float_from_int, FloatBits};
use grafeo::types::order::Order;
use grafeo::types::value::{compare_values, compare_values_total, is_orderable, Value};

fn double(x: f64) -> FloatBits {
    FloatBits { bits: x.to_bits() }
}

#[test]
fn integers_round_to_the_nearest_double() {
    let limit = 1i64 << 53;
    let mut samples: Vec<i64> = vec![0, 1, -1, i64::MAX, i64::MIN, i64::MIN + 1, 1 << 62];
    for d in -5..=5 {
        samples.push(limit + d);
        samples.push(-limit + d);
        samples.push(limit * 4 + d);
        samples.push((limit - 1) * 1024 + d * 100);
    }
    for n in samples {
        assert_eq!(float_from_int(n).bits, (n as f64).to_bits(), "{n}");
    }
}

#[test]
fn doubles_compare_as_numbers() {
    let samples = [
        0.0,
        -0.0,
        1.0,
        -1.0,
        0.5,
        f64::MIN_POSITIVE,
        5e-324,
        f64::MAX,
        f64::INFINITY,
        f64::NEG_INFINITY,
        f64::NAN,
    ];
    for a in samples {
        for b in samples {
            let want = a.partial_cmp(&b).map(|o| match o {
                std::cmp::Ordering::Less => Order::Less,
                std::cmp::Ordering::Equal => Order::Equal,
                std::cmp::Ordering::Greater => Order::Greater,
            });
            assert_eq!(compare_floats(double(a), double(b)), want, "{a} {b}");
        }
    }
}

#[test]
fn values_of_different_types() {
    assert_eq!(compare_values(&Value::Int64(1), &Value::from("1")), None);
    assert_eq!(
        compare_values(&Value::Int64(2), &Value::Float64(double(2.5))),
        Some(Order::Less)
    );
    assert_eq!(
        compare_values(&Value::from("b"), &Value::from("a")),
        Some(Order::Greater)
    );
    assert!(Value::Int64(1) != Value::Float64(double(1.0)));
    assert!(Value::Float64(double(f64::NAN)) != Value::Float64(double(f64::NAN)));
    assert!(Value::Float64(double(0.0)) == Value::Float64(double(-0.0)));
    assert!(!is_orderable(&Value::Null));
    assert!(is_orderable(&Value::Int64(0)));
}

#[test]
fn the_total_order_flips() {
    let samples = [
        Value::Null,
        Value::Bool(true),
        Value::Int64(3),
        Value::Float64(double(3.0)),
        Value::Float64(double(f64::NAN)),
        Value::from("x"),
        Value::Other("[1]".to_string()),
    ];
    for a in &samples {
        for b in &samples {
            assert_eq!(compare_values_total(a, b), compare_values_total(b, a).reverse());
        }
    }
}

fn row(n: Option<i64>, tag: &str) -> Vec<Value> {
    vec![n.map_or(Value::Null, Value::Int64), Value::from(tag)]
}

#[test]
fn nulls_stay_where_they_are_asked_for() {
    let rows = vec![row(Some(2), "a"), row(None, "b"), row(Some(3), "c")];
    for direction in [SortDirection::Ascending, SortDirection::Descending] {
        let first = SortKey { column: 0, direction, null_order: NullOrder::First };
        assert_eq!(sort_rows(&rows, &vec![first])[0], row(None, "b"));
        let last = SortKey { column: 0, direction, null_order: NullOrder::Last };
        assert_eq!(sort_rows(&rows, &vec![last])[2], row(None, "b"));
    }
}

#[test]
fn equal_rows_keep_their_order() {
    let rows = vec![row(Some(1), "x"), row(Some(0), "y"), row(Some(1), "z"), row(Some(0), "w")];
    let sorted = sort_rows(&rows, &vec![SortKey::descending(0)]);
    let tags: Vec<Value> = sorted.into_iter().map(|r| r[1].clone()).collect();
    let want: Vec<Value> = ["x", "z", "y", "w"].into_iter().map(Value::from).collect();
    assert!(tags == want);
}

#[test]
fn rows_of_different_width_are_sorted_by_the_columns_they_share() {
    let wide = |n: i64, extra: usize| {
        let mut row = vec![Value::Int64(n)];
        row.extend((0..extra).map(|_| Value::Null));
        row
    };
    let rows = vec![wide(2, 3), wide(1, 0), wide(2, 0), wide(1, 2), wide(0, 1)];
    let sorted = sort_rows(&rows, &vec![SortKey::ascending(0)]);
    assert_eq!(sorted, vec![wide(0, 1), wide(1, 0), wide(1, 2), wide(2, 3), wide(2, 0)]);
}

#[test]
fn the_second_key_decides_ties() {
    let keys = vec![SortKey::ascending(0), SortKey::descending(1)];
    assert_eq!(compare_rows(&row(Some(1), "a"), &row(Some(1), "b"), &keys), Order::Greater);
    assert_eq!(compare_rows(&row(Some(0), "a"), &row(Some(1), "b"), &keys), Order::Less);
    assert_eq!(compare_rows(&row(Some(1), "a"), &row(Some(1), "a"), &keys), Order::Equal);
}

#[test]
fn sorting_a_chunk_with_a_selection() {
    let values: Vec<Value> = [4, 1, 3, 2].into_iter().map(Value::Int64).collect();
    let chunk = DataChunk::new(vec![ValueVector::from_values(&values)]).with_selection(vec![0, 2]);
    let mut sort = SortPushOperator::ascending(0);
    assert!(sort.push(&chunk));
    let out = sort.finalize().unwrap();
    assert_eq!(out.len(), 2);
    assert_eq!(out.row(0), vec![Value::Int64(3)]);
    assert_eq!(out.row(1), vec![Value::Int64(4)]);
}

#[test]
fn skipped_blocks_hold_no_match() {
    let rows: Vec<Option<Value>> =
        (0..40).map(|i| if i % 7 == 0 { None } else { Some(Value::Int64(i * 3 % 17)) }).collect();
    let codec = ColumnCodec::new(rows.clone(), 8);
    let zones = compute_block_zone_maps(&codec);
    assert_eq!(zones.len(), 5);
    let ops =
        [CompareOp::Eq, CompareOp::Ne, CompareOp::Lt, CompareOp::Le, CompareOp::Gt, CompareOp::Ge];
    for (b, zone) in zones.iter().enumerate() {
        assert_eq!(zone.row_count, 8);
        for op in ops {
            for v in -1..18i64 {
                if zone.might_match(op, &Value::Int64(v)) {
                    continue;
                }
                for r in rows[b * 8..b * 8 + 8].iter().flatten() {
                    let Value::Int64(n) = r else { unreachable!() };
                    let hit = match op {
                        CompareOp::Eq => *n == v,
                        CompareOp::Ne => *n != v,
                        CompareOp::Lt => *n < v,
                        CompareOp::Le => *n <= v,
                        CompareOp::Gt => *n > v,
                        CompareOp::Ge => *n >= v,
                    };
                    assert!(!hit);
                }
            }
        }
    }
}

#[test]
fn zone_maps_read_back_what_was_written() {
    let zone = ZoneMap {
        min: Some(Value::Int64(-5)),
        max: Some(Value::from("zoë")),
        null_count: 3,
        row_count: 70_000,
    };
    let mut buf = vec![9u8];
    zone.write_inline(&mut buf);
    let end = buf.len();
    buf.push(7);
    let mut pos = 1;
    let back = ZoneMap::read_inline(&buf, &mut pos).unwrap();
    assert_eq!(pos, end);
    assert!(back.min == zone.min && back.max == zone.max);
    assert_eq!((back.null_count, back.row_count), (3, 70_000));
    for cut in 1..end {
        let mut start = 1;
        assert!(ZoneMap::read_inline(&buf[..cut], &mut start).is_err());
    }
}
