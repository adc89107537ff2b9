use grafeo::bindings::changes::{change_event_to_json, ChangeEvent, ChangeKind};
use grafeo::bindings::errors::{ErrorCategory, ErrorCode, Exception, PyGrafeoError};
use grafeo::bindings::ids::{
    id_from_double, validate_edge_id, validate_epoch, validate_node_id, MAX_SAFE_INTEGER,
};
use grafeo::bindings::import::{
    count_nodes, count_query, escape_gql_string, import_csv, import_jsonl, read_csv_headers,
    read_jsonl_keys, sanitize_gql_identifier, CsvImportOptions, JsonlImportOptions,
};
use grafeo::bindings::query_result::{value_to_ntriples_term, Cell, PyQueryResult};
use grafeo::bindings::requests::{create_projection, fusion_method, PyQueryBuilder, HALF};
use grafeo::bindings::stream::{
    grafeo_stream_next_row_json, null_pointer_reply, row_object, GrafeoStatus, Pulled, RowCursor,
    RowFailure, Step,
};
use grafeo::graph::store::{EdgeId, EpochId, NodeId};
use grafeo::types::float::FloatBits;
use grafeo::types::value::Value;

fn double(x: f64) -> FloatBits {
    FloatBits { bits: x.to_bits() }
}

fn strings(list: &[&str]) -> Vec<String> {
    list.iter().map(|s| s.to_string()).collect()
}

#[test]
fn doubles_that_are_ids() {
    let mut samples = vec![
        0.0, -0.0, 0.3, 0.999_999, 1.0, 1.5, 2.0, 3.999, 1e15, 4_503_599_627_370_495.5,
        4_503_599_627_370_496.0, 9_007_199_254_740_990.0, 9_007_199_254_740_991.0, 5e-324,
        -1.0, -5e-324, 9_007_199_254_740_992.0, 1e300, f64::INFINITY, f64::NEG_INFINITY, f64::NAN,
    ];
    for k in 0..60 {
        samples.push(2f64.powi(k) + 0.75);
        samples.push(2f64.powi(k) * 1.7);
    }
    for x in samples {
        let want = if (0.0..=9_007_199_254_740_991.0).contains(&x) { Some(x as u64) } else { None };
        assert_eq!(id_from_double(double(x)), want, "{x}");
    }
    assert_eq!(MAX_SAFE_INTEGER, (1 << 53) - 1);
}

#[test]
fn doubles_that_are_no_ids() {
    assert_eq!(validate_node_id(double(7.0), "7"), Ok(NodeId(7)));
    assert_eq!(validate_edge_id(double(8.0), "8"), Ok(EdgeId(8)));
    assert_eq!(validate_epoch(double(9.0), "9"), Ok(EpochId(9)));
    assert_eq!(validate_node_id(double(-1.0), "-1").unwrap_err(), "Invalid node ID: -1");
    assert_eq!(validate_edge_id(double(f64::NAN), "NaN").unwrap_err(), "Invalid edge ID: NaN");
    assert_eq!(validate_epoch(double(1e30), "1e30").unwrap_err(), "Invalid epoch: 1e30");
}

#[test]
fn names_become_identifiers() {
    assert_eq!(sanitize_gql_identifier("first name"), "first_name");
    assert_eq!(sanitize_gql_identifier("é-1"), "é_1");
    assert_eq!(sanitize_gql_identifier("1st"), "_1st");
    assert_eq!(sanitize_gql_identifier(""), "_col");
    assert_eq!(sanitize_gql_identifier("a'})"), "a___");
}

#[test]
fn quotes_are_escaped() {
    assert_eq!(escape_gql_string("it's 'so'"), "it\\'s \\'so\\'");
    assert_eq!(escape_gql_string("plain"), "plain");
}

#[test]
fn header_lines() {
    assert_eq!(
        read_csv_headers(" \"id\" ,name, \"full name\",, \"\" \r\n", ','),
        vec!["id", "name", "full name"]
    );
    assert!(read_csv_headers("\n", ',').is_empty());
    assert_eq!(read_csv_headers("a;b,c", ';'), vec!["a", "b,c"]);
}

#[test]
fn keys_of_json_lines() {
    assert_eq!(read_jsonl_keys("   "), None);
    assert_eq!(
        read_jsonl_keys(" {\"b\":1,\"a\":{\"c\":2}} "),
        Some(strings(&["a", "b"]))
    );
    assert_eq!(read_jsonl_keys("[1]"), Some(Vec::new()));
    assert_eq!(read_jsonl_keys("{oops"), Some(Vec::new()));
}

#[test]
fn import_queries() {
    let plan = import_csv("C:\\my'data.csv", &CsvImportOptions::default(), "id,full name\n");
    assert_eq!(plan.label, "Row");
    assert_eq!(
        plan.query,
        "LOAD DATA FROM 'C:/my\\'data.csv' FORMAT CSV WITH HEADERS AS row \
         INSERT (:Row {id: row.id, full_name: row.full_name})"
    );
    let options = CsvImportOptions { label: Some("My Label".to_string()), headers: Some(false) };
    let plan = import_csv("/x.csv", &options, "id");
    assert_eq!(plan.label, "My_Label");
    assert_eq!(
        plan.query,
        "LOAD DATA FROM '/x.csv' FORMAT CSV AS row INSERT (:My_Label {})"
    );
    let plan = import_jsonl("/x.jsonl", &JsonlImportOptions::default(), &strings(&["a", "b"]));
    assert_eq!(
        plan.query,
        "LOAD DATA FROM '/x.jsonl' FORMAT JSONL AS row INSERT (:Row {a: row.a, b: row.b})"
    );
}

#[test]
fn counts_in_results() {
    assert_eq!(count_query("Row"), "MATCH (n:Row) RETURN count(n) AS c");
    assert_eq!(count_nodes(None), 0);
    assert_eq!(count_nodes(Some(&vec![])), 0);
    assert_eq!(count_nodes(Some(&vec![vec![]])), 0);
    assert_eq!(count_nodes(Some(&vec![vec![Value::from("3")]])), 0);
    assert_eq!(count_nodes(Some(&vec![vec![Value::Int64(3)]])), 3);
}

#[test]
fn a_closed_cursor_stays_closed() {
    let mut cursor = RowCursor::new(strings(&["a", "b"]));
    assert_eq!(cursor.columns(), vec!["a", "b"]);
    assert!(cursor.is_open());
    let Step::Row(pairs) = cursor.advance::<i32, String>(Pulled::Row(vec![1, 2, 3])) else {
        panic!("a row was pulled");
    };
    assert_eq!(pairs, vec![("a".to_string(), 1), ("b".to_string(), 2)]);
    assert_eq!(cursor.repr(), "ResultStream(columns=[\"a\", \"b\"], exhausted=false)");
    assert!(matches!(cursor.advance::<i32, &str>(Pulled::Failed("x")), Step::Failed("x")));
    assert!(!cursor.is_open());
    assert!(matches!(cursor.advance::<i32, &str>(Pulled::Row(vec![1])), Step::End));
    assert!(matches!(cursor.advance::<i32, &str>(Pulled::Exhausted), Step::End));
    assert_eq!(cursor.repr(), "ResultStream(columns=[\"a\", \"b\"], exhausted=true)");

    let mut early = RowCursor::new(Vec::new());
    early.close();
    assert!(matches!(early.advance::<i32, &str>(Pulled::Row(vec![1])), Step::End));
}

#[test]
fn rows_through_the_c_interface() {
    let mut cursor = RowCursor::new(strings(&["b", "a\0", "b"]));
    assert_eq!(cursor.columns_json(), "[\"b\",\"a\\u0000\",\"b\"]");
    let values = vec![
        serde_json::Value::from(1u64),
        serde_json::Value::Null,
        serde_json::Value::from(2u64),
    ];
    let reply = grafeo_stream_next_row_json(&mut cursor, Pulled::Row(values));
    assert_eq!(reply.status, GrafeoStatus::Success);
    assert_eq!(reply.row.as_deref(), Some("{\"a\\u0000\":null,\"b\":2}"));
    let reply = grafeo_stream_next_row_json(&mut cursor, Pulled::Exhausted);
    assert_eq!((reply.status, reply.row, reply.error), (GrafeoStatus::Success, None, None));

    for (category, status) in [
        (ErrorCategory::Other, GrafeoStatus::ErrorDatabase),
        (ErrorCategory::Query, GrafeoStatus::ErrorQuery),
        (ErrorCategory::Transaction, GrafeoStatus::ErrorTransaction),
    ] {
        let mut failing = RowCursor::new(Vec::new());
        let failure = RowFailure::new(category, "boom".to_string());
        let reply = grafeo_stream_next_row_json(&mut failing, Pulled::Failed(failure));
        assert_eq!(reply.status, status);
        assert_eq!(reply.row, None);
        assert_eq!(reply.error.as_deref(), Some("boom"));
        let reply = grafeo_stream_next_row_json(&mut failing, Pulled::Exhausted);
        assert_eq!((reply.status, reply.row, reply.error), (GrafeoStatus::Success, None, None));
    }

    assert!(null_pointer_reply(false, false).is_none());
    let reply = null_pointer_reply(true, true).unwrap();
    assert_eq!(reply.status, GrafeoStatus::ErrorNullPointer);
    assert_eq!(reply.error.as_deref(), Some("Null out_json pointer"));
    let reply = null_pointer_reply(false, true).unwrap();
    assert_eq!(reply.error.as_deref(), Some("Null stream pointer"));
}

#[test]
fn a_row_as_an_object() {
    let pairs = vec![("x".to_string(), serde_json::Value::from(1u64))];
    assert_eq!(row_object(pairs).to_string(), "{\"x\":1}");
}

fn result() -> PyQueryResult {
    let row = |s: &str, p: &str, o: Cell| vec![Cell::Text(s.to_string()), Cell::Text(p.to_string()), o];
    PyQueryResult::new(
        strings(&["Subject", "p", "OBJECT"]),
        vec![
            row("http://a", "urn:p", Cell::Text("say \"hi\"\n".to_string())),
            row("_:b", "urn:p", Cell::Int64(-5)),
            row("http://a", "https://q", Cell::Bool(true)),
        ],
    )
}

#[test]
fn triples_one_per_line() {
    assert_eq!(
        result().to_ntriples().unwrap(),
        "<http://a> <urn:p> \"say \\\"hi\\\"\\n\" .\n\
         _:b <urn:p> \"-5\"^^<http://www.w3.org/2001/XMLSchema#integer> .\n\
         <http://a> <https://q> \"true\"^^<http://www.w3.org/2001/XMLSchema#boolean> .\n"
    );
}

#[test]
fn triples_grouped_by_subject() {
    assert_eq!(
        result().to_turtle().unwrap(),
        "<http://a> <urn:p> \"say \\\"hi\\\"\\n\" ;\n    <https://q> \
         \"true\"^^<http://www.w3.org/2001/XMLSchema#boolean> .\n\n\
         _:b <urn:p> \"-5\"^^<http://www.w3.org/2001/XMLSchema#integer> .\n\n"
    );
}

#[test]
fn terms_of_other_cells() {
    assert_eq!(value_to_ntriples_term(&Cell::Null), "\"\"");
    assert_eq!(
        value_to_ntriples_term(&Cell::Double("2.5".to_string())),
        "\"2.5\"^^<http://www.w3.org/2001/XMLSchema#double>"
    );
    assert_eq!(value_to_ntriples_term(&Cell::Other("[1, 2]".to_string())), "\"[1, 2]\"");
    assert_eq!(value_to_ntriples_term(&Cell::Text("a\\b\tc\r".to_string())), "\"a\\\\b\\tc\\r\"");
    assert_eq!(value_to_ntriples_term(&Cell::Text("http:/".to_string())), "\"http:/\"");
}

#[test]
fn columns_that_are_no_triple() {
    let r = PyQueryResult::new(strings(&["s", "p", "x"]), Vec::new());
    let want = "to_ntriples()/to_turtle() requires columns named [subject, predicate, object] \
                (or [s, p, o]). Got: [\"s\", \"p\", \"x\"]";
    assert_eq!(r.to_ntriples().unwrap_err(), want);
    assert_eq!(r.to_turtle().unwrap_err(), want);
}

#[test]
fn rows_that_lack_a_cell() {
    let row = |n: usize| vec![Cell::Int64(1), Cell::Int64(2), Cell::Int64(3)][..n].to_vec();
    let columns = strings(&["o", "s", "p", "note"]);
    let short = PyQueryResult::new(columns.clone(), vec![row(3), row(2)]);
    assert!(short.try_ntriples().is_none());
    assert!(short.try_turtle().is_none());
    let enough = PyQueryResult::new(columns, vec![row(3)]);
    assert_eq!(enough.try_ntriples().unwrap(), enough.to_ntriples());
    assert_eq!(enough.try_turtle().unwrap(), enough.to_turtle());
    let text = enough.to_ntriples().unwrap();
    assert!(text.starts_with("\"2\"^^<"));
    let other = PyQueryResult::new(strings(&["a"]), vec![row(0)]);
    assert!(other.try_turtle().unwrap().is_err());
}

#[test]
fn rows_by_index() {
    let r = result();
    let last = r.get_item(-1).unwrap();
    assert_eq!(last[0].0, "Subject");
    assert!(matches!(&last[2].1, Cell::Bool(true)));
    assert!(matches!(&r.get_item(1).unwrap()[2].1, Cell::Int64(-5)));
    assert_eq!(r.get_item(3).unwrap_err(), "Row index out of range");
    assert_eq!(r.get_item(-4).unwrap_err(), "Row index out of range");
    assert_eq!(r.get_item(isize::MIN).unwrap_err(), "Row index out of range");
}

#[test]
fn all_rows_as_a_list() {
    let r = result();
    let list = r.to_list();
    assert_eq!(list.len(), 3);
    for (i, row) in list.iter().enumerate() {
        assert_eq!(format!("{row:?}"), format!("{:?}", r.get_item(i as isize).unwrap()));
    }
    assert!(PyQueryResult::empty().to_list().is_empty());
}

#[test]
fn a_walk_through_the_rows() {
    let mut r = result();
    for _ in 0..3 {
        assert_eq!(r.next_row().unwrap().len(), 3);
    }
    assert!(r.next_row().is_none());
    assert!(r.next_row().is_none());
    assert_eq!(r.len(), 3);
}

#[test]
fn scalars_columns_and_texts_of_results() {
    let r = PyQueryResult::with_metrics(
        strings(&["n"]),
        vec![vec![Cell::Int64(1)], vec![]],
        Some("1.50".to_string()),
        Some(10),
    );
    assert!(matches!(r.scalar().unwrap(), Cell::Int64(1)));
    assert!(matches!(r.column(0)[1], Cell::Null));
    assert_eq!(r.repr(), "QueryResult(columns=[\"n\"], rows=2, time=1.50ms)");
    assert_eq!(r.rows_scanned, Some(10));
    let none = PyQueryResult::empty();
    assert_eq!(none.scalar().unwrap_err(), "No rows in result");
    let bare = PyQueryResult::new(Vec::new(), vec![vec![]]);
    assert_eq!(bare.scalar().unwrap_err(), "No columns in result");
    assert_eq!(bare.repr(), "QueryResult(columns=[], rows=1)");
}

fn code(name: &str) -> ErrorCode {
    ErrorCode { name: name.to_string(), retryable: name == "busy" }
}

#[test]
fn errors_become_exceptions() {
    let e = PyGrafeoError::InvalidArgument("bad".to_string());
    assert_eq!(e.message(), "Invalid argument: bad");
    assert_eq!(e.into_exception(code("internal")), Exception::ValueError("bad".to_string()));
    let e = PyGrafeoError::Type("odd".to_string());
    assert_eq!(e.message(), "Type error: odd");
    assert_eq!(e.into_exception(code("internal")), Exception::ValueError("odd".to_string()));
    for (category, text) in [
        (ErrorCategory::Query, "Query error: m"),
        (ErrorCategory::Transaction, "Transaction error: m"),
        (ErrorCategory::Other, "Database error: m"),
    ] {
        let e = PyGrafeoError::classified(category, "m".to_string(), code("busy"));
        assert_eq!(e.message(), text);
        assert_eq!(
            e.into_exception(code("internal")),
            Exception::GrafeoError { message: "m".to_string(), code: code("busy") }
        );
    }
    for e in [
        PyGrafeoError::database("m".to_string()),
        PyGrafeoError::query("m".to_string()),
        PyGrafeoError::transaction("m".to_string()),
    ] {
        assert_eq!(
            e.into_exception(code("internal")),
            Exception::GrafeoError { message: "m".to_string(), code: code("internal") }
        );
    }
}

#[test]
fn changes_as_objects() {
    let event = ChangeEvent {
        entity_id: 4,
        is_node: false,
        kind: ChangeKind::Update,
        epoch: 2,
        timestamp: 99,
        before: None,
        after: Some(vec![("k".to_string(), serde_json::Value::from(1u64))]),
    };
    assert_eq!(
        change_event_to_json(&event).to_string(),
        "{\"after\":{\"k\":1},\"before\":null,\"entity_id\":4,\"entity_type\":\"edge\",\
         \"epoch\":2,\"kind\":\"update\",\"timestamp\":99}"
    );
}

#[test]
fn parameters_projections_and_fusion() {
    let mut builder = PyQueryBuilder::create("RETURN $x".to_string());
    assert_eq!(builder.query(), "RETURN $x");
    assert!(builder.param("x".to_string(), Ok(Value::Int64(1))).is_ok());
    assert!(builder.param("x".to_string(), Ok(Value::Int64(2))).is_ok());
    assert_eq!(
        builder.param("y".to_string(), Err("no such type".to_string())).unwrap_err(),
        "Cannot convert parameter 'y' to a Grafeo value: no such type"
    );
    assert!(builder.get_param("x") == Some(&Value::Int64(2)));
    assert!(builder.get_param("y").is_none());

    let projection = create_projection(Some(Vec::new()), Some(strings(&["E"])));
    assert_eq!(projection.node_labels, None);
    assert_eq!(projection.edge_types, Some(strings(&["E"])));

    assert_eq!(HALF, 0.5f64.to_bits());
    assert_eq!(fusion_method(Some("weighted"), None), Some(vec![double(0.5), double(0.5)]));
    assert_eq!(fusion_method(Some("weighted"), Some(vec![double(0.9)])), Some(vec![double(0.9)]));
    assert_eq!(fusion_method(Some("rrf"), Some(vec![double(0.9)])), None);
    assert_eq!(fusion_method(None, None), None);
}
