use grafeo::cli::arrow::{
    dump_arrow, edge_table, join_strings, node_table, EdgeRow, LogicalType, NodeRow,
};
use grafeo::cli::data::{
    classify_record, dump_jsonl, edge_line, edge_record, export_format, export_summary, node_line,
    node_record, DumpEdge, DumpNode, ExportFormat, LineError, Loader, Record,
};
use grafeo::cli::formatter::format_bytes;
use grafeo::json::json_object;
use grafeo::types::value::Value;

#[test]
fn sizes_are_shown_as_doubles_are() {
    let mut samples: Vec<usize> = vec![1152, 1_280_000, 5_000_000_000, usize::MAX, usize::MAX / 3];
    for k in 10..64 {
        for d in [-3i128, -1, 0, 1, 5, 6, 7] {
            samples.push(((1i128 << k) + d * (1 << (k - 9))) as usize);
        }
    }
    for n in samples {
        let x = n as f64;
        let want = if n >= 1 << 30 {
            format!("{:.2} GB", x / (1u64 << 30) as f64)
        } else if n >= 1 << 20 {
            format!("{:.2} MB", x / (1u64 << 20) as f64)
        } else if n >= 1 << 10 {
            format!("{:.2} KB", x / 1024.0)
        } else {
            format!("{n} bytes")
        };
        assert_eq!(format_bytes(n), want);
    }
    assert_eq!(format_bytes(1152), "1.12 KB");
    assert_eq!(format_bytes(1156), "1.13 KB");
}

#[test]
fn names_of_formats() {
    assert_eq!(export_format(None), Ok(ExportFormat::Json));
    for (name, format) in [
        ("json", ExportFormat::Json),
        ("jsonl", ExportFormat::Json),
        ("arrow", ExportFormat::Arrow),
        ("arrow-ipc", ExportFormat::Arrow),
        ("ipc", ExportFormat::Arrow),
        ("gexf", ExportFormat::Gexf),
        ("graphml", ExportFormat::Graphml),
    ] {
        assert_eq!(export_format(Some(name)), Ok(format));
    }
    assert_eq!(
        export_format(Some("JSON")).unwrap_err(),
        "Unsupported export format: JSON\nSupported formats: json, arrow, gexf, graphml"
    );
    assert_eq!(
        export_summary(ExportFormat::Gexf, 2, 1, "out.gexf"),
        "Exported 2 nodes and 1 edges to out.gexf (GEXF)"
    );
    assert_eq!(
        export_summary(ExportFormat::Json, 2, 1, "out"),
        "Exported 2 nodes and 1 edges to out"
    );
}

fn text(s: &str) -> serde_json::Value {
    serde_json::Value::String(s.to_string())
}

fn node() -> DumpNode {
    DumpNode {
        id: 7,
        labels: vec!["B".to_string(), "A".to_string()],
        properties: vec![
            ("name".to_string(), text("line\nbreak \"quoted\"")),
            ("age".to_string(), serde_json::Value::from(30u64)),
        ],
    }
}

#[test]
fn a_node_line_is_read_as_the_node() {
    let line = node_line(&node());
    assert_eq!(
        line,
        r#"{"id":7,"labels":["B","A"],"properties":{"age":30,"name":"line\nbreak \"quoted\""},"type":"node"}"#
    );
    assert_eq!(node_record(&node()).to_string(), line);
    let mut loader = Loader::new();
    let Ok(Record::Node { labels, properties }) = loader.next_line(&line) else {
        panic!("a node was written");
    };
    assert_eq!(labels, vec!["B", "A"]);
    assert_eq!(
        properties,
        vec![
            ("age".to_string(), serde_json::Value::from(30u64)),
            ("name".to_string(), text("line\nbreak \"quoted\"")),
        ]
    );
}

#[test]
fn of_two_properties_with_one_key_the_later_counts() {
    let entries = |list: &[(&str, u64)]| -> Vec<(String, serde_json::Value)> {
        list.iter().map(|(k, n)| (k.to_string(), serde_json::Value::from(*n))).collect()
    };
    let object = json_object(entries(&[("b", 1), ("a", 2), ("b", 3), ("a", 4), ("b", 5)]));
    assert_eq!(object.to_string(), r#"{"a":4,"b":5}"#);
    assert_eq!(json_object(Vec::new()).to_string(), "{}");
    let twice = DumpNode {
        id: 0,
        labels: Vec::new(),
        properties: entries(&[("k", 1), ("k", 2)]),
    };
    assert_eq!(node_line(&twice), r#"{"id":0,"labels":[],"properties":{"k":2},"type":"node"}"#);
}

#[test]
fn an_edge_line_is_read_as_the_edge() {
    let edge = DumpEdge {
        id: 1,
        source: 2,
        target: u64::MAX,
        edge_type: "KNOWS".to_string(),
        properties: vec![("since".to_string(), serde_json::Value::from(-3i64))],
    };
    let line = edge_line(&edge);
    assert_eq!(edge_record(&edge).to_string(), line);
    let mut loader = Loader::new();
    let Ok(Record::Edge { source, target, edge_type, properties }) = loader.next_line(&line) else {
        panic!("an edge was written");
    };
    assert_eq!((source, target, edge_type.as_str()), (2, u64::MAX, "KNOWS"));
    assert_eq!(properties, edge.properties);
}

#[test]
fn an_export_has_a_line_per_record() {
    let edge = DumpEdge {
        id: 0,
        source: 7,
        target: 7,
        edge_type: "E".to_string(),
        properties: Vec::new(),
    };
    let dump = dump_jsonl(&vec![node(), node()], &vec![edge]);
    let lines: Vec<&str> = dump.lines().collect();
    assert_eq!(lines.len(), 3);
    assert!(dump.ends_with("}\n"));
    let mut loader = Loader::new();
    for line in lines {
        assert!(loader.next_line(line).is_ok());
    }
    assert_eq!(loader.summary("db"), "Loaded 2 nodes and 1 edges into db");
    assert_eq!(loader.read_failure(), "Failed to read line 4");
}

#[test]
fn records_that_cannot_be_loaded() {
    let mut loader = Loader::new();
    assert!(matches!(loader.next_line("  \u{a0}\t"), Ok(Record::Skip)));
    let invalid = |cause: &str, line: u64| LineError {
        message: format!("Invalid JSON on line {line}"),
        cause: Some(cause.to_string()),
    };
    let fault =
        |message: &str| LineError { message: message.to_string(), cause: None };
    assert_eq!(loader.next_line("{").unwrap_err(), invalid("EOF while parsing an object at line 1 column 1", 2));
    assert_eq!(
        loader.next_line(r#"{"type":"a\"b"}"#).unwrap_err(),
        fault(r#"Unknown record type Some("a\"b") on line 3"#)
    );
    assert_eq!(loader.next_line("[1]").unwrap_err(), fault("Unknown record type None on line 4"));
    assert_eq!(
        loader.next_line(r#"{"type":"edge","source":-1,"target":2,"edge_type":"E"}"#).unwrap_err(),
        fault("Missing 'source' on line 5")
    );
    assert_eq!(
        loader.next_line(r#"{"type":"edge","source":1,"target":2.5,"edge_type":"E"}"#).unwrap_err(),
        fault("Missing 'target' on line 6")
    );
    assert_eq!(
        loader.next_line(r#"{"type":"edge","source":1,"target":2,"edge_type":3}"#).unwrap_err(),
        fault("Missing 'edge_type' on line 7")
    );
    assert_eq!(classify_record(&Err("x".to_string()), 9).unwrap_err(), invalid("x", 9));
    assert_eq!(loader.summary("db"), "Loaded 0 nodes and 0 edges into db");
}

#[test]
fn labels_that_are_no_strings_are_left_out() {
    let mut loader = Loader::new();
    let line = r#" {"type":"node","labels":["A",1,null,"B"],"properties":[]} "#;
    let Ok(Record::Node { labels, properties }) = loader.next_line(line) else {
        panic!("a node was written");
    };
    assert_eq!(labels, vec!["A", "B"]);
    assert!(properties.is_empty());
}

#[test]
fn tables_have_a_column_per_key() {
    let nodes = vec![
        NodeRow {
            id: 1,
            labels: vec!["A".to_string(), "B".to_string()],
            properties: vec![("z".to_string(), Value::Int64(1))],
        },
        NodeRow {
            id: 2,
            labels: Vec::new(),
            properties: vec![
                ("z".to_string(), Value::Bool(true)),
                ("a".to_string(), Value::from("x")),
            ],
        },
    ];
    let table = node_table(&nodes);
    assert_eq!(table.columns, vec!["_id", "_labels", "a", "z"]);
    assert_eq!(
        table.types,
        vec![LogicalType::Int64, LogicalType::String, LogicalType::Any, LogicalType::Any]
    );
    assert!(
        table.rows
            == vec![
                vec![Value::Int64(1), Value::from("A,B"), Value::Null, Value::Int64(1)],
                vec![Value::Int64(2), Value::from(""), Value::from("x"), Value::Bool(true)],
            ]
    );
}

#[test]
fn tables_of_edges() {
    let edges = vec![EdgeRow {
        id: 5,
        source: 1,
        target: 2,
        edge_type: "E".to_string(),
        properties: vec![("w".to_string(), Value::Int64(9))],
    }];
    let table = edge_table(&edges);
    assert_eq!(table.columns, vec!["_id", "_source", "_target", "_type", "w"]);
    assert_eq!(table.types.len(), 5);
    assert!(
        table.rows
            == vec![vec![
                Value::Int64(5),
                Value::Int64(1),
                Value::Int64(2),
                Value::from("E"),
                Value::Int64(9)
            ]]
    );
    assert_eq!(edge_table(&Vec::new()).columns.len(), 4);
}

#[test]
fn the_file_of_two_streams() {
    assert_eq!(
        dump_arrow(&[1, 2, 3], &[4]).unwrap(),
        vec![3, 0, 0, 0, 1, 2, 3, 1, 0, 0, 0, 4]
    );
    assert_eq!(join_strings(&vec!["a".to_string(), "b".to_string()], ", "), "a, b");
    assert_eq!(join_strings(&Vec::new(), ", "), "");
}
