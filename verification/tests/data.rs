use grafeo::cli::data::{
    dump_jsonl, export_format, export_summary, DumpEdge, DumpNode, ExportFormat, Loader, Record,
};
use serde_json::Value as Tree;

/// A database in memory, its properties in their serialised form.
#[derive(Default)]
struct Db {
    nodes: Vec<DumpNode>,
    edges: Vec<DumpEdge>,
}

/// A property value, serialised with its variant's name.
fn tagged(variant: &str, value: Tree) -> Tree {
    Tree::Object([(variant.to_string(), value)].into_iter().collect())
}

fn string(s: &str) -> Tree {
    tagged("String", Tree::from(s))
}

fn integer(n: i64) -> Tree {
    tagged("Int64", Tree::from(n))
}

fn boolean(b: bool) -> Tree {
    tagged("Bool", Tree::from(b))
}

impl Db {
    fn create_node(&mut self, labels: &[&str]) -> u64 {
        let id = self.nodes.len() as u64;
        let labels = labels.iter().map(|s| s.to_string()).collect();
        self.nodes.push(DumpNode { id, labels, properties: Vec::new() });
        id
    }

    fn create_edge(&mut self, source: u64, target: u64, edge_type: &str) -> u64 {
        let id = self.edges.len() as u64;
        self.edges.push(DumpEdge {
            id,
            source,
            target,
            edge_type: edge_type.to_string(),
            properties: Vec::new(),
        });
        id
    }

    fn set_node_property(&mut self, id: u64, key: &str, value: Tree) {
        self.nodes[id as usize].properties.push((key.to_string(), value));
    }

    fn set_edge_property(&mut self, id: u64, key: &str, value: Tree) {
        self.edges[id as usize].properties.push((key.to_string(), value));
    }

    fn dump(&self, format: Option<&str>) -> Result<String, String> {
        assert_eq!(export_format(format)?, ExportFormat::Json);
        Ok(dump_jsonl(&self.nodes, &self.edges))
    }

    fn load(&mut self, content: &str) -> Result<String, String> {
        let mut loader = Loader::new();
        for line in content.lines() {
            match loader.next_line(line).map_err(|e| e.message)? {
                Record::Skip => {}
                Record::Node { labels, properties } => {
                    let labels: Vec<&str> = labels.iter().map(String::as_str).collect();
                    let id = self.create_node(&labels);
                    self.nodes[id as usize].properties = properties;
                }
                Record::Edge { source, target, edge_type, properties } => {
                    let id = self.create_edge(source, target, &edge_type);
                    self.edges[id as usize].properties = properties;
                }
            }
        }
        Ok(loader.summary("target.grafeo"))
    }
}

fn create_test_db() -> Db {
    let mut db = Db::default();
    let n1 = db.create_node(&["Person"]);
    let n2 = db.create_node(&["Company"]);
    db.set_node_property(n1, "name", string("Alix"));
    db.set_node_property(n1, "age", integer(30));
    db.set_node_property(n2, "name", string("Acme"));
    let e = db.create_edge(n1, n2, "WORKS_AT");
    db.set_edge_property(e, "since", integer(2020));
    db
}

fn load(content: &str) -> Result<Db, String> {
    let mut db = Db::default();
    db.load(content)?;
    Ok(db)
}

#[test]
fn test_dump_and_load_roundtrip() {
    let content = create_test_db().dump(None).expect("dump should succeed");
    let lines: Vec<&str> = content.trim().lines().collect();
    assert_eq!(lines.len(), 3); // 2 nodes + 1 edge

    let loaded = load(&content).expect("load should succeed");
    assert_eq!(loaded.nodes.len(), 2);
    assert_eq!(loaded.edges.len(), 1);
}

#[test]
fn test_dump_explicit_json_format() {
    let content = create_test_db()
        .dump(Some("json"))
        .expect("dump with explicit json format should succeed");
    assert!(!content.is_empty());
}

#[test]
fn test_dump_invalid_format_rejected() {
    let result = create_test_db().dump(Some("parquet"));
    assert!(result.is_err());
    let err_msg = result.unwrap_err();
    assert!(err_msg.contains("Unsupported export format"));
}

#[test]
fn test_load_invalid_json_fails() {
    let result = load("not valid json\n");
    assert!(result.is_err());
    let err_msg = result.err().unwrap();
    assert!(err_msg.contains("line 1"));
}

#[test]
fn test_load_unknown_type_fails() {
    let result = load("{\"type\": \"widget\"}\n");
    assert!(result.is_err());
    let err_msg = result.err().unwrap();
    assert!(err_msg.contains("Unknown record type"));
}

#[test]
fn test_load_skips_empty_lines() {
    let content = "\n{\"type\":\"node\",\"labels\":[\"A\"],\"properties\":{}}\n\n";
    let db = load(content).expect("should handle empty lines");
    assert_eq!(db.nodes.len(), 1);
}

#[test]
fn test_load_edge_missing_source_fails() {
    let result = load("{\"type\":\"edge\",\"target\":1,\"edge_type\":\"KNOWS\"}\n");
    assert!(result.is_err());
    assert!(result.err().unwrap().contains("source"));
}

#[test]
fn test_load_edge_missing_target_fails() {
    let result = load("{\"type\":\"edge\",\"source\":1,\"edge_type\":\"KNOWS\"}\n");
    assert!(result.is_err());
    let err_msg = result.err().unwrap();
    assert!(err_msg.contains("target"), "expected 'target' in: {err_msg}");
}

#[test]
fn test_load_edge_missing_edge_type_fails() {
    let result = load("{\"type\":\"edge\",\"source\":1,\"target\":2}\n");
    assert!(result.is_err());
    let err_msg = result.err().unwrap();
    assert!(err_msg.contains("edge_type"), "expected 'edge_type' in: {err_msg}");
}

#[test]
fn test_load_record_with_no_type_field_fails() {
    let result = load("{\"labels\":[\"Person\"],\"properties\":{}}\n");
    assert!(result.is_err());
    let err_msg = result.err().unwrap();
    assert!(
        err_msg.contains("Unknown record type"),
        "expected 'Unknown record type' in: {err_msg}"
    );
}

#[test]
fn test_load_into_existing_database() {
    let mut db = Db::default();
    db.create_node(&["Existing"]);
    db.load("{\"type\":\"node\",\"labels\":[\"Imported\"],\"properties\":{}}\n")
        .expect("load into existing db should succeed");
    assert_eq!(db.nodes.len(), 2);
}

#[test]
fn test_dump_jsonl_format_accepted() {
    let content =
        create_test_db().dump(Some("jsonl")).expect("dump with jsonl format should succeed");
    assert!(!content.is_empty());
}

#[test]
fn test_dump_verifies_node_json_structure() {
    let content = create_test_db().dump(None).expect("dump should succeed");
    let lines: Vec<&str> = content.trim().lines().collect();

    let first: Tree = serde_json::from_str(lines[0]).unwrap();
    assert_eq!(first["type"], "node");
    assert!(first["id"].is_number(), "node id should be a number");
    assert!(first["labels"].is_array(), "labels should be an array");
    assert!(first["properties"].is_object(), "properties should be an object");
}

#[test]
fn test_dump_verifies_edge_json_structure() {
    let content = create_test_db().dump(None).expect("dump should succeed");
    let lines: Vec<&str> = content.trim().lines().collect();

    let edge: Tree = serde_json::from_str(lines[2]).unwrap();
    assert_eq!(edge["type"], "edge");
    assert!(edge["id"].is_number(), "edge id should be a number");
    assert!(edge["source"].is_number(), "source should be a number");
    assert!(edge["target"].is_number(), "target should be a number");
    assert_eq!(edge["edge_type"], "WORKS_AT");
    assert!(edge["properties"].is_object(), "properties should be an object");
    assert_eq!(edge["properties"]["since"]["Int64"], 2020);
}

#[test]
fn test_dump_non_quiet_mode() {
    let db = create_test_db();
    db.dump(None).expect("dump non-quiet should succeed");
    assert_eq!(
        export_summary(ExportFormat::Json, db.nodes.len(), db.edges.len(), "dump.jsonl"),
        "Exported 2 nodes and 1 edges to dump.jsonl"
    );
}

#[test]
fn test_load_non_quiet_mode() {
    let content = "{\"type\":\"node\",\"labels\":[\"Person\"],\"properties\":{\"name\":\"Gus\"}}\n";
    let status = Db::default().load(content).expect("load non-quiet should succeed");
    assert_eq!(status, "Loaded 1 nodes and 0 edges into target.grafeo");
}

#[test]
fn test_load_node_without_labels() {
    let db = load("{\"type\":\"node\",\"properties\":{}}\n")
        .expect("load node without labels should succeed");
    assert_eq!(db.nodes.len(), 1);
}

#[test]
fn test_load_node_without_properties() {
    let db = load("{\"type\":\"node\",\"labels\":[\"City\"]}\n")
        .expect("load node without properties should succeed");
    assert_eq!(db.nodes.len(), 1);
}

#[test]
fn test_load_edge_with_properties() {
    let content = "\
{\"type\":\"node\",\"labels\":[\"Person\"],\"properties\":{\"name\":\"Vincent\"}}\n\
{\"type\":\"node\",\"labels\":[\"Person\"],\"properties\":{\"name\":\"Jules\"}}\n\
{\"type\":\"edge\",\"source\":0,\"target\":1,\"edge_type\":\"KNOWS\",\"properties\":{\"since\":1994,\"close\":true}}\n";
    let db = load(content).expect("load edge with properties should succeed");
    assert_eq!(db.nodes.len(), 2);
    assert_eq!(db.edges.len(), 1);
}

#[test]
fn test_load_node_with_null_property_value() {
    let content = "{\"type\":\"node\",\"labels\":[\"Person\"],\"properties\":{\"name\":\"Mia\",\"unknown_field\":null}}\n";
    let db = load(content).expect("load with null property should succeed");
    assert_eq!(db.nodes.len(), 1);
}

#[test]
fn test_load_whitespace_only_lines_skipped() {
    let content = "   \n\t\n{\"type\":\"node\",\"labels\":[\"City\"],\"properties\":{\"name\":\"Berlin\"}}\n  \n";
    let db = load(content).expect("whitespace-only lines should be skipped");
    assert_eq!(db.nodes.len(), 1);
}

#[test]
fn test_dump_empty_database() {
    let content = Db::default().dump(None).expect("dump empty db should succeed");
    assert!(content.trim().is_empty(), "empty db dump should produce no lines");
}

#[test]
fn test_load_invalid_json_on_later_line() {
    let content = "\
{\"type\":\"node\",\"labels\":[\"A\"],\"properties\":{}}\n\
{\"type\":\"node\",\"labels\":[\"B\"],\"properties\":{}}\n\
this is not json\n";
    let result = load(content);
    assert!(result.is_err());
    let err_msg = result.err().unwrap();
    assert!(err_msg.contains("line 3"), "expected line 3 in error: {err_msg}");
}

#[test]
fn test_dump_node_with_multiple_labels() {
    let mut db = Db::default();
    db.create_node(&["Person", "Employee"]);
    let content = db.dump(None).expect("dump should succeed");
    let record: Tree = serde_json::from_str(content.trim()).unwrap();
    let labels = record["labels"].as_array().unwrap();
    assert_eq!(labels.len(), 2);
}

#[test]
fn test_load_edge_without_properties() {
    let content = "\
{\"type\":\"node\",\"labels\":[\"A\"],\"properties\":{}}\n\
{\"type\":\"node\",\"labels\":[\"B\"],\"properties\":{}}\n\
{\"type\":\"edge\",\"source\":0,\"target\":1,\"edge_type\":\"LINKS\"}\n";
    let db = load(content).expect("load edge without properties should succeed");
    assert_eq!(db.edges.len(), 1);
}

#[test]
fn test_load_node_with_various_property_types() {
    let content = "{\"type\":\"node\",\"labels\":[\"Person\"],\"properties\":{\
            \"name\":\"Butch\",\
            \"age\":42,\
            \"height\":1.85,\
            \"active\":true,\
            \"nickname\":null\
        }}\n";
    let db = load(content).expect("load with various property types should succeed");
    assert_eq!(db.nodes.len(), 1);
}

#[test]
fn test_dump_preserves_edge_properties() {
    let mut db = Db::default();
    let n1 = db.create_node(&["Person"]);
    let n2 = db.create_node(&["Person"]);
    db.set_node_property(n1, "name", string("Django"));
    db.set_node_property(n2, "name", string("Shosanna"));
    let edge = db.create_edge(n1, n2, "FRIENDS_WITH");
    db.set_edge_property(edge, "year", integer(2012));
    db.set_edge_property(edge, "strong", boolean(true));

    let content = db.dump(None).expect("dump should succeed");
    let lines: Vec<&str> = content.trim().lines().collect();
    assert_eq!(lines.len(), 3, "should have 2 nodes + 1 edge");

    let edge_line = lines
        .iter()
        .find(|line| line.contains("\"type\":\"edge\""))
        .expect("should have an edge record");
    let edge: Tree = serde_json::from_str(edge_line).unwrap();
    assert_eq!(edge["edge_type"], "FRIENDS_WITH");
    let props = edge["properties"].as_object().unwrap();
    assert_eq!(props["year"]["Int64"], 2012);
    assert_eq!(props["strong"]["Bool"], true);
}

#[test]
fn test_dump_node_properties_serialized() {
    let mut db = Db::default();
    let node = db.create_node(&["City"]);
    db.set_node_property(node, "name", string("Amsterdam"));
    db.set_node_property(node, "population", integer(905_234));
    db.set_node_property(node, "capital", boolean(true));

    let content = db.dump(None).expect("dump should succeed");
    let record: Tree = serde_json::from_str(content.trim()).unwrap();
    assert_eq!(record["type"], "node");
    let props = record["properties"].as_object().unwrap();
    assert_eq!(props["name"]["String"], "Amsterdam");
    assert_eq!(props["population"]["Int64"], 905_234);
    assert_eq!(props["capital"]["Bool"], true);
}

#[test]
fn test_full_roundtrip_preserves_data() {
    let mut db = Db::default();
    let hans = db.create_node(&["Person"]);
    let beatrix = db.create_node(&["Person"]);
    let paris = db.create_node(&["City"]);
    db.set_node_property(hans, "name", string("Hans"));
    db.set_node_property(beatrix, "name", string("Beatrix"));
    db.set_node_property(paris, "name", string("Paris"));
    db.set_node_property(paris, "country", string("France"));

    let edge1 = db.create_edge(hans, paris, "LIVES_IN");
    db.set_edge_property(edge1, "since", integer(2015));
    let edge2 = db.create_edge(beatrix, paris, "VISITED");
    db.set_edge_property(edge2, "year", integer(2023));

    let content = db.dump(None).expect("dump should succeed");
    let loaded = load(&content).expect("load should succeed");
    assert_eq!(loaded.nodes.len(), 3);
    assert_eq!(loaded.edges.len(), 2);
    for (a, b) in db.nodes.iter().zip(&loaded.nodes) {
        assert_eq!(a.labels, b.labels);
        let mut properties = a.properties.clone();
        properties.sort_by(|x, y| x.0.cmp(&y.0));
        assert_eq!(properties, b.properties);
    }
    for (a, b) in db.edges.iter().zip(&loaded.edges) {
        assert_eq!((a.source, a.target, &a.edge_type), (b.source, b.target, &b.edge_type));
        assert_eq!(a.properties, b.properties);
    }
}

#[test]
fn test_load_node_with_empty_labels_array() {
    let content = "{\"type\":\"node\",\"labels\":[],\"properties\":{\"name\":\"Gus\"}}\n";
    let db = load(content).expect("load node with empty labels should succeed");
    assert_eq!(db.nodes.len(), 1);
}

#[test]
fn test_load_mixed_nodes_and_edges() {
    let content = "\
{\"type\":\"node\",\"labels\":[\"Person\"],\"properties\":{\"name\":\"Vincent\"}}\n\
{\"type\":\"node\",\"labels\":[\"Person\"],\"properties\":{\"name\":\"Jules\"}}\n\
{\"type\":\"node\",\"labels\":[\"City\"],\"properties\":{\"name\":\"Amsterdam\"}}\n\
{\"type\":\"edge\",\"source\":0,\"target\":1,\"edge_type\":\"KNOWS\",\"properties\":{\"years\":5}}\n\
{\"type\":\"edge\",\"source\":0,\"target\":2,\"edge_type\":\"LIVES_IN\",\"properties\":{}}\n";
    let db = load(content).expect("load mixed content should succeed");
    assert_eq!(db.nodes.len(), 3);
    assert_eq!(db.edges.len(), 2);
}
