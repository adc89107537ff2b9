//! Export and import of a database, one JSON object per line.

use serde_json::Value as JsonTree;
use vstd::prelude::*;
use vstd::string::StringExecFns;

use crate::json::json_object;
use crate::json::Json;
use crate::json::{ascending, field, has_member, is_plain, table_of};
use crate::json::{law_last_entry_counts, lemma_distinct_entries};
use crate::text::{
    decimal, is_space, lemma_split_line, split_at_char, strip_back, strip_front, trimmed, Strip,
};
use crate::text::{push_decimal, trim_text};
use crate::trusted::json::{
    json_array, json_as_str, json_as_u64, json_clone, json_get, json_items, json_members,
    json_number, json_parse, json_string, json_write,
};
use crate::trusted::json::{
    json_entries, json_list, json_of, json_parsed, json_result, json_written,
};
use crate::trusted::text::debug_of;
use crate::trusted::text::{debug_str, str_eq};

verus! {

/// What a database is exported as.
#[derive(Debug, Clone, Copy, PartialEq, Eq, Structural)]
pub enum ExportFormat {
    /// One JSON object per line.
    Json,
    /// Two Arrow streams.
    Arrow,
    /// GEXF.
    Gexf,
    /// GraphML.
    Graphml,
}

/// The format of a name. Without a name it is JSON.
pub open spec fn format_named(name: Option<Seq<char>>) -> Option<ExportFormat> {
    match name {
        None => Some(ExportFormat::Json),
        Some(s) => if s == "json"@ || s == "jsonl"@ {
            Some(ExportFormat::Json)
        } else if s == "arrow"@ || s == "arrow-ipc"@ || s == "ipc"@ {
            Some(ExportFormat::Arrow)
        } else if s == "gexf"@ {
            Some(ExportFormat::Gexf)
        } else if s == "graphml"@ {
            Some(ExportFormat::Graphml)
        } else {
            None
        },
    }
}

/// The format that a name asks for.
pub fn export_format(name: Option<&str>) -> (r: Result<ExportFormat, String>)
    ensures
        match (r, name) {
            (Ok(f), Some(s)) => format_named(Some(s@)) == Some(f),
            (Ok(f), None) => f == ExportFormat::Json,
            (Err(e), Some(s)) => format_named(Some(s@)) is None && e@
                == "Unsupported export format: "@ + s@
                + "\nSupported formats: json, arrow, gexf, graphml"@,
            (Err(_), None) => false,
        },
{
    let s: &str = match name {
        Some(s) => s,
        None => {
            return Ok(ExportFormat::Json);
        },
    };
    if str_eq(s, "json") || str_eq(s, "jsonl") {
        Ok(ExportFormat::Json)
    } else if str_eq(s, "arrow") || str_eq(s, "arrow-ipc") || str_eq(s, "ipc") {
        Ok(ExportFormat::Arrow)
    } else if str_eq(s, "gexf") {
        Ok(ExportFormat::Gexf)
    } else if str_eq(s, "graphml") {
        Ok(ExportFormat::Graphml)
    } else {
        let mut text: String = String::new();
        text.append("Unsupported export format: ");
        text.append(s);
        text.append("\nSupported formats: json, arrow, gexf, graphml");
        proof {
            let want = "Unsupported export format: "@ + s@
                + "\nSupported formats: json, arrow, gexf, graphml"@;
            assert(text@ =~= want);
        }
        Err(text)
    }
}

/// A node as it is exported.
#[derive(Debug)]
pub struct DumpNode {
    /// Its id.
    pub id: u64,
    /// Its labels.
    pub labels: Vec<String>,
    /// Its properties.
    pub properties: Vec<(String, JsonTree)>,
}

/// An edge as it is exported.
#[derive(Debug)]
pub struct DumpEdge {
    /// Its id.
    pub id: u64,
    /// The id of the node that it leaves.
    pub source: u64,
    /// The id of the node that it reaches.
    pub target: u64,
    /// Its type.
    pub edge_type: String,
    /// Its properties.
    pub properties: Vec<(String, JsonTree)>,
}

/// The texts of strings.
pub open spec fn texts(strings: Seq<String>) -> Seq<Seq<char>> {
    strings.map_values(|s: String| s@)
}

/// A list of strings.
pub open spec fn text_list(strings: Seq<Seq<char>>) -> Json {
    Json::List(strings.map_values(|s: Seq<char>| Json::Text(s)))
}

/// The record of a node.
pub open spec fn node_json(
    id: u64,
    labels: Seq<Seq<char>>,
    properties: Map<Seq<char>, Json>,
) -> Json {
    Json::Table(
        table_of(
            seq![
                ("type"@, Json::Text("node"@)),
                ("id"@, Json::Natural(id)),
                ("labels"@, text_list(labels)),
                ("properties"@, Json::Table(properties)),
            ],
        ),
    )
}

/// The record of an edge.
pub open spec fn edge_json(
    id: u64,
    source: u64,
    target: u64,
    edge_type: Seq<char>,
    properties: Map<Seq<char>, Json>,
) -> Json {
    Json::Table(
        table_of(
            seq![
                ("type"@, Json::Text("edge"@)),
                ("id"@, Json::Natural(id)),
                ("source"@, Json::Natural(source)),
                ("target"@, Json::Natural(target)),
                ("edge_type"@, Json::Text(edge_type)),
                ("properties"@, Json::Table(properties)),
            ],
        ),
    )
}

/// What a line of an import asks for.
pub ghost enum RecordModel {
    /// Nothing: the line is blank.
    Skip,
    /// A node.
    Node {
        /// Its labels.
        labels: Seq<Seq<char>>,
        /// Its properties.
        properties: Map<Seq<char>, Json>,
    },
    /// An edge.
    Edge {
        /// The id of the node that it leaves.
        source: u64,
        /// The id of the node that it reaches.
        target: u64,
        /// Its type.
        edge_type: Seq<char>,
        /// Its properties.
        properties: Map<Seq<char>, Json>,
    },
}

/// What a line of an import asks for.
#[derive(Debug)]
pub enum Record {
    /// Nothing: the line is blank.
    Skip,
    /// A node.
    Node {
        /// Its labels.
        labels: Vec<String>,
        /// Its properties, in the order of their keys.
        properties: Vec<(String, JsonTree)>,
    },
    /// An edge.
    Edge {
        /// The id of the node that it leaves.
        source: u64,
        /// The id of the node that it reaches.
        target: u64,
        /// Its type.
        edge_type: String,
        /// Its properties, in the order of their keys.
        properties: Vec<(String, JsonTree)>,
    },
}

/// Whether a record is what a model says.
pub open spec fn record_is(r: Record, m: RecordModel) -> bool {
    match (r, m) {
        (Record::Skip, RecordModel::Skip) => true,
        (
            Record::Node { labels, properties },
            RecordModel::Node { labels: wanted, properties: table },
        ) => texts(labels@) == wanted && table_of(json_entries(properties@)) == table
            && ascending(json_entries(properties@)),
        (
            Record::Edge { source, target, edge_type, properties },
            RecordModel::Edge { source: s, target: t, edge_type: e, properties: table },
        ) => source == s && target == t && edge_type@ == e && table_of(json_entries(properties@))
            == table && ascending(json_entries(properties@)),
        _ => false,
    }
}

/// The strings among values.
pub open spec fn texts_in(items: Seq<Json>) -> Seq<Seq<char>>
    decreases items.len(),
{
    if items.len() == 0 {
        Seq::empty()
    } else {
        match items.last() {
            Json::Text(s) => texts_in(items.drop_last()).push(s),
            _ => texts_in(items.drop_last()),
        }
    }
}

/// The labels of a record: the strings of its list, if it has one.
pub open spec fn labels_in(v: Json) -> Seq<Seq<char>> {
    match field(v, "labels"@) {
        Some(Json::List(items)) => texts_in(items),
        _ => Seq::empty(),
    }
}

/// The properties of a record: its object, if it has one.
pub open spec fn properties_in(v: Json) -> Map<Seq<char>, Json> {
    match field(v, "properties"@) {
        Some(Json::Table(m)) => m,
        _ => Map::empty(),
    }
}

/// A string of a record.
pub open spec fn text_field(v: Json, key: Seq<char>) -> Option<Seq<char>> {
    match field(v, key) {
        Some(Json::Text(s)) => Some(s),
        _ => None,
    }
}

/// An integer of a record that is not negative.
pub open spec fn natural_field(v: Json, key: Seq<char>) -> Option<u64> {
    match field(v, key) {
        Some(Json::Natural(n)) => Some(n),
        _ => None,
    }
}

/// A message about a line.
pub open spec fn on_line(text: Seq<char>, line: nat) -> Seq<char> {
    text + " on line "@ + decimal(line)
}

/// Why a line cannot be taken: what to say of it, and what lies behind, if the text
/// could not be read at all.
#[derive(Debug, PartialEq, Eq)]
pub struct LineError {
    /// What to say of the line.
    pub message: String,
    /// What was wrong with its text.
    pub cause: Option<String>,
}

/// What an error about a line says.
#[verifier::ext_equal]
pub ghost struct LineErrorModel {
    /// What to say of the line.
    pub message: Seq<char>,
    /// What was wrong with its text.
    pub cause: Option<Seq<char>>,
}

/// An error about a line with nothing behind it.
pub open spec fn fault_on(text: Seq<char>, line: nat) -> LineErrorModel {
    LineErrorModel { message: on_line(text, line), cause: None }
}

/// Whether an error is what a model says.
pub open spec fn line_error_is(e: LineError, m: LineErrorModel) -> bool {
    &&& e.message@ == m.message
    &&& match (e.cause, m.cause) {
        (Some(cause), Some(want)) => cause@ == want,
        (None, None) => true,
        _ => false,
    }
}

/// The edge that a record asks for.
pub open spec fn edge_of(v: Json, line: nat) -> Result<RecordModel, LineErrorModel> {
    match natural_field(v, "source"@) {
        None => Err(fault_on("Missing 'source'"@, line)),
        Some(source) => match natural_field(v, "target"@) {
            None => Err(fault_on("Missing 'target'"@, line)),
            Some(target) => match text_field(v, "edge_type"@) {
                None => Err(fault_on("Missing 'edge_type'"@, line)),
                Some(edge_type) => Ok(
                    RecordModel::Edge { source, target, edge_type, properties: properties_in(v) },
                ),
            },
        },
    }
}

/// What a line asks for, given what its text says as JSON, or what is wrong with it.
pub open spec fn record_of(parsed: Result<Json, Seq<char>>, line: nat) -> Result<
    RecordModel,
    LineErrorModel,
> {
    match parsed {
        Err(cause) => Err(
            LineErrorModel { message: on_line("Invalid JSON"@, line), cause: Some(cause) },
        ),
        Ok(v) => match text_field(v, "type"@) {
            None => Err(fault_on("Unknown record type None"@, line)),
            Some(t) => if t == "node"@ {
                Ok(RecordModel::Node { labels: labels_in(v), properties: properties_in(v) })
            } else if t == "edge"@ {
                edge_of(v, line)
            } else {
                Err(fault_on("Unknown record type Some("@ + debug_of(t) + ")"@, line))
            },
        },
    }
}

/// What a line asks for.
pub open spec fn line_record(text: Seq<char>, line: nat) -> Result<RecordModel, LineErrorModel> {
    if trimmed(text).len() == 0 {
        Ok(RecordModel::Skip)
    } else {
        record_of(json_parsed(trimmed(text)), line)
    }
}

/// Whether a result is what a model says.
pub open spec fn outcome_is(
    r: Result<Record, LineError>,
    m: Result<RecordModel, LineErrorModel>,
) -> bool {
    match (r, m) {
        (Ok(record), Ok(model)) => record_is(record, model),
        (Err(e), Err(model)) => line_error_is(e, model),
        _ => false,
    }
}

/// A record is what a model says only if it asks for the same: a node with the same labels
/// and properties, or an edge with the same ends, type and properties. The properties
/// are in the order of their keys.
pub proof fn law_records_are_what_is_asked(r: Record, m: RecordModel)
    requires
        record_is(r, m),
    ensures
        r is Skip <==> m is Skip,
        r is Node <==> m is Node,
        r is Edge <==> m is Edge,
        r is Node ==> texts(r->labels@) == m->labels && table_of(json_entries(r->Node_properties@))
            == m->Node_properties && ascending(json_entries(r->Node_properties@)),
        r is Edge ==> r->source == m->source && r->target == m->target && r->edge_type@
            == m->edge_type && table_of(json_entries(r->Edge_properties@)) == m->Edge_properties
            && ascending(json_entries(r->Edge_properties@)),
{
}

/// An outcome is what a model says only if both are records or both are errors, and an
/// error only if it says the same and has the same behind it.
pub proof fn law_outcomes_are_what_is_said(
    r: Result<Record, LineError>,
    m: Result<RecordModel, LineErrorModel>,
)
    requires
        outcome_is(r, m),
    ensures
        r is Ok <==> m is Ok,
        r is Ok ==> record_is(r->Ok_0, m->Ok_0),
        r is Err ==> r->Err_0.message@ == m->Err_0.message && (r->Err_0.cause is Some
            <==> m->Err_0.cause is Some),
        r is Err && r->Err_0.cause is Some ==> r->Err_0.cause->0@ == m->Err_0.cause->0,
{
}

/// Only a record of a node counts as a node, and only one of an edge as an edge.
pub proof fn law_what_counts(r: Result<Record, LineError>)
    ensures
        r is Ok && r->Ok_0 is Node ==> nodes_in(r) == 1 && edges_in(r) == 0,
        r is Ok && r->Ok_0 is Edge ==> nodes_in(r) == 0 && edges_in(r) == 1,
        r is Err || r->Ok_0 is Skip ==> nodes_in(r) == 0 && edges_in(r) == 0,
{
}

/// A message about a line.
fn line_text(text: &str, line: u64) -> (r: String)
    ensures
        r@ == on_line(text@, line as nat),
{
    let mut out: String = String::new();
    out.append(text);
    out.append(" on line ");
    push_decimal(&mut out, line);
    assert(out@ =~= on_line(text@, line as nat));
    out
}

/// An error about a line with nothing behind it.
fn line_error(text: &str, line: u64) -> (r: LineError)
    ensures
        line_error_is(r, fault_on(text@, line as nat)),
{
    LineError { message: line_text(text, line), cause: None }
}

/// A string of a record.
fn read_text<'a>(v: &'a JsonTree, key: &str) -> (r: Option<&'a str>)
    ensures
        match r {
            Some(s) => text_field(json_of(*v), key@) == Some(s@),
            None => text_field(json_of(*v), key@) is None,
        },
{
    match json_get(v, key) {
        Some(x) => json_as_str(x),
        None => None,
    }
}

/// An integer of a record.
fn read_natural(v: &JsonTree, key: &str) -> (r: Option<u64>)
    ensures
        r == natural_field(json_of(*v), key@),
{
    match json_get(v, key) {
        Some(x) => json_as_u64(x),
        None => None,
    }
}

/// The labels of a record.
fn read_labels(v: &JsonTree) -> (r: Vec<String>)
    ensures
        texts(r@) == labels_in(json_of(*v)),
{
    let mut out: Vec<String> = Vec::new();
    assert(texts(out@) =~= Seq::<Seq<char>>::empty());
    let items: &Vec<JsonTree> = match json_get(v, "labels") {
        Some(x) => match json_items(x) {
            Some(items) => items,
            None => {
                return out;
            },
        },
        None => {
            return out;
        },
    };
    let ghost list = json_list(items@);
    let mut i: usize = 0;
    assert(list.take(0) =~= Seq::<Json>::empty());
    while i < items.len()
        invariant
            i <= items@.len(),
            list == json_list(items@),
            texts(out@) == texts_in(list.take(i as int)),
        decreases items.len() - i,
    {
        let ghost before = out@;
        assert(list.take(i + 1).drop_last() =~= list.take(i as int));
        assert(list.take(i + 1).last() == json_of(items@[i as int]));
        match json_as_str(&items[i]) {
            Some(s) => {
                out.push(s.to_owned());
                assert(texts(out@) =~= texts(before).push(s@));
            },
            None => {},
        }
        i = i + 1;
    }
    assert(list.take(i as int) =~= list);
    out
}

/// The properties of a record.
fn read_properties(v: &JsonTree) -> (r: Vec<(String, JsonTree)>)
    ensures
        table_of(json_entries(r@)) == properties_in(json_of(*v)),
        ascending(json_entries(r@)),
{
    match json_get(v, "properties") {
        Some(x) => match json_members(x) {
            Some(entries) => {
                return entries;
            },
            None => {},
        },
        None => {},
    }
    let none: Vec<(String, JsonTree)> = Vec::new();
    assert(json_entries(none@) =~= Seq::<(Seq<char>, Json)>::empty());
    none
}

/// The edge that a record asks for.
fn read_edge(v: &JsonTree, line: u64) -> (r: Result<Record, LineError>)
    ensures
        outcome_is(r, edge_of(json_of(*v), line as nat)),
{
    let source: u64 = match read_natural(v, "source") {
        Some(n) => n,
        None => {
            return Err(line_error("Missing 'source'", line));
        },
    };
    let target: u64 = match read_natural(v, "target") {
        Some(n) => n,
        None => {
            return Err(line_error("Missing 'target'", line));
        },
    };
    let edge_type: String = match read_text(v, "edge_type") {
        Some(s) => s.to_owned(),
        None => {
            return Err(line_error("Missing 'edge_type'", line));
        },
    };
    Ok(Record::Edge { source, target, edge_type, properties: read_properties(v) })
}

/// What a line asks for, given what its text says as JSON, or what is wrong with it.
pub fn classify_record(parsed: &Result<JsonTree, String>, line: u64) -> (r: Result<
    Record,
    LineError,
>)
    ensures
        outcome_is(r, record_of(json_result(*parsed), line as nat)),
{
    let v: &JsonTree = match parsed {
        Ok(v) => v,
        Err(e) => {
            let cause: String = e.clone();
            return Err(
                LineError { message: line_text("Invalid JSON", line), cause: Some(cause) },
            );
        },
    };
    let kind: &str = match read_text(v, "type") {
        Some(s) => s,
        None => {
            return Err(line_error("Unknown record type None", line));
        },
    };
    if str_eq(kind, "node") {
        Ok(Record::Node { labels: read_labels(v), properties: read_properties(v) })
    } else if str_eq(kind, "edge") {
        read_edge(v, line)
    } else {
        let mut text: String = String::new();
        text.append("Unknown record type Some(");
        text.append(debug_str(kind).as_str());
        text.append(")");
        proof {
            let want = "Unknown record type Some("@ + debug_of(kind@) + ")"@;
            assert(text@ =~= want);
        }
        Err(line_error(text.as_str(), line))
    }
}

/// How far an import has come.
#[derive(Debug, Clone, Copy)]
pub struct Loader {
    lines: u64,
    nodes: u64,
    edges: u64,
}

/// How many nodes a record makes.
pub open spec fn nodes_in(r: Result<Record, LineError>) -> nat {
    if r matches Ok(Record::Node { .. }) {
        1
    } else {
        0
    }
}

/// How many edges a record makes.
pub open spec fn edges_in(r: Result<Record, LineError>) -> nat {
    if r matches Ok(Record::Edge { .. }) {
        1
    } else {
        0
    }
}

impl Loader {
    /// How many lines were read.
    pub closed spec fn line_count(&self) -> nat {
        self.lines as nat
    }

    /// How many nodes they asked for.
    pub closed spec fn node_count(&self) -> nat {
        self.nodes as nat
    }

    /// How many edges they asked for.
    pub closed spec fn edge_count(&self) -> nat {
        self.edges as nat
    }

    #[verifier::type_invariant]
    spec fn well_formed(&self) -> bool {
        self.nodes + self.edges <= self.lines
    }

    /// The start of an import.
    #[must_use]
    pub fn new() -> (r: Self)
        ensures
            r.line_count() == 0,
            r.node_count() == 0,
            r.edge_count() == 0,
    {
        Self { lines: 0, nodes: 0, edges: 0 }
    }

    /// Takes the next line and says what it asks for.
    pub fn next_line(&mut self, text: &str) -> (r: Result<Record, LineError>)
        requires
            old(self).line_count() < u64::MAX,
        ensures
            outcome_is(r, line_record(text@, old(self).line_count() + 1)),
            final(self).line_count() == old(self).line_count() + 1,
            final(self).node_count() == old(self).node_count() + nodes_in(r),
            final(self).edge_count() == old(self).edge_count() + edges_in(r),
    {
        proof {
            use_type_invariant(&*self);
        }
        let line: u64 = self.lines + 1;
        let trimmed_text: String = trim_text(text);
        let r: Result<Record, LineError> = if trimmed_text.as_str().is_empty() {
            Ok(Record::Skip)
        } else {
            classify_record(&json_parse(trimmed_text.as_str()), line)
        };
        let (nodes, edges) = match &r {
            Ok(Record::Node { .. }) => (self.nodes + 1, self.edges),
            Ok(Record::Edge { .. }) => (self.nodes, self.edges + 1),
            _ => (self.nodes, self.edges),
        };
        *self = Loader { lines: line, nodes, edges };
        r
    }

    /// What to say when the next line cannot be read.
    #[must_use]
    pub fn read_failure(&self) -> (r: String)
        requires
            self.line_count() < u64::MAX,
        ensures
            r@ == "Failed to read line "@ + decimal(self.line_count() + 1),
    {
        let mut out: String = String::new();
        out.append("Failed to read line ");
        push_decimal(&mut out, self.lines + 1);
        assert(out@ =~= "Failed to read line "@ + decimal(self.line_count() + 1));
        out
    }

    /// What to say at the end of an import into a database.
    #[must_use]
    pub fn summary(&self, path: &str) -> (r: String)
        ensures
            r@ == counts_text(
                "Loaded "@,
                self.node_count(),
                self.edge_count(),
                " edges into "@ + path@,
            ),
    {
        let r: String = counts("Loaded ", self.nodes, self.edges, " edges into ", path);
        r
    }
}

/// A message about nodes and edges.
pub open spec fn counts_text(start: Seq<char>, nodes: nat, edges: nat, end: Seq<char>) -> Seq<
    char,
> {
    start + decimal(nodes) + " nodes and "@ + decimal(edges) + end
}

/// A message about nodes and edges.
fn counts(start: &str, nodes: u64, edges: u64, middle: &str, end: &str) -> (r: String)
    ensures
        r@ == counts_text(start@, nodes as nat, edges as nat, middle@ + end@),
{
    let mut out: String = String::new();
    out.append(start);
    push_decimal(&mut out, nodes);
    out.append(" nodes and ");
    push_decimal(&mut out, edges);
    out.append(middle);
    out.append(end);
    assert(out@ =~= counts_text(start@, nodes as nat, edges as nat, middle@ + end@));
    out
}

/// The mark that a format puts behind the path in the message of an export.
pub open spec fn format_mark(format: ExportFormat) -> Seq<char> {
    match format {
        ExportFormat::Json => ""@,
        ExportFormat::Arrow => " (Arrow IPC)"@,
        ExportFormat::Gexf => " (GEXF)"@,
        ExportFormat::Graphml => " (GraphML)"@,
    }
}

/// What to say at the end of an export.
#[must_use]
pub fn export_summary(format: ExportFormat, nodes: usize, edges: usize, path: &str) -> (r: String)
    ensures
        r@ == counts_text(
            "Exported "@,
            nodes as nat,
            edges as nat,
            " edges to "@ + (path@ + format_mark(format)),
        ),
{
    let mark: &str = match format {
        ExportFormat::Json => "",
        ExportFormat::Arrow => " (Arrow IPC)",
        ExportFormat::Gexf => " (GEXF)",
        ExportFormat::Graphml => " (GraphML)",
    };
    let mut end: String = String::new();
    end.append(path);
    end.append(mark);
    assert(end@ =~= path@ + format_mark(format));
    counts("Exported ", nodes as u64, edges as u64, " edges to ", end.as_str())
}

/// A copy of properties.
pub(crate) fn copy_properties(properties: &Vec<(String, JsonTree)>) -> (r: Vec<(String, JsonTree)>)
    ensures
        json_entries(r@) == json_entries(properties@),
{
    let mut out: Vec<(String, JsonTree)> = Vec::new();
    let mut i: usize = 0;
    assert(json_entries(out@) =~= json_entries(properties@).take(0));
    while i < properties.len()
        invariant
            i <= properties@.len(),
            json_entries(out@) == json_entries(properties@).take(i as int),
        decreases properties.len() - i,
    {
        let ghost before = out@;
        let key: String = properties[i].0.clone();
        let value: JsonTree = json_clone(&properties[i].1);
        out.push((key, value));
        proof {
            assert(json_entries(out@) =~= json_entries(before).push(
                json_entries(properties@)[i as int],
            ));
            assert(json_entries(out@) =~= json_entries(properties@).take(i + 1));
        }
        i = i + 1;
    }
    assert(json_entries(out@) =~= json_entries(properties@));
    out
}

/// A list of strings.
fn string_list(strings: &Vec<String>) -> (r: JsonTree)
    ensures
        json_of(r) == text_list(texts(strings@)),
{
    let mut items: Vec<JsonTree> = Vec::new();
    let mut i: usize = 0;
    let ghost goal = texts(strings@).map_values(|s: Seq<char>| Json::Text(s));
    assert(json_list(items@) =~= goal.take(0));
    while i < strings.len()
        invariant
            i <= strings@.len(),
            goal == texts(strings@).map_values(|s: Seq<char>| Json::Text(s)),
            json_list(items@) == goal.take(i as int),
        decreases strings.len() - i,
    {
        let ghost before = items@;
        let item: JsonTree = json_string(strings[i].clone());
        items.push(item);
        proof {
            assert(json_list(items@) =~= json_list(before).push(goal[i as int]));
            assert(json_list(items@) =~= goal.take(i + 1));
        }
        i = i + 1;
    }
    assert(json_list(items@) =~= goal);
    json_array(items)
}

/// Adds an entry.
pub(crate) fn add_entry(entries: &mut Vec<(String, JsonTree)>, key: &str, value: JsonTree)
    ensures
        json_entries(final(entries)@) == json_entries(old(entries)@).push((key@, json_of(value))),
{
    entries.push((key.to_owned(), value));
    assert(json_entries(entries@) =~= json_entries(old(entries)@).push((key@, json_of(value))));
}

/// The record of a node.
#[must_use]
pub fn node_record(node: &DumpNode) -> (r: JsonTree)
    ensures
        json_of(r) == node_json(
            node.id,
            texts(node.labels@),
            table_of(json_entries(node.properties@)),
        ),
        tells_node(
            json_of(r),
            node.id,
            texts(node.labels@),
            table_of(json_entries(node.properties@)),
        ),
        field(json_of(r), "type"@) == Some(Json::Text("node"@)),
        field(json_of(r), "id"@) == Some(Json::Natural(node.id)),
        field(json_of(r), "properties"@) == Some(
            Json::Table(table_of(json_entries(node.properties@))),
        ),
{
    proof {
        law_node_record_tells_the_node(
            node.id,
            texts(node.labels@),
            table_of(json_entries(node.properties@)),
        );
    }
    let mut entries: Vec<(String, JsonTree)> = Vec::new();
    assert(json_entries(entries@) =~= Seq::<(Seq<char>, Json)>::empty());
    add_entry(&mut entries, "type", json_string("node".to_owned()));
    add_entry(&mut entries, "id", json_number(node.id));
    add_entry(&mut entries, "labels", string_list(&node.labels));
    add_entry(&mut entries, "properties", json_object(copy_properties(&node.properties)));
    proof {
        assert(json_entries(entries@) =~= seq![
            ("type"@, Json::Text("node"@)),
            ("id"@, Json::Natural(node.id)),
            ("labels"@, text_list(texts(node.labels@))),
            ("properties"@, Json::Table(table_of(json_entries(node.properties@)))),
        ]);
    }
    json_object(entries)
}

/// The record of an edge.
#[must_use]
pub fn edge_record(edge: &DumpEdge) -> (r: JsonTree)
    ensures
        json_of(r) == edge_json(
            edge.id,
            edge.source,
            edge.target,
            edge.edge_type@,
            table_of(json_entries(edge.properties@)),
        ),
        tells_edge(
            json_of(r),
            edge.id,
            edge.source,
            edge.target,
            edge.edge_type@,
            table_of(json_entries(edge.properties@)),
        ),
        field(json_of(r), "type"@) == Some(Json::Text("edge"@)),
        field(json_of(r), "id"@) == Some(Json::Natural(edge.id)),
        field(json_of(r), "source"@) == Some(Json::Natural(edge.source)),
        field(json_of(r), "target"@) == Some(Json::Natural(edge.target)),
        field(json_of(r), "edge_type"@) == Some(Json::Text(edge.edge_type@)),
        field(json_of(r), "properties"@) == Some(
            Json::Table(table_of(json_entries(edge.properties@))),
        ),
{
    proof {
        law_edge_record_tells_the_edge(
            edge.id,
            edge.source,
            edge.target,
            edge.edge_type@,
            table_of(json_entries(edge.properties@)),
        );
    }
    let mut entries: Vec<(String, JsonTree)> = Vec::new();
    assert(json_entries(entries@) =~= Seq::<(Seq<char>, Json)>::empty());
    add_entry(&mut entries, "type", json_string("edge".to_owned()));
    add_entry(&mut entries, "id", json_number(edge.id));
    add_entry(&mut entries, "source", json_number(edge.source));
    add_entry(&mut entries, "target", json_number(edge.target));
    add_entry(&mut entries, "edge_type", json_string(edge.edge_type.clone()));
    add_entry(&mut entries, "properties", json_object(copy_properties(&edge.properties)));
    proof {
        assert(json_entries(entries@) =~= seq![
            ("type"@, Json::Text("edge"@)),
            ("id"@, Json::Natural(edge.id)),
            ("source"@, Json::Natural(edge.source)),
            ("target"@, Json::Natural(edge.target)),
            ("edge_type"@, Json::Text(edge.edge_type@)),
            ("properties"@, Json::Table(table_of(json_entries(edge.properties@)))),
        ]);
    }
    json_object(entries)
}

/// The keys of records differ.
proof fn lemma_keys_differ()
    ensures
        "type"@ != "id"@,
        "id"@ != "labels"@,
        "id"@ != "properties"@,
        "id"@ != "source"@,
        "id"@ != "target"@,
        "id"@ != "edge_type"@,
        "type"@ != "labels"@,
        "type"@ != "properties"@,
        "type"@ != "source"@,
        "type"@ != "target"@,
        "type"@ != "edge_type"@,
        "labels"@ != "properties"@,
        "source"@ != "target"@,
        "source"@ != "edge_type"@,
        "source"@ != "properties"@,
        "target"@ != "edge_type"@,
        "target"@ != "properties"@,
        "edge_type"@ != "properties"@,
        "node"@ != "edge"@,
{
    reveal_strlit("type");
    reveal_strlit("id");
    reveal_strlit("labels");
    reveal_strlit("properties");
    reveal_strlit("source");
    reveal_strlit("target");
    reveal_strlit("edge_type");
    reveal_strlit("node");
    reveal_strlit("edge");
    assert("id"@[0] == 'i');
    assert("type"@[0] == 't' && "labels"@[0] == 'l' && "properties"@[0] == 'p' && "source"@[0]
        == 's' && "target"@[1] == 'a' && "type"@[1] == 'y' && "edge_type"@[0] == 'e'
        && "target"@[0] == 't' && "node"@[0] == 'n' && "edge"@[0] == 'e');
}

/// The strings of a list of strings are all of them.
proof fn lemma_texts_in_list(strings: Seq<Seq<char>>)
    ensures
        texts_in(strings.map_values(|s: Seq<char>| Json::Text(s))) == strings,
    decreases strings.len(),
{
    let items = strings.map_values(|s: Seq<char>| Json::Text(s));
    if strings.len() > 0 {
        lemma_texts_in_list(strings.drop_last());
        assert(items.drop_last() =~= strings.drop_last().map_values(
            |s: Seq<char>| Json::Text(s),
        ));
        assert(strings.drop_last().push(strings.last()) =~= strings);
    } else {
        assert(texts_in(items) =~= strings);
    }
}

/// Whether a JSON value tells a node: its id, its labels and its properties, each under
/// its own name, and nothing else.
pub open spec fn tells_node(
    v: Json,
    id: u64,
    labels: Seq<Seq<char>>,
    properties: Map<Seq<char>, Json>,
) -> bool {
    &&& field(v, "type"@) == Some(Json::Text("node"@))
    &&& field(v, "id"@) == Some(Json::Natural(id))
    &&& field(v, "labels"@) matches Some(Json::List(items)) && items.len() == labels.len()
        && forall|i: int| 0 <= i < labels.len() ==> #[trigger] items[i] == Json::Text(labels[i])
    &&& field(v, "properties"@) == Some(Json::Table(properties))
    &&& forall|k: Seq<char>| #[trigger]
        has_member(v, k) ==> k == "type"@ || k == "id"@ || k == "labels"@ || k == "properties"@
}

/// Whether a JSON value tells an edge: its own id, those of its source and its target,
/// its type and its properties, each under its own name, and nothing else.
pub open spec fn tells_edge(
    v: Json,
    id: u64,
    source: u64,
    target: u64,
    edge_type: Seq<char>,
    properties: Map<Seq<char>, Json>,
) -> bool {
    &&& field(v, "type"@) == Some(Json::Text("edge"@))
    &&& field(v, "id"@) == Some(Json::Natural(id))
    &&& field(v, "source"@) == Some(Json::Natural(source))
    &&& field(v, "target"@) == Some(Json::Natural(target))
    &&& field(v, "edge_type"@) == Some(Json::Text(edge_type))
    &&& field(v, "properties"@) == Some(Json::Table(properties))
    &&& forall|k: Seq<char>| #[trigger]
        has_member(v, k) ==> k == "type"@ || k == "id"@ || k == "source"@ || k == "target"@ || k
            == "edge_type"@ || k == "properties"@
}

/// The record of a node tells the node.
pub proof fn law_node_record_tells_the_node(
    id: u64,
    labels: Seq<Seq<char>>,
    properties: Map<Seq<char>, Json>,
)
    ensures
        tells_node(node_json(id, labels, properties), id, labels, properties),
        field(node_json(id, labels, properties), "type"@) == Some(Json::Text("node"@)),
        field(node_json(id, labels, properties), "id"@) == Some(Json::Natural(id)),
        field(node_json(id, labels, properties), "labels"@) == Some(
            Json::List(labels.map_values(|s: Seq<char>| Json::Text(s))),
        ),
        field(node_json(id, labels, properties), "properties"@) == Some(Json::Table(properties)),
{
    lemma_keys_differ();
    let entries = seq![
        ("type"@, Json::Text("node"@)),
        ("id"@, Json::Natural(id)),
        ("labels"@, text_list(labels)),
        ("properties"@, Json::Table(properties)),
    ];
    let v = node_json(id, labels, properties);
    assert(v == Json::Table(table_of(entries)));
    lemma_distinct_entries(entries, 0);
    lemma_distinct_entries(entries, 1);
    lemma_distinct_entries(entries, 2);
    lemma_distinct_entries(entries, 3);
    law_last_entry_counts(entries, 0);
    assert forall|k: Seq<char>| #[trigger] has_member(v, k) implies k == "type"@ || k == "id"@ || k
        == "labels"@ || k == "properties"@ by {
        assert(table_of(entries).dom().contains(k));
        let j = choose|j: int| #![trigger entries[j]] 0 <= j < entries.len() && entries[j].0 == k;
        assert(entries[j].0 == k);
    }
}

/// The record of an edge tells the edge: its own id, and those of its ends.
pub proof fn law_edge_record_tells_the_edge(
    id: u64,
    source: u64,
    target: u64,
    edge_type: Seq<char>,
    properties: Map<Seq<char>, Json>,
)
    ensures
        tells_edge(
            edge_json(id, source, target, edge_type, properties),
            id,
            source,
            target,
            edge_type,
            properties,
        ),
        field(edge_json(id, source, target, edge_type, properties), "type"@) == Some(
            Json::Text("edge"@),
        ),
        field(edge_json(id, source, target, edge_type, properties), "id"@) == Some(
            Json::Natural(id),
        ),
        field(edge_json(id, source, target, edge_type, properties), "source"@) == Some(
            Json::Natural(source),
        ),
        field(edge_json(id, source, target, edge_type, properties), "target"@) == Some(
            Json::Natural(target),
        ),
        field(edge_json(id, source, target, edge_type, properties), "edge_type"@) == Some(
            Json::Text(edge_type),
        ),
        field(edge_json(id, source, target, edge_type, properties), "properties"@) == Some(
            Json::Table(properties),
        ),
{
    lemma_keys_differ();
    let entries = seq![
        ("type"@, Json::Text("edge"@)),
        ("id"@, Json::Natural(id)),
        ("source"@, Json::Natural(source)),
        ("target"@, Json::Natural(target)),
        ("edge_type"@, Json::Text(edge_type)),
        ("properties"@, Json::Table(properties)),
    ];
    let v = edge_json(id, source, target, edge_type, properties);
    assert(v == Json::Table(table_of(entries)));
    lemma_distinct_entries(entries, 0);
    lemma_distinct_entries(entries, 1);
    lemma_distinct_entries(entries, 2);
    lemma_distinct_entries(entries, 3);
    lemma_distinct_entries(entries, 4);
    lemma_distinct_entries(entries, 5);
    law_last_entry_counts(entries, 0);
    assert forall|k: Seq<char>| #[trigger] has_member(v, k) implies k == "type"@ || k == "id"@ || k
        == "source"@ || k == "target"@ || k == "edge_type"@ || k == "properties"@ by {
        assert(table_of(entries).dom().contains(k));
        let j = choose|j: int| #![trigger entries[j]] 0 <= j < entries.len() && entries[j].0 == k;
        assert(entries[j].0 == k);
    }
}

/// Records are told apart: two edges with the same record agree in their ids, their
/// ends, their types and their properties, two nodes in their ids, labels and
/// properties, and the record of a node is never that of an edge.
pub proof fn law_records_are_told_apart(
    a: (u64, u64, u64, Seq<char>, Map<Seq<char>, Json>),
    b: (u64, u64, u64, Seq<char>, Map<Seq<char>, Json>),
    m: (u64, Seq<Seq<char>>, Map<Seq<char>, Json>),
    n: (u64, Seq<Seq<char>>, Map<Seq<char>, Json>),
)
    ensures
        edge_json(a.0, a.1, a.2, a.3, a.4) == edge_json(b.0, b.1, b.2, b.3, b.4) ==> a == b,
        node_json(m.0, m.1, m.2) == node_json(n.0, n.1, n.2) ==> m.0 == n.0 && m.1 =~= n.1 && m.2
            == n.2,
        node_json(m.0, m.1, m.2) != edge_json(a.0, a.1, a.2, a.3, a.4),
{
    lemma_keys_differ();
    law_edge_record_tells_the_edge(a.0, a.1, a.2, a.3, a.4);
    law_edge_record_tells_the_edge(b.0, b.1, b.2, b.3, b.4);
    law_node_record_tells_the_node(m.0, m.1, m.2);
    law_node_record_tells_the_node(n.0, n.1, n.2);
    if node_json(m.0, m.1, m.2) == node_json(n.0, n.1, n.2) {
        let items = field(node_json(m.0, m.1, m.2), "labels"@)->0->List_0;
        assert forall|i: int| 0 <= i < m.1.len() implies m.1[i] == n.1[i] by {
            assert(items[i] == Json::Text(m.1[i]));
            assert(items[i] == Json::Text(n.1[i]));
        }
    }
}

/// What a record asks for. One of type "node" asks for a node with the strings of its
/// list of labels and with its object of properties; one of type "edge" for an edge
/// between its source and its target, with its type and its properties. What an edge
/// lacks is told, the source first, and so is a type that is neither.
pub proof fn law_what_a_record_asks_for(v: Json, line: nat)
    ensures
        ({
            let asked = record_of(Ok(v), line);
            let source = field(v, "source"@);
            let target = field(v, "target"@);
            let edge_type = field(v, "edge_type"@);
            let fault = |text: Seq<char>|
                Err::<RecordModel, LineErrorModel>(
                    LineErrorModel { message: text + " on line "@ + decimal(line), cause: None },
                );
            let has_source = source is Some && source->0 is Natural;
            let has_target = target is Some && target->0 is Natural;
            let has_type = edge_type is Some && edge_type->0 is Text;
            let has_properties = field(v, "properties"@) is Some && field(v, "properties"@)->0
                is Table;
            let properties = if has_properties {
                field(v, "properties"@)->0->Table_0
            } else {
                Map::<Seq<char>, Json>::empty()
            };
            let has_labels = field(v, "labels"@) is Some && field(v, "labels"@)->0 is List;
            let kind = field(v, "type"@);
            let has_kind = kind is Some && kind->0 is Text;
            &&& kind == Some(Json::Text("node"@)) ==> {
                &&& asked is Ok && asked->Ok_0 is Node
                &&& asked->Ok_0->Node_properties == properties
                &&& !has_labels ==> asked->Ok_0->labels.len() == 0
                &&& has_labels ==> forall|s: Seq<char>| #[trigger]
                    asked->Ok_0->labels.contains(s) <==> field(
                        v,
                        "labels"@,
                    )->0->List_0.contains(Json::Text(s))
            }
            &&& kind == Some(Json::Text("edge"@)) && !has_source ==> asked == fault(
                "Missing 'source'"@,
            )
            &&& kind == Some(Json::Text("edge"@)) && has_source && !has_target ==> asked == fault(
                "Missing 'target'"@,
            )
            &&& kind == Some(Json::Text("edge"@)) && has_source && has_target && !has_type
                ==> asked == fault("Missing 'edge_type'"@)
            &&& kind == Some(Json::Text("edge"@)) && has_source && has_target && has_type ==> {
                &&& asked is Ok && asked->Ok_0 is Edge
                &&& asked->Ok_0->source == source->0->Natural_0
                &&& asked->Ok_0->target == target->0->Natural_0
                &&& asked->Ok_0->edge_type == edge_type->0->Text_0
                &&& asked->Ok_0->Edge_properties == properties
            }
            &&& !has_kind ==> asked == fault("Unknown record type None"@)
            &&& has_kind && kind->0->Text_0 != "node"@ && kind->0->Text_0 != "edge"@ ==> asked
                == fault("Unknown record type Some("@ + debug_of(kind->0->Text_0) + ")"@)
        }),
{
    lemma_keys_differ();
    if let Some(Json::List(items)) = field(v, "labels"@) {
        lemma_texts_in(items);
    }
}

proof fn lemma_texts_in(items: Seq<Json>)
    ensures
        forall|s: Seq<char>| #[trigger]
            texts_in(items).contains(s) <==> items.contains(Json::Text(s)),
    decreases items.len(),
{
    if items.len() > 0 {
        let front = items.drop_last();
        lemma_texts_in(front);
        assert(items =~= front.push(items.last()));
        assert forall|s: Seq<char>| #[trigger]
            texts_in(items).contains(s) <==> items.contains(Json::Text(s)) by {
            vstd::seq_lib::lemma_seq_contains_after_push(front, items.last(), Json::Text(s));
            if let Json::Text(last) = items.last() {
                vstd::seq_lib::lemma_seq_contains_after_push(texts_in(front), last, s);
            }
        }
    }
}

/// A line that is no JSON is told with its number and with what is wrong with it, and
/// a blank line asks for nothing.
pub proof fn law_lines_that_are_no_record(text: Seq<char>, line: nat)
    ensures
        trimmed(text).len() == 0 ==> line_record(text, line) == Ok::<RecordModel, LineErrorModel>(
            RecordModel::Skip,
        ),
        trimmed(text).len() > 0 && json_parsed(trimmed(text)) is Err ==> line_record(text, line)
            == Err::<RecordModel, LineErrorModel>(
            LineErrorModel {
                message: "Invalid JSON on line "@ + decimal(line),
                cause: Some(json_parsed(trimmed(text))->Err_0),
            },
        ),
{
    reveal_strlit("Invalid JSON");
    reveal_strlit(" on line ");
    reveal_strlit("Invalid JSON on line ");
    assert("Invalid JSON"@ + " on line "@ =~= "Invalid JSON on line "@);
    assert("Invalid JSON"@ + " on line "@ + decimal(line) =~= "Invalid JSON on line "@ + decimal(
        line,
    ));
}

/// The format that a name asks for: each name of the list that the message gives asks
/// for the format of that name, as do the other names of JSON lines and of Arrow, and
/// no other name asks for any.
pub proof fn law_names_of_formats(name: Seq<char>)
    ensures
        format_named(Some("json"@)) == Some(ExportFormat::Json),
        format_named(Some("jsonl"@)) == Some(ExportFormat::Json),
        format_named(Some("arrow"@)) == Some(ExportFormat::Arrow),
        format_named(Some("arrow-ipc"@)) == Some(ExportFormat::Arrow),
        format_named(Some("ipc"@)) == Some(ExportFormat::Arrow),
        format_named(Some("gexf"@)) == Some(ExportFormat::Gexf),
        format_named(Some("graphml"@)) == Some(ExportFormat::Graphml),
        format_named(None) == Some(ExportFormat::Json),
        name != "json"@ && name != "jsonl"@ && name != "arrow"@ && name != "arrow-ipc"@ && name
            != "ipc"@ && name != "gexf"@ && name != "graphml"@ ==> format_named(Some(name)) is None,
{
    reveal_strlit("json");
    reveal_strlit("jsonl");
    reveal_strlit("arrow");
    reveal_strlit("arrow-ipc");
    reveal_strlit("ipc");
    reveal_strlit("gexf");
    reveal_strlit("graphml");
    assert("json"@.len() == 4 && "jsonl"@.len() == 5 && "arrow"@.len() == 5 && "arrow-ipc"@.len()
        == 9 && "ipc"@.len() == 3 && "gexf"@.len() == 4 && "graphml"@.len() == 7);
    assert("json"@[0] == 'j' && "gexf"@[0] == 'g' && "jsonl"@[0] == 'j' && "arrow"@[0] == 'a');
}

/// A summary tells the nodes first and the edges second, each before its own word.
pub proof fn law_summaries_tell_both_counts(
    start: Seq<char>,
    nodes: nat,
    edges: nat,
    end: Seq<char>,
)
    ensures
        counts_text(start, nodes, edges, " edges"@ + end) == start + (decimal(nodes) + " nodes"@)
            + " and "@ + (decimal(edges) + " edges"@) + end,
        format_mark(ExportFormat::Json) == Seq::<char>::empty(),
        format_mark(ExportFormat::Arrow) == " (Arrow IPC)"@,
        format_mark(ExportFormat::Gexf) == " (GEXF)"@,
        format_mark(ExportFormat::Graphml) == " (GraphML)"@,
{
    reveal_strlit("");
    reveal_strlit(" nodes");
    reveal_strlit(" and ");
    reveal_strlit(" nodes and ");
    assert(" nodes"@ + " and "@ =~= " nodes and "@);
    assert(counts_text(start, nodes, edges, " edges"@ + end) =~= start + (decimal(nodes)
        + " nodes"@) + " and "@ + (decimal(edges) + " edges"@) + end);
}

/// The record of a node asks for that node.
pub proof fn law_node_record_is_read(
    id: u64,
    labels: Seq<Seq<char>>,
    properties: Map<Seq<char>, Json>,
    line: nat,
)
    ensures
        record_of(Ok(node_json(id, labels, properties)), line) == Ok::<RecordModel, LineErrorModel>(
            RecordModel::Node { labels, properties },
        ),
{
    lemma_keys_differ();
    lemma_texts_in_list(labels);
    let entries = seq![
        ("type"@, Json::Text("node"@)),
        ("id"@, Json::Natural(id)),
        ("labels"@, text_list(labels)),
        ("properties"@, Json::Table(properties)),
    ];
    reveal_with_fuel(table_of, 5);
    let a = entries.drop_last();
    let b = a.drop_last();
    let c = b.drop_last();
    assert(entries.last() == ("properties"@, Json::Table(properties)));
    assert(a.last() == ("labels"@, text_list(labels)));
    assert(b.last() == ("id"@, Json::Natural(id)));
    assert(c.last() == ("type"@, Json::Text("node"@)));
    let v = node_json(id, labels, properties);
    assert(field(v, "type"@) == Some(Json::Text("node"@)));
    assert(field(v, "labels"@) == Some(text_list(labels)));
    assert(field(v, "properties"@) == Some(Json::Table(properties)));
}

/// The record of an edge asks for that edge.
pub proof fn law_edge_record_is_read(
    id: u64,
    source: u64,
    target: u64,
    edge_type: Seq<char>,
    properties: Map<Seq<char>, Json>,
    line: nat,
)
    ensures
        record_of(
            Ok(edge_json(id, source, target, edge_type, properties)),
            line,
        ) == Ok::<RecordModel, LineErrorModel>(
            RecordModel::Edge { source, target, edge_type, properties },
        ),
{
    lemma_keys_differ();
    let entries = seq![
        ("type"@, Json::Text("edge"@)),
        ("id"@, Json::Natural(id)),
        ("source"@, Json::Natural(source)),
        ("target"@, Json::Natural(target)),
        ("edge_type"@, Json::Text(edge_type)),
        ("properties"@, Json::Table(properties)),
    ];
    reveal_with_fuel(table_of, 7);
    let a = entries.drop_last();
    let b = a.drop_last();
    let c = b.drop_last();
    let d = c.drop_last();
    let e = d.drop_last();
    assert(entries.last() == ("properties"@, Json::Table(properties)));
    assert(a.last() == ("edge_type"@, Json::Text(edge_type)));
    assert(b.last() == ("target"@, Json::Natural(target)));
    assert(c.last() == ("source"@, Json::Natural(source)));
    assert(d.last() == ("id"@, Json::Natural(id)));
    assert(e.last() == ("type"@, Json::Text("edge"@)));
    let v = edge_json(id, source, target, edge_type, properties);
    assert(field(v, "type"@) == Some(Json::Text("edge"@)));
    assert(field(v, "source"@) == Some(Json::Natural(source)));
    assert(field(v, "target"@) == Some(Json::Natural(target)));
    assert(field(v, "edge_type"@) == Some(Json::Text(edge_type)));
    assert(field(v, "properties"@) == Some(Json::Table(properties)));
}

/// A text in braces is not trimmed.
proof fn lemma_braces_stay(text: Seq<char>)
    requires
        text.len() >= 2,
        text[0] == '{',
        text.last() == '}',
    ensures
        trimmed(text) == text,
{
    assert(!is_space('{') && !is_space('}'));
    assert(strip_front(text, Strip::Space) == text);
    assert(strip_back(text, Strip::Space) == text);
}

/// What a plain object holds is plain.
proof fn lemma_plain_member(m: Map<Seq<char>, Json>, depth: nat, k: Seq<char>)
    requires
        is_plain(Json::Table(m), depth),
        m.dom().contains(k),
    ensures
        depth > 0,
        is_plain(m[k], (depth - 1) as nat),
{
    let v = Json::Table(m);
    assert(v->Table_0[k] == m[k]);
}

/// A record whose properties are plain is plain.
proof fn lemma_record_plain(entries: Seq<(Seq<char>, Json)>, depth: nat)
    requires
        depth > 0,
        forall|i: int| #![trigger entries[i]]
            0 <= i < entries.len() ==> is_plain(entries[i].1, (depth - 1) as nat),
    ensures
        is_plain(Json::Table(table_of(entries)), depth),
    decreases entries.len(),
{
    let m = table_of(entries);
    if entries.len() > 0 {
        let rest = entries.drop_last();
        lemma_record_plain(rest, depth);
        assert forall|k: Seq<char>| #![trigger m[k]] m.dom().contains(k) implies is_plain(
            m[k],
            (depth - 1) as nat,
        ) by {
            if k != entries.last().0 {
                assert(table_of(rest).dom().contains(k));
                lemma_plain_member(table_of(rest), depth, k);
                assert(m[k] == table_of(rest)[k]);
            } else {
                assert(entries[entries.len() - 1].0 == k);
                assert(is_plain(entries[entries.len() - 1].1, (depth - 1) as nat));
                assert(m[k] == entries[entries.len() - 1].1);
            }
        }
    }
}

/// A list of strings is plain.
proof fn lemma_text_list_plain(strings: Seq<Seq<char>>)
    ensures
        is_plain(text_list(strings), 126),
{
    reveal_with_fuel(is_plain, 2);
}

/// The line of a node. It has no line break, and reading it asks for that node, if
/// its properties have no doubles and few enough levels.
#[must_use]
pub fn node_line(node: &DumpNode) -> (r: String)
    ensures
        r@ == json_written(
            node_json(node.id, texts(node.labels@), table_of(json_entries(node.properties@))),
        ),
        forall|i: int| 0 <= i < r@.len() ==> #[trigger] r@[i] >= ' ',
        survives(node.properties@) ==> asks_for_node(r@, *node) && line_tells_node(r@, *node),
        survives(node.properties@) ==> json_parsed(r@) is Ok && field(
            json_parsed(r@)->Ok_0,
            "id"@,
        ) == Some(Json::Natural(node.id)),
{
    let record: JsonTree = node_record(node);
    let r: String = json_write(&record);
    proof {
        let labels = texts(node.labels@);
        let properties = table_of(json_entries(node.properties@));
        lemma_braces_stay(r@);
        if is_plain(Json::Table(properties), 126) {
            lemma_text_list_plain(labels);
            lemma_record_plain(
                seq![
                    ("type"@, Json::Text("node"@)),
                    ("id"@, Json::Natural(node.id)),
                    ("labels"@, text_list(labels)),
                    ("properties"@, Json::Table(properties)),
                ],
                127,
            );
            assert forall|line: nat| #[trigger] line_record(r@, line) == Ok::<
                RecordModel,
                LineErrorModel,
            >(RecordModel::Node { labels, properties }) by {
                law_node_record_is_read(node.id, labels, properties, line);
            }
        }
    }
    r
}

/// The line of an edge. It has no line break, and reading it asks for that edge, if
/// its properties have no doubles and few enough levels.
#[must_use]
pub fn edge_line(edge: &DumpEdge) -> (r: String)
    ensures
        r@ == json_written(
            edge_json(
                edge.id,
                edge.source,
                edge.target,
                edge.edge_type@,
                table_of(json_entries(edge.properties@)),
            ),
        ),
        forall|i: int| 0 <= i < r@.len() ==> #[trigger] r@[i] >= ' ',
        survives(edge.properties@) ==> asks_for_edge(r@, *edge) && line_tells_edge(r@, *edge),
        survives(edge.properties@) ==> json_parsed(r@) is Ok && field(
            json_parsed(r@)->Ok_0,
            "id"@,
        ) == Some(Json::Natural(edge.id)) && field(json_parsed(r@)->Ok_0, "source"@) == Some(
            Json::Natural(edge.source),
        ) && field(json_parsed(r@)->Ok_0, "target"@) == Some(Json::Natural(edge.target)),
{
    let record: JsonTree = edge_record(edge);
    let r: String = json_write(&record);
    proof {
        let properties = table_of(json_entries(edge.properties@));
        lemma_braces_stay(r@);
        if is_plain(Json::Table(properties), 126) {
            lemma_record_plain(
                seq![
                    ("type"@, Json::Text("edge"@)),
                    ("id"@, Json::Natural(edge.id)),
                    ("source"@, Json::Natural(edge.source)),
                    ("target"@, Json::Natural(edge.target)),
                    ("edge_type"@, Json::Text(edge.edge_type@)),
                    ("properties"@, Json::Table(properties)),
                ],
                127,
            );
            assert forall|line: nat| #[trigger] line_record(r@, line) == Ok::<
                RecordModel,
                LineErrorModel,
            >(
                RecordModel::Edge {
                    source: edge.source,
                    target: edge.target,
                    edge_type: edge.edge_type@,
                    properties,
                },
            ) by {
                law_edge_record_is_read(
                    edge.id,
                    edge.source,
                    edge.target,
                    edge.edge_type@,
                    properties,
                    line,
                );
            }
        }
    }
    r
}

/// The lines of nodes.
pub open spec fn node_lines(nodes: Seq<DumpNode>) -> Seq<char>
    decreases nodes.len(),
{
    if nodes.len() == 0 {
        Seq::empty()
    } else {
        let n = nodes.last();
        node_lines(nodes.drop_last()) + json_written(
            node_json(n.id, texts(n.labels@), table_of(json_entries(n.properties@))),
        ) + "\n"@
    }
}

/// The lines of edges.
pub open spec fn edge_lines(edges: Seq<DumpEdge>) -> Seq<char>
    decreases edges.len(),
{
    if edges.len() == 0 {
        Seq::empty()
    } else {
        let e = edges.last();
        edge_lines(edges.drop_last()) + json_written(
            edge_json(
                e.id,
                e.source,
                e.target,
                e.edge_type@,
                table_of(json_entries(e.properties@)),
            ),
        ) + "\n"@
    }
}

/// The node that a line asks for.
pub open spec fn asks_for_node(line: Seq<char>, node: DumpNode) -> bool {
    forall|n: nat| #[trigger]
        line_record(line, n) == Ok::<RecordModel, LineErrorModel>(
            RecordModel::Node {
                labels: texts(node.labels@),
                properties: table_of(json_entries(node.properties@)),
            },
        )
}

/// The edge that a line asks for.
pub open spec fn asks_for_edge(line: Seq<char>, edge: DumpEdge) -> bool {
    forall|n: nat| #[trigger]
        line_record(line, n) == Ok::<RecordModel, LineErrorModel>(
            RecordModel::Edge {
                source: edge.source,
                target: edge.target,
                edge_type: edge.edge_type@,
                properties: table_of(json_entries(edge.properties@)),
            },
        )
}

/// Whether a line is JSON that tells a node.
pub open spec fn line_tells_node(line: Seq<char>, node: DumpNode) -> bool {
    json_parsed(line) matches Ok(v) && tells_node(
        v,
        node.id,
        texts(node.labels@),
        table_of(json_entries(node.properties@)),
    )
}

/// Whether a line is JSON that tells an edge.
pub open spec fn line_tells_edge(line: Seq<char>, edge: DumpEdge) -> bool {
    json_parsed(line) matches Ok(v) && tells_edge(
        v,
        edge.id,
        edge.source,
        edge.target,
        edge.edge_type@,
        table_of(json_entries(edge.properties@)),
    )
}

/// Whether reading properties gives them back: they have no doubles and few enough
/// levels.
pub open spec fn survives(properties: Seq<(String, JsonTree)>) -> bool {
    is_plain(Json::Table(table_of(json_entries(properties))), 126)
}

/// An export: a line for each node and then for each edge. What is exported is
/// imported again: line by line it asks for those nodes and then for those edges.
#[must_use]
pub fn dump_jsonl(nodes: &Vec<DumpNode>, edges: &Vec<DumpEdge>) -> (r: String)
    ensures
        r@ == node_lines(nodes@) + edge_lines(edges@),
        split_at_char(r@, '\n').len() == nodes@.len() + edges@.len() + 1,
        split_at_char(r@, '\n').last() == Seq::<char>::empty(),
        forall|i: int| #![trigger nodes@[i]]
            0 <= i < nodes@.len() && survives(nodes@[i].properties@) ==> asks_for_node(
                split_at_char(r@, '\n')[i],
                nodes@[i],
            ) && line_tells_node(split_at_char(r@, '\n')[i], nodes@[i]),
        forall|i: int| #![trigger edges@[i]]
            0 <= i < edges@.len() && survives(edges@[i].properties@) ==> asks_for_edge(
                split_at_char(r@, '\n')[nodes@.len() + i],
                edges@[i],
            ) && line_tells_edge(split_at_char(r@, '\n')[nodes@.len() + i], edges@[i]),
{
    let mut out: String = String::new();
    let mut i: usize = 0;
    proof {
        reveal_strlit("\n");
        assert(out@ =~= node_lines(nodes@.take(0)));
        assert("\n"@ =~= seq!['\n']);
    }
    while i < nodes.len()
        invariant
            i <= nodes@.len(),
            "\n"@ == seq!['\n'],
            out@ == node_lines(nodes@.take(i as int)),
            split_at_char(out@, '\n').len() == i + 1,
            split_at_char(out@, '\n').last() == Seq::<char>::empty(),
            forall|k: int| #![trigger nodes@[k]]
                0 <= k < i && survives(nodes@[k].properties@) ==> asks_for_node(
                    split_at_char(out@, '\n')[k],
                    nodes@[k],
                ) && line_tells_node(split_at_char(out@, '\n')[k], nodes@[k]),
        decreases nodes.len() - i,
    {
        let ghost before = out@;
        let line: String = node_line(&nodes[i]);
        out.append(line.as_str());
        out.append("\n");
        proof {
            assert(nodes@.take(i + 1).drop_last() =~= nodes@.take(i as int));
            assert(out@ =~= node_lines(nodes@.take(i + 1)));
            assert(out@ =~= before + line@ + seq!['\n']);
            lemma_split_line(before, line@, '\n');
        }
        i = i + 1;
    }
    assert(nodes@.take(i as int) =~= nodes@);
    let ghost first = out@;
    let mut j: usize = 0;
    assert(out@ =~= first + edge_lines(edges@.take(0)));
    while j < edges.len()
        invariant
            j <= edges@.len(),
            "\n"@ == seq!['\n'],
            out@ == first + edge_lines(edges@.take(j as int)),
            split_at_char(out@, '\n').len() == nodes@.len() + j + 1,
            split_at_char(out@, '\n').last() == Seq::<char>::empty(),
            forall|k: int| #![trigger nodes@[k]]
                0 <= k < nodes@.len() && survives(nodes@[k].properties@) ==> asks_for_node(
                    split_at_char(out@, '\n')[k],
                    nodes@[k],
                ) && line_tells_node(split_at_char(out@, '\n')[k], nodes@[k]),
            forall|k: int| #![trigger edges@[k]]
                0 <= k < j && survives(edges@[k].properties@) ==> asks_for_edge(
                    split_at_char(out@, '\n')[nodes@.len() + k],
                    edges@[k],
                ) && line_tells_edge(split_at_char(out@, '\n')[nodes@.len() + k], edges@[k]),
        decreases edges.len() - j,
    {
        let ghost before = out@;
        let line: String = edge_line(&edges[j]);
        out.append(line.as_str());
        out.append("\n");
        proof {
            assert(edges@.take(j + 1).drop_last() =~= edges@.take(j as int));
            assert(out@ =~= first + edge_lines(edges@.take(j + 1)));
            assert(out@ =~= before + line@ + seq!['\n']);
            lemma_split_line(before, line@, '\n');
        }
        j = j + 1;
    }
    assert(edges@.take(j as int) =~= edges@);
    out
}

} // verus!
