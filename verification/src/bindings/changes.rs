//! Change events as JSON.

use serde_json::Value as JsonTree;
use vstd::prelude::*;

use crate::cli::data::{add_entry, copy_properties};
use crate::json::json_object;
use crate::json::Json;
use crate::json::{field, has_member, law_last_entry_counts, lemma_distinct_entries, table_of};
use crate::trusted::json::{json_entries, json_of};
use crate::trusted::json::{json_null, json_number, json_string};

verus! {

/// What happened to a node or an edge.
#[derive(Debug, Clone, Copy, PartialEq, Eq, Structural)]
pub enum ChangeKind {
    /// It was created.
    Create,
    /// It was changed.
    Update,
    /// It was deleted.
    Delete,
    /// Something else.
    Unknown,
}

/// A change of a node or an edge.
#[derive(Debug)]
pub struct ChangeEvent {
    /// The id of the node or edge.
    pub entity_id: u64,
    /// Whether it is a node.
    pub is_node: bool,
    /// What happened to it.
    pub kind: ChangeKind,
    /// The epoch of the change.
    pub epoch: u64,
    /// The time of the change.
    pub timestamp: u64,
    /// The properties before the change, if there were any to tell.
    pub before: Option<Vec<(String, JsonTree)>>,
    /// The properties after the change, if there are any to tell.
    pub after: Option<Vec<(String, JsonTree)>>,
}

/// The name of a kind of change.
pub open spec fn kind_name(kind: ChangeKind) -> Seq<char> {
    match kind {
        ChangeKind::Create => "create"@,
        ChangeKind::Update => "update"@,
        ChangeKind::Delete => "delete"@,
        ChangeKind::Unknown => "unknown"@,
    }
}

/// Properties as an object, or null if there are none to tell.
pub open spec fn properties_json(properties: Option<Vec<(String, JsonTree)>>) -> Json {
    match properties {
        Some(p) => Json::Table(table_of(json_entries(p@))),
        None => Json::Null,
    }
}

/// A change as an object.
pub open spec fn event_json(event: ChangeEvent) -> Json {
    Json::Table(
        table_of(
            seq![
                ("entity_id"@, Json::Natural(event.entity_id)),
                (
                    "entity_type"@,
                    Json::Text(
                        if event.is_node {
                            "node"@
                        } else {
                            "edge"@
                        },
                    ),
                ),
                ("kind"@, Json::Text(kind_name(event.kind))),
                ("epoch"@, Json::Natural(event.epoch)),
                ("timestamp"@, Json::Natural(event.timestamp)),
                ("before"@, properties_json(event.before)),
                ("after"@, properties_json(event.after)),
            ],
        ),
    )
}

/// Properties as an object, or null if there are none to tell.
fn properties_value(properties: &Option<Vec<(String, JsonTree)>>) -> (r: JsonTree)
    ensures
        json_of(r) == properties_json(*properties),
{
    match properties {
        Some(p) => json_object(copy_properties(p)),
        None => json_null(),
    }
}

/// Whether a JSON value tells a change: under each name what the change has there, and
/// nothing else.
pub open spec fn tells_change(v: Json, event: ChangeEvent) -> bool {
    &&& field(v, "entity_id"@) == Some(Json::Natural(event.entity_id))
    &&& event.is_node ==> field(v, "entity_type"@) == Some(Json::Text("node"@))
    &&& !event.is_node ==> field(v, "entity_type"@) == Some(Json::Text("edge"@))
    &&& event.kind is Create ==> field(v, "kind"@) == Some(Json::Text("create"@))
    &&& event.kind is Update ==> field(v, "kind"@) == Some(Json::Text("update"@))
    &&& event.kind is Delete ==> field(v, "kind"@) == Some(Json::Text("delete"@))
    &&& event.kind is Unknown ==> field(v, "kind"@) == Some(Json::Text("unknown"@))
    &&& field(v, "epoch"@) == Some(Json::Natural(event.epoch))
    &&& field(v, "timestamp"@) == Some(Json::Natural(event.timestamp))
    &&& event.before is None ==> field(v, "before"@) == Some(Json::Null)
    &&& event.after is None ==> field(v, "after"@) == Some(Json::Null)
    &&& event.before matches Some(p) ==> field(v, "before"@) == Some(
        Json::Table(table_of(json_entries(p@))),
    )
    &&& event.after matches Some(p) ==> field(v, "after"@) == Some(
        Json::Table(table_of(json_entries(p@))),
    )
    &&& forall|k: Seq<char>| #[trigger]
        has_member(v, k) ==> k == "entity_id"@ || k == "entity_type"@ || k == "kind"@ || k
            == "epoch"@ || k == "timestamp"@ || k == "before"@ || k == "after"@
}

/// The names in the object of a change differ, and so do the names of kinds.
proof fn lemma_names_differ()
    ensures
        "entity_id"@ != "entity_type"@,
        "entity_id"@ != "kind"@,
        "entity_id"@ != "epoch"@,
        "entity_id"@ != "timestamp"@,
        "entity_id"@ != "before"@,
        "entity_id"@ != "after"@,
        "entity_type"@ != "kind"@,
        "entity_type"@ != "epoch"@,
        "entity_type"@ != "timestamp"@,
        "entity_type"@ != "before"@,
        "entity_type"@ != "after"@,
        "kind"@ != "epoch"@,
        "kind"@ != "timestamp"@,
        "kind"@ != "before"@,
        "kind"@ != "after"@,
        "epoch"@ != "timestamp"@,
        "epoch"@ != "before"@,
        "epoch"@ != "after"@,
        "timestamp"@ != "before"@,
        "timestamp"@ != "after"@,
        "before"@ != "after"@,
        "node"@ != "edge"@,
        "create"@ != "update"@,
        "create"@ != "delete"@,
        "create"@ != "unknown"@,
        "update"@ != "delete"@,
        "update"@ != "unknown"@,
        "delete"@ != "unknown"@,
{
    reveal_strlit("entity_id");
    reveal_strlit("entity_type");
    reveal_strlit("kind");
    reveal_strlit("epoch");
    reveal_strlit("timestamp");
    reveal_strlit("before");
    reveal_strlit("after");
    reveal_strlit("node");
    reveal_strlit("edge");
    reveal_strlit("create");
    reveal_strlit("update");
    reveal_strlit("delete");
    reveal_strlit("unknown");
    assert("entity_id"@.len() == 9 && "entity_type"@.len() == 11 && "kind"@.len() == 4
        && "epoch"@.len() == 5 && "timestamp"@.len() == 9 && "before"@.len() == 6 && "after"@.len()
        == 5);
    assert("entity_id"@[0] == 'e' && "timestamp"@[0] == 't' && "epoch"@[0] == 'e' && "after"@[0]
        == 'a' && "node"@[0] == 'n' && "edge"@[0] == 'e');
    assert("create"@[0] == 'c' && "update"@[0] == 'u' && "delete"@[0] == 'd' && "unknown"@[1]
        == 'n' && "update"@[1] == 'p' && "unknown"@[0] == 'u');
}

/// The object of a change tells the change: a creation as "create", an update as
/// "update" and a deletion as "delete", of a node or an edge, with its id, epoch and
/// time, and the properties before and after, each under its own name.
pub proof fn law_event_tells_the_change(event: ChangeEvent)
    ensures
        tells_change(event_json(event), event),
        field(event_json(event), "entity_id"@) == Some(Json::Natural(event.entity_id)),
        event.is_node ==> field(event_json(event), "entity_type"@) == Some(Json::Text("node"@)),
        !event.is_node ==> field(event_json(event), "entity_type"@) == Some(Json::Text("edge"@)),
        event.kind is Create ==> field(event_json(event), "kind"@) == Some(Json::Text("create"@)),
        event.kind is Update ==> field(event_json(event), "kind"@) == Some(Json::Text("update"@)),
        event.kind is Delete ==> field(event_json(event), "kind"@) == Some(Json::Text("delete"@)),
        event.kind is Unknown ==> field(event_json(event), "kind"@) == Some(Json::Text("unknown"@)),
        field(event_json(event), "epoch"@) == Some(Json::Natural(event.epoch)),
        field(event_json(event), "timestamp"@) == Some(Json::Natural(event.timestamp)),
        event.before is None ==> field(event_json(event), "before"@) == Some(Json::Null),
        event.after is None ==> field(event_json(event), "after"@) == Some(Json::Null),
        event.before is Some ==> field(event_json(event), "before"@) == Some(
            Json::Table(table_of(json_entries(event.before->0@))),
        ),
        event.after is Some ==> field(event_json(event), "after"@) == Some(
            Json::Table(table_of(json_entries(event.after->0@))),
        ),
{
    lemma_names_differ();
    let entries = seq![
        ("entity_id"@, Json::Natural(event.entity_id)),
        (
            "entity_type"@,
            Json::Text(
                if event.is_node {
                    "node"@
                } else {
                    "edge"@
                },
            ),
        ),
        ("kind"@, Json::Text(kind_name(event.kind))),
        ("epoch"@, Json::Natural(event.epoch)),
        ("timestamp"@, Json::Natural(event.timestamp)),
        ("before"@, properties_json(event.before)),
        ("after"@, properties_json(event.after)),
    ];
    let v = event_json(event);
    assert(v == Json::Table(table_of(entries)));
    assert forall|a: int, b: int| #![trigger entries[a], entries[b]]
        0 <= a < b < entries.len() implies entries[a].0 != entries[b].0 by {}
    lemma_distinct_entries(entries, 0);
    lemma_distinct_entries(entries, 1);
    lemma_distinct_entries(entries, 2);
    lemma_distinct_entries(entries, 3);
    lemma_distinct_entries(entries, 4);
    lemma_distinct_entries(entries, 5);
    lemma_distinct_entries(entries, 6);
    law_last_entry_counts(entries, 0);
    assert forall|k: Seq<char>| #[trigger] has_member(v, k) implies k == "entity_id"@ || k
        == "entity_type"@ || k == "kind"@ || k == "epoch"@ || k == "timestamp"@ || k == "before"@
        || k == "after"@ by {
        assert(table_of(entries).dom().contains(k));
        let j = choose|j: int| #![trigger entries[j]] 0 <= j < entries.len() && entries[j].0 == k;
        assert(entries[j].0 == k);
    }
}

/// Two changes with the same object are the same change: of the same entity, kind,
/// epoch and time.
pub proof fn law_events_are_told_apart(a: ChangeEvent, b: ChangeEvent)
    requires
        event_json(a) == event_json(b),
    ensures
        a.entity_id == b.entity_id,
        a.is_node == b.is_node,
        a.kind == b.kind,
        a.epoch == b.epoch,
        a.timestamp == b.timestamp,
        a.before is Some <==> b.before is Some,
        a.after is Some <==> b.after is Some,
{
    law_event_tells_the_change(a);
    law_event_tells_the_change(b);
    lemma_names_differ();
}

/// A change as a JSON object.
#[must_use]
pub fn change_event_to_json(event: &ChangeEvent) -> (r: JsonTree)
    ensures
        json_of(r) == event_json(*event),
        tells_change(json_of(r), *event),
        field(json_of(r), "entity_id"@) == Some(Json::Natural(event.entity_id)),
        event.is_node ==> field(json_of(r), "entity_type"@) == Some(Json::Text("node"@)),
        !event.is_node ==> field(json_of(r), "entity_type"@) == Some(Json::Text("edge"@)),
        event.kind is Create ==> field(json_of(r), "kind"@) == Some(Json::Text("create"@)),
        event.kind is Update ==> field(json_of(r), "kind"@) == Some(Json::Text("update"@)),
        event.kind is Delete ==> field(json_of(r), "kind"@) == Some(Json::Text("delete"@)),
        event.kind is Unknown ==> field(json_of(r), "kind"@) == Some(Json::Text("unknown"@)),
        field(json_of(r), "epoch"@) == Some(Json::Natural(event.epoch)),
        field(json_of(r), "timestamp"@) == Some(Json::Natural(event.timestamp)),
        event.before is None ==> field(json_of(r), "before"@) == Some(Json::Null),
        event.after is None ==> field(json_of(r), "after"@) == Some(Json::Null),
        event.before is Some ==> field(json_of(r), "before"@) == Some(
            Json::Table(table_of(json_entries(event.before->0@))),
        ),
        event.after is Some ==> field(json_of(r), "after"@) == Some(
            Json::Table(table_of(json_entries(event.after->0@))),
        ),
{
    proof {
        law_event_tells_the_change(*event);
    }
    let entity_type: &str = if event.is_node {
        "node"
    } else {
        "edge"
    };
    let kind: &str = match event.kind {
        ChangeKind::Create => "create",
        ChangeKind::Update => "update",
        ChangeKind::Delete => "delete",
        ChangeKind::Unknown => "unknown",
    };
    let mut entries: Vec<(String, JsonTree)> = Vec::new();
    assert(json_entries(entries@) =~= Seq::<(Seq<char>, Json)>::empty());
    add_entry(&mut entries, "entity_id", json_number(event.entity_id));
    add_entry(&mut entries, "entity_type", json_string(entity_type.to_owned()));
    add_entry(&mut entries, "kind", json_string(kind.to_owned()));
    add_entry(&mut entries, "epoch", json_number(event.epoch));
    add_entry(&mut entries, "timestamp", json_number(event.timestamp));
    add_entry(&mut entries, "before", properties_value(&event.before));
    add_entry(&mut entries, "after", properties_value(&event.after));
    proof {
        assert(json_entries(entries@) =~= seq![
            ("entity_id"@, Json::Natural(event.entity_id)),
            ("entity_type"@, Json::Text(entity_type@)),
            ("kind"@, Json::Text(kind@)),
            ("epoch"@, Json::Natural(event.epoch)),
            ("timestamp"@, Json::Natural(event.timestamp)),
            ("before"@, properties_json(event.before)),
            ("after"@, properties_json(event.after)),
        ]);
    }
    json_object(entries)
}

} // verus!
