//! Export as Arrow: the tables of nodes and edges, and the file that holds both.

use vstd::prelude::*;
use vstd::string::StringExecFns;
use vstd::utf8::encode_utf8;

use crate::cli::data::texts;
use crate::le::{
    le_bytes, le_value, lemma_le_bytes_len, lemma_le_value_of_bytes, lemma_pow256,
};
use crate::le::push_u32_le;
use crate::trusted::shared_str::arcstr_from;
use crate::trusted::text::str_eq;
use crate::types::order::{bytes_order, lemma_bytes_order_flips, lemma_bytes_order_transitive};
use crate::types::order::{compare_bytes, Order};
use crate::types::order::{law_first_difference_decides, lemma_bytes_order_equal};
use crate::types::value::Value;
use crate::types::value::ValueModel;

verus! {

/// The type of a column.
#[derive(Debug, Clone, Copy, PartialEq, Eq, Structural)]
pub enum LogicalType {
    /// Signed integers.
    Int64,
    /// Strings.
    String,
    /// Values of any type.
    Any,
}

/// A node as it is exported.
#[derive(Debug)]
pub struct NodeRow {
    /// Its id.
    pub id: u64,
    /// Its labels.
    pub labels: Vec<String>,
    /// Its properties.
    pub properties: Vec<(String, Value)>,
}

/// An edge as it is exported.
#[derive(Debug)]
pub struct EdgeRow {
    /// Its id.
    pub id: u64,
    /// The id of the node that it leaves.
    pub source: u64,
    /// The id of the node that it reaches.
    pub target: u64,
    /// Its type.
    pub edge_type: String,
    /// Its properties.
    pub properties: Vec<(String, Value)>,
}

/// A table with named and typed columns.
#[derive(Debug)]
pub struct RecordTable {
    /// The names of the columns.
    pub columns: Vec<String>,
    /// The types of the columns.
    pub types: Vec<LogicalType>,
    /// The rows, with one value per column.
    pub rows: Vec<Vec<Value>>,
}

/// What values are.
pub open spec fn values(row: Seq<Value>) -> Seq<ValueModel> {
    row.map_values(|v: Value| v@)
}

/// What rows are.
pub open spec fn rows_view(rows: Seq<Vec<Value>>) -> Seq<Seq<ValueModel>> {
    rows.map_values(|row: Vec<Value>| values(row@))
}

/// The first property with a key, or null.
pub open spec fn property(properties: Seq<(String, Value)>, key: Seq<char>) -> ValueModel
    decreases properties.len(),
{
    if properties.len() == 0 {
        ValueModel::Null
    } else if properties[0].0@ == key {
        properties[0].1@
    } else {
        property(properties.skip(1), key)
    }
}

/// Whether properties have a key.
pub open spec fn has_key(properties: Seq<(String, Value)>, key: Seq<char>) -> bool {
    exists|i: int| 0 <= i < properties.len() && (#[trigger] properties[i]).0@ == key
}

/// Texts in ascending order of their bytes, each once.
pub open spec fn texts_ascend(keys: Seq<Seq<char>>) -> bool {
    forall|i: int, j: int|
        0 <= i < j < keys.len() ==> bytes_order(
            encode_utf8(#[trigger] keys[i]),
            encode_utf8(#[trigger] keys[j]),
        ) == Order::Less
}

/// Texts with separators between them.
pub open spec fn joined_texts(parts: Seq<Seq<char>>, separator: Seq<char>) -> Seq<char>
    decreases parts.len(),
{
    if parts.len() == 0 {
        Seq::empty()
    } else if parts.len() == 1 {
        parts[0]
    } else {
        joined_texts(parts.drop_last(), separator) + separator + parts.last()
    }
}

/// The values of keys.
pub open spec fn cells(properties: Seq<(String, Value)>, keys: Seq<Seq<char>>) -> Seq<ValueModel> {
    keys.map_values(|k: Seq<char>| property(properties, k))
}

/// The row of a node.
pub open spec fn node_cells(node: NodeRow, keys: Seq<Seq<char>>) -> Seq<ValueModel> {
    seq![
        ValueModel::Int64(node.id as i64),
        ValueModel::String(joined_texts(texts(node.labels@), ","@)),
    ] + cells(node.properties@, keys)
}

/// The row of an edge.
pub open spec fn edge_cells(edge: EdgeRow, keys: Seq<Seq<char>>) -> Seq<ValueModel> {
    seq![
        ValueModel::Int64(edge.id as i64),
        ValueModel::Int64(edge.source as i64),
        ValueModel::Int64(edge.target as i64),
        ValueModel::String(edge.edge_type@),
    ] + cells(edge.properties@, keys)
}

/// Types of columns that may hold anything.
pub open spec fn any_types(n: nat) -> Seq<LogicalType> {
    Seq::new(n, |i: int| LogicalType::Any)
}

/// The keys of the properties of nodes.
pub open spec fn are_node_keys(keys: Seq<Seq<char>>, nodes: Seq<NodeRow>) -> bool {
    &&& texts_ascend(keys)
    &&& forall|k: Seq<char>| #[trigger]
        keys.contains(k) <==> exists|i: int|
            0 <= i < nodes.len() && has_key((#[trigger] nodes[i]).properties@, k)
}

/// The keys of the properties of edges.
pub open spec fn are_edge_keys(keys: Seq<Seq<char>>, edges: Seq<EdgeRow>) -> bool {
    &&& texts_ascend(keys)
    &&& forall|k: Seq<char>| #[trigger]
        keys.contains(k) <==> exists|i: int|
            0 <= i < edges.len() && has_key((#[trigger] edges[i]).properties@, k)
}

/// The table of nodes: the id, the labels, and a column for each key in order.
pub open spec fn is_node_table(t: RecordTable, nodes: Seq<NodeRow>) -> bool {
    let keys = texts(t.columns@).skip(2);
    &&& texts(t.columns@) == seq!["_id"@, "_labels"@] + keys
    &&& are_node_keys(keys, nodes)
    &&& t.types@ == seq![LogicalType::Int64, LogicalType::String] + any_types(keys.len())
    &&& rows_view(t.rows@) == nodes.map_values(|n: NodeRow| node_cells(n, keys))
}

/// The table of edges: the ids, the type, and a column for each key in order.
pub open spec fn is_edge_table(t: RecordTable, edges: Seq<EdgeRow>) -> bool {
    let keys = texts(t.columns@).skip(4);
    &&& texts(t.columns@) == seq!["_id"@, "_source"@, "_target"@, "_type"@] + keys
    &&& are_edge_keys(keys, edges)
    &&& t.types@ == seq![
        LogicalType::Int64,
        LogicalType::Int64,
        LogicalType::Int64,
        LogicalType::String,
    ] + any_types(keys.len())
    &&& rows_view(t.rows@) == edges.map_values(|e: EdgeRow| edge_cells(e, keys))
}

/// The property with a key is the first that has it, and null where none has.
pub proof fn law_first_property_counts(properties: Seq<(String, Value)>, key: Seq<char>, i: int)
    ensures
        !has_key(properties, key) ==> property(properties, key) is Null,
        0 <= i < properties.len() && properties[i].0@ == key && (forall|j: int|
            0 <= j < i ==> (#[trigger] properties[j]).0@ != key) ==> property(properties, key)
            == properties[i].1@,
    decreases properties.len(),
{
    if properties.len() > 0 {
        let rest = properties.skip(1);
        law_first_property_counts(rest, key, i - 1);
        if !has_key(properties, key) {
            assert(properties[0].0@ != key);
            assert forall|j: int| 0 <= j < rest.len() implies (#[trigger] rest[j]).0@ != key by {
                assert(rest[j] == properties[j + 1]);
            }
        }
        if 0 < i < properties.len() && properties[i].0@ == key && (forall|j: int|
            0 <= j < i ==> (#[trigger] properties[j]).0@ != key) {
            assert(properties[0].0@ != key);
            assert(rest[i - 1] == properties[i]);
            assert forall|j: int| 0 <= j < i - 1 implies (#[trigger] rest[j]).0@ != key by {
                assert(rest[j] == properties[j + 1]);
            }
        }
    }
}

/// Joined texts stand one after the other with the separator between each two: a single
/// text is itself, and two lists are joined by joining each and the two.
pub proof fn law_joining_puts_separators_between(
    a: Seq<Seq<char>>,
    b: Seq<Seq<char>>,
    text: Seq<char>,
    separator: Seq<char>,
)
    ensures
        joined_texts(Seq::empty(), separator) == Seq::<char>::empty(),
        joined_texts(seq![text], separator) == text,
        a.len() > 0 && b.len() > 0 ==> joined_texts(a + b, separator) == joined_texts(a, separator)
            + separator + joined_texts(b, separator),
    decreases b.len(),
{
    if a.len() > 0 && b.len() > 1 {
        law_joining_puts_separators_between(a, b.drop_last(), text, separator);
        assert((a + b).drop_last() =~= a + b.drop_last());
        assert((a + b).last() == b.last());
        assert(joined_texts(a + b, separator) =~= joined_texts(a, separator) + separator
            + joined_texts(b, separator));
    } else if a.len() > 0 && b.len() == 1 {
        assert((a + b).drop_last() =~= a);
        assert((a + b).last() == b[0]);
    }
}

/// The row of a node in the table: under "_id" its id, under "_labels" its labels with
/// commas between them, and under each key the property with that key.
pub proof fn law_node_table_tells_the_nodes(t: RecordTable, nodes: Seq<NodeRow>, i: int, c: int)
    requires
        is_node_table(t, nodes),
        0 <= i < nodes.len(),
        0 <= c < t.columns@.len(),
    ensures
        t.rows@.len() == nodes.len(),
        t.rows@[i]@.len() == t.columns@.len() == t.types@.len(),
        t.columns@.len() >= 2,
        t.columns@[0]@ == "_id"@ && t.types@[0] == LogicalType::Int64,
        t.columns@[1]@ == "_labels"@ && t.types@[1] == LogicalType::String,
        t.rows@[i]@[0]@ == ValueModel::Int64(nodes[i].id as i64),
        t.rows@[i]@[1]@ == ValueModel::String(joined_texts(texts(nodes[i].labels@), ","@)),
        c >= 2 ==> t.types@[c] == LogicalType::Any && t.rows@[i]@[c]@ == property(
            nodes[i].properties@,
            t.columns@[c]@,
        ),
{
    let keys = texts(t.columns@).skip(2);
    let names = texts(t.columns@);
    assert(names[0] == t.columns@[0]@ && names[1] == t.columns@[1]@);
    assert((seq!["_id"@, "_labels"@] + keys)[0] == "_id"@);
    assert((seq!["_id"@, "_labels"@] + keys)[1] == "_labels"@);
    assert(rows_view(t.rows@).len() == t.rows@.len());
    assert(nodes.map_values(|n: NodeRow| node_cells(n, keys)).len() == nodes.len());
    let row = rows_view(t.rows@)[i];
    assert(row == node_cells(nodes[i], keys));
    assert(row == values(t.rows@[i]@));
    assert(row[0] == t.rows@[i]@[0]@ && row[1] == t.rows@[i]@[1]@);
    if c >= 2 {
        assert(row[c] == t.rows@[i]@[c]@);
        assert(keys[c - 2] == names[c]);
        assert(row[c] == cells(nodes[i].properties@, keys)[c - 2]);
        assert(t.types@[c] == any_types(keys.len())[c - 2]);
    }
}

/// The row of an edge in the table: under "_id" its own id, under "_source" and
/// "_target" those of its ends, under "_type" its type, and under each key the property
/// with that key.
pub proof fn law_edge_table_tells_the_edges(t: RecordTable, edges: Seq<EdgeRow>, i: int, c: int)
    requires
        is_edge_table(t, edges),
        0 <= i < edges.len(),
        0 <= c < t.columns@.len(),
    ensures
        t.rows@.len() == edges.len(),
        t.rows@[i]@.len() == t.columns@.len() == t.types@.len(),
        t.columns@.len() >= 4,
        t.columns@[0]@ == "_id"@ && t.types@[0] == LogicalType::Int64,
        t.columns@[1]@ == "_source"@ && t.types@[1] == LogicalType::Int64,
        t.columns@[2]@ == "_target"@ && t.types@[2] == LogicalType::Int64,
        t.columns@[3]@ == "_type"@ && t.types@[3] == LogicalType::String,
        t.rows@[i]@[0]@ == ValueModel::Int64(edges[i].id as i64),
        t.rows@[i]@[1]@ == ValueModel::Int64(edges[i].source as i64),
        t.rows@[i]@[2]@ == ValueModel::Int64(edges[i].target as i64),
        t.rows@[i]@[3]@ == ValueModel::String(edges[i].edge_type@),
        c >= 4 ==> t.types@[c] == LogicalType::Any && t.rows@[i]@[c]@ == property(
            edges[i].properties@,
            t.columns@[c]@,
        ),
{
    let keys = texts(t.columns@).skip(4);
    let names = texts(t.columns@);
    let fixed = seq!["_id"@, "_source"@, "_target"@, "_type"@];
    assert(names[0] == t.columns@[0]@ && names[1] == t.columns@[1]@ && names[2] == t.columns@[2]@
        && names[3] == t.columns@[3]@);
    assert((fixed + keys)[0] == "_id"@ && (fixed + keys)[1] == "_source"@ && (fixed + keys)[2]
        == "_target"@ && (fixed + keys)[3] == "_type"@);
    assert(rows_view(t.rows@).len() == t.rows@.len());
    assert(edges.map_values(|e: EdgeRow| edge_cells(e, keys)).len() == edges.len());
    let row = rows_view(t.rows@)[i];
    assert(row == edge_cells(edges[i], keys));
    assert(row == values(t.rows@[i]@));
    assert(row[0] == t.rows@[i]@[0]@ && row[1] == t.rows@[i]@[1]@ && row[2] == t.rows@[i]@[2]@
        && row[3] == t.rows@[i]@[3]@);
    if c >= 4 {
        assert(row[c] == t.rows@[i]@[c]@);
        assert(keys[c - 4] == names[c]);
        assert(row[c] == cells(edges[i].properties@, keys)[c - 4]);
        assert(t.types@[c] == any_types(keys.len())[c - 4]);
    }
}

/// The property columns of a table: a key has a column exactly if some node has a
/// property with it, no key has two, and at the first byte where two keys differ the
/// smaller one stands first.
pub proof fn law_key_columns_are_in_order(
    t: RecordTable,
    nodes: Seq<NodeRow>,
    u: RecordTable,
    edges: Seq<EdgeRow>,
    key: Seq<char>,
)
    requires
        is_node_table(t, nodes),
        is_edge_table(u, edges),
    ensures
        texts(t.columns@).skip(2).contains(key) <==> exists|i: int|
            0 <= i < nodes.len() && has_key((#[trigger] nodes[i]).properties@, key),
        texts(u.columns@).skip(4).contains(key) <==> exists|i: int|
            0 <= i < edges.len() && has_key((#[trigger] edges[i]).properties@, key),
        forall|a: int, b: int, p: int|
            2 <= a < t.columns@.len() && 2 <= b < t.columns@.len() && #[trigger] differ_first(
                t.columns@[a]@,
                t.columns@[b]@,
                p,
            ) ==> a < b,
        forall|a: int, b: int, p: int|
            4 <= a < u.columns@.len() && 4 <= b < u.columns@.len() && #[trigger] differ_first(
                u.columns@[a]@,
                u.columns@[b]@,
                p,
            ) ==> a < b,
        forall|a: int, b: int|
            2 <= a < b < t.columns@.len() ==> (#[trigger] t.columns@[a])@ != (
            #[trigger] t.columns@[b])@,
        forall|a: int, b: int|
            4 <= a < b < u.columns@.len() ==> (#[trigger] u.columns@[a])@ != (
            #[trigger] u.columns@[b])@,
{
    lemma_columns_ascend(texts(t.columns@), 2);
    lemma_columns_ascend(texts(u.columns@), 4);
    assert forall|a: int, b: int, p: int|
        2 <= a < t.columns@.len() && 2 <= b < t.columns@.len() && #[trigger] differ_first(
            t.columns@[a]@,
            t.columns@[b]@,
            p,
        ) implies a < b by {
        assert(texts(t.columns@)[a] == t.columns@[a]@ && texts(t.columns@)[b] == t.columns@[b]@);
    }
    assert forall|a: int, b: int, p: int|
        4 <= a < u.columns@.len() && 4 <= b < u.columns@.len() && #[trigger] differ_first(
            u.columns@[a]@,
            u.columns@[b]@,
            p,
        ) implies a < b by {
        assert(texts(u.columns@)[a] == u.columns@[a]@ && texts(u.columns@)[b] == u.columns@[b]@);
    }
    assert forall|a: int, b: int| 2 <= a < b < t.columns@.len() implies (
    #[trigger] t.columns@[a])@ != (#[trigger] t.columns@[b])@ by {
        assert(texts(t.columns@)[a] == t.columns@[a]@ && texts(t.columns@)[b] == t.columns@[b]@);
    }
    assert forall|a: int, b: int| 4 <= a < b < u.columns@.len() implies (
    #[trigger] u.columns@[a])@ != (#[trigger] u.columns@[b])@ by {
        assert(texts(u.columns@)[a] == u.columns@[a]@ && texts(u.columns@)[b] == u.columns@[b]@);
    }
}

/// Whether `x` and `y` first differ at byte `p`, where `x` has the smaller byte, or ends.
pub open spec fn differ_first(x: Seq<char>, y: Seq<char>, p: int) -> bool {
    &&& 0 <= p <= encode_utf8(x).len()
    &&& p < encode_utf8(y).len()
    &&& encode_utf8(x).take(p) == encode_utf8(y).take(p)
    &&& p < encode_utf8(x).len() ==> encode_utf8(x)[p] < encode_utf8(y)[p]
}

/// Keys in ascending order differ, and stand in the order of their bytes.
pub proof fn lemma_columns_ascend(names: Seq<Seq<char>>, from: int)
    requires
        0 <= from <= names.len(),
        texts_ascend(names.skip(from)),
    ensures
        forall|a: int, b: int, p: int|
            from <= a < names.len() && from <= b < names.len() && #[trigger] differ_first(
                names[a],
                names[b],
                p,
            ) ==> a < b,
        forall|a: int, b: int| #![trigger names[a], names[b]]
            from <= a < b < names.len() ==> names[a] != names[b],
{
    let keys = names.skip(from);
    assert forall|a: int, b: int, p: int|
        from <= a < names.len() && from <= b < names.len() && #[trigger] differ_first(
            names[a],
            names[b],
            p,
        ) implies a < b by {
        let (x, y) = (encode_utf8(names[a]), encode_utf8(names[b]));
        law_first_difference_decides(x, y, p);
        assert(keys[a - from] == names[a] && keys[b - from] == names[b]);
        if b < a {
            assert(bytes_order(y, x) == Order::Less);
            lemma_bytes_order_flips(x, y);
        }
        if a == b {
            lemma_bytes_order_equal(x, y);
        }
    }
    assert forall|a: int, b: int| #![trigger names[a], names[b]]
        from <= a < b < names.len() implies names[a] != names[b] by {
        assert(keys[a - from] == names[a] && keys[b - from] == names[b]);
        lemma_bytes_order_equal(encode_utf8(names[a]), encode_utf8(names[b]));
    }
}

/// Adds a key to keys in order, unless it is there.
fn insert_key(keys: &mut Vec<String>, key: &str)
    requires
        texts_ascend(texts(old(keys)@)),
    ensures
        texts_ascend(texts(final(keys)@)),
        forall|k: Seq<char>| #[trigger]
            texts(final(keys)@).contains(k) <==> texts(old(keys)@).contains(k) || k == key@,
{
    let ghost before = texts(keys@);
    let ghost bytes = encode_utf8(key@);
    let mut at: usize = 0;
    while at < keys.len()
        invariant
            at <= keys@.len(),
            before == texts(keys@),
            before == texts(old(keys)@),
            texts_ascend(before),
            bytes == encode_utf8(key@),
            forall|i: int| #![trigger before[i]]
                0 <= i < at ==> bytes_order(encode_utf8(before[i]), bytes) == Order::Less,
        ensures
            at <= keys@.len(),
            before == texts(keys@),
            at < keys@.len() ==> bytes_order(encode_utf8(before[at as int]), bytes)
                == Order::Greater,
            forall|i: int| #![trigger before[i]]
                0 <= i < at ==> bytes_order(encode_utf8(before[i]), bytes) == Order::Less,
        decreases keys.len() - at,
    {
        match compare_bytes(keys[at].as_str().as_bytes(), key.as_bytes()) {
            Order::Less => {
                assert(before[at as int] == keys@[at as int]@);
            },
            Order::Equal => {
                proof {
                    let there = before[at as int];
                    lemma_bytes_order_equal(encode_utf8(there), bytes);
                    vstd::utf8::encode_utf8_decode_utf8(there);
                    vstd::utf8::encode_utf8_decode_utf8(key@);
                    assert(before.contains(there));
                }
                return;
            },
            Order::Greater => {
                assert(before[at as int] == keys@[at as int]@);
                break;
            },
        }
        at = at + 1;
    }
    keys.insert(at, key.to_owned());
    proof {
        let after = texts(keys@);
        assert(after =~= before.insert(at as int, key@));
        assert forall|i: int| #![trigger before[i]] at <= i < before.len() implies bytes_order(
            bytes,
            encode_utf8(before[i]),
        ) == Order::Less by {
            let first = encode_utf8(before[at as int]);
            lemma_bytes_order_flips(first, bytes);
            if i > at {
                lemma_bytes_order_transitive(bytes, first, encode_utf8(before[i]));
            }
        }
        assert forall|i: int, j: int| 0 <= i < j < after.len() implies bytes_order(
            encode_utf8(#[trigger] after[i]),
            encode_utf8(#[trigger] after[j]),
        ) == Order::Less by {
            if j < at {
                assert(after[i] == before[i] && after[j] == before[j]);
            } else if j == at {
                assert(after[i] == before[i]);
            } else if i < at {
                assert(after[i] == before[i] && after[j] == before[j - 1]);
            } else if i == at {
                assert(after[j] == before[j - 1]);
            } else {
                assert(after[i] == before[i - 1] && after[j] == before[j - 1]);
            }
        }
        assert forall|k: Seq<char>| #[trigger] after.contains(k) <==> before.contains(k) || k
            == key@ by {
            if before.contains(k) {
                let i = before.index_of(k);
                if i < at {
                    assert(after[i] == k);
                } else {
                    assert(after[i + 1] == k);
                }
            }
            if k == key@ {
                assert(after[at as int] == k);
            }
            if after.contains(k) {
                let i = after.index_of(k);
                if i < at {
                    assert(before[i] == k);
                } else if i > at {
                    assert(before[i - 1] == k);
                }
            }
        }
    }
}

/// Adds the keys of properties to keys in order.
fn insert_keys(keys: &mut Vec<String>, properties: &Vec<(String, Value)>)
    requires
        texts_ascend(texts(old(keys)@)),
    ensures
        texts_ascend(texts(final(keys)@)),
        forall|k: Seq<char>| #[trigger]
            texts(final(keys)@).contains(k) <==> texts(old(keys)@).contains(k) || has_key(
                properties@,
                k,
            ),
{
    let ghost before = texts(keys@);
    let mut i: usize = 0;
    while i < properties.len()
        invariant
            i <= properties@.len(),
            texts_ascend(texts(keys@)),
            forall|k: Seq<char>| #[trigger]
                texts(keys@).contains(k) <==> before.contains(k) || has_key(
                    properties@.take(i as int),
                    k,
                ),
        decreases properties.len() - i,
    {
        let ghost so_far = texts(keys@);
        insert_key(keys, properties[i].0.as_str());
        proof {
            assert forall|k: Seq<char>| #[trigger]
                texts(keys@).contains(k) <==> before.contains(k) || has_key(
                    properties@.take(i + 1),
                    k,
                ) by {
                assert(so_far.contains(k) <==> before.contains(k) || has_key(
                    properties@.take(i as int),
                    k,
                ));
                let longer = properties@.take(i + 1);
                let shorter = properties@.take(i as int);
                if has_key(shorter, k) {
                    let j = choose|j: int|
                        0 <= j < shorter.len() && (#[trigger] shorter[j]).0@ == k;
                    assert(longer[j].0@ == k);
                }
                if k == properties@[i as int].0@ {
                    assert(longer[i as int].0@ == k);
                }
                if has_key(longer, k) {
                    let j = choose|j: int|
                        0 <= j < longer.len() && (#[trigger] longer[j]).0@ == k;
                    if j < i {
                        assert(shorter[j].0@ == k);
                    }
                }
            }
        }
        i = i + 1;
    }
    assert(properties@.take(i as int) =~= properties@);
}

/// The property with a key, or null.
fn find_property(properties: &Vec<(String, Value)>, key: &str) -> (r: Value)
    ensures
        r@ == property(properties@, key@),
{
    let mut i: usize = 0;
    assert(properties@.skip(0) =~= properties@);
    while i < properties.len()
        invariant
            i <= properties@.len(),
            property(properties@, key@) == property(properties@.skip(i as int), key@),
        decreases properties.len() - i,
    {
        assert(properties@.skip(i as int)[0] == properties@[i as int]);
        assert(properties@.skip(i as int).skip(1) =~= properties@.skip(i + 1));
        if str_eq(properties[i].0.as_str(), key) {
            return properties[i].1.clone();
        }
        i = i + 1;
    }
    Value::Null
}

/// Adds the values of keys to a row.
fn push_cells(row: &mut Vec<Value>, properties: &Vec<(String, Value)>, keys: &Vec<String>)
    ensures
        values(final(row)@) == values(old(row)@) + cells(properties@, texts(keys@)),
{
    let ghost before = values(row@);
    let ghost all = cells(properties@, texts(keys@));
    let mut i: usize = 0;
    assert(values(row@) =~= before + all.take(0));
    while i < keys.len()
        invariant
            i <= keys@.len(),
            all == cells(properties@, texts(keys@)),
            values(row@) == before + all.take(i as int),
        decreases keys.len() - i,
    {
        let ghost so_far = row@;
        let v: Value = find_property(properties, keys[i].as_str());
        row.push(v);
        proof {
            assert(values(row@) =~= values(so_far).push(all[i as int]));
            assert(values(row@) =~= before + all.take(i + 1));
        }
        i = i + 1;
    }
    assert(values(row@) =~= before + all);
}

/// Texts with separators between them.
pub fn join_strings(parts: &Vec<String>, separator: &str) -> (r: String)
    ensures
        r@ == joined_texts(texts(parts@), separator@),
{
    let ghost all = texts(parts@);
    let mut out: String = String::new();
    let mut i: usize = 0;
    assert(all.take(0) =~= Seq::<Seq<char>>::empty());
    while i < parts.len()
        invariant
            i <= parts@.len(),
            all == texts(parts@),
            out@ == joined_texts(all.take(i as int), separator@),
        decreases parts.len() - i,
    {
        if i > 0 {
            out.append(separator);
        }
        out.append(parts[i].as_str());
        proof {
            assert(all.take(i + 1).drop_last() =~= all.take(i as int));
            assert(all.take(i + 1).last() == parts@[i as int]@);
            assert(out@ =~= joined_texts(all.take(i + 1), separator@));
        }
        i = i + 1;
    }
    assert(all.take(i as int) =~= all);
    out
}

/// Adds keys to the names of columns, and types that may hold anything.
fn push_key_columns(
    columns: &mut Vec<String>,
    types: &mut Vec<LogicalType>,
    keys: &Vec<String>,
)
    ensures
        texts(final(columns)@) == texts(old(columns)@) + texts(keys@),
        final(types)@ == old(types)@ + any_types(keys@.len()),
{
    let ghost names = texts(columns@);
    let ghost before = types@;
    let mut i: usize = 0;
    assert(texts(columns@) =~= names + texts(keys@).take(0));
    assert(types@ =~= before + any_types(0));
    while i < keys.len()
        invariant
            i <= keys@.len(),
            texts(columns@) == names + texts(keys@).take(i as int),
            types@ == before + any_types(i as nat),
        decreases keys.len() - i,
    {
        let ghost so_far = columns@;
        let name: String = keys[i].clone();
        columns.push(name);
        types.push(LogicalType::Any);
        proof {
            assert(texts(columns@) =~= texts(so_far).push(texts(keys@)[i as int]));
            assert(texts(columns@) =~= names + texts(keys@).take(i + 1));
            assert(types@ =~= before + any_types((i + 1) as nat));
        }
        i = i + 1;
    }
    assert(texts(columns@) =~= names + texts(keys@));
}

/// The keys of the properties of nodes, in order.
fn node_keys(nodes: &Vec<NodeRow>) -> (r: Vec<String>)
    ensures
        are_node_keys(texts(r@), nodes@),
{
    let mut keys: Vec<String> = Vec::new();
    let mut i: usize = 0;
    while i < nodes.len()
        invariant
            i <= nodes@.len(),
            texts_ascend(texts(keys@)),
            forall|k: Seq<char>| #[trigger]
                texts(keys@).contains(k) <==> exists|j: int|
                    0 <= j < i && has_key((#[trigger] nodes@[j]).properties@, k),
        decreases nodes.len() - i,
    {
        let ghost so_far = texts(keys@);
        insert_keys(&mut keys, &nodes[i].properties);
        proof {
            assert forall|k: Seq<char>| #[trigger]
                texts(keys@).contains(k) <==> exists|j: int|
                    0 <= j < i + 1 && has_key((#[trigger] nodes@[j]).properties@, k) by {
                assert(so_far.contains(k) <==> exists|j: int|
                    0 <= j < i && has_key((#[trigger] nodes@[j]).properties@, k));
            }
        }
        i = i + 1;
    }
    keys
}

/// The keys of the properties of edges, in order.
fn edge_keys(edges: &Vec<EdgeRow>) -> (r: Vec<String>)
    ensures
        are_edge_keys(texts(r@), edges@),
{
    let mut keys: Vec<String> = Vec::new();
    let mut i: usize = 0;
    while i < edges.len()
        invariant
            i <= edges@.len(),
            texts_ascend(texts(keys@)),
            forall|k: Seq<char>| #[trigger]
                texts(keys@).contains(k) <==> exists|j: int|
                    0 <= j < i && has_key((#[trigger] edges@[j]).properties@, k),
        decreases edges.len() - i,
    {
        let ghost so_far = texts(keys@);
        insert_keys(&mut keys, &edges[i].properties);
        proof {
            assert forall|k: Seq<char>| #[trigger]
                texts(keys@).contains(k) <==> exists|j: int|
                    0 <= j < i + 1 && has_key((#[trigger] edges@[j]).properties@, k) by {
                assert(so_far.contains(k) <==> exists|j: int|
                    0 <= j < i && has_key((#[trigger] edges@[j]).properties@, k));
            }
        }
        i = i + 1;
    }
    keys
}

/// The table of nodes.
#[must_use]
pub fn node_table(nodes: &Vec<NodeRow>) -> (r: RecordTable)
    ensures
        is_node_table(r, nodes@),
{
    let keys: Vec<String> = node_keys(nodes);
    let ghost names = texts(keys@);
    let mut columns: Vec<String> = Vec::new();
    columns.push("_id".to_owned());
    columns.push("_labels".to_owned());
    let mut types: Vec<LogicalType> = Vec::new();
    types.push(LogicalType::Int64);
    types.push(LogicalType::String);
    assert(texts(columns@) =~= seq!["_id"@, "_labels"@]);
    assert(types@ =~= seq![LogicalType::Int64, LogicalType::String]);
    push_key_columns(&mut columns, &mut types, &keys);
    assert(texts(columns@).skip(2) =~= names);
    let mut rows: Vec<Vec<Value>> = Vec::new();
    let ghost goal = nodes@.map_values(|n: NodeRow| node_cells(n, names));
    let mut i: usize = 0;
    assert(rows_view(rows@) =~= goal.take(0));
    while i < nodes.len()
        invariant
            i <= nodes@.len(),
            names == texts(keys@),
            goal == nodes@.map_values(|n: NodeRow| node_cells(n, names)),
            rows_view(rows@) == goal.take(i as int),
        decreases nodes.len() - i,
    {
        let node: &NodeRow = &nodes[i];
        let mut row: Vec<Value> = Vec::new();
        row.push(Value::Int64(node.id as i64));
        row.push(Value::String(arcstr_from(join_strings(&node.labels, ",").as_str())));
        assert(values(row@) =~= seq![
            ValueModel::Int64(node.id as i64),
            ValueModel::String(joined_texts(texts(node.labels@), ","@)),
        ]);
        push_cells(&mut row, &node.properties, &keys);
        let ghost before = rows@;
        rows.push(row);
        proof {
            assert(rows_view(rows@) =~= rows_view(before).push(goal[i as int]));
            assert(rows_view(rows@) =~= goal.take(i + 1));
        }
        i = i + 1;
    }
    assert(rows_view(rows@) =~= goal);
    RecordTable { columns, types, rows }
}

/// The table of edges.
#[must_use]
pub fn edge_table(edges: &Vec<EdgeRow>) -> (r: RecordTable)
    ensures
        is_edge_table(r, edges@),
{
    let keys: Vec<String> = edge_keys(edges);
    let ghost names = texts(keys@);
    let mut columns: Vec<String> = Vec::new();
    columns.push("_id".to_owned());
    columns.push("_source".to_owned());
    columns.push("_target".to_owned());
    columns.push("_type".to_owned());
    let mut types: Vec<LogicalType> = Vec::new();
    types.push(LogicalType::Int64);
    types.push(LogicalType::Int64);
    types.push(LogicalType::Int64);
    types.push(LogicalType::String);
    assert(texts(columns@) =~= seq!["_id"@, "_source"@, "_target"@, "_type"@]);
    assert(types@ =~= seq![
        LogicalType::Int64,
        LogicalType::Int64,
        LogicalType::Int64,
        LogicalType::String,
    ]);
    push_key_columns(&mut columns, &mut types, &keys);
    assert(texts(columns@).skip(4) =~= names);
    let mut rows: Vec<Vec<Value>> = Vec::new();
    let ghost goal = edges@.map_values(|e: EdgeRow| edge_cells(e, names));
    let mut i: usize = 0;
    assert(rows_view(rows@) =~= goal.take(0));
    while i < edges.len()
        invariant
            i <= edges@.len(),
            names == texts(keys@),
            goal == edges@.map_values(|e: EdgeRow| edge_cells(e, names)),
            rows_view(rows@) == goal.take(i as int),
        decreases edges.len() - i,
    {
        let edge: &EdgeRow = &edges[i];
        let mut row: Vec<Value> = Vec::new();
        row.push(Value::Int64(edge.id as i64));
        row.push(Value::Int64(edge.source as i64));
        row.push(Value::Int64(edge.target as i64));
        row.push(Value::String(arcstr_from(edge.edge_type.as_str())));
        assert(values(row@) =~= seq![
            ValueModel::Int64(edge.id as i64),
            ValueModel::Int64(edge.source as i64),
            ValueModel::Int64(edge.target as i64),
            ValueModel::String(edge.edge_type@),
        ]);
        push_cells(&mut row, &edge.properties, &keys);
        let ghost before = rows@;
        rows.push(row);
        proof {
            assert(rows_view(rows@) =~= rows_view(before).push(goal[i as int]));
            assert(rows_view(rows@) =~= goal.take(i + 1));
        }
        i = i + 1;
    }
    assert(rows_view(rows@) =~= goal);
    RecordTable { columns, types, rows }
}

/// The file of two streams: each behind its length, as four little-endian bytes.
pub open spec fn arrow_file(nodes: Seq<u8>, edges: Seq<u8>) -> Result<Seq<u8>, Seq<char>> {
    if nodes.len() > u32::MAX {
        Err("Node IPC stream exceeds 4 GiB limit"@)
    } else if edges.len() > u32::MAX {
        Err("Edge IPC stream exceeds 4 GiB limit"@)
    } else {
        Ok(le_bytes(nodes.len(), 4) + nodes + le_bytes(edges.len(), 4) + edges)
    }
}

/// The stream that follows its length in a file, and what comes after it.
pub open spec fn next_stream(file: Seq<u8>) -> (Seq<u8>, Seq<u8>) {
    let n = le_value(file.subrange(0, 4)) as int;
    (file.subrange(4, 4 + n), file.skip(4 + n))
}

/// The two streams are found in their file again by their lengths, and nothing else is
/// in it.
pub proof fn law_streams_are_found(nodes: Seq<u8>, edges: Seq<u8>)
    requires
        arrow_file(nodes, edges) is Ok,
    ensures
        ({
            let (first, rest) = next_stream(arrow_file(nodes, edges)->Ok_0);
            &&& first == nodes
            &&& next_stream(rest) == (edges, Seq::<u8>::empty())
        }),
{
    let file = arrow_file(nodes, edges)->Ok_0;
    lemma_pow256();
    lemma_le_bytes_len(nodes.len(), 4);
    lemma_le_bytes_len(edges.len(), 4);
    lemma_le_value_of_bytes(nodes.len(), 4);
    lemma_le_value_of_bytes(edges.len(), 4);
    assert(file.subrange(0, 4) =~= le_bytes(nodes.len(), 4));
    let (first, rest) = next_stream(file);
    assert(first =~= nodes);
    assert(rest =~= le_bytes(edges.len(), 4) + edges);
    assert(rest.subrange(0, 4) =~= le_bytes(edges.len(), 4));
    assert(next_stream(rest).0 =~= edges);
    assert(next_stream(rest).1 =~= Seq::<u8>::empty());
}

/// A stream of more than four gigabytes has no place in a file, and that is said of the
/// one that is too long, the nodes first.
pub proof fn law_long_streams_are_rejected(nodes: Seq<u8>, edges: Seq<u8>)
    ensures
        nodes.len() > 0xffff_ffff ==> arrow_file(nodes, edges) == Err::<Seq<u8>, Seq<char>>(
            "Node IPC stream exceeds 4 GiB limit"@,
        ),
        nodes.len() <= 0xffff_ffff && edges.len() > 0xffff_ffff ==> arrow_file(nodes, edges)
            == Err::<Seq<u8>, Seq<char>>("Edge IPC stream exceeds 4 GiB limit"@),
        nodes.len() <= 0xffff_ffff && edges.len() <= 0xffff_ffff ==> arrow_file(nodes, edges) is Ok
            && arrow_file(nodes, edges)->Ok_0.len() == nodes.len() + edges.len() + 8,
{
    lemma_le_bytes_len(nodes.len(), 4);
    lemma_le_bytes_len(edges.len(), 4);
}

/// Puts two streams into one file.
pub fn dump_arrow(nodes: &[u8], edges: &[u8]) -> (r: Result<Vec<u8>, String>)
    ensures
        match r {
            Ok(file) => arrow_file(nodes@, edges@) == Ok::<Seq<u8>, Seq<char>>(file@),
            Err(e) => arrow_file(nodes@, edges@) == Err::<Seq<u8>, Seq<char>>(e@),
        },
{
    if nodes.len() as u64 > u32::MAX as u64 {
        return Err("Node IPC stream exceeds 4 GiB limit".to_owned());
    }
    if edges.len() as u64 > u32::MAX as u64 {
        return Err("Edge IPC stream exceeds 4 GiB limit".to_owned());
    }
    let mut file: Vec<u8> = Vec::new();
    push_u32_le(&mut file, nodes.len() as u32);
    file.extend_from_slice(nodes);
    push_u32_le(&mut file, edges.len() as u32);
    file.extend_from_slice(edges);
    assert(file@ =~= le_bytes(nodes@.len(), 4) + nodes@ + le_bytes(edges@.len(), 4) + edges@);
    Ok(file)
}

} // verus!
