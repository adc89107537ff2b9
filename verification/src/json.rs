//! What JSON values are, and how objects are made.

use serde_json::Map as JsonMap;
use serde_json::Value as JsonTree;
use vstd::prelude::*;
use vstd::utf8::encode_utf8;

use crate::trusted::json::{json_entries, json_map_of, json_of};
use crate::trusted::json::{json_map_insert, json_map_new, json_table};
use crate::types::order::bytes_order;
use crate::types::order::Order;

verus! {

/// A JSON value.
pub ghost enum Json {
    /// The null value.
    Null,
    /// A truth value.
    Bool(bool),
    /// An integer that is not negative.
    Natural(u64),
    /// A negative integer.
    Negative(i64),
    /// A double, by its bits.
    Double(u64),
    /// A string.
    Text(Seq<char>),
    /// A list.
    List(Seq<Json>),
    /// An object.
    Table(Map<Seq<char>, Json>),
}

/// Whether a value is an object with a key.
pub open spec fn has_member(v: Json, key: Seq<char>) -> bool {
    v matches Json::Table(m) && m.dom().contains(key)
}

/// The value of a key of an object.
pub open spec fn member(v: Json, key: Seq<char>) -> Json {
    v->Table_0[key]
}

/// The value of a key, if there is one.
pub open spec fn field(v: Json, key: Seq<char>) -> Option<Json> {
    if has_member(v, key) {
        Some(member(v, key))
    } else {
        None
    }
}

/// The object with the given entries. Of two entries with one key the later counts.
pub open spec fn table_of(entries: Seq<(Seq<char>, Json)>) -> Map<Seq<char>, Json>
    decreases entries.len(),
{
    if entries.len() == 0 {
        Map::empty()
    } else {
        table_of(entries.drop_last()).insert(entries.last().0, entries.last().1)
    }
}

/// What an object has from its entries: exactly their keys, and under each key the
/// value of the last entry with it.
pub proof fn law_last_entry_counts(entries: Seq<(Seq<char>, Json)>, i: int)
    ensures
        forall|k: Seq<char>| #[trigger]
            table_of(entries).dom().contains(k) <==> exists|j: int| #![trigger entries[j]]
                0 <= j < entries.len() && entries[j].0 == k,
        0 <= i < entries.len() && (forall|j: int| #![trigger entries[j]]
            i < j < entries.len() ==> entries[j].0 != entries[i].0) ==> table_of(
            entries,
        ).contains_pair(entries[i].0, entries[i].1),
        table_of(entries).dom().finite(),
    decreases entries.len(),
{
    if entries.len() > 0 {
        let front = entries.drop_last();
        law_last_entry_counts(front, i);
        assert forall|k: Seq<char>| #[trigger]
            table_of(entries).dom().contains(k) <==> exists|j: int| #![trigger entries[j]]
                0 <= j < entries.len() && entries[j].0 == k by {
            if table_of(front).dom().contains(k) {
                let j = choose|j: int| #![trigger front[j]] 0 <= j < front.len() && front[j].0 == k;
                assert(entries[j].0 == k);
            }
            if exists|j: int| #![trigger entries[j]] 0 <= j < entries.len() && entries[j].0 == k {
                let j = choose|j: int| #![trigger entries[j]]
                    0 <= j < entries.len() && entries[j].0 == k;
                if j < front.len() {
                    assert(front[j].0 == k);
                }
            }
            assert(entries[entries.len() - 1].0 == entries.last().0);
        }
        if 0 <= i < entries.len() - 1 && (forall|j: int| #![trigger entries[j]]
            i < j < entries.len() ==> entries[j].0 != entries[i].0) {
            assert forall|j: int| #![trigger front[j]] i < j < front.len() implies front[j].0
                != front[i].0 by {
                assert(entries[j].0 != entries[i].0);
            }
            assert(entries[entries.len() - 1].0 != entries[i].0);
        }
    }
}

/// Where no key occurs twice, an object has each of its entries.
pub proof fn lemma_distinct_entries(entries: Seq<(Seq<char>, Json)>, i: int)
    requires
        0 <= i < entries.len(),
        forall|a: int, b: int| #![trigger entries[a], entries[b]]
            0 <= a < b < entries.len() ==> entries[a].0 != entries[b].0,
    ensures
        field(Json::Table(table_of(entries)), entries[i].0) == Some(entries[i].1),
{
    law_last_entry_counts(entries, i);
}

/// The keys are in ascending order of their bytes.
pub open spec fn ascending(entries: Seq<(Seq<char>, Json)>) -> bool {
    forall|i: int, j: int|
        0 <= i < j < entries.len() ==> bytes_order(
            encode_utf8(#[trigger] entries[i].0),
            encode_utf8(#[trigger] entries[j].0),
        ) == Order::Less
}

/// A value of fewer than `depth` levels in which there is no double.
pub open spec fn is_plain(v: Json, depth: nat) -> bool
    decreases depth,
{
    match v {
        Json::Double(_) => false,
        Json::List(items) => depth > 0 && forall|i: int|
            #![trigger items[i]]
            0 <= i < items.len() ==> is_plain(items[i], (depth - 1) as nat),
        Json::Table(m) => depth > 0 && forall|k: Seq<char>|
            #![trigger m[k]]
            m.dom().contains(k) ==> is_plain(m[k], (depth - 1) as nat),
        _ => true,
    }
}

/// An object with the given entries. Of two entries with one key the later counts.
pub fn json_object(entries: Vec<(String, JsonTree)>) -> (r: JsonTree)
    ensures
        json_of(r) == Json::Table(table_of(json_entries(entries@))),
{
    let ghost all = entries@;
    let ghost goal = json_entries(all);
    let mut entries: Vec<(String, JsonTree)> = entries;
    let n: usize = entries.len();
    let mut reversed: Vec<(String, JsonTree)> = Vec::new();
    while entries.len() > 0
        invariant
            entries@.len() + reversed@.len() == n == all.len(),
            entries@ == all.take(entries@.len() as int),
            forall|k: int| #![trigger reversed@[k]]
                0 <= k < reversed@.len() ==> reversed@[k] == all[n - 1 - k],
        decreases entries.len(),
    {
        match entries.pop() {
            Some(e) => {
                reversed.push(e);
            },
            None => {},
        }
        assert(entries@ =~= all.take(entries@.len() as int));
    }
    let mut table: JsonMap<String, JsonTree> = json_map_new();
    assert(goal.take(0) =~= Seq::<(Seq<char>, Json)>::empty());
    while reversed.len() > 0
        invariant
            reversed@.len() <= n == all.len(),
            goal == json_entries(all),
            forall|k: int| #![trigger reversed@[k]]
                0 <= k < reversed@.len() ==> reversed@[k] == all[n - 1 - k],
            json_map_of(table) == table_of(goal.take(n - reversed@.len())),
        decreases reversed.len(),
    {
        let ghost i = n - reversed@.len();
        assert(reversed@.last() == all[i]);
        match reversed.pop() {
            Some((key, value)) => {
                proof {
                    assert(goal.take(i + 1).drop_last() =~= goal.take(i));
                    assert(goal.take(i + 1).last() == (key@, json_of(value)));
                }
                let _ = json_map_insert(&mut table, key, value);
            },
            None => {},
        }
    }
    assert(goal.take(n as int) =~= goal);
    json_table(table)
}

} // verus!
