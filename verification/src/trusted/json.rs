//! JSON, from the crate `serde_json`.

use serde_json::Map as JsonMap;
use serde_json::Value as JsonTree;
use vstd::prelude::*;

use crate::json::Json;
use crate::json::{ascending, has_member, is_plain, member, table_of};

verus! {

/// Declares `serde_json::Value`.
#[verifier::external_type_specification]
#[verifier::external_body]
pub struct ExJsonValue(JsonTree);

/// What a `serde_json::Value` holds.
pub uninterp spec fn json_of(v: JsonTree) -> Json;

/// Declares `serde_json::Map`.
#[verifier::external_type_specification]
#[verifier::external_body]
#[verifier::reject_recursive_types(K)]
#[verifier::reject_recursive_types(V)]
pub struct ExJsonMap<K, V>(JsonMap<K, V>);

/// The entries of a `serde_json::Map`.
pub uninterp spec fn json_map_of(m: JsonMap<String, JsonTree>) -> Map<Seq<char>, Json>;

/// What the text of a JSON value says, or what is wrong with it if it is not JSON, as
/// `serde_json::from_str` decides and its error says.
pub uninterp spec fn json_parsed(text: Seq<char>) -> Result<Json, Seq<char>>;

/// Whether a text is JSON that says `v`.
pub open spec fn parses_to(text: Seq<char>, v: Json) -> bool {
    json_parsed(text) == Ok::<Json, Seq<char>>(v)
}

/// What a `serde_json::Value` holds, or what was wrong.
pub open spec fn json_result(v: Result<JsonTree, String>) -> Result<Json, Seq<char>> {
    match v {
        Ok(x) => Ok(json_of(x)),
        Err(e) => Err(e@),
    }
}

/// What values hold.
pub open spec fn json_list(items: Seq<JsonTree>) -> Seq<Json> {
    items.map_values(|v: JsonTree| json_of(v))
}

/// What entries hold.
pub open spec fn json_entries(entries: Seq<(String, JsonTree)>) -> Seq<(Seq<char>, Json)> {
    entries.map_values(|e: (String, JsonTree)| (e.0@, json_of(e.1)))
}

/// Calls `serde_json::from_str::<serde_json::Value>`, and gives its error as text. The
/// result is named: the value, or the text of the error, depends on `text` alone.
#[verifier::external_body]
pub(crate) fn json_parse(text: &str) -> (r: Result<JsonTree, String>)
    ensures
        json_result(r) == json_parsed(text@),
{
    serde_json::from_str(text).map_err(|e: serde_json::Error| e.to_string())
}

/// Calls `serde_json::Value::to_string`, the compact text of a value. It has no
/// control characters, which are escaped. That of an object stands in braces. And
/// parsing it gives the value back if there is no double in it, whose last bit a
/// parse may change, and if it has fewer levels than a parse follows.
#[verifier::external_body]
pub(crate) fn json_write(v: &JsonTree) -> (r: String)
    ensures
        is_plain(json_of(*v), 127) ==> parses_to(r@, json_of(*v)),
        forall|i: int| 0 <= i < r@.len() ==> #[trigger] r@[i] >= ' ',
        json_of(*v) is Table ==> r@.len() >= 2 && r@[0] == '{' && r@.last() == '}',
        r@ == json_written(json_of(*v)),
{
    v.to_string()
}

/// The compact text of a value, as `serde_json` writes it.
pub uninterp spec fn json_written(v: Json) -> Seq<char>;

/// Calls `<serde_json::Value as Clone>::clone`: a copy holds the same.
#[verifier::external_body]
pub(crate) fn json_clone(v: &JsonTree) -> (r: JsonTree)
    ensures
        json_of(r) == json_of(*v),
{
    v.clone()
}

/// Calls `serde_json::Value::get` with a string: the value of a key of an object,
/// and nothing of any other value.
#[verifier::external_body]
pub(crate) fn json_get<'a>(v: &'a JsonTree, key: &str) -> (r: Option<&'a JsonTree>)
    ensures
        r is Some <==> has_member(json_of(*v), key@),
        r matches Some(x) ==> json_of(*x) == member(json_of(*v), key@),
{
    v.get(key)
}

/// Calls `serde_json::Value::as_str`: the text of a string, and nothing of any other
/// value.
#[verifier::external_body]
pub(crate) fn json_as_str(v: &JsonTree) -> (r: Option<&str>)
    ensures
        r is Some <==> json_of(*v) is Text,
        r matches Some(s) ==> json_of(*v) == Json::Text(s@),
{
    v.as_str()
}

/// Calls `serde_json::Value::as_u64`: an integer that is not negative, and nothing of
/// any other value.
#[verifier::external_body]
pub(crate) fn json_as_u64(v: &JsonTree) -> (r: Option<u64>)
    ensures
        r is Some <==> json_of(*v) is Natural,
        r matches Some(n) ==> json_of(*v) == Json::Natural(n),
{
    v.as_u64()
}

/// Calls `serde_json::Value::as_array`: the items of a list, and nothing of any other
/// value.
#[verifier::external_body]
pub(crate) fn json_items(v: &JsonTree) -> (r: Option<&Vec<JsonTree>>)
    ensures
        r is Some <==> json_of(*v) is List,
        r matches Some(items) ==> json_of(*v) == Json::List(json_list(items@)),
{
    v.as_array()
}

/// Calls `serde_json::Value::as_object` and hands out copies of the entries, in the
/// order of their keys; nothing of any other value.
#[verifier::external_body]
pub(crate) fn json_members(v: &JsonTree) -> (r: Option<Vec<(String, JsonTree)>>)
    ensures
        r is Some <==> json_of(*v) is Table,
        r matches Some(e) ==> json_of(*v) == Json::Table(table_of(json_entries(e@))),
        r matches Some(e) ==> ascending(json_entries(e@)),
{
    v.as_object().map(|m| m.iter().map(|(k, x)| (k.clone(), x.clone())).collect())
}

/// The variant `serde_json::Value::Null`.
#[verifier::external_body]
pub(crate) fn json_null() -> (r: JsonTree)
    ensures
        json_of(r) == Json::Null,
{
    JsonTree::Null
}

/// The variant `serde_json::Value::String`.
#[verifier::external_body]
pub(crate) fn json_string(s: String) -> (r: JsonTree)
    ensures
        json_of(r) == Json::Text(s@),
{
    JsonTree::String(s)
}

/// Calls `<serde_json::Value as From<u64>>::from`: a number.
#[verifier::external_body]
pub(crate) fn json_number(n: u64) -> (r: JsonTree)
    ensures
        json_of(r) == Json::Natural(n),
{
    JsonTree::from(n)
}

/// The variant `serde_json::Value::Array`.
#[verifier::external_body]
pub(crate) fn json_array(items: Vec<JsonTree>) -> (r: JsonTree)
    ensures
        json_of(r) == Json::List(json_list(items@)),
{
    JsonTree::Array(items)
}

/// Calls `serde_json::Map::new`: a map without entries.
#[verifier::external_body]
pub(crate) fn json_map_new() -> (r: JsonMap<String, JsonTree>)
    ensures
        json_map_of(r) == table_of(Seq::empty()),
{
    JsonMap::new()
}

/// Calls `serde_json::Map::insert`: the map has the entry, in the place of the one
/// with that key if there was one, whose value is handed out.
#[verifier::external_body]
pub(crate) fn json_map_insert(
    m: &mut JsonMap<String, JsonTree>,
    key: String,
    value: JsonTree,
) -> (r: Option<JsonTree>)
    ensures
        json_map_of(*final(m)) == json_map_of(*old(m)).insert(key@, json_of(value)),
        r is Some <==> json_map_of(*old(m)).dom().contains(key@),
        r matches Some(before) ==> json_of(before) == json_map_of(*old(m))[key@],
{
    m.insert(key, value)
}

/// The variant `serde_json::Value::Object`.
#[verifier::external_body]
pub(crate) fn json_table(m: JsonMap<String, JsonTree>) -> (r: JsonTree)
    ensures
        json_of(r) == Json::Table(json_map_of(m)),
{
    JsonTree::Object(m)
}

} // verus!
