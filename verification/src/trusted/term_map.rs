//! The hash table of the `hashbrown` crate, from terms to their ids.

use vstd::prelude::*;

verus! {

/// A `hashbrown::HashMap` from keys of three parts to ids. The table's type has
/// an allocator parameter whose bound cannot be named, so the table is held here
/// as opaque.
#[verifier::external_body]
#[derive(Debug)]
pub struct TermIdMap {
    table: hashbrown::HashMap<(u8, String, String), u32>,
}

/// The ids by key that a table holds.
pub uninterp spec fn term_ids(m: TermIdMap) -> Map<(u8, Seq<char>, Seq<char>), u32>;

/// No keys at all.
pub open spec fn no_ids() -> Map<(u8, Seq<char>, Seq<char>), u32> {
    Map::empty()
}

/// Calls `hashbrown::HashMap::new`: an empty table.
#[verifier::external_body]
pub(crate) fn term_map_new() -> (r: TermIdMap)
    ensures
        term_ids(r) == no_ids(),
{
    TermIdMap { table: hashbrown::HashMap::new() }
}

/// Calls `hashbrown::HashMap::get`: the id of the key, if the table has the key.
#[verifier::external_body]
pub(crate) fn term_map_get(m: &TermIdMap, key: &(u8, String, String)) -> (r: Option<u32>)
    ensures
        r == (if term_ids(*m).dom().contains((key.0, key.1@, key.2@)) {
            Some(term_ids(*m)[(key.0, key.1@, key.2@)])
        } else {
            None
        }),
{
    m.table.get(key).copied()
}

/// Calls `hashbrown::HashMap::insert`: the key has the id, whatever it had
/// before, and the other keys keep theirs.
#[verifier::external_body]
pub(crate) fn term_map_insert(m: &mut TermIdMap, key: (u8, String, String), id: u32)
    ensures
        term_ids(*final(m)) == term_ids(*old(m)).insert((key.0, key.1@, key.2@), id),
{
    m.table.insert(key, id);
}

/// Calls `hashbrown::HashMap::clone`: a table with the same keys and ids.
#[verifier::external_body]
pub(crate) fn term_map_clone(m: &TermIdMap) -> (r: TermIdMap)
    ensures
        term_ids(r) == term_ids(*m),
{
    TermIdMap { table: m.table.clone() }
}

} // verus!
