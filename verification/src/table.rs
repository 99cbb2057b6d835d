//! Trusted boundary around `hashbrown::HashMap`.
//!
//! The two tables here hold the bidirectional map's storage. Each is a
//! `hashbrown` hash table held opaquely, with an uninterpreted name for the
//! associations it holds and one wrapper per table operation the library
//! uses. Everything above this module is verified against these contracts.

use vstd::prelude::*;

verus! {

/// A hash table from owned string keys to ids, backed by `hashbrown`.
#[verifier::external_body]
pub struct StrIdTable {
    table: hashbrown::HashMap<String, usize>,
}

/// The key -> id associations that a `StrIdTable` holds.
pub uninterp spec fn str_id_entries(t: StrIdTable) -> Map<Seq<char>, usize>;

/// A hash table from ids to owned string keys, backed by `hashbrown`.
#[verifier::external_body]
pub struct IdStrTable {
    table: hashbrown::HashMap<usize, String>,
}

/// The id -> key associations that an `IdStrTable` holds.
pub uninterp spec fn id_str_entries(t: IdStrTable) -> Map<usize, Seq<char>>;

/// The empty key -> id association map.
pub open spec fn str_id_empty() -> Map<Seq<char>, usize> {
    Map::empty()
}

/// The empty id -> key association map.
pub open spec fn id_str_empty() -> Map<usize, Seq<char>> {
    Map::empty()
}

/// Relies on hashbrown::HashMap::new: a fresh table holds no entries.
#[verifier::external_body]
pub fn str_id_new() -> (t: StrIdTable)
    ensures
        str_id_entries(t) == str_id_empty(),
{
    StrIdTable { table: hashbrown::HashMap::new() }
}

/// Relies on hashbrown::HashMap::get: returns the id associated with the
/// key, or nothing when the key is absent.
#[verifier::external_body]
pub fn str_id_get(t: &StrIdTable, k: &str) -> (r: Option<usize>)
    ensures
        r == (if str_id_entries(*t).dom().contains(k@) {
            Some(str_id_entries(*t)[k@])
        } else {
            None::<usize>
        }),
{
    t.table.get(k).copied()
}

/// Relies on hashbrown::HashMap::insert: maps the key to the id, returning
/// the id the key was mapped to before, if any.
#[verifier::external_body]
pub fn str_id_insert(t: &mut StrIdTable, k: String, v: usize) -> (r: Option<usize>)
    ensures
        str_id_entries(*final(t)) == str_id_entries(*old(t)).insert(k@, v),
        r == (if str_id_entries(*old(t)).dom().contains(k@) {
            Some(str_id_entries(*old(t))[k@])
        } else {
            None::<usize>
        }),
{
    t.table.insert(k, v)
}

/// Relies on hashbrown::HashMap::remove: removes the key's entry and returns
/// the id it was mapped to, or nothing when the key is absent.
#[verifier::external_body]
pub fn str_id_remove(t: &mut StrIdTable, k: &str) -> (r: Option<usize>)
    ensures
        str_id_entries(*final(t)) == str_id_entries(*old(t)).remove(k@),
        r == (if str_id_entries(*old(t)).dom().contains(k@) {
            Some(str_id_entries(*old(t))[k@])
        } else {
            None::<usize>
        }),
{
    t.table.remove(k)
}

/// Relies on hashbrown::HashMap::iter: every entry is handed out exactly
/// once, in no promised order.
#[verifier::external_body]
pub fn str_id_pairs(t: &StrIdTable) -> (r: Vec<(String, usize)>)
    ensures
        forall|i: int|
            0 <= i < r@.len() ==> str_id_entries(*t).dom().contains((#[trigger] r@[i]).0@)
                && str_id_entries(*t)[r@[i].0@] == r@[i].1,
        forall|k: Seq<char>| #[trigger]
            str_id_entries(*t).dom().contains(k) ==> exists|i: int|
                0 <= i < r@.len() && (#[trigger] r@[i]).0@ == k,
        forall|i: int, j: int|
            0 <= i < j < r@.len() ==> (#[trigger] r@[i]).0@ != (#[trigger] r@[j]).0@,
{
    t.table.iter().map(|(k, v)| (k.clone(), *v)).collect()
}

/// Relies on hashbrown::HashMap::new: a fresh table holds no entries.
#[verifier::external_body]
pub fn id_str_new() -> (t: IdStrTable)
    ensures
        id_str_entries(t) == id_str_empty(),
{
    IdStrTable { table: hashbrown::HashMap::new() }
}

/// Relies on hashbrown::HashMap::get: returns a reference to the key
/// associated with the id, or nothing when the id is absent.
#[verifier::external_body]
pub fn id_str_get(t: &IdStrTable, id: usize) -> (r: Option<&String>)
    ensures
        r matches Some(k) ==> id_str_entries(*t).dom().contains(id) && k@ == id_str_entries(
            *t,
        )[id],
        r is None ==> !id_str_entries(*t).dom().contains(id),
{
    t.table.get(&id)
}

/// Relies on hashbrown::HashMap::insert: maps the id to the key, returning
/// the key the id was mapped to before, if any.
#[verifier::external_body]
pub fn id_str_insert(t: &mut IdStrTable, id: usize, k: String) -> (r: Option<String>)
    ensures
        id_str_entries(*final(t)) == id_str_entries(*old(t)).insert(id, k@),
        r matches Some(prev) ==> id_str_entries(*old(t)).dom().contains(id) && prev@
            == id_str_entries(*old(t))[id],
        r is None ==> !id_str_entries(*old(t)).dom().contains(id),
{
    t.table.insert(id, k)
}

/// Relies on hashbrown::HashMap::remove: removes the id's entry and returns
/// the key it was mapped to, or nothing when the id is absent.
#[verifier::external_body]
pub fn id_str_remove(t: &mut IdStrTable, id: usize) -> (r: Option<String>)
    ensures
        id_str_entries(*final(t)) == id_str_entries(*old(t)).remove(id),
        r matches Some(k) ==> id_str_entries(*old(t)).dom().contains(id) && k@ == id_str_entries(
            *old(t),
        )[id],
        r is None ==> !id_str_entries(*old(t)).dom().contains(id),
{
    t.table.remove(&id)
}

} // verus!
