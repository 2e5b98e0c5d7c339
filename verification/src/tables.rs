//! The hash tables of a graph, from `rustc_hash`.
use vstd::prelude::*;

use rustc_hash::{FxHashMap, FxHashSet};

use crate::eq_graph::{term_key, HirClass, HirId, TermKey};
use crate::ty::Term;

verus! {

/// The hasher builder of `rustc_hash`, carried as an opaque type.
#[verifier::external_type_specification]
#[verifier::external_body]
pub struct ExFxBuildHasher(rustc_hash::FxBuildHasher);

/// The entries of a hash-consing table, each term taken by its key and each
/// Id by its index.
pub uninterp spec fn id_map_entries(table: FxHashMap<Term<HirId>, HirId>) -> Map<TermKey, usize>;

/// Calls `FxHashMap::default`; claims that the new table has no entry.
#[verifier::external_body]
pub(crate) fn id_map_new() -> (table: FxHashMap<Term<HirId>, HirId>)
    ensures
        id_map_entries(table).dom() == Set::<TermKey>::empty(),
{
    FxHashMap::default()
}

/// Calls `HashMap::get`; claims that it finds the Id stored under a term equal
/// to `key` (same operator, same children), and nothing when there is none.
#[verifier::external_body]
pub(crate) fn id_map_get(table: &FxHashMap<Term<HirId>, HirId>, key: &Term<HirId>) -> (r: Option<
    HirId,
>)
    ensures
        match r {
            Some(id) => id_map_entries(*table).contains_key(term_key(*key))
                && id_map_entries(*table)[term_key(*key)] == id@,
            None => !id_map_entries(*table).contains_key(term_key(*key)),
        },
{
    table.get(key).copied()
}

/// Calls `HashMap::insert`; claims that afterwards `key` maps to `id` and
/// every other entry is unchanged.
#[verifier::external_body]
pub(crate) fn id_map_insert(table: &mut FxHashMap<Term<HirId>, HirId>, key: Term<HirId>, id: HirId)
    ensures
        id_map_entries(*final(table)) == id_map_entries(*old(table)).insert(term_key(key), id@),
{
    table.insert(key, id);
}

/// The entries of a class table, each Id by its index and each class by its
/// nodes and dependent parents.
pub uninterp spec fn class_entries(table: FxHashMap<HirId, HirClass>) -> Map<
    usize,
    (Seq<HirId>, Seq<HirId>),
>;

/// Calls `FxHashMap::default`; claims that the new table has no entry.
#[verifier::external_body]
pub(crate) fn class_table_new() -> (table: FxHashMap<HirId, HirClass>)
    ensures
        class_entries(table).dom() == Set::<usize>::empty(),
{
    FxHashMap::default()
}

/// Calls `HashMap::get`; claims that it finds the class stored under `id`,
/// and nothing when there is none.
#[verifier::external_body]
pub(crate) fn class_table_get(table: &FxHashMap<HirId, HirClass>, id: HirId) -> (r: Option<&HirClass>)
    ensures
        match r {
            Some(c) => class_entries(*table).contains_key(id@) && class_entries(*table)[id@] == c@,
            None => !class_entries(*table).contains_key(id@),
        },
{
    table.get(&id)
}

/// Calls `HashMap::insert`; claims that afterwards `id` maps to `class` and
/// every other entry is unchanged.
#[verifier::external_body]
pub(crate) fn class_table_insert(table: &mut FxHashMap<HirId, HirClass>, id: HirId, class: HirClass)
    ensures
        class_entries(*final(table)) == class_entries(*old(table)).insert(id@, class@),
{
    table.insert(id, class);
}

/// Calls `HashMap::remove`; claims that it hands back the class stored under
/// `id`, if any, and that afterwards `id` has no entry while every other entry
/// is unchanged.
#[verifier::external_body]
pub(crate) fn class_table_remove(table: &mut FxHashMap<HirId, HirClass>, id: HirId) -> (r: Option<
    HirClass,
>)
    ensures
        class_entries(*final(table)) == class_entries(*old(table)).remove(id@),
        match r {
            Some(c) => class_entries(*old(table)).contains_key(id@) && class_entries(*old(table))[id@]
                == c@,
            None => !class_entries(*old(table)).contains_key(id@),
        },
{
    table.remove(&id)
}

/// The members of an Id set, each Id by its index.
pub uninterp spec fn id_set_entries(set: FxHashSet<HirId>) -> Set<usize>;

/// Calls `FxHashSet::default`; claims that the new set is empty.
#[verifier::external_body]
pub(crate) fn id_set_new() -> (set: FxHashSet<HirId>)
    ensures
        id_set_entries(set) == Set::<usize>::empty(),
{
    FxHashSet::default()
}

/// Calls `HashSet::insert`; claims that afterwards the set holds `id` besides
/// what it held.
#[verifier::external_body]
pub(crate) fn id_set_insert(set: &mut FxHashSet<HirId>, id: HirId)
    ensures
        id_set_entries(*final(set)) == id_set_entries(*old(set)).insert(id@),
{
    set.insert(id);
}

/// Calls `HashSet::contains`; claims that it answers whether the set holds `id`.
#[verifier::external_body]
pub(crate) fn id_set_contains(set: &FxHashSet<HirId>, id: HirId) -> (r: bool)
    ensures
        r == id_set_entries(*set).contains(id@),
{
    set.contains(&id)
}

} // verus!
