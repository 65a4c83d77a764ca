//! Tables from chromosome names to positions, kept in hash maps.

use fnv::FnvBuildHasher;
use indexmap::IndexMap;
use rustc_hash::FxBuildHasher;
use std::collections::HashMap;
use vstd::prelude::*;

verus! {

/// The insertion-ordered hash map of the `indexmap` crate.
#[verifier::external_type_specification]
#[verifier::external_body]
#[verifier::reject_recursive_types(K)]
#[verifier::reject_recursive_types(V)]
#[verifier::reject_recursive_types(S)]
pub struct ExIndexMap<K, V, S>(IndexMap<K, V, S>);

/// The builder of default hashers of the standard library.
#[verifier::external_type_specification]
#[verifier::external_body]
#[verifier::reject_recursive_types(H)]
pub struct ExBuildHasherDefault<H>(std::hash::BuildHasherDefault<H>);

/// The hasher of the `fnv` crate.
#[verifier::external_type_specification]
#[verifier::external_body]
pub struct ExFnvHasher(fnv::FnvHasher);

/// The builder of hashers of the `rustc-hash` crate.
#[verifier::external_type_specification]
#[verifier::external_body]
pub struct ExFxBuildHasher(FxBuildHasher);

/// What a table of slots holds: the position recorded for each name.
pub uninterp spec fn slot_table(table: IndexMap<String, usize, FnvBuildHasher>) -> Map<
    Seq<char>,
    usize,
>;

/// What a table of groups holds: the position recorded for each name.
pub uninterp spec fn group_table(table: HashMap<String, usize, FxBuildHasher>) -> Map<
    Seq<char>,
    usize,
>;

/// The table that records nothing.
pub open spec fn empty_table() -> Map<Seq<char>, usize> {
    Map::empty()
}

/// `IndexMap::default` gives a map without entries.
#[verifier::external_body]
pub(crate) fn slots_new() -> (table: IndexMap<String, usize, FnvBuildHasher>)
    ensures
        slot_table(table) == empty_table(),
{
    IndexMap::default()
}

/// `IndexMap::insert` records `slot` for `name`, in place of what the map
/// held for that name, and leaves the other entries as they were.
#[verifier::external_body]
pub(crate) fn slots_insert(
    table: &mut IndexMap<String, usize, FnvBuildHasher>,
    name: String,
    slot: usize,
)
    ensures
        slot_table(*final(table)) == slot_table(*old(table)).insert(name@, slot),
{
    table.insert(name, slot);
}

/// `IndexMap::get` finds the position recorded for `name`, if there is one.
#[verifier::external_body]
pub(crate) fn slots_get(table: &IndexMap<String, usize, FnvBuildHasher>, name: &str) -> (slot:
    Option<usize>)
    ensures
        slot == (if slot_table(*table).dom().contains(name@) {
            Some(slot_table(*table)[name@])
        } else {
            None
        }),
{
    table.get(name).copied()
}

/// `HashMap::default` gives a map without entries.
#[verifier::external_body]
pub(crate) fn groups_new() -> (table: HashMap<String, usize, FxBuildHasher>)
    ensures
        group_table(table) == empty_table(),
{
    HashMap::default()
}

/// `HashMap::insert` records `slot` for `name`, in place of what the map
/// held for that name, and leaves the other entries as they were.
#[verifier::external_body]
pub(crate) fn groups_insert(
    table: &mut HashMap<String, usize, FxBuildHasher>,
    name: String,
    slot: usize,
)
    ensures
        group_table(*final(table)) == group_table(*old(table)).insert(name@, slot),
{
    table.insert(name, slot);
}

/// `HashMap::get` finds the position recorded for `name`, if there is one.
#[verifier::external_body]
pub(crate) fn groups_get(table: &HashMap<String, usize, FxBuildHasher>, name: &str) -> (slot:
    Option<usize>)
    ensures
        slot == (if group_table(*table).dom().contains(name@) {
            Some(group_table(*table)[name@])
        } else {
            None
        }),
{
    table.get(name).copied()
}

} // verus!
