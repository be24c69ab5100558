//! The node table: system names mapped to the nodes that stand for them.

use fnv::FnvHashMap;
use fnv::FnvHasher;
use std::hash::BuildHasherDefault;
use vstd::prelude::*;

verus! {

/// The hasher of the `fnv` crate, carried through opaquely.
#[verifier::external_type_specification]
#[verifier::external_body]
pub struct ExFnvHasher(FnvHasher);

/// `std::hash::BuildHasherDefault`, carried through opaquely.
#[verifier::external_type_specification]
#[verifier::external_body]
#[verifier::reject_recursive_types(H)]
pub struct ExBuildHasherDefault<H>(BuildHasherDefault<H>);

/// The entries that a name table holds: each name with its node.
pub uninterp spec fn table_entries(table: FnvHashMap<String, usize>) -> Map<Seq<char>, usize>;

/// `FnvHashMap::default`: a table without entries.
#[verifier::external_body]
pub(crate) fn table_new() -> (table: FnvHashMap<String, usize>)
    ensures
        forall|name: Seq<char>| !table_entries(table).contains_key(name),
{
    FnvHashMap::default()
}

/// `HashMap::get`: the node stored under `name`, or `None` where the table
/// has no such name.
#[verifier::external_body]
pub(crate) fn table_get(table: &FnvHashMap<String, usize>, name: &str) -> (node: Option<usize>)
    ensures
        node == if table_entries(*table).contains_key(name@) {
            Some(table_entries(*table)[name@])
        } else {
            None
        },
{
    match table.get(name) {
        Some(node) => Some(*node),
        None => None,
    }
}

/// `HashMap::insert`: afterwards `name` maps to `node` and every other name
/// is as before.
#[verifier::external_body]
pub(crate) fn table_insert(table: &mut FnvHashMap<String, usize>, name: String, node: usize)
    ensures
        table_entries(*final(table)) == table_entries(*old(table)).insert(name@, node),
{
    table.insert(name, node);
}

} // verus!
