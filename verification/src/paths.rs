//! From the hash of a path back to the path.
use crate::path::{entity_path_parts, path_before};
use itertools::Itertools;
use re_log_types::EntityPath;
use std::collections::HashMap;
use vstd::prelude::*;

verus! {

/// `nohash_hasher::NoHashHasher`: hands a number back as its own hash.
#[verifier::external_type_specification]
#[verifier::external_body]
#[verifier::reject_recursive_types(T)]
pub struct ExNoHashHasher<T>(nohash_hasher::NoHashHasher<T>);

/// `BuildHasherDefault`: makes hashers that all start out the same.
#[verifier::external_type_specification]
#[verifier::external_body]
#[verifier::reject_recursive_types(H)]
pub struct ExBuildHasherDefault<H>(std::hash::BuildHasherDefault<H>);

/// Paths by their hashes. The hashes are used as they are.
pub type PathMap = HashMap<
    u64,
    EntityPath,
    std::hash::BuildHasherDefault<nohash_hasher::NoHashHasher<u64>>,
>;

/// Whether a path is in a map.
pub open spec fn is_value(map: Map<u64, EntityPath>, path: EntityPath) -> bool {
    exists|hash: u64| #[trigger] map.contains_key(hash) && map[hash] == path
}

/// Whether no two paths in a map have the same parts.
pub open spec fn parts_differ(map: Map<u64, EntityPath>) -> bool {
    forall|a: u64, b: u64|
        #![trigger map[a], map[b]]
        map.contains_key(a) && map.contains_key(b) && a != b ==> entity_path_parts(map[a])
            != entity_path_parts(map[b])
}

/// A map without any paths.
///
/// Calls `HashMap::default` for a map that does not hash its keys (`nohash_hasher::IntMap`).
#[verifier::external_body]
pub(crate) fn new_path_map() -> (r: PathMap)
    ensures
        r@.dom() == Set::<u64>::empty(),
{
    nohash_hasher::IntMap::default()
}

/// Adds a path.
///
/// Calls `HashMap::insert` for a map that does not hash its keys.
#[verifier::external_body]
pub(crate) fn insert_path(map: &mut PathMap, hash: u64, path: EntityPath)
    ensures
        final(map)@ == old(map)@.insert(hash, path),
{
    map.insert(hash, path);
}

/// The path under a hash.
///
/// Calls `HashMap::get` for a map that does not hash its keys.
#[verifier::external_body]
pub(crate) fn get_path(map: &PathMap, hash: u64) -> (r: Option<&EntityPath>)
    ensures
        match r {
            Some(path) => map@.contains_key(hash) && *path == map@[hash],
            None => !map@.contains_key(hash),
        },
{
    map.get(&hash)
}

/// All paths, in order.
///
/// Calls `Itertools::sorted` on `HashMap::values`: each path of the map comes once, and none
/// comes before one that it is greater than. If no two have the same parts, they are in strictly
/// ascending order.
#[verifier::external_body]
pub(crate) fn sorted_paths(map: &PathMap) -> (r: Vec<&EntityPath>)
    ensures
        r@.len() == map@.len(),
        forall|hash: u64| #[trigger]
            map@.contains_key(hash) ==> exists|i: int|
                0 <= i < r@.len() && *(#[trigger] r@[i]) == map@[hash],
        forall|i: int| 0 <= i < r@.len() ==> is_value(map@, *(#[trigger] r@[i])),
        forall|i: int, j: int|
            #![trigger r@[i], r@[j]]
            0 <= i < j < r@.len() ==> !path_before(
                entity_path_parts(*r@[j]),
                entity_path_parts(*r@[i]),
            ),
        parts_differ(map@) ==> forall|i: int, j: int|
            #![trigger r@[i], r@[j]]
            0 <= i < j < r@.len() ==> path_before(
                entity_path_parts(*r@[i]),
                entity_path_parts(*r@[j]),
            ),
{
    map.values().sorted().collect()
}

} // verus!
