//! The tile-keyed indexes: which pile, machine or rail segment lies on a tile.

use std::collections::BTreeMap;
use vstd::laws_cmp::group_laws_cmp;
use vstd::prelude::*;
use vstd::std_specs::btree::group_btree_axioms;

verus! {

/// What is filed under `key`, if anything.
pub fn tile_lookup<V: Copy>(map: &BTreeMap<(u8, u8), V>, key: (u8, u8)) -> (r: Option<V>)
    ensures
        r == (if map@.contains_key(key) {
            Some(map@[key])
        } else {
            None
        }),
{
    broadcast use group_btree_axioms, group_laws_cmp;

    match map.get(&key) {
        Some(v) => Some(*v),
        None => None,
    }
}

/// Whether anything is filed under `key`.
pub fn tile_taken<V>(map: &BTreeMap<(u8, u8), V>, key: (u8, u8)) -> (r: bool)
    ensures
        r == map@.contains_key(key),
{
    broadcast use group_btree_axioms, group_laws_cmp;

    map.contains_key(&key)
}

/// Files `v` under `key`, in place of what was there.
pub fn tile_file<V>(map: &mut BTreeMap<(u8, u8), V>, key: (u8, u8), v: V)
    ensures
        final(map)@ == old(map)@.insert(key, v),
{
    broadcast use group_btree_axioms, group_laws_cmp;

    let _ = map.insert(key, v);
}

/// Removes what is filed under `key`.
pub fn tile_unfile<V>(map: &mut BTreeMap<(u8, u8), V>, key: (u8, u8))
    ensures
        final(map)@ == old(map)@.remove(key),
{
    broadcast use group_btree_axioms, group_laws_cmp;

    let _ = map.remove(&key);
}

} // verus!
