//! Hash tables keyed by point keys.
//!
//! The tables are `rustc_hash`'s: std's `HashMap` and `HashSet` with the Fx
//! hasher. std's tables behave as maps and sets where equal keys hash alike
//! every time. That holds here: the keys are `u64`, and
//! `FxBuildHasher::build_hasher` starts every hasher from the same state, from
//! which `FxHasher` computes its hash out of nothing but what is written to it.
//!
//! What the functions below state is taken on trust from the source of
//! `rustc_hash` and the documentation of std; nothing in this file is proved.

use vstd::prelude::*;
use rustc_hash::FxBuildHasher;
use rustc_hash::FxHashMap;
use rustc_hash::FxHashSet;

verus! {

/// `rustc_hash::FxBuildHasher`, the hasher builder of the tables. It is a unit
/// struct; every hasher it builds starts from the same state.
#[verifier::external_type_specification]
#[verifier::external_body]
pub struct ExFxBuildHasher(FxBuildHasher);

/// `HashMap::get` on an `FxHashMap` with integer keys. Trusted: it returns the
/// value held under `key`, and `None` exactly when the map holds none.
#[verifier::external_body]
pub(crate) fn table_get<V>(table: &FxHashMap<u64, V>, key: u64) -> (found: Option<&V>)
    ensures
        found == (if table@.contains_key(key) {
            Some(&table@[key])
        } else {
            None
        }),
{
    table.get(&key)
}

/// `HashMap::insert` on an `FxHashMap` with integer keys. Trusted: afterwards
/// the map holds `value` under `key` and is otherwise as before.
#[verifier::external_body]
pub(crate) fn table_insert<V>(table: &mut FxHashMap<u64, V>, key: u64, value: V)
    ensures
        final(table)@ == old(table)@.insert(key, value),
{
    table.insert(key, value);
}

/// `HashMap::remove` on an `FxHashMap` with integer keys. Trusted: it hands out
/// the value held under `key`, if any, and the map no longer holds that key.
#[verifier::external_body]
pub(crate) fn table_remove<V>(table: &mut FxHashMap<u64, V>, key: u64) -> (taken: Option<V>)
    ensures
        final(table)@ == old(table)@.remove(key),
        taken == (if old(table)@.contains_key(key) {
            Some(old(table)@[key])
        } else {
            None
        }),
{
    table.remove(&key)
}

/// `HashSet::insert` on an `FxHashSet` of integers. Trusted: afterwards the set
/// holds `key` besides what it held before.
#[verifier::external_body]
pub(crate) fn set_insert(set: &mut FxHashSet<u64>, key: u64)
    ensures
        final(set)@ == old(set)@.insert(key),
{
    set.insert(key);
}

/// `HashSet::contains` on an `FxHashSet` of integers. Trusted: it tells whether
/// the set holds `key`.
#[verifier::external_body]
pub(crate) fn set_contains(set: &FxHashSet<u64>, key: u64) -> (held: bool)
    ensures
        held == set@.contains(key),
{
    set.contains(&key)
}

} // verus!
