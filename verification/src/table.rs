//! Hash tables with integer keys.

use rustc_hash::{FxBuildHasher, FxHashMap};
use vstd::prelude::*;

verus! {

/// The state-free hasher builder of `rustc_hash`, by which its tables hash their keys.
#[verifier::external_type_specification]
#[verifier::external_body]
pub struct ExFxBuildHasher(FxBuildHasher);

/// `FxHashMap::default`: a table that holds nothing.
#[verifier::external_body]
pub(crate) fn fx_empty<V>() -> (m: FxHashMap<usize, V>)
    ensures
        (m@ == Map::<usize, V>::empty()),
{
    FxHashMap::default()
}

/// `FxHashMap::insert`: the table afterwards holds `v` under `k`, and elsewhere what it held.
#[verifier::external_body]
pub(crate) fn fx_insert<V>(m: &mut FxHashMap<usize, V>, k: usize, v: V)
    ensures
        final(m)@ == old(m)@.insert(k, v),
{
    m.insert(k, v);
}

/// `FxHashMap::get`, with the value copied out: what the table holds under `k`, if anything.
#[verifier::external_body]
pub(crate) fn fx_get<V: Copy>(m: &FxHashMap<usize, V>, k: usize) -> (r: Option<V>)
    ensures
        r == (if m@.contains_key(k) {
            Some(m@[k])
        } else {
            None
        }),
{
    m.get(&k).copied()
}

/// `FxHashMap::remove`: the table afterwards holds nothing under `k`, and elsewhere what it held.
#[verifier::external_body]
pub(crate) fn fx_remove<V>(m: &mut FxHashMap<usize, V>, k: usize)
    ensures
        final(m)@ == old(m)@.remove(k),
{
    m.remove(&k);
}

} // verus!
