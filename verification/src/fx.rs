//! Hash maps and sets with the Fx hasher.
//!
//! `rustc_hash::FxHashMap` and `FxHashSet` are std's map and set with the hasher
//! `rustc_hash::FxBuildHasher`, whose hash depends on the key alone. Making and
//! clearing one is specified by vstd for every hasher; the functions here state
//! look-up and update for the key types that this crate uses.

use rustc_hash::{FxHashMap, FxHashSet};
use vstd::prelude::*;

verus! {

/// The hasher, seen from outside only.
#[verifier::external_type_specification]
#[verifier::external_body]
pub struct ExFxBuildHasher(rustc_hash::FxBuildHasher);

/// Calls `HashSet::insert` on a `rustc_hash::FxHashSet`: adds `id` and tells
/// whether it was new.
#[verifier::external_body]
pub(crate) fn ids_insert(s: &mut FxHashSet<u32>, id: u32) -> (added: bool)
    ensures
        final(s)@ == old(s)@.insert(id),
        added == !old(s)@.contains(id),
{
    s.insert(id)
}

/// Calls `HashSet::contains` on a `rustc_hash::FxHashSet`.
#[verifier::external_body]
pub(crate) fn ids_contains(s: &FxHashSet<u32>, id: u32) -> (r: bool)
    ensures
        r == s@.contains(id),
{
    s.contains(&id)
}

/// Calls `HashMap::insert` on a `rustc_hash::FxHashMap` from a vertex triple to
/// a tet and one of its slots.
#[verifier::external_body]
pub(crate) fn faces_insert(
    m: &mut FxHashMap<(u32, u32, u32), (u32, usize)>,
    key: (u32, u32, u32),
    value: (u32, usize),
)
    ensures
        final(m)@ == old(m)@.insert(key, value),
{
    m.insert(key, value);
}

/// Calls `HashMap::remove` on a `rustc_hash::FxHashMap` from a vertex triple to
/// a tet and one of its slots: takes the entry of `key` out, if there is one.
#[verifier::external_body]
pub(crate) fn faces_remove(
    m: &mut FxHashMap<(u32, u32, u32), (u32, usize)>,
    key: (u32, u32, u32),
) -> (r: Option<(u32, usize)>)
    ensures
        final(m)@ == old(m)@.remove(key),
        r == (if old(m)@.contains_key(key) {
            Some(old(m)@[key])
        } else {
            None
        }),
{
    m.remove(&key)
}

/// Calls `HashMap::insert` on a `rustc_hash::FxHashMap` from an id pair to an id or count.
#[verifier::external_body]
pub(crate) fn pairs_insert(m: &mut FxHashMap<(u32, u32), u32>, key: (u32, u32), value: u32)
    ensures
        final(m)@ == old(m)@.insert(key, value),
{
    m.insert(key, value);
}

/// Calls `HashMap::get` on a `rustc_hash::FxHashMap` from an id pair to an id or count.
#[verifier::external_body]
pub(crate) fn pairs_get(m: &FxHashMap<(u32, u32), u32>, key: (u32, u32)) -> (r: Option<u32>)
    ensures
        r == (if m@.contains_key(key) {
            Some(m@[key])
        } else {
            None
        }),
{
    m.get(&key).copied()
}

/// Calls `HashMap::insert` on a `rustc_hash::FxHashMap` from a chart to its votes.
#[verifier::external_body]
pub(crate) fn votes_insert(m: &mut FxHashMap<u32, u32>, key: u32, value: u32)
    ensures
        final(m)@ == old(m)@.insert(key, value),
{
    m.insert(key, value);
}

/// Calls `HashMap::get` on a `rustc_hash::FxHashMap` from a chart to its votes.
#[verifier::external_body]
pub(crate) fn votes_get(m: &FxHashMap<u32, u32>, key: u32) -> (r: Option<u32>)
    ensures
        r == (if m@.contains_key(key) {
            Some(m@[key])
        } else {
            None
        }),
{
    m.get(&key).copied()
}

/// Calls `HashMap::iter` on a `rustc_hash::FxHashMap` from a chart to its votes: every entry
/// comes up once, in no particular order.
#[verifier::external_body]
pub(crate) fn votes_entries(m: &FxHashMap<u32, u32>) -> (r: Vec<(u32, u32)>)
    ensures
        forall|i: int|
            0 <= i < r@.len() ==> m@.contains_key((#[trigger] r@[i]).0) && m@[r@[i].0] == r@[i].1,
        forall|k: u32| #[trigger]
            m@.contains_key(k) ==> exists|i: int| 0 <= i < r@.len() && (#[trigger] r@[i]).0 == k,
        forall|i: int, j: int|
            #![trigger r@[i], r@[j]]
            0 <= i < j < r@.len() ==> r@[i].0 != r@[j].0,
{
    m.iter().map(|(&chart, &votes)| (chart, votes)).collect()
}

/// Calls `HashMap::insert` on a `rustc_hash::FxHashMap` from a bit pattern triple to a
/// count.
#[verifier::external_body]
pub(crate) fn counts_insert(m: &mut FxHashMap<(u32, u32, u32), u32>, key: (u32, u32, u32), value: u32)
    ensures
        final(m)@ == old(m)@.insert(key, value),
{
    m.insert(key, value);
}

/// Calls `HashMap::get` on a `rustc_hash::FxHashMap` from a bit pattern triple to a count.
#[verifier::external_body]
pub(crate) fn counts_get(m: &FxHashMap<(u32, u32, u32), u32>, key: (u32, u32, u32)) -> (r: Option<
    u32,
>)
    ensures
        r == (if m@.contains_key(key) {
            Some(m@[key])
        } else {
            None
        }),
{
    m.get(&key).copied()
}

} // verus!
