//! The forward store of the index: a multimap from key to the entities
//! currently bucketed under it, held in an outside collection and reached
//! only through the narrow interface below. Each wrapper states, over the
//! named contents `mm_contents`, exactly what the collection's source shows
//! the call to do.

use vstd::prelude::*;

verus! {

/// `multimap::MultiMap` keeps, per key, a vector of the values inserted
/// under that key, in insertion order.
#[verifier::external_type_specification]
#[verifier::external_body]
#[verifier::reject_recursive_types(K)]
#[verifier::reject_recursive_types(V)]
#[verifier::reject_recursive_types(S)]
pub struct ExMultiMap<K, V, S>(multimap::MultiMap<K, V, S>);

/// The contents of the forward store: each present key mapped to the
/// sequence of values under it, in insertion order.
pub uninterp spec fn mm_contents(m: multimap::MultiMap<u64, u64>) -> Map<u64, Seq<u64>>;

/// Relies on `multimap::MultiMap::new`: creates an empty multimap.
#[verifier::external_body]
pub(crate) fn mm_new() -> (m: multimap::MultiMap<u64, u64>)
    ensures
        forall|k: u64| !mm_contents(m).contains_key(k),
{
    multimap::MultiMap::new()
}

/// Relies on `multimap::MultiMap::insert`: pushes the value onto the key's
/// vector, creating a one-element vector if the key is absent.
#[verifier::external_body]
pub(crate) fn mm_insert(m: &mut multimap::MultiMap<u64, u64>, k: u64, v: u64)
    ensures
        mm_contents(*final(m)) == mm_contents(*old(m)).insert(
            k,
            (if mm_contents(*old(m)).contains_key(k) {
                mm_contents(*old(m))[k]
            } else {
                Seq::<u64>::empty()
            }).push(v),
        ),
{
    m.insert(k, v)
}

/// Relies on `multimap::MultiMap::get_vec`: returns a reference to the
/// key's vector, or `None` if the key is absent.
#[verifier::external_body]
pub(crate) fn mm_get_vec<'a>(m: &'a multimap::MultiMap<u64, u64>, k: &u64) -> (r: Option<
    &'a Vec<u64>,
>)
    ensures
        match r {
            Some(v) => mm_contents(*m).contains_key(*k) && v@ == mm_contents(*m)[*k],
            None => !mm_contents(*m).contains_key(*k),
        },
{
    m.get_vec(k)
}

/// Relies on `multimap::MultiMap::remove`: takes the key out of the map and
/// returns its vector, or `None` if the key is absent.
#[verifier::external_body]
pub(crate) fn mm_remove(m: &mut multimap::MultiMap<u64, u64>, k: &u64) -> (r: Option<Vec<u64>>)
    ensures
        mm_contents(*final(m)) == mm_contents(*old(m)).remove(*k),
        match r {
            Some(v) => mm_contents(*old(m)).contains_key(*k) && v@ == mm_contents(*old(m))[*k],
            None => !mm_contents(*old(m)).contains_key(*k),
        },
{
    m.remove(k)
}

} // verus!
