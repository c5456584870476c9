//! The bounded least-recently-used mapping from slab index to slab, kept in
//! `lru_cache::LruCache`. The cache is modelled as a sequence of entries in
//! recency order: index 0 is the least recently used entry, the last index the
//! most recently used one. Every operation the library calls goes through a
//! wrapper whose contract states what the crate's source shows over that
//! sequence.

use vstd::prelude::*;
use crate::slab::Slab;
use std::hash::{BuildHasher, Hash};

verus! {

#[verifier::external_type_specification]
#[verifier::external_body]
#[verifier::reject_recursive_types(K)]
#[verifier::reject_recursive_types(V)]
#[verifier::reject_recursive_types(S)]
pub struct ExLruCache<K: Eq + Hash, V, S: BuildHasher>(lru_cache::LruCache<K, V, S>);

/// The cache's entries in recency order, least recently used first.
pub uninterp spec fn lru_entries(c: lru_cache::LruCache<u64, Slab>) -> Seq<(u64, Slab)>;

/// The bound the cache was created with.
pub uninterp spec fn lru_capacity(c: lru_cache::LruCache<u64, Slab>) -> int;

/// The keys of an entry sequence, in the same order.
pub open spec fn entry_keys(es: Seq<(u64, Slab)>) -> Seq<u64> {
    es.map_values(|e: (u64, Slab)| e.0)
}

/// Whether some entry carries the key.
pub open spec fn has_key(es: Seq<(u64, Slab)>, k: u64) -> bool {
    exists|i: int| 0 <= i < es.len() && (#[trigger] es[i]).0 == k
}

/// No two entries carry the same key.
pub open spec fn distinct_keys(es: Seq<(u64, Slab)>) -> bool {
    forall|i: int, j: int| 0 <= i < j < es.len() ==> (#[trigger] es[i]).0 != (#[trigger] es[j]).0
}

/// Relies on lru_cache::LruCache::new: an empty cache that holds at most
/// `capacity` entries.
#[verifier::external_body]
pub(crate) fn lru_new(capacity: usize) -> (c: lru_cache::LruCache<u64, Slab>)
    ensures
        lru_entries(c) == Seq::<(u64, Slab)>::empty(),
        lru_capacity(c) == capacity as int,
{
    lru_cache::LruCache::new(capacity)
}

/// Relies on lru_cache::LruCache::len: how many entries the cache holds.
#[verifier::external_body]
pub(crate) fn lru_len(c: &lru_cache::LruCache<u64, Slab>) -> (n: usize)
    ensures
        n as int == lru_entries(*c).len(),
{
    c.len()
}

/// Relies on lru_cache::LruCache::capacity: the bound given at construction.
#[verifier::external_body]
pub(crate) fn lru_cap(c: &lru_cache::LruCache<u64, Slab>) -> (n: usize)
    ensures
        n as int == lru_capacity(*c),
{
    c.capacity()
}

/// Relies on lru_cache::LruCache::remove (linked_hash_map::LinkedHashMap::
/// remove underneath): takes the entry with the given key out, keeping the
/// recency order of the rest.
#[verifier::external_body]
pub(crate) fn lru_remove(c: &mut lru_cache::LruCache<u64, Slab>, k: u64) -> (r: Option<Slab>)
    ensures
        lru_capacity(*final(c)) == lru_capacity(*old(c)),
        !has_key(lru_entries(*old(c)), k) ==> r is None && lru_entries(*final(c)) == lru_entries(
            *old(c),
        ),
        has_key(lru_entries(*old(c)), k) ==> exists|i: int|
            0 <= i < lru_entries(*old(c)).len() && (#[trigger] lru_entries(*old(c))[i]).0 == k && r
                == Some(lru_entries(*old(c))[i].1) && lru_entries(*final(c)) == lru_entries(
                *old(c),
            ).remove(i),
{
    c.remove(&k)
}

/// Relies on lru_cache::LruCache::insert (linked_hash_map::LinkedHashMap::
/// insert underneath): a key that is not yet present is attached as the most
/// recently used entry, and below the capacity nothing is evicted.
#[verifier::external_body]
pub(crate) fn lru_insert(c: &mut lru_cache::LruCache<u64, Slab>, k: u64, v: Slab)
    requires
        !has_key(lru_entries(*old(c)), k),
        lru_entries(*old(c)).len() < lru_capacity(*old(c)),
    ensures
        lru_capacity(*final(c)) == lru_capacity(*old(c)),
        lru_entries(*final(c)) == lru_entries(*old(c)).push((k, v)),
{
    c.insert(k, v);
}

/// Relies on lru_cache::LruCache::remove_lru (linked_hash_map::LinkedHashMap::
/// pop_front underneath): takes out the least recently used entry.
#[verifier::external_body]
pub(crate) fn lru_remove_lru(c: &mut lru_cache::LruCache<u64, Slab>) -> (r: Option<(u64, Slab)>)
    ensures
        lru_capacity(*final(c)) == lru_capacity(*old(c)),
        lru_entries(*old(c)).len() == 0 ==> r is None && lru_entries(*final(c)) == lru_entries(
            *old(c),
        ),
        lru_entries(*old(c)).len() > 0 ==> r == Some(lru_entries(*old(c))[0]) && lru_entries(
            *final(c),
        ) == lru_entries(*old(c)).drop_first(),
{
    c.remove_lru()
}

} // verus!
