//! The buffered store: a bounded LRU set of slabs over a backing store, a
//! logical cursor independent of the store's own cursor, and the
//! read/write/seek/flush protocol over them.

use vstd::prelude::*;
use crate::bytes::{pad_overwrite, zeros};
use crate::cache::{
    distinct_keys, entry_keys, has_key, lru_cap, lru_capacity, lru_entries, lru_insert, lru_len,
    lru_new, lru_remove, lru_remove_lru,
};
use crate::slab::Slab;
use crate::store::{BackingStore, StoreError};

verus! {

/// How many slabs the cache holds when no override is given.
pub const DEFAULT_CAPACITY: usize = 16;

/// The slab size used when no override is given.
pub const DEFAULT_SLAB_SIZE: usize = 512 * 1024;

/// Whether `n` is a power of two.
pub open spec fn is_power_of_two(n: int) -> bool
    decreases n,
{
    if n <= 0 {
        false
    } else if n == 1 {
        true
    } else {
        n % 2 == 0 && is_power_of_two(n / 2)
    }
}

/// The whole aligned region of slab `idx` lies within seekable positions.
pub open spec fn slab_region_fits(idx: u64, slab_size: int) -> bool {
    (idx as int + 1) * slab_size <= u64::MAX as int
}

/// The slab index of a logical offset.
pub open spec fn spec_idx_of(offset: int, slab_size: int) -> int {
    offset / slab_size
}

/// The recency order of the keys after the cache is asked for `k`: a cached
/// key moves to the most recently used end; a fresh key is appended, pushing
/// out the least recently used key when the cache is full.
pub open spec fn touched_keys(ks: Seq<u64>, k: u64, cap: int) -> Seq<u64> {
    if ks.contains(k) {
        ks.remove(key_pos(ks, k)).push(k)
    } else if ks.len() < cap {
        ks.push(k)
    } else {
        ks.drop_first().push(k)
    }
}

/// The key evicted when the cache is asked for `k`, if any.
pub open spec fn evicted_key(ks: Seq<u64>, k: u64, cap: int) -> Option<u64> {
    if !ks.contains(k) && ks.len() >= cap {
        Some(ks[0])
    } else {
        None
    }
}

/// The position of `k` in a key sequence.
pub open spec fn key_pos(ks: Seq<u64>, k: u64) -> int {
    choose|i: int| 0 <= i < ks.len() && ks[i] == k
}

/// The cached entries other than `idx`'s that remain after the cache is
/// asked for `idx`: the entry for `idx` itself is taken out, and when room
/// must be made the least recently used entry is gone.
pub open spec fn fetch_rest(es: Seq<(u64, Slab)>, idx: u64, cap: int) -> Seq<(u64, Slab)> {
    if has_key(es, idx) {
        es.remove(entry_pos(es, idx))
    } else if es.len() < cap {
        es
    } else {
        es.drop_first()
    }
}

/// The entry the cache gives up to make room when asked for `idx`, if any.
pub open spec fn evict_candidate(es: Seq<(u64, Slab)>, idx: u64, cap: int) -> Option<(u64, Slab)> {
    if !has_key(es, idx) && es.len() >= cap {
        Some(es[0])
    } else {
        None
    }
}

/// The store's contents after the cache is asked for `idx`: unchanged unless
/// a dirty slab is evicted, which writes its whole block back at its aligned
/// offset.
pub open spec fn store_after_fetch(
    c: Seq<u8>,
    es: Seq<(u64, Slab)>,
    idx: u64,
    cap: int,
    ss: int,
) -> Seq<u8> {
    match evict_candidate(es, idx, cap) {
        Some(e) => if e.1.dirty {
            pad_overwrite(c, e.0 as int * ss, e.1.data@)
        } else {
            c
        },
        None => c,
    }
}

/// A buffered store: a bounded least-recently-used set of slabs over an
/// exclusively owned backing store, and a logical cursor independent of the
/// store's own cursor.
pub struct BufFile<F: BackingStore> {
    slabs: lru_cache::LruCache<u64, Slab>,
    file: F,
    cursor: u64,
    slab_size: usize,
}

impl<F: BackingStore> BufFile<F> {
    /// The cached entries in recency order, least recently used first.
    pub closed spec fn entries(self) -> Seq<(u64, Slab)> {
        lru_entries(self.slabs)
    }

    /// The capacity fixed at construction.
    pub closed spec fn cap(self) -> int {
        lru_capacity(self.slabs)
    }

    /// The slab size fixed at construction.
    pub closed spec fn slab_size_spec(self) -> int {
        self.slab_size as int
    }

    /// The logical cursor.
    pub closed spec fn cursor_spec(self) -> int {
        self.cursor as int
    }

    /// The backing store's contents.
    pub closed spec fn store_contents(self) -> Seq<u8> {
        self.file.contents()
    }

    /// Well-formedness: the configuration is sane, the cache respects its
    /// bound and holds full-size slabs under distinct, representable indices,
    /// and every clean slab's valid prefix mirrors the store's bytes at its
    /// aligned region.
    pub closed spec fn wf(self) -> bool {
        let es = self.entries();
        let ss = self.slab_size as int;
        let c = self.file.contents();
        &&& self.slab_size >= 1
        &&& is_power_of_two(ss)
        &&& self.cap() >= 1
        &&& es.len() <= self.cap()
        &&& distinct_keys(es)
        &&& forall|i: int| 0 <= i < es.len() ==> (#[trigger] es[i]).1.wf(ss)
        &&& forall|i: int| 0 <= i < es.len() ==> slab_region_fits((#[trigger] es[i]).0, ss)
        &&& forall|i: int|
            0 <= i < es.len() ==> ((#[trigger] es[i]).1.dirty || mirrors(es[i], c, ss))
    }
}

/// The entry's valid prefix equals the store's bytes at its aligned region
/// (trivially so when nothing is valid yet).
pub open spec fn mirrors(e: (u64, Slab), c: Seq<u8>, ss: int) -> bool {
    e.1.valid_len == 0 || {
        &&& e.0 as int * ss + e.1.valid_len <= c.len()
        &&& e.1.valid_bytes() == c.subrange(e.0 as int * ss, e.0 as int * ss + e.1.valid_len)
    }
}

/// Multiplying by a positive slab size keeps distinct indices' regions apart.
proof fn lemma_regions_disjoint(a: int, b: int, ss: int)
    requires
        0 <= a,
        0 <= b,
        a != b,
        ss >= 1,
    ensures
        a < b ==> a * ss + ss <= b * ss,
        b < a ==> b * ss + ss <= a * ss,
{
    assert(a < b ==> a * ss + ss <= b * ss) by (nonlinear_arith)
        requires
            0 <= a,
            0 <= b,
            ss >= 1,
    ;
    assert(b < a ==> b * ss + ss <= a * ss) by (nonlinear_arith)
        requires
            0 <= a,
            0 <= b,
            ss >= 1,
    ;
}

/// How a logical offset decomposes around its slab's aligned start.
proof fn lemma_slab_decompose(cur: int, ss: int)
    requires
        0 <= cur,
        ss >= 1,
    ensures
        0 <= cur / ss,
        (cur / ss) * ss <= cur,
        cur < (cur / ss) * ss + ss,
{
    assert(0 <= cur / ss && (cur / ss) * ss <= cur && cur < (cur / ss) * ss + ss)
        by (nonlinear_arith)
        requires
            0 <= cur,
            ss >= 1,
    ;
}

/// A write to one slab's aligned region leaves every other slab's mirror
/// intact: the regions are disjoint and a clean slab's region lies below the
/// store's old end.
proof fn lemma_write_preserves_mirrors(
    c: Seq<u8>,
    c2: Seq<u8>,
    e: (u64, Slab),
    j: u64,
    patch: Seq<u8>,
    ss: int,
)
    requires
        ss >= 1,
        e.0 != j,
        patch.len() <= ss,
        slab_region_fits(e.0, ss),
        slab_region_fits(j, ss),
        e.1.valid_len <= ss,
        mirrors(e, c, ss),
        c2 == pad_overwrite(c, j as int * ss, patch),
    ensures
        mirrors(e, c2, ss),
{
    if e.1.valid_len > 0 {
        let a = e.0 as int;
        let b = j as int;
        lemma_regions_disjoint(a, b, ss);
        crate::bytes::lemma_pad_overwrite_len(c, b * ss, patch);
        crate::bytes::lemma_pad_overwrite_preserves(
            c,
            b * ss,
            patch,
            a * ss,
            a * ss + e.1.valid_len as int,
        );
    }
}

/// Turns a logical offset into the index of the slab that holds it.
pub fn idx_from_offset(offset: u64, slab_size: usize) -> (idx: u64)
    requires
        slab_size >= 1,
    ensures
        idx as int == spec_idx_of(offset as int, slab_size as int),
{
    offset / (slab_size as u64)
}

impl<F: BackingStore> BufFile<F> {
    /// A buffered store over `file` with the given slab capacity and slab
    /// size; the logical cursor starts at the store's own position. The slab
    /// size must be a power of two.
    pub fn with_params(file: F, capacity: usize, slab_size: usize) -> (r: Result<
        BufFile<F>,
        StoreError,
    >)
        requires
            capacity >= 1,
            slab_size >= 1,
            is_power_of_two(slab_size as int),
        ensures
            r matches Ok(b) ==> {
                &&& b.wf()
                &&& b.entries() == Seq::<(u64, Slab)>::empty()
                &&& b.cap() == capacity as int
                &&& b.slab_size_spec() == slab_size as int
                &&& b.store_contents() == file.contents()
                &&& b.cursor_spec() == file.position()
            },
    {
        let mut file = file;
        let cursor = match file.current_pos() {
            Ok(p) => p,
            Err(e) => {
                return Err(e);
            },
        };
        Ok(BufFile { slabs: lru_new(capacity), file, cursor, slab_size })
    }

    /// A buffered store with the default capacity and slab size.
    pub fn new(file: F) -> (r: Result<BufFile<F>, StoreError>)
        ensures
            r matches Ok(b) ==> {
                &&& b.wf()
                &&& b.entries() == Seq::<(u64, Slab)>::empty()
                &&& b.cap() == DEFAULT_CAPACITY as int
                &&& b.slab_size_spec() == DEFAULT_SLAB_SIZE as int
                &&& b.store_contents() == file.contents()
                &&& b.cursor_spec() == file.position()
            },
    {
        proof {
            lemma_default_slab_size_power_of_two();
        }
        Self::with_params(file, DEFAULT_CAPACITY, DEFAULT_SLAB_SIZE)
    }

    /// A buffered store with the given capacity and the default slab size.
    pub fn with_capacity(file: F, capacity: usize) -> (r: Result<BufFile<F>, StoreError>)
        requires
            capacity >= 1,
        ensures
            r matches Ok(b) ==> {
                &&& b.wf()
                &&& b.entries() == Seq::<(u64, Slab)>::empty()
                &&& b.cap() == capacity as int
                &&& b.slab_size_spec() == DEFAULT_SLAB_SIZE as int
                &&& b.store_contents() == file.contents()
                &&& b.cursor_spec() == file.position()
            },
    {
        proof {
            lemma_default_slab_size_power_of_two();
        }
        Self::with_params(file, capacity, DEFAULT_SLAB_SIZE)
    }

    /// The logical cursor's position.
    pub fn cursor_loc(&self) -> (r: u64)
        ensures
            r as int == self.cursor_spec(),
    {
        self.cursor
    }

    /// How many slabs are cached right now; never above the capacity on a
    /// well-formed store.
    pub fn cached_slabs(&self) -> (n: usize)
        ensures
            n as int == self.entries().len(),
    {
        lru_len(&self.slabs)
    }

    /// Takes the slab for `idx` out of the cache, or makes room for a fresh
    /// one: when the cache is full the least recently used slab is written
    /// back (if dirty) and discarded. On success the returned slab is the
    /// cached one, or a fresh empty one, and the cache has room and no entry
    /// for `idx`.
    fn take_or_make(&mut self, idx: u64) -> (r: Result<Slab, StoreError>)
        requires
            old(self).wf(),
            slab_region_fits(idx, old(self).slab_size_spec()),
        ensures
            final(self).wf(),
            final(self).cursor == old(self).cursor,
            final(self).slab_size == old(self).slab_size,
            lru_capacity(final(self).slabs) == lru_capacity(old(self).slabs),
            r matches Ok(s) ==> {
                let es = lru_entries(old(self).slabs);
                let ss = old(self).slab_size as int;
                let cap = lru_capacity(old(self).slabs);
                &&& !has_key(lru_entries(final(self).slabs), idx)
                &&& lru_entries(final(self).slabs).len() < cap
                &&& s.wf(ss)
                &&& final(self).file.contents() == store_after_fetch(
                    old(self).file.contents(),
                    es,
                    idx,
                    cap,
                    ss,
                )
                &&& if has_key(es, idx) {
                    exists|i: int|
                        0 <= i < es.len() && (#[trigger] es[i]).0 == idx && s == es[i].1
                            && lru_entries(final(self).slabs) == es.remove(i)
                } else {
                    &&& s.valid_len == 0
                    &&& !s.dirty
                    &&& s.data@ == zeros(ss)
                    &&& lru_entries(final(self).slabs) == if es.len() < cap {
                        es
                    } else {
                        es.drop_first()
                    }
                }
                &&& entry_keys(lru_entries(final(self).slabs)).push(idx) == touched_keys(
                    entry_keys(es),
                    idx,
                    cap,
                )
                &&& lru_entries(final(self).slabs) == fetch_rest(es, idx, cap)
            },
            (has_key(lru_entries(old(self).slabs), idx) || lru_entries(old(self).slabs).len()
                < lru_capacity(old(self).slabs) || !lru_entries(old(self).slabs)[0].1.dirty) ==> (r
                is Ok),
            r is Err ==> {
                let es = lru_entries(old(self).slabs);
                let ss = old(self).slab_size as int;
                &&& !has_key(es, idx)
                &&& es.len() == lru_capacity(old(self).slabs)
                &&& es[0].1.dirty
                &&& lru_entries(final(self).slabs) == es.drop_first()
                &&& !has_key(lru_entries(final(self).slabs), idx)
                &&& (exists|k: int|
                    0 <= k <= es[0].1.data@.len() && final(self).file.contents() == pad_overwrite(
                        old(self).file.contents(),
                        es[0].0 as int * ss,
                        #[trigger] es[0].1.data@.take(k),
                    ))
            },
    {
        let ghost es0 = lru_entries(self.slabs);
        match lru_remove(&mut self.slabs, idx) {
            Some(s) => {
                proof {
                    let i = choose|i: int|
                        0 <= i < es0.len() && (#[trigger] es0[i]).0 == idx && Some(s) == Some(
                            es0[i].1,
                        ) && lru_entries(self.slabs) == es0.remove(i);
                    assert(lru_entries(self.slabs) == es0.remove(i));
                    lemma_remove_keeps_wf(es0, i);
                    assert(entry_keys(es0).contains(idx)) by {
                        assert(entry_keys(es0)[i] == idx);
                    }
                    lemma_keys_after_remove(es0, i, idx);
                    let pe = entry_pos(es0, idx);
                    assert(0 <= pe < es0.len() && es0[pe].0 == idx);
                    if pe != i {
                        assert(false);
                    }
                }
                Ok(s)
            },
            None => {
                proof {
                    assert(!entry_keys(es0).contains(idx)) by {
                        if entry_keys(es0).contains(idx) {
                            let i = choose|i: int|
                                0 <= i < entry_keys(es0).len() && entry_keys(es0)[i] == idx;
                            assert(es0[i].0 == idx);
                        }
                    }
                }
                let len = lru_len(&self.slabs);
                let cap = lru_cap(&self.slabs);
                if len == cap {
                    let (old_idx, mut old_slab) = match lru_remove_lru(&mut self.slabs) {
                        Some(p) => p,
                        None => {
                            proof {
                                assert(false);
                            }
                            return Err(StoreError::Io);
                        },
                    };
                    let ghost c0 = self.file.contents();
                    let ghost was_dirty = old_slab.dirty;
                    proof {
                        assert(es0[0].1.wf(self.slab_size as int));
                        assert(slab_region_fits(es0[0].0, self.slab_size as int));
                        assert((old_idx as int + 1) * (self.slab_size as int) == old_idx as int * (
                        self.slab_size as int) + (self.slab_size as int)) by (nonlinear_arith);
                    }
                    let aligned = old_idx * (self.slab_size as u64);
                    let wb = old_slab.write_back(&mut self.file, aligned);
                    proof {
                        lemma_drop_first_keeps_wf(es0);
                        let es1 = lru_entries(self.slabs);
                        if was_dirty || wb is Err {
                            assert forall|i: int| 0 <= i < es1.len() implies (
                            #[trigger] es1[i]).1.dirty || mirrors(
                                es1[i],
                                self.file.contents(),
                                self.slab_size as int,
                            ) by {
                                assert(es1[i] == es0[i + 1]);
                                if !es1[i].1.dirty {
                                    if wb is Ok && es0[0].1.dirty {
                                        lemma_write_preserves_mirrors(
                                            c0,
                                            self.file.contents(),
                                            es1[i],
                                            old_idx,
                                            es0[0].1.data@,
                                            self.slab_size as int,
                                        );
                                    } else if wb is Err {
                                        let k = choose|k: int|
                                            0 <= k <= es0[0].1.data@.len() && self.file.contents()
                                                == pad_overwrite(
                                                c0,
                                                aligned as int,
                                                #[trigger] es0[0].1.data@.take(k),
                                            );
                                        lemma_write_preserves_mirrors(
                                            c0,
                                            self.file.contents(),
                                            es1[i],
                                            old_idx,
                                            es0[0].1.data@.take(k),
                                            self.slab_size as int,
                                        );
                                    }
                                }
                            }
                        }
                        if wb is Err {
                            let k = choose|k: int|
                                0 <= k <= es0[0].1.data@.len() && self.file.contents()
                                    == pad_overwrite(
                                    c0,
                                    aligned as int,
                                    #[trigger] es0[0].1.data@.take(k),
                                );
                            crate::bytes::lemma_pad_overwrite_len(
                                c0,
                                aligned as int,
                                es0[0].1.data@.take(k),
                            );
                        }
                        crate::bytes::lemma_pad_overwrite_len(
                            c0,
                            aligned as int,
                            es0[0].1.data@,
                        );
                    }
                    match wb {
                        Ok(_) => {},
                        Err(e) => {
                            return Err(e);
                        },
                    }
                    proof {
                        lemma_keys_drop_first(es0);
                    }
                    Ok(Slab::new(self.slab_size))
                } else {
                    Ok(Slab::new(self.slab_size))
                }
            },
        }
    }
}

/// Removing one entry keeps the remaining entries well-formed and distinct.
proof fn lemma_remove_keeps_wf(es: Seq<(u64, Slab)>, i: int)
    requires
        0 <= i < es.len(),
        distinct_keys(es),
    ensures
        distinct_keys(es.remove(i)),
        forall|j: int| 0 <= j < i ==> #[trigger] es.remove(i)[j] == es[j],
        forall|j: int| i <= j < es.remove(i).len() ==> #[trigger] es.remove(i)[j] == es[j + 1],
        !has_key(es.remove(i), es[i].0),
{
    let r = es.remove(i);
    assert forall|j: int| 0 <= j < r.len() implies (#[trigger] r[j]).0 != es[i].0 by {
        if j < i {
            assert(r[j] == es[j]);
        } else {
            assert(r[j] == es[j + 1]);
        }
    }
}

/// The keys after removing the entry at `i` are the keys with position `i`
/// removed.
proof fn lemma_keys_after_remove(es: Seq<(u64, Slab)>, i: int, k: u64)
    requires
        0 <= i < es.len(),
        es[i].0 == k,
        distinct_keys(es),
    ensures
        entry_keys(es.remove(i)) == entry_keys(es).remove(i),
        entry_keys(es.remove(i)).push(k) == entry_keys(es).remove(key_pos(entry_keys(es), k)).push(
            k,
        ),
{
    assert(entry_keys(es.remove(i)) =~= entry_keys(es).remove(i));
    let ks = entry_keys(es);
    assert(ks[i] == k);
    let p = key_pos(ks, k);
    assert(0 <= p < ks.len() && ks[p] == k);
    if p != i {
        assert(es[p].0 == k && es[i].0 == k);
        assert(false);
    }
}

/// Dropping the least recently used entry keeps the rest well-formed.
proof fn lemma_drop_first_keeps_wf(es: Seq<(u64, Slab)>)
    requires
        es.len() > 0,
        distinct_keys(es),
    ensures
        distinct_keys(es.drop_first()),
        !has_key(es.drop_first(), es[0].0),
        forall|j: int| 0 <= j < es.drop_first().len() ==> #[trigger] es.drop_first()[j] == es[j + 1],
{
    let r = es.drop_first();
    assert forall|j: int| 0 <= j < r.len() implies #[trigger] r[j] == es[j + 1] by {}
    assert forall|j: int| 0 <= j < r.len() implies (#[trigger] r[j]).0 != es[0].0 by {
        assert(r[j] == es[j + 1]);
    }
}

/// The keys after dropping the least recently used entry.
proof fn lemma_keys_drop_first(es: Seq<(u64, Slab)>)
    requires
        es.len() > 0,
    ensures
        entry_keys(es.drop_first()) == entry_keys(es).drop_first(),
{
    assert(entry_keys(es.drop_first()) =~= entry_keys(es).drop_first());
}

/// The default slab size is a power of two.
proof fn lemma_default_slab_size_power_of_two()
    ensures
        is_power_of_two(DEFAULT_SLAB_SIZE as int),
{
    reveal_with_fuel(is_power_of_two, 21);
    assert(is_power_of_two(524288int));
    assert(DEFAULT_SLAB_SIZE as int == 524288int);
}

/// The smaller of two integers.
pub open spec fn min_int(a: int, b: int) -> int {
    if a <= b {
        a
    } else {
        b
    }
}

/// The larger of two integers.
pub open spec fn max_int(a: int, b: int) -> int {
    if a >= b {
        a
    } else {
        b
    }
}

/// `a`, but never below zero.
pub open spec fn clamp0(a: int) -> int {
    if a < 0 {
        0
    } else {
        a
    }
}

/// The position of the entry with key `k`.
pub open spec fn entry_pos(es: Seq<(u64, Slab)>, k: u64) -> int {
    choose|i: int| 0 <= i < es.len() && (#[trigger] es[i]).0 == k
}

/// The valid length of the cached slab for `k`, or zero when absent (a fresh
/// slab starts empty).
pub open spec fn cached_valid(es: Seq<(u64, Slab)>, k: u64) -> int {
    if has_key(es, k) {
        es[entry_pos(es, k)].1.valid_len as int
    } else {
        0
    }
}

/// The block of the cached slab for `k`, or an all-zero block when absent.
pub open spec fn cached_data(es: Seq<(u64, Slab)>, k: u64, ss: int) -> Seq<u8> {
    if has_key(es, k) {
        es[entry_pos(es, k)].1.data@
    } else {
        zeros(ss)
    }
}

/// Whether the cached slab for `k` is dirty; an absent slab is not.
pub open spec fn cached_dirty(es: Seq<(u64, Slab)>, k: u64) -> bool {
    if has_key(es, k) {
        es[entry_pos(es, k)].1.dirty
    } else {
        false
    }
}

/// The valid length after a demand fill aimed at offset `off` within the
/// slab: nothing when the offset is already valid, otherwise as much as the
/// store can supply of the slab's region.
pub open spec fn filled_valid(c_len: int, aligned: int, v0: int, off: int, ss: int) -> int {
    if off < v0 {
        v0
    } else {
        max_int(v0, min_int(ss, clamp0(c_len - aligned)))
    }
}

/// The block after a demand fill: positions from the old valid length up to
/// the new one take the store's bytes, the rest is unchanged.
pub open spec fn filled_data(d0: Seq<u8>, v0: int, v1: int, c: Seq<u8>, aligned: int) -> Seq<u8> {
    Seq::new(d0.len(), |q: int|
        if v0 <= q < v1 {
            c[aligned + q]
        } else {
            d0[q]
        })
}

/// The block after a buffered write of `patch` at offset `off`: any hole
/// between the old valid length and `off` takes the store's bytes where the
/// store has them and zeros past its end (the gap-fill policy: a gap beyond
/// the store's end becomes zeros, as a direct write past the end would make
/// it).
pub open spec fn written_data(
    d0: Seq<u8>,
    v0: int,
    off: int,
    patch: Seq<u8>,
    c: Seq<u8>,
    aligned: int,
) -> Seq<u8> {
    Seq::new(d0.len(), |q: int|
        if off <= q < off + patch.len() {
            patch[q - off]
        } else if v0 <= q < off {
            if aligned + q < c.len() {
                c[aligned + q]
            } else {
                0u8
            }
        } else {
            d0[q]
        })
}

/// A buffer after `n` bytes of `d` starting at `off` are copied over its
/// front; its length does not change.
pub open spec fn read_into(b: Seq<u8>, d: Seq<u8>, off: int, n: int) -> Seq<u8> {
    Seq::new(b.len(), |q: int|
        if 0 <= q < n {
            d[off + q]
        } else {
            b[q]
        })
}

/// Pulls bytes from the store into the slab until the given offset is valid,
/// the slab is full, or the store has no more bytes for this region.
fn fill_slab<F: BackingStore>(
    store: &mut F,
    slab: &mut Slab,
    aligned: u64,
    off: usize,
    ss: usize,
) -> (r: Result<(), StoreError>)
    requires
        old(slab).wf(ss as int),
        off < ss,
        ss >= 1,
        aligned as int + ss as int <= u64::MAX as int + 1,
    ensures
        final(store).contents() == old(store).contents(),
        final(slab).dirty == old(slab).dirty,
        final(slab).data@.len() == old(slab).data@.len(),
        final(slab).wf(ss as int),
        final(slab).valid_len >= old(slab).valid_len,
        off < old(slab).valid_len || old(slab).valid_len == ss ==> r is Ok,
        r is Ok ==> final(slab).valid_len as int == filled_valid(
            old(store).contents().len() as int,
            aligned as int,
            old(slab).valid_len as int,
            off as int,
            ss as int,
        ) && final(slab).data@ == filled_data(
            old(slab).data@,
            old(slab).valid_len as int,
            final(slab).valid_len as int,
            old(store).contents(),
            aligned as int,
        ),
        r is Err ==> *final(slab) == *old(slab),
{
    let ghost c = store.contents();
    let ghost d0 = slab.data@;
    let ghost v0 = slab.valid_len as int;
    if off >= slab.valid_len && slab.valid_len < ss {
        let target = aligned + slab.valid_len as u64;
        match store.seek_to(target) {
            Ok(_) => {},
            Err(e) => {
                return Err(e);
            },
        }
        let got = match store.read_chunk(ss - slab.valid_len) {
            Ok(v) => v,
            Err(e) => {
                return Err(e);
            },
        };
        let mut i: usize = 0;
        while i < got.len()
            invariant
                0 <= i <= got@.len(),
                slab.data@.len() == d0.len(),
                d0.len() == ss,
                v0 + got@.len() <= ss,
                slab.valid_len as int == v0,
                slab.dirty == old(slab).dirty,
                forall|q: int|
                    0 <= q < d0.len() && !(v0 <= q < v0 + i) ==> slab.data@[q] == d0[q],
                forall|q: int| v0 <= q < v0 + i ==> slab.data@[q] == got@[q - v0],
            decreases got@.len() - i,
        {
            slab.data.set(slab.valid_len + i, got[i]);
            i = i + 1;
        }
        slab.valid_len = slab.valid_len + got.len();
        proof {
            assert(slab.data@ =~= filled_data(d0, v0, slab.valid_len as int, c, aligned as int));
            assert(slab.valid_len as int == filled_valid(
                c.len() as int,
                aligned as int,
                v0,
                off as int,
                ss as int,
            ));
        }
        Ok(())
    } else {
        proof {
            assert(slab.data@ =~= filled_data(d0, v0, v0, c, aligned as int));
        }
        Ok(())
    }
}


/// The valid length after pulling the gap below `upto` from the store.
pub open spec fn gap_valid(c_len: int, aligned: int, v0: int, upto: int) -> int {
    if upto <= v0 {
        v0
    } else {
        max_int(v0, min_int(upto, clamp0(c_len - aligned)))
    }
}

/// Pulls bytes from the store into the slab until offset `upto` is valid or
/// the store has no more bytes for this region; used to back a write that
/// starts past the valid prefix.
fn fill_gap<F: BackingStore>(
    store: &mut F,
    slab: &mut Slab,
    aligned: u64,
    upto: usize,
    ss: usize,
) -> (r: Result<(), StoreError>)
    requires
        old(slab).wf(ss as int),
        upto < ss,
        ss >= 1,
        aligned as int + ss as int <= u64::MAX as int + 1,
    ensures
        final(store).contents() == old(store).contents(),
        final(slab).dirty == old(slab).dirty,
        final(slab).data@.len() == old(slab).data@.len(),
        final(slab).wf(ss as int),
        final(slab).valid_len >= old(slab).valid_len,
        final(slab).valid_len <= max_int(old(slab).valid_len as int, upto as int),
        r is Ok ==> final(slab).valid_len as int == gap_valid(
            old(store).contents().len() as int,
            aligned as int,
            old(slab).valid_len as int,
            upto as int,
        ) && final(slab).data@ == filled_data(
            old(slab).data@,
            old(slab).valid_len as int,
            final(slab).valid_len as int,
            old(store).contents(),
            aligned as int,
        ),
        r is Err ==> *final(slab) == *old(slab),
{
    let ghost c = store.contents();
    let ghost d0 = slab.data@;
    let ghost v0 = slab.valid_len as int;
    if upto > slab.valid_len {
        let target = aligned + slab.valid_len as u64;
        match store.seek_to(target) {
            Ok(_) => {},
            Err(e) => {
                return Err(e);
            },
        }
        let got = match store.read_chunk(upto - slab.valid_len) {
            Ok(v) => v,
            Err(e) => {
                return Err(e);
            },
        };
        let mut i: usize = 0;
        while i < got.len()
            invariant
                0 <= i <= got@.len(),
                slab.data@.len() == d0.len(),
                d0.len() == ss,
                v0 + got@.len() <= ss,
                slab.valid_len as int == v0,
                slab.dirty == old(slab).dirty,
                forall|q: int|
                    0 <= q < d0.len() && !(v0 <= q < v0 + i) ==> slab.data@[q] == d0[q],
                forall|q: int| v0 <= q < v0 + i ==> slab.data@[q] == got@[q - v0],
            decreases got@.len() - i,
        {
            slab.data.set(slab.valid_len + i, got[i]);
            i = i + 1;
        }
        slab.valid_len = slab.valid_len + got.len();
        proof {
            assert(slab.data@ =~= filled_data(d0, v0, slab.valid_len as int, c, aligned as int));
        }
        Ok(())
    } else {
        proof {
            assert(slab.data@ =~= filled_data(d0, v0, v0, c, aligned as int));
        }
        Ok(())
    }
}

impl<F: BackingStore> BufFile<F> {
    /// Reads up to `buf.len()` bytes at the logical cursor into the front of
    /// `buf`, never crossing a slab boundary: the transfer stops at what the
    /// current slab holds once demand-loaded. Zero bytes read means the
    /// position is at or past the end of this slab's available data; it is
    /// not an error. The cursor advances by the transfer.
    #[verifier::rlimit(60)]
    pub fn read(&mut self, buf: &mut Vec<u8>) -> (r: Result<usize, StoreError>)
        requires
            old(self).wf(),
            slab_region_fits(
                spec_idx_of(old(self).cursor_spec(), old(self).slab_size_spec()) as u64,
                old(self).slab_size_spec(),
            ),
        ensures
            final(self).wf(),
            final(self).slab_size_spec() == old(self).slab_size_spec(),
            final(self).cap() == old(self).cap(),
            final(buf)@.len() == old(buf)@.len(),
            r is Err ==> final(self).cursor_spec() == old(self).cursor_spec() && final(buf)@ == old(
                buf,
            )@,
            (has_key(old(self).entries(), spec_idx_of(old(self).cursor_spec(), old(self).slab_size_spec()) as u64)
                && old(self).cursor_spec() - spec_idx_of(old(self).cursor_spec(), old(self).slab_size_spec())
                * old(self).slab_size_spec() < cached_valid(
                old(self).entries(),
                spec_idx_of(old(self).cursor_spec(), old(self).slab_size_spec()) as u64,
            )) ==> (r is Ok),
            r is Err ==> {
                let ss = old(self).slab_size_spec();
                let idx = spec_idx_of(old(self).cursor_spec(), ss) as u64;
                let es = old(self).entries();
                let cap = old(self).cap();
                ||| {
                    &&& !has_key(es, idx)
                    &&& es.len() == cap
                    &&& es[0].1.dirty
                    &&& final(self).entries() == es.drop_first()
                    &&& !has_key(final(self).entries(), idx)
                    &&& (exists|k: int|
                        0 <= k <= es[0].1.data@.len() && final(self).store_contents()
                            == pad_overwrite(
                            old(self).store_contents(),
                            es[0].0 as int * ss,
                            #[trigger] es[0].1.data@.take(k),
                        ))
                }
                ||| {
                    &&& final(self).entries().drop_last() == fetch_rest(es, idx, cap)
                    &&& final(self).entries().len() == fetch_rest(es, idx, cap).len() + 1
                    &&& has_key(final(self).entries(), idx)
                    &&& cached_valid(final(self).entries(), idx) == cached_valid(es, idx)
                    &&& cached_data(final(self).entries(), idx, ss) == cached_data(es, idx, ss)
                    &&& cached_dirty(final(self).entries(), idx) == cached_dirty(es, idx)
                    &&& entry_keys(final(self).entries()) == touched_keys(entry_keys(es), idx, cap)
                    &&& final(self).store_contents() == store_after_fetch(
                        old(self).store_contents(),
                        es,
                        idx,
                        cap,
                        ss,
                    )
                }
            },
            r matches Ok(n) ==> {
                let ss = old(self).slab_size_spec();
                let cur = old(self).cursor_spec();
                let idx = spec_idx_of(cur, ss) as u64;
                let aligned = idx as int * ss;
                let off = cur - aligned;
                let es = old(self).entries();
                let cap = old(self).cap();
                let c1 = store_after_fetch(old(self).store_contents(), es, idx, cap, ss);
                let v0 = cached_valid(es, idx);
                let d0 = cached_data(es, idx, ss);
                let v1 = filled_valid(c1.len() as int, aligned, v0, off, ss);
                &&& n as int == min_int(old(buf)@.len() as int, clamp0(v1 - off))
                &&& final(self).cursor_spec() == cur + n
                &&& final(self).store_contents() == c1
                &&& entry_keys(final(self).entries()) == touched_keys(entry_keys(es), idx, cap)
                &&& final(buf)@ == read_into(old(buf)@, filled_data(d0, v0, v1, c1, aligned), off, n as int)
                &&& has_key(final(self).entries(), idx)
                &&& cached_valid(final(self).entries(), idx) == v1
                &&& cached_data(final(self).entries(), idx, ss) == filled_data(d0, v0, v1, c1, aligned)
                &&& cached_dirty(final(self).entries(), idx) == cached_dirty(es, idx)
                &&& final(self).entries().drop_last() == fetch_rest(es, idx, cap)
                &&& n > 0 ==> final(buf)@.subrange(0, n as int) == final(self).logical().subrange(
                    cur,
                    cur + n,
                )
                &&& (has_key(es, idx) || es.len() < cap) ==> final(self).logical() == old(
                    self,
                ).logical()
            },
    {
        let ghost es0 = self.entries();
        let ghost cap0 = self.cap();
        let ghost c0 = self.store_contents();
        let ss = self.slab_size;
        let idx = idx_from_offset(self.cursor, ss);
        proof {
            lemma_slab_decompose(self.cursor as int, ss as int);
            assert((idx as int + 1) * (ss as int) == idx as int * (ss as int) + (ss as int))
                by (nonlinear_arith);
        }
        let aligned = idx * (ss as u64);
        let off = (self.cursor - aligned) as usize;
        let mut slab = match self.take_or_make(idx) {
            Ok(s) => s,
            Err(e) => {
                return Err(e);
            },
        };
        let ghost es1 = lru_entries(self.slabs);
        let ghost c1 = self.file.contents();
        let ghost d0 = slab.data@;
        let ghost v0 = slab.valid_len as int;
        let ghost dirty0 = slab.dirty;
        proof {
            lemma_checked_out_slab(es0, idx, ss as int, slab, c0, c1, cap0);
        }
        let fill_res = fill_slab(&mut self.file, &mut slab, aligned, off, ss);
        let ghost v1 = slab.valid_len as int;
        match fill_res {
            Ok(_) => {},
            Err(e) => {
                let ghost sfail = slab;
                proof {
                    lemma_reinserted_wf(es1, idx, sfail, c1, ss as int, cap0);
                }
                lru_insert(&mut self.slabs, idx, slab);
                proof {
                    assert(lru_entries(self.slabs).drop_last() =~= es1);
                }
                return Err(e);
            },
        }
        let n = if off < slab.valid_len {
            let avail = slab.valid_len - off;
            if buf.len() <= avail {
                buf.len()
            } else {
                avail
            }
        } else {
            0
        };
        let ghost bufsnap = buf@;
        let mut q: usize = 0;
        while q < n
            invariant
                0 <= q <= n,
                n <= buf@.len(),
                buf@.len() == bufsnap.len(),
                off + n <= ss,
                off + n <= slab.data@.len(),
                forall|p: int| 0 <= p < q ==> buf@[p] == slab.data@[off + p],
                forall|p: int| q <= p < buf@.len() ==> buf@[p] == bufsnap[p],
            decreases n - q,
        {
            let b = slab.data[off + q];
            buf.set(q, b);
            q = q + 1;
        }
        proof {
            assert(buf@ =~= read_into(bufsnap, slab.data@, off as int, n as int));
        }
        let ghost sfinal = slab;
        proof {
            if !sfinal.dirty && sfinal.valid_len > 0 {
                lemma_filled_mirrors(es0, idx, ss as int, d0, v0, v1, sfinal, c0, c1, cap0);
            }
            lemma_reinserted_wf(es1, idx, sfinal, c1, ss as int, cap0);
        }
        lru_insert(&mut self.slabs, idx, slab);
        proof {
            assert(lru_entries(self.slabs).drop_last() =~= es1);
            let es2 = lru_entries(self.slabs);
            if has_key(es0, idx) {
                let i = choose|i: int|
                    0 <= i < es0.len() && (#[trigger] es0[i]).0 == idx && es1 == es0.remove(i);
                let pe = entry_pos(es0, idx);
                assert(0 <= pe < es0.len() && es0[pe].0 == idx);
                if pe != i {
                    assert(false);
                }
                assert(es2 =~= es0.remove(i).push((idx, sfinal)));
                lemma_fill_preserves_logical(c1, es0, ss as int, i, idx, sfinal);
            } else if es0.len() < cap0 {
                assert(es2 =~= es0.push((idx, sfinal)));
                assert(sfinal.data@ == filled_data(zeros(ss as int), 0, v1, c1, aligned as int));
                lemma_fresh_fill_preserves_logical(c1, es0, ss as int, idx, sfinal);
            }
            if n > 0 {
                let es2 = lru_entries(self.slabs);
                lemma_read_observes_logical(c1, es2, ss as int, idx, off as int, n as int);
                assert(buf@.subrange(0, n as int) =~= cached_data(es2, idx, ss as int).subrange(
                    off as int,
                    off as int + n as int,
                ));
            }
        }
        self.cursor = self.cursor + n as u64;
        Ok(n)
    }
}

/// The slab taken out for `idx` matches the cached model: its fields are the
/// cached entry's (or a fresh slab's), and it is well-formed.
proof fn lemma_checked_out_slab(
    es: Seq<(u64, Slab)>,
    idx: u64,
    ss: int,
    s: Slab,
    c0: Seq<u8>,
    c1: Seq<u8>,
    cap: int,
)
    requires
        distinct_keys(es),
        forall|i: int| 0 <= i < es.len() ==> (#[trigger] es[i]).1.wf(ss),
        forall|i: int| 0 <= i < es.len() ==> ((#[trigger] es[i]).1.dirty || mirrors(es[i], c0, ss)),
        has_key(es, idx) ==> exists|i: int|
            0 <= i < es.len() && (#[trigger] es[i]).0 == idx && s == es[i].1,
        !has_key(es, idx) ==> s.valid_len == 0 && !s.dirty && s.data@ == zeros(ss),
        ss >= 1,
        c1 == store_after_fetch(c0, es, idx, cap, ss),
    ensures
        s.valid_len as int == cached_valid(es, idx),
        s.data@ == cached_data(es, idx, ss),
        s.dirty == cached_dirty(es, idx),
        !s.dirty ==> mirrors((idx, s), c0, ss),
{
    if has_key(es, idx) {
        let i = choose|i: int| 0 <= i < es.len() && (#[trigger] es[i]).0 == idx && s == es[i].1;
        let p = entry_pos(es, idx);
        assert(0 <= p < es.len() && es[p].0 == idx);
        if p != i {
            assert(false);
        }
        assert(es[i].1.dirty || mirrors(es[i], c0, ss));
    } else {
        assert(zeros(ss).len() == ss);
    }
}

/// Putting the slab for `idx` back keeps the cache well-formed, provided the
/// slab is well-formed and, when clean, mirrors the store.
proof fn lemma_reinserted_wf(
    es1: Seq<(u64, Slab)>,
    idx: u64,
    s: Slab,
    c: Seq<u8>,
    ss: int,
    cap: int,
)
    requires
        distinct_keys(es1),
        !has_key(es1, idx),
        forall|i: int| 0 <= i < es1.len() ==> (#[trigger] es1[i]).1.wf(ss),
        forall|i: int| 0 <= i < es1.len() ==> slab_region_fits((#[trigger] es1[i]).0, ss),
        forall|i: int|
            0 <= i < es1.len() ==> ((#[trigger] es1[i]).1.dirty || mirrors(es1[i], c, ss)),
        s.wf(ss),
        slab_region_fits(idx, ss),
        !s.dirty ==> mirrors((idx, s), c, ss),
    ensures
        distinct_keys(es1.push((idx, s))),
        forall|i: int|
            0 <= i < es1.push((idx, s)).len() ==> (#[trigger] es1.push((idx, s))[i]).1.wf(ss),
        forall|i: int|
            0 <= i < es1.push((idx, s)).len() ==> slab_region_fits(
                (#[trigger] es1.push((idx, s))[i]).0,
                ss,
            ),
        forall|i: int|
            0 <= i < es1.push((idx, s)).len() ==> ((#[trigger] es1.push((idx, s))[i]).1.dirty
                || mirrors(es1.push((idx, s))[i], c, ss)),
        entry_keys(es1.push((idx, s))) == entry_keys(es1).push(idx),
        has_key(es1.push((idx, s)), idx),
        entry_pos(es1.push((idx, s)), idx) == es1.len(),
{
    let es2 = es1.push((idx, s));
    assert forall|i: int, j: int| 0 <= i < j < es2.len() implies (#[trigger] es2[i]).0 != (
    #[trigger] es2[j]).0 by {
        if j == es2.len() - 1 {
            assert(es2[i] == es1[i]);
            if es1[i].0 == idx {
                assert(has_key(es1, idx));
            }
        }
    }
    assert(entry_keys(es2) =~= entry_keys(es1).push(idx));
    assert(es2[es2.len() - 1].0 == idx);
    let p = entry_pos(es2, idx);
    assert(0 <= p < es2.len() && es2[p].0 == idx);
    if p != es2.len() - 1 {
        assert(es2[p] == es1[p]);
        assert(has_key(es1, idx));
        assert(false);
    }
}

/// A clean slab whose block was demand-filled from the store mirrors the
/// store over its grown valid prefix.
proof fn lemma_filled_mirrors(
    es0: Seq<(u64, Slab)>,
    idx: u64,
    ss: int,
    d0: Seq<u8>,
    v0: int,
    v1: int,
    s: Slab,
    c0: Seq<u8>,
    c1: Seq<u8>,
    cap: int,
)
    requires
        ss >= 1,
        0 <= v0 <= ss,
        v0 <= v1 <= ss,
        d0.len() == ss,
        s.data@ == filled_data(d0, v0, v1, c1, idx as int * ss),
        s.valid_len as int == v1,
        v0 > 0 ==> idx as int * ss + v0 <= c1.len() && d0.take(v0) == c1.subrange(
            idx as int * ss,
            idx as int * ss + v0,
        ),
        v1 > v0 ==> idx as int * ss + v1 <= c1.len(),
    ensures
        mirrors((idx, s), c1, ss),
{
    let aligned = idx as int * ss;
    if v1 > 0 {
        assert(aligned + v1 <= c1.len());
        assert(s.valid_bytes() =~= c1.subrange(aligned, aligned + v1)) by {
            assert forall|q: int| 0 <= q < v1 implies s.data@[q] == c1[aligned + q] by {
                if q < v0 {
                    assert(d0.take(v0)[q] == c1.subrange(aligned, aligned + v0)[q]);
                }
            }
        }
    }
}

impl<F: BackingStore> BufFile<F> {
    /// Writes up to `min(buf.len(), slab_size - offset_in_slab)` bytes at the
    /// logical cursor, never crossing a slab boundary; the slab is marked
    /// dirty and written back only on eviction or flush. A write starting
    /// past the slab's valid prefix first pulls the gap from the store; where
    /// the store ends inside the gap the rest becomes zeros, as a direct
    /// write past the end would make it. The cursor advances by the transfer.
    #[verifier::rlimit(60)]
    pub fn write(&mut self, buf: &Vec<u8>) -> (r: Result<usize, StoreError>)
        requires
            old(self).wf(),
            slab_region_fits(
                spec_idx_of(old(self).cursor_spec(), old(self).slab_size_spec()) as u64,
                old(self).slab_size_spec(),
            ),
        ensures
            final(self).wf(),
            final(self).slab_size_spec() == old(self).slab_size_spec(),
            final(self).cap() == old(self).cap(),
            r is Err ==> final(self).cursor_spec() == old(self).cursor_spec(),
            (has_key(old(self).entries(), spec_idx_of(old(self).cursor_spec(), old(self).slab_size_spec()) as u64)
                && old(self).cursor_spec() - spec_idx_of(old(self).cursor_spec(), old(self).slab_size_spec())
                * old(self).slab_size_spec() <= cached_valid(
                old(self).entries(),
                spec_idx_of(old(self).cursor_spec(), old(self).slab_size_spec()) as u64,
            )) ==> (r is Ok),
            r is Err ==> {
                let ss = old(self).slab_size_spec();
                let idx = spec_idx_of(old(self).cursor_spec(), ss) as u64;
                let es = old(self).entries();
                let cap = old(self).cap();
                ||| {
                    &&& !has_key(es, idx)
                    &&& es.len() == cap
                    &&& es[0].1.dirty
                    &&& final(self).entries() == es.drop_first()
                    &&& !has_key(final(self).entries(), idx)
                    &&& (exists|k: int|
                        0 <= k <= es[0].1.data@.len() && final(self).store_contents()
                            == pad_overwrite(
                            old(self).store_contents(),
                            es[0].0 as int * ss,
                            #[trigger] es[0].1.data@.take(k),
                        ))
                }
                ||| {
                    &&& final(self).entries().drop_last() == fetch_rest(es, idx, cap)
                    &&& final(self).entries().len() == fetch_rest(es, idx, cap).len() + 1
                    &&& has_key(final(self).entries(), idx)
                    &&& cached_valid(final(self).entries(), idx) == cached_valid(es, idx)
                    &&& cached_data(final(self).entries(), idx, ss) == cached_data(es, idx, ss)
                    &&& cached_dirty(final(self).entries(), idx)
                    &&& entry_keys(final(self).entries()) == touched_keys(entry_keys(es), idx, cap)
                    &&& final(self).store_contents() == store_after_fetch(
                        old(self).store_contents(),
                        es,
                        idx,
                        cap,
                        ss,
                    )
                }
            },
            r matches Ok(n) ==> {
                let ss = old(self).slab_size_spec();
                let cur = old(self).cursor_spec();
                let idx = spec_idx_of(cur, ss) as u64;
                let aligned = idx as int * ss;
                let off = cur - aligned;
                let es = old(self).entries();
                let cap = old(self).cap();
                let c1 = store_after_fetch(old(self).store_contents(), es, idx, cap, ss);
                let v0 = cached_valid(es, idx);
                let d0 = cached_data(es, idx, ss);
                &&& n as int == min_int(buf@.len() as int, ss - off)
                &&& final(self).cursor_spec() == cur + n
                &&& final(self).store_contents() == c1
                &&& entry_keys(final(self).entries()) == touched_keys(entry_keys(es), idx, cap)
                &&& has_key(final(self).entries(), idx)
                &&& cached_valid(final(self).entries(), idx) == max_int(v0, off + n)
                &&& cached_dirty(final(self).entries(), idx)
                &&& cached_data(final(self).entries(), idx, ss) == written_data(
                    d0,
                    v0,
                    off,
                    buf@.take(n as int),
                    c1,
                    aligned,
                )
                &&& final(self).entries().drop_last() == fetch_rest(es, idx, cap)
                &&& n > 0 ==> {
                    let lg = final(self).logical();
                    lg.len() >= cur + n && lg.subrange(cur, cur + n) == buf@.take(n as int)
                }
                &&& (has_key(es, idx) || es.len() < cap) && n > 0 ==> final(self).logical()
                    == pad_overwrite(old(self).logical(), cur, buf@.take(n as int))
            },
    {
        let ghost es0 = self.entries();
        let ghost cap0 = self.cap();
        let ghost c0 = self.store_contents();
        let ss = self.slab_size;
        let idx = idx_from_offset(self.cursor, ss);
        proof {
            lemma_slab_decompose(self.cursor as int, ss as int);
            assert((idx as int + 1) * (ss as int) == idx as int * (ss as int) + (ss as int))
                by (nonlinear_arith);
        }
        let aligned = idx * (ss as u64);
        let off = (self.cursor - aligned) as usize;
        let mut slab = match self.take_or_make(idx) {
            Ok(s) => s,
            Err(e) => {
                return Err(e);
            },
        };
        let ghost es1 = lru_entries(self.slabs);
        let ghost c1 = self.file.contents();
        let ghost d0 = slab.data@;
        let ghost v0 = slab.valid_len as int;
        proof {
            lemma_checked_out_slab(es0, idx, ss as int, slab, c0, c1, cap0);
        }
        slab.dirty = true;
        if off > slab.valid_len {
            match fill_gap(&mut self.file, &mut slab, aligned, off, ss) {
                Ok(_) => {},
                Err(e) => {
                    let ghost sfail = slab;
                    proof {
                        lemma_reinserted_wf(es1, idx, sfail, c1, ss as int, cap0);
                    }
                    lru_insert(&mut self.slabs, idx, slab);
                    proof {
                        assert(lru_entries(self.slabs).drop_last() =~= es1);
                    }
                    return Err(e);
                },
            }
            slab.valid_len = off;
        }
        let ghost vg = slab.valid_len as int;
        let ghost dg = slab.data@;
        proof {
            assert(off <= v0 ==> vg == v0);
            assert(off > v0 ==> vg == off as int);
        }
        let n = if buf.len() <= ss - off {
            buf.len()
        } else {
            ss - off
        };
        let ghost dmid = slab.data@;
        let mut q: usize = 0;
        while q < n
            invariant
                0 <= q <= n,
                n <= buf@.len(),
                off + n <= ss,
                slab.data@.len() == dmid.len(),
                dmid.len() == ss,
                slab.valid_len as int == vg,
                slab.dirty,
                forall|p: int| 0 <= p < dmid.len() && !(off <= p < off + q) ==> slab.data@[p]
                    == dmid[p],
                forall|p: int| off <= p < off + q ==> slab.data@[p] == buf@[p - off],
            decreases n - q,
        {
            let b = buf[q];
            slab.data.set(off + q, b);
            q = q + 1;
        }
        if off + n > slab.valid_len {
            slab.valid_len = off + n;
        }
        proof {
            assert(slab.data@ =~= written_data(d0, v0, off as int, buf@.take(n as int), c1, aligned as int))
                by {
                assert forall|p: int|
                    0 <= p < d0.len() implies slab.data@[p] == written_data(
                    d0,
                    v0,
                    off as int,
                    buf@.take(n as int),
                    c1,
                    aligned as int,
                )[p] by {
                    if off <= p < off + n {
                    } else {
                        assert(slab.data@[p] == dmid[p]);
                        assert(dmid == dg);
                        if v0 <= p < off {
                            let gv = gap_valid(c1.len() as int, aligned as int, v0, off as int);
                            if p < gv {
                                assert(dg[p] == c1[aligned + p]);
                            } else {
                                assert(dg[p] == d0[p]);
                                assert(d0[p] == 0u8);
                            }
                        } else {
                            assert(dg[p] == d0[p]);
                        }
                    }
                }
            }
            assert forall|p: int| max_int(v0, off + n) <= p < ss implies slab.data@[p] == 0u8 by {
                assert(slab.data@[p] == dmid[p]);
                assert(dg[p] == d0[p]);
            }
            assert(slab.valid_len as int == max_int(v0, off + n));
            assert(slab.data@.len() == ss as int);
            assert(slab.valid_len <= ss);
            assert(slab.wf(ss as int));
        }
        let ghost sfinal = slab;
        proof {
            lemma_reinserted_wf(es1, idx, sfinal, c1, ss as int, cap0);
        }
        lru_insert(&mut self.slabs, idx, slab);
        proof {
            assert(lru_entries(self.slabs).drop_last() =~= es1);
            if n > 0 {
                let es2 = lru_entries(self.slabs);
                lemma_write_reads_back(
                    c1,
                    es2,
                    ss as int,
                    idx,
                    off as int,
                    d0,
                    v0,
                    buf@.take(n as int),
                );
                lemma_covered_end_ge(es2, ss as int, es2.len() - 1);
                let patch = buf@.take(n as int);
                if has_key(es0, idx) {
                    let i = choose|i: int|
                        0 <= i < es0.len() && (#[trigger] es0[i]).0 == idx && es1 == es0.remove(i);
                    let pe = entry_pos(es0, idx);
                    assert(0 <= pe < es0.len() && es0[pe].0 == idx);
                    if pe != i {
                        assert(false);
                    }
                    assert(es2 =~= es0.remove(i).push((idx, sfinal)));
                    lemma_write_acts_like_direct(
                        c1,
                        es0,
                        ss as int,
                        i,
                        idx,
                        sfinal,
                        off as int,
                        patch,
                    );
                } else if es0.len() < cap0 {
                    assert(es2 =~= es0.push((idx, sfinal)));
                    lemma_fresh_write_acts_like_direct(
                        c1,
                        es0,
                        ss as int,
                        idx,
                        sfinal,
                        off as int,
                        patch,
                    );
                }
            }
        }
        self.cursor = self.cursor + n as u64;
        Ok(n)
    }
}

/// Where a seek starts from.
#[derive(Clone, Copy, Debug, PartialEq, Eq, Structural)]
pub enum SeekFrom {
    /// An absolute position.
    Start(u64),
    /// Relative to the end of the backing store's contents.
    End(i64),
    /// Relative to the logical cursor.
    Current(i64),
}

/// The store's contents after every dirty slab of `es` is written back, in
/// order: each dirty slab's whole block lands at its aligned offset.
pub open spec fn flush_contents(c: Seq<u8>, es: Seq<(u64, Slab)>, ss: int) -> Seq<u8>
    decreases es.len(),
{
    if es.len() == 0 {
        c
    } else {
        let c2 = if es[0].1.dirty {
            pad_overwrite(c, es[0].0 as int * ss, es[0].1.data@)
        } else {
            c
        };
        flush_contents(c2, es.drop_first(), ss)
    }
}

/// Writing back one more slab after a prefix folds onto the end.
proof fn lemma_flush_snoc(c: Seq<u8>, es: Seq<(u64, Slab)>, e: (u64, Slab), ss: int)
    ensures
        flush_contents(c, es.push(e), ss) == if e.1.dirty {
            pad_overwrite(flush_contents(c, es, ss), e.0 as int * ss, e.1.data@)
        } else {
            flush_contents(c, es, ss)
        },
    decreases es.len(),
{
    let p = es.push(e);
    if es.len() == 0 {
        assert(p[0] == e);
        assert(p.drop_first() =~= Seq::<(u64, Slab)>::empty());
        let c2 = if p[0].1.dirty {
            pad_overwrite(c, p[0].0 as int * ss, p[0].1.data@)
        } else {
            c
        };
        assert(flush_contents(c, p, ss) == flush_contents(c2, p.drop_first(), ss));
        assert(flush_contents(c2, p.drop_first(), ss) == c2);
    } else {
        assert(p[0] == es[0]);
        assert(p.drop_first() =~= es.drop_first().push(e));
        let c2 = if es[0].1.dirty {
            pad_overwrite(c, es[0].0 as int * ss, es[0].1.data@)
        } else {
            c
        };
        assert(flush_contents(c, p, ss) == flush_contents(c2, p.drop_first(), ss));
        assert(flush_contents(c2, p.drop_first(), ss) == flush_contents(
            c2,
            es.drop_first().push(e),
            ss,
        ));
        lemma_flush_snoc(c2, es.drop_first(), e, ss);
        assert(flush_contents(c, es, ss) == flush_contents(c2, es.drop_first(), ss));
    }
}

impl<F: BackingStore> BufFile<F> {
    /// Moves the logical cursor. From the start: sets the cursor directly; no
    /// I/O, and seeking past the end is legal. From the end: delegates to the
    /// backing store's own end-relative seek, so dirty unflushed slabs that
    /// extend the logical length are not accounted for — the result reflects
    /// the store's on-disk length (a documented divergence). From the current
    /// position: plain cursor arithmetic; moving before the start or past the
    /// largest position is a caller error and is excluded by precondition.
    pub fn seek(&mut self, pos: SeekFrom) -> (r: Result<u64, StoreError>)
        requires
            old(self).wf(),
            pos matches SeekFrom::Current(d) ==> 0 <= old(self).cursor_spec() + d <= u64::MAX
                as int,
        ensures
            final(self).wf(),
            final(self).slab_size_spec() == old(self).slab_size_spec(),
            final(self).cap() == old(self).cap(),
            final(self).entries() == old(self).entries(),
            final(self).store_contents() == old(self).store_contents(),
            final(self).logical() == old(self).logical(),
            r matches Ok(p) ==> final(self).cursor_spec() == p as int && (match pos {
                SeekFrom::Start(x) => p == x,
                SeekFrom::End(d) => p as int == old(self).store_contents().len() + d,
                SeekFrom::Current(d) => p as int == old(self).cursor_spec() + d,
            }),
            r is Err ==> final(self).cursor_spec() == old(self).cursor_spec(),
            !(pos matches SeekFrom::End(_)) ==> r is Ok,
            pos matches SeekFrom::End(d) && old(self).store_contents().len() + d < 0 ==> r is Err,
    {
        match pos {
            SeekFrom::Start(x) => {
                self.cursor = x;
                Ok(x)
            },
            SeekFrom::End(d) => {
                match self.file.seek_from_end(d) {
                    Ok(p) => {
                        self.cursor = p;
                        Ok(p)
                    },
                    Err(e) => Err(e),
                }
            },
            SeekFrom::Current(d) => {
                let p = if d >= 0 {
                    self.cursor + (d as u64)
                } else {
                    let mag: u64 = if d == i64::MIN {
                        9223372036854775808u64
                    } else {
                        (-d) as u64
                    };
                    self.cursor - mag
                };
                self.cursor = p;
                Ok(p)
            },
        }
    }

    /// Writes every dirty slab back at its aligned offset, keeping the
    /// recency order and every slab's contents, then pushes the backing
    /// store's own buffering down. Stops writing at the first store error,
    /// which is returned; the slabs not yet written keep their dirty mark.
    pub fn flush(&mut self) -> (r: Result<(), StoreError>)
        requires
            old(self).wf(),
        ensures
            final(self).wf(),
            final(self).slab_size_spec() == old(self).slab_size_spec(),
            final(self).cap() == old(self).cap(),
            final(self).cursor_spec() == old(self).cursor_spec(),
            entry_keys(final(self).entries()) == entry_keys(old(self).entries()),
            final(self).entries().len() == old(self).entries().len(),
            forall|j: int|
                0 <= j < old(self).entries().len() ==> {
                    &&& (#[trigger] final(self).entries()[j]).1.data@ == old(
                        self,
                    ).entries()[j].1.data@
                    &&& final(self).entries()[j].1.valid_len == old(self).entries()[j].1.valid_len
                },
            r is Ok ==> final(self).store_contents() == flush_contents(
                old(self).store_contents(),
                old(self).entries(),
                old(self).slab_size_spec(),
            ) && (forall|j: int|
                0 <= j < final(self).entries().len() ==> !(#[trigger] final(self).entries()[j]).1.dirty),
    {
        let ghost es0 = lru_entries(self.slabs);
        let ghost c0 = self.file.contents();
        let ghost ss = self.slab_size as int;
        let total = lru_len(&self.slabs);
        let mut err: Option<StoreError> = None;
        let ghost mut fail_at: int = 0;
        let mut i: usize = 0;
        while i < total
            invariant
                0 <= i <= total,
                self.wf(),
                self.slab_size as int == ss,
                self.cursor == old(self).cursor,
                self.slab_size == old(self).slab_size,
                lru_capacity(self.slabs) == lru_capacity(old(self).slabs),
                es0 == lru_entries(old(self).slabs),
                c0 == old(self).file.contents(),
                total == es0.len(),
                lru_entries(self.slabs).len() == total,
                forall|j: int|
                    0 <= j < total - i ==> #[trigger] lru_entries(self.slabs)[j] == es0[i + j],
                forall|j: int|
                    total - i <= j < total ==> {
                        let m = j - (total - i);
                        &&& (#[trigger] lru_entries(self.slabs)[j]).0 == es0[m].0
                        &&& lru_entries(self.slabs)[j].1.data@ == es0[m].1.data@
                        &&& lru_entries(self.slabs)[j].1.valid_len == es0[m].1.valid_len
                        &&& (lru_entries(self.slabs)[j].1.dirty ==> es0[m].1.dirty)
                    },
                err is None ==> self.file.contents() == flush_contents(c0, es0.take(i as int), ss)
                    && (forall|j: int|
                    total - i <= j < total ==> !(#[trigger] lru_entries(self.slabs)[j]).1.dirty),
                err is Some ==> {
                    &&& 0 <= fail_at < i
                    &&& es0[fail_at].1.dirty
                    &&& (forall|j: int|
                        total - i <= j < total && j - (total - i) < fail_at ==> !(
                        #[trigger] lru_entries(self.slabs)[j]).1.dirty)
                    &&& (forall|j: int|
                        total - i <= j < total && j - (total - i) >= fail_at ==> (
                        #[trigger] lru_entries(self.slabs)[j]).1.dirty == es0[j - (total
                            - i)].1.dirty)
                    &&& (exists|k: int|
                        0 <= k <= es0[fail_at].1.data@.len() && self.file.contents()
                            == pad_overwrite(
                            flush_contents(c0, es0.take(fail_at), ss),
                            es0[fail_at].0 as int * ss,
                            #[trigger] es0[fail_at].1.data@.take(k),
                        ))
                },
            decreases total - i,
        {
            let ghost esa = lru_entries(self.slabs);
            let ghost ca = self.file.contents();
            let (k, mut s) = match lru_remove_lru(&mut self.slabs) {
                Some(p) => p,
                None => {
                    proof {
                        assert(false);
                    }
                    return Err(StoreError::Io);
                },
            };
            proof {
                lemma_drop_first_keeps_wf(esa);
                assert(esa[0].1.wf(ss));
                assert(slab_region_fits(esa[0].0, ss));
                assert((k as int + 1) * ss == k as int * ss + ss) by (nonlinear_arith);
            }
            let aligned = k * (self.slab_size as u64);
            let ghost was_dirty = s.dirty;
            if err.is_none() {
                match s.write_back(&mut self.file, aligned) {
                    Ok(_) => {
                        proof {
                            if was_dirty {
                                crate::bytes::lemma_pad_overwrite_len(
                                    ca,
                                    aligned as int,
                                    esa[0].1.data@,
                                );
                                crate::bytes::lemma_pad_overwrite_patch(
                                    ca,
                                    aligned as int,
                                    esa[0].1.data@,
                                );
                                assert(s.valid_bytes() =~= self.file.contents().subrange(
                                    k as int * ss,
                                    k as int * ss + s.valid_len,
                                ));
                                assert forall|j: int|
                                    0 <= j < lru_entries(self.slabs).len() implies (
                                #[trigger] lru_entries(self.slabs)[j]).1.dirty || mirrors(
                                    lru_entries(self.slabs)[j],
                                    self.file.contents(),
                                    ss,
                                ) by {
                                    assert(lru_entries(self.slabs)[j] == esa[j + 1]);
                                    if !lru_entries(self.slabs)[j].1.dirty {
                                        lemma_write_preserves_mirrors(
                                            ca,
                                            self.file.contents(),
                                            esa[j + 1],
                                            k,
                                            esa[0].1.data@,
                                            ss,
                                        );
                                    }
                                }
                            }
                            lemma_flush_snoc(c0, es0.take(i as int), es0[i as int], ss);
                            assert(es0.take(i as int).push(es0[i as int]) =~= es0.take(
                                i as int + 1,
                            ));
                        }
                    },
                    Err(e) => {
                        proof {
                            fail_at = i as int;
                            let kk = choose|kk: int|
                                0 <= kk <= esa[0].1.data@.len() && self.file.contents()
                                    == pad_overwrite(
                                    ca,
                                    aligned as int,
                                    #[trigger] esa[0].1.data@.take(kk),
                                );
                            assert forall|j: int|
                                0 <= j < lru_entries(self.slabs).len() implies (
                            #[trigger] lru_entries(self.slabs)[j]).1.dirty || mirrors(
                                lru_entries(self.slabs)[j],
                                self.file.contents(),
                                ss,
                            ) by {
                                assert(lru_entries(self.slabs)[j] == esa[j + 1]);
                                if !lru_entries(self.slabs)[j].1.dirty {
                                    lemma_write_preserves_mirrors(
                                        ca,
                                        self.file.contents(),
                                        esa[j + 1],
                                        k,
                                        esa[0].1.data@.take(kk),
                                        ss,
                                    );
                                }
                            }
                        }
                        err = Some(e);
                    },
                }
            }
            lru_insert(&mut self.slabs, k, s);
            i = i + 1;
        }
        proof {
            assert(entry_keys(lru_entries(self.slabs)) =~= entry_keys(es0));
            if err is None {
                assert(es0.take(total as int) =~= es0);
            }
        }
        match err {
            Some(e) => Err(e),
            None => self.file.sync(),
        }
    }

    /// Flushes every slab and the backing store itself, then hands the
    /// backing store back. On a flush error the error is returned and the
    /// buffered layer is gone with its cached slabs.
    pub fn into_inner(self) -> (r: Result<F, StoreError>)
        requires
            self.wf(),
        ensures
            r matches Ok(f) ==> f.contents() == flush_contents(
                self.store_contents(),
                self.entries(),
                self.slab_size_spec(),
            ),
    {
        let mut this = self;
        match this.flush() {
            Ok(_) => Ok(this.file),
            Err(e) => Err(e),
        }
    }
}

/// Law (capacity bound): a well-formed buffered store never caches more slabs
/// than its capacity; every operation keeps well-formedness, so this holds
/// across any sequence of operations.
pub proof fn lemma_capacity_bound<F: BackingStore>(b: BufFile<F>)
    requires
        b.wf(),
    ensures
        b.entries().len() <= b.cap(),
{
}

/// The cache's recency order after touching each key of `ks` in turn,
/// starting from an empty cache.
pub open spec fn apply_touches(ks: Seq<u64>, cap: int) -> Seq<u64>
    decreases ks.len(),
{
    if ks.len() == 0 {
        Seq::<u64>::empty()
    } else {
        touched_keys(apply_touches(ks.drop_last(), cap), ks.last(), cap)
    }
}

/// Touching distinct keys that fit the capacity caches them in order.
pub proof fn lemma_touches_fill_in_order(ks: Seq<u64>, cap: int)
    requires
        cap >= 1,
        ks.len() <= cap,
        forall|i: int, j: int| 0 <= i < j < ks.len() ==> ks[i] != ks[j],
    ensures
        apply_touches(ks, cap) == ks,
    decreases ks.len(),
{
    if ks.len() == 0 {
        assert(apply_touches(ks, cap) =~= ks);
    } else {
        let head = ks.drop_last();
        lemma_touches_fill_in_order(head, cap);
        assert(!head.contains(ks.last())) by {
            if head.contains(ks.last()) {
                let i = choose|i: int| 0 <= i < head.len() && head[i] == ks.last();
                assert(ks[i] == ks[ks.len() - 1]);
            }
        }
        assert(head.push(ks.last()) =~= ks);
    }
}

/// Law (LRU ordering): after touching `cap` distinct indices in order on an
/// empty cache, the recency order is exactly that order; touching one more
/// distinct index evicts exactly the least recently touched of the first
/// `cap`, and the rest keep their order with the new index most recent.
pub proof fn lemma_lru_eviction_order(ks: Seq<u64>, extra: u64, cap: int)
    requires
        cap >= 1,
        ks.len() == cap,
        forall|i: int, j: int| 0 <= i < j < ks.len() ==> ks[i] != ks[j],
        !ks.contains(extra),
    ensures
        apply_touches(ks, cap) == ks,
        evicted_key(apply_touches(ks, cap), extra, cap) == Some(ks[0]),
        touched_keys(apply_touches(ks, cap), extra, cap) == ks.drop_first().push(extra),
{
    lemma_touches_fill_in_order(ks, cap);
}

/// Law (touching re-orders recency): touching a cached key evicts nothing,
/// keeps the set of cached keys and their number, and makes the key the most
/// recently used.
pub proof fn lemma_touch_refreshes(ks: Seq<u64>, k: u64, cap: int)
    requires
        cap >= 1,
        ks.len() <= cap,
        ks.contains(k),
        forall|i: int, j: int| 0 <= i < j < ks.len() ==> ks[i] != ks[j],
    ensures
        evicted_key(ks, k, cap) is None,
        touched_keys(ks, k, cap).len() == ks.len(),
        touched_keys(ks, k, cap).last() == k,
        forall|x: u64| touched_keys(ks, k, cap).contains(x) <==> ks.contains(x),
{
    let p = key_pos(ks, k);
    assert(0 <= p < ks.len() && ks[p] == k);
    let t = touched_keys(ks, k, cap);
    assert(t == ks.remove(p).push(k));
    assert forall|x: u64| t.contains(x) implies ks.contains(x) by {
        let i = choose|i: int| 0 <= i < t.len() && t[i] == x;
        if i == t.len() - 1 {
        } else if i < p {
            assert(ks[i] == x);
        } else {
            assert(ks[i + 1] == x);
        }
    }
    assert forall|x: u64| ks.contains(x) implies t.contains(x) by {
        let i = choose|i: int| 0 <= i < ks.len() && ks[i] == x;
        if i == p {
            assert(t[t.len() - 1] == x);
        } else if i < p {
            assert(t[i] == x);
        } else {
            assert(t[i - 1] == x);
        }
    }
}

/// Writing back the slabs of `es` leaves any region below the store's end and
/// disjoint from every slab's aligned region unchanged.
proof fn lemma_flush_preserves_region(c: Seq<u8>, es: Seq<(u64, Slab)>, ss: int, lo: int, hi: int)
    requires
        ss >= 1,
        0 <= lo <= hi <= c.len(),
        forall|i: int| 0 <= i < es.len() ==> (#[trigger] es[i]).1.data@.len() == ss,
        forall|i: int|
            0 <= i < es.len() ==> hi <= (#[trigger] es[i]).0 as int * ss || es[i].0 as int * ss + ss
                <= lo,
    ensures
        flush_contents(c, es, ss).len() >= c.len(),
        flush_contents(c, es, ss).subrange(lo, hi) == c.subrange(lo, hi),
    decreases es.len(),
{
    if es.len() > 0 {
        let at = es[0].0 as int * ss;
        let c2 = if es[0].1.dirty {
            pad_overwrite(c, at, es[0].1.data@)
        } else {
            c
        };
        if es[0].1.dirty {
            crate::bytes::lemma_pad_overwrite_len(c, at, es[0].1.data@);
            crate::bytes::lemma_pad_overwrite_preserves(c, at, es[0].1.data@, lo, hi);
        }
        assert forall|i: int|
            0 <= i < es.drop_first().len() implies (#[trigger] es.drop_first()[i]).1.data@.len()
            == ss by {
            assert(es.drop_first()[i] == es[i + 1]);
        }
        assert forall|i: int|
            0 <= i < es.drop_first().len() implies hi <= (#[trigger] es.drop_first()[i]).0 as int
            * ss || es.drop_first()[i].0 as int * ss + ss <= lo by {
            assert(es.drop_first()[i] == es[i + 1]);
        }
        lemma_flush_preserves_region(c2, es.drop_first(), ss, lo, hi);
    }
}

/// Law (write-back correctness): after the write-back fold of a flush, every
/// dirty slab's whole block can be re-read directly from the store at its
/// aligned region, so the written bytes are exactly what the store returns.
pub proof fn lemma_flush_writes_back(c: Seq<u8>, es: Seq<(u64, Slab)>, ss: int, m: int)
    requires
        ss >= 1,
        distinct_keys(es),
        forall|i: int| 0 <= i < es.len() ==> (#[trigger] es[i]).1.data@.len() == ss,
        forall|i: int| 0 <= i < es.len() ==> slab_region_fits((#[trigger] es[i]).0, ss),
        0 <= m < es.len(),
        es[m].1.dirty,
    ensures
        flush_contents(c, es, ss).len() >= es[m].0 as int * ss + ss,
        flush_contents(c, es, ss).subrange(es[m].0 as int * ss, es[m].0 as int * ss + ss)
            == es[m].1.data@,
    decreases m,
{
    let at0 = es[0].0 as int * ss;
    let c2 = if es[0].1.dirty {
        pad_overwrite(c, at0, es[0].1.data@)
    } else {
        c
    };
    if es[0].1.dirty {
        crate::bytes::lemma_pad_overwrite_len(c, at0, es[0].1.data@);
    }
    if m == 0 {
        crate::bytes::lemma_pad_overwrite_patch(c, at0, es[0].1.data@);
        assert forall|i: int|
            0 <= i < es.drop_first().len() implies ((at0 + ss <= (#[trigger] es.drop_first()[i]).0
            as int * ss) || (es.drop_first()[i].0 as int * ss + ss <= at0)) by {
            assert(es.drop_first()[i] == es[i + 1]);
            lemma_regions_disjoint(es[0].0 as int, es[i + 1].0 as int, ss);
        }
        assert forall|i: int|
            0 <= i < es.drop_first().len() implies (#[trigger] es.drop_first()[i]).1.data@.len()
            == ss by {
            assert(es.drop_first()[i] == es[i + 1]);
        }
        lemma_flush_preserves_region(c2, es.drop_first(), ss, at0, at0 + ss);
    } else {
        assert(distinct_keys(es.drop_first())) by {
            assert forall|i: int, j: int|
                0 <= i < j < es.drop_first().len() implies (#[trigger] es.drop_first()[i]).0 != (
            #[trigger] es.drop_first()[j]).0 by {
                assert(es.drop_first()[i] == es[i + 1]);
                assert(es.drop_first()[j] == es[j + 1]);
            }
        }
        assert forall|i: int|
            0 <= i < es.drop_first().len() implies (#[trigger] es.drop_first()[i]).1.data@.len()
            == ss && slab_region_fits(es.drop_first()[i].0, ss) by {
            assert(es.drop_first()[i] == es[i + 1]);
        }
        assert(es.drop_first()[m - 1] == es[m]);
        lemma_flush_writes_back(c2, es.drop_first(), ss, m - 1);
    }
}

/// Law (equivalence to direct reads): once the slab for the cursor's region
/// is clean — it mirrors the store — the bytes a buffered read returns are
/// exactly the bytes a direct read of the backing store returns at the same
/// position. Writes held in dirty slabs diverge from the store by design
/// until write-back.
pub proof fn lemma_clean_read_matches_store(
    d0: Seq<u8>,
    v0: int,
    c1: Seq<u8>,
    aligned: int,
    off: int,
    n: int,
    ss: int,
)
    requires
        0 <= aligned,
        0 <= off < ss,
        d0.len() == ss,
        0 <= v0 <= ss,
        v0 > 0 ==> aligned + v0 <= c1.len() && d0.take(v0) == c1.subrange(aligned, aligned + v0),
        0 <= n <= clamp0(filled_valid(c1.len() as int, aligned, v0, off, ss) - off),
    ensures
        n > 0 ==> aligned + off + n <= c1.len() && filled_data(
            d0,
            v0,
            filled_valid(c1.len() as int, aligned, v0, off, ss),
            c1,
            aligned,
        ).subrange(off, off + n) == c1.subrange(aligned + off, aligned + off + n),
{
    let v1 = filled_valid(c1.len() as int, aligned, v0, off, ss);
    if n > 0 {
        assert(off + n <= v1);
        if off < v0 {
            assert(aligned + off + n <= aligned + v0 <= c1.len());
        } else {
            assert(v1 > off >= v0);
            assert(v1 <= clamp0(c1.len() - aligned));
            assert(aligned + v1 <= c1.len());
        }
        let d1 = filled_data(d0, v0, v1, c1, aligned);
        assert(d1.subrange(off, off + n) =~= c1.subrange(aligned + off, aligned + off + n)) by {
            assert forall|q: int| 0 <= q < n implies #[trigger] d1.subrange(off, off + n)[q]
                == c1.subrange(aligned + off, aligned + off + n)[q] by {
                let p = off + q;
                if p < v0 {
                    assert(d1[p] == d0[p]);
                    assert(d0.take(v0)[p] == c1.subrange(aligned, aligned + v0)[p]);
                } else {
                    assert(p < v1);
                    assert(d1[p] == c1[aligned + p]);
                }
            }
        }
    }
}

/// Whether the entry at `i` covers logical position `p` with a valid byte.
pub open spec fn entry_covers(es: Seq<(u64, Slab)>, ss: int, i: int, p: int) -> bool {
    0 <= i < es.len() && es[i].0 as int * ss <= p < es[i].0 as int * ss + es[i].1.valid_len
}

/// Whether some cached slab covers logical position `p`.
pub open spec fn covered(es: Seq<(u64, Slab)>, ss: int, p: int) -> bool {
    exists|i: int| entry_covers(es, ss, i, p)
}

/// The entry covering `p`.
pub open spec fn cover_of(es: Seq<(u64, Slab)>, ss: int, p: int) -> int {
    choose|i: int| entry_covers(es, ss, i, p)
}

/// How far the cached slabs' valid prefixes reach; a slab with nothing valid
/// covers nothing and counts for nothing.
pub open spec fn covered_end(es: Seq<(u64, Slab)>, ss: int) -> int
    decreases es.len(),
{
    if es.len() == 0 {
        0
    } else if es[0].1.valid_len == 0 {
        covered_end(es.drop_first(), ss)
    } else {
        max_int(
            es[0].0 as int * ss + es[0].1.valid_len,
            covered_end(es.drop_first(), ss),
        )
    }
}

/// The logical contents of a buffered store: the backing store's bytes
/// overlaid with every cached slab's valid prefix. A position inside a slab's
/// region but past the store's end reads as zero, as it would after that
/// slab's write-back.
pub open spec fn logical_bytes(c: Seq<u8>, es: Seq<(u64, Slab)>, ss: int) -> Seq<u8> {
    Seq::new(max_int(c.len() as int, covered_end(es, ss)) as nat, |p: int|
        if covered(es, ss, p) {
            es[cover_of(es, ss, p)].1.data@[p - es[cover_of(es, ss, p)].0 as int * ss]
        } else if p < c.len() {
            c[p]
        } else {
            0u8
        })
}

impl<F: BackingStore> BufFile<F> {
    /// The bytes a caller observes through reads: the store's contents
    /// overlaid with the cached slabs.
    pub open spec fn logical(self) -> Seq<u8> {
        logical_bytes(self.store_contents(), self.entries(), self.slab_size_spec())
    }
}

/// Two covering entries for one position are the same entry.
proof fn lemma_cover_unique(es: Seq<(u64, Slab)>, ss: int, i: int, j: int, p: int)
    requires
        ss >= 1,
        distinct_keys(es),
        forall|m: int| 0 <= m < es.len() ==> (#[trigger] es[m]).1.wf(ss),
        entry_covers(es, ss, i, p),
        entry_covers(es, ss, j, p),
    ensures
        i == j,
{
    if es[i].0 != es[j].0 {
        assert(es[i].1.wf(ss));
        assert(es[j].1.wf(ss));
        lemma_regions_disjoint(es[i].0 as int, es[j].0 as int, ss);
        assert(false);
    } else if i != j {
        assert(false);
    }
}

/// The cover is nonnegative and reaches at least as far as each entry's
/// non-empty valid prefix.
proof fn lemma_covered_end_ge(es: Seq<(u64, Slab)>, ss: int, i: int)
    requires
        ss >= 1,
        0 <= i < es.len(),
    ensures
        covered_end(es, ss) >= 0,
        es[i].1.valid_len > 0 ==> covered_end(es, ss) >= es[i].0 as int * ss
            + es[i].1.valid_len,
    decreases es.len(),
{
    assert(es[0].0 as int * ss >= 0) by (nonlinear_arith)
        requires
            es[0].0 as int >= 0,
            ss >= 1,
    ;
    if i > 0 {
        assert(es.drop_first()[i - 1] == es[i]);
        lemma_covered_end_ge(es.drop_first(), ss, i - 1);
    } else if es.len() > 1 {
        lemma_covered_end_ge(es.drop_first(), ss, 0);
    }
}

/// Law (equivalence to direct I/O, read direction): the bytes a buffered read
/// returns — a subrange of the cached slab's block below its valid length —
/// are exactly the logical contents at that position, which is what a direct
/// store holding the logical contents returns there.
pub proof fn lemma_read_observes_logical(
    c: Seq<u8>,
    es: Seq<(u64, Slab)>,
    ss: int,
    idx: u64,
    off: int,
    n: int,
)
    requires
        ss >= 1,
        distinct_keys(es),
        forall|m: int| 0 <= m < es.len() ==> (#[trigger] es[m]).1.wf(ss),
        has_key(es, idx),
        0 <= off,
        1 <= n,
        off + n <= cached_valid(es, idx),
    ensures
        cached_data(es, idx, ss).subrange(off, off + n) == logical_bytes(c, es, ss).subrange(
            idx as int * ss + off,
            idx as int * ss + off + n,
        ),
    decreases n,
{
    let aligned = idx as int * ss;
    let p0 = entry_pos(es, idx);
    assert(0 <= p0 < es.len() && es[p0].0 == idx);
    lemma_covered_end_ge(es, ss, p0);
    let lg = logical_bytes(c, es, ss);
    assert(lg.len() >= aligned + off + n);
    assert(cached_data(es, idx, ss).subrange(off, off + n) =~= lg.subrange(
        aligned + off,
        aligned + off + n,
    )) by {
        assert forall|q: int| 0 <= q < n implies #[trigger] cached_data(es, idx, ss).subrange(
            off,
            off + n,
        )[q] == lg.subrange(aligned + off, aligned + off + n)[q] by {
            let p = aligned + off + q;
            assert(entry_covers(es, ss, p0, p));
            let j = cover_of(es, ss, p);
            assert(entry_covers(es, ss, j, p));
            lemma_cover_unique(es, ss, j, p0, p);
        }
    }
}

/// Law (write read-back): after a buffered write, the logical contents at the
/// written position hold exactly the written bytes, so reading them back —
/// buffered or, after a flush, directly — returns them.
pub proof fn lemma_write_reads_back(
    c: Seq<u8>,
    es: Seq<(u64, Slab)>,
    ss: int,
    idx: u64,
    off: int,
    d0: Seq<u8>,
    v0: int,
    patch: Seq<u8>,
)
    requires
        ss >= 1,
        distinct_keys(es),
        forall|m: int| 0 <= m < es.len() ==> (#[trigger] es[m]).1.wf(ss),
        has_key(es, idx),
        0 <= off,
        0 <= v0,
        1 <= patch.len(),
        off + patch.len() <= ss,
        d0.len() == ss,
        cached_data(es, idx, ss) == written_data(d0, v0, off, patch, c, idx as int * ss),
        cached_valid(es, idx) == max_int(v0, off + patch.len()),
    ensures
        logical_bytes(c, es, ss).subrange(
            idx as int * ss + off,
            idx as int * ss + off + patch.len(),
        ) == patch,
{
    lemma_read_observes_logical(c, es, ss, idx, off, patch.len() as int);
    assert(cached_data(es, idx, ss).subrange(off, off + patch.len()) =~= patch);
}

/// The cover's reach is attained by some entry.
proof fn lemma_covered_end_attained(es: Seq<(u64, Slab)>, ss: int)
    requires
        ss >= 1,
    ensures
        covered_end(es, ss) == 0 || (exists|i: int|
            0 <= i < es.len() && (#[trigger] es[i]).1.valid_len > 0 && covered_end(es, ss)
                == es[i].0 as int * ss + es[i].1.valid_len),
    decreases es.len(),
{
    if es.len() > 0 {
        assert(es[0].0 as int * ss >= 0) by (nonlinear_arith)
            requires
                es[0].0 as int >= 0,
                ss >= 1,
        ;
        lemma_covered_end_attained(es.drop_first(), ss);
        if es[0].1.valid_len == 0 {
            if covered_end(es, ss) != 0 {
                let j = choose|j: int|
                    0 <= j < es.drop_first().len() && (#[trigger] es.drop_first()[j]).1.valid_len
                        > 0 && covered_end(es.drop_first(), ss) == es.drop_first()[j].0 as int * ss
                        + es.drop_first()[j].1.valid_len;
                assert(es.drop_first()[j] == es[j + 1]);
                assert(es[j + 1].1.valid_len > 0 && covered_end(es, ss) == es[j + 1].0 as int * ss
                    + es[j + 1].1.valid_len);
            }
        } else {
            if covered_end(es.drop_first(), ss) >= es[0].0 as int * ss + es[0].1.valid_len {
                let j = choose|j: int|
                    0 <= j < es.drop_first().len() && (#[trigger] es.drop_first()[j]).1.valid_len
                        > 0 && covered_end(es.drop_first(), ss) == es.drop_first()[j].0 as int * ss
                        + es.drop_first()[j].1.valid_len;
                assert(es.drop_first()[j] == es[j + 1]);
                assert(covered_end(es, ss) == es[j + 1].0 as int * ss + es[j + 1].1.valid_len);
            } else {
                assert(covered_end(es, ss) == es[0].0 as int * ss + es[0].1.valid_len);
            }
        }
    }
}

/// No entry other than one keyed `idx` covers a position of `idx`'s region.
proof fn lemma_only_own_key_covers(es: Seq<(u64, Slab)>, ss: int, idx: u64, j: int, p: int)
    requires
        ss >= 1,
        forall|m: int| 0 <= m < es.len() ==> (#[trigger] es[m]).1.wf(ss),
        entry_covers(es, ss, j, p),
        idx as int * ss <= p < idx as int * ss + ss,
    ensures
        es[j].0 == idx,
{
    if es[j].0 != idx {
        assert(es[j].1.wf(ss));
        lemma_regions_disjoint(es[j].0 as int, idx as int, ss);
        assert(false);
    }
}

/// Law (equivalence to direct I/O, write direction, as one item): replacing
/// the slab for `idx` by its written form — the patch at `off`, the gap below
/// it taken from the store or zeros past the store's end, the valid prefix
/// grown to cover the patch — and moving it to the most recently used end
/// changes the logical contents exactly as a direct positioned write of the
/// patch changes a store holding them. Together with the read direction
/// (`lemma_read_observes_logical`) this gives the equivalence of any
/// interleaved sequence whose evictions write back fully valid slabs; an
/// eviction of a partially valid dirty slab zeroes its block's tail, the
/// documented whole-block write-back divergence.
pub proof fn lemma_write_acts_like_direct(
    c: Seq<u8>,
    es: Seq<(u64, Slab)>,
    ss: int,
    p: int,
    idx: u64,
    s_new: Slab,
    off: int,
    patch: Seq<u8>,
)
    requires
        ss >= 1,
        distinct_keys(es),
        forall|m: int| 0 <= m < es.len() ==> (#[trigger] es[m]).1.wf(ss),
        0 <= p < es.len(),
        es[p].0 == idx,
        0 <= off,
        1 <= patch.len(),
        off + patch.len() <= ss,
        s_new.data@ == written_data(
            es[p].1.data@,
            es[p].1.valid_len as int,
            off,
            patch,
            c,
            idx as int * ss,
        ),
        s_new.valid_len as int == max_int(es[p].1.valid_len as int, off + patch.len()),
    ensures
        logical_bytes(c, es.remove(p).push((idx, s_new)), ss) == pad_overwrite(
            logical_bytes(c, es, ss),
            idx as int * ss + off,
            patch,
        ),
{
    let a = idx as int * ss;
    let at = a + off;
    let v0 = es[p].1.valid_len as int;
    let d0 = es[p].1.data@;
    let vn = s_new.valid_len as int;
    let es2 = es.remove(p).push((idx, s_new));
    let la = logical_bytes(c, es, ss);
    let lb = logical_bytes(c, es2, ss);
    let rr = pad_overwrite(la, at, patch);
    assert(es[p].1.wf(ss));

    // How es2's entries map back to es's.
    assert(forall|j: int| 0 <= j < p ==> #[trigger] es2[j] == es[j]);
    assert(forall|j: int| p <= j < es.len() - 1 ==> #[trigger] es2[j] == es[j + 1]);
    assert(es2[es.len() - 1] == (idx, s_new));
    assert(es2.len() == es.len());
    assert forall|m: int| 0 <= m < es2.len() implies (#[trigger] es2[m]).1.valid_len <= ss by {
        if m < es.len() - 1 {
        }
    }

    // The reaches of the two covers, against each other and the patch end.
    assert(covered_end(es2, ss) <= max_int(covered_end(es, ss), at + patch.len())) by {
        lemma_covered_end_attained(es2, ss);
        if covered_end(es2, ss) != 0 {
            let w = choose|w: int|
                0 <= w < es2.len() && (#[trigger] es2[w]).1.valid_len > 0 && covered_end(es2, ss)
                    == es2[w].0 as int * ss + es2[w].1.valid_len;
            if w == es.len() - 1 {
                if v0 > 0 {
                    lemma_covered_end_ge(es, ss, p);
                }
            } else if w < p {
                lemma_covered_end_ge(es, ss, w);
            } else {
                lemma_covered_end_ge(es, ss, w + 1);
            }
        } else {
            lemma_covered_end_ge(es, ss, p);
        }
    }
    assert(covered_end(es, ss) <= covered_end(es2, ss)) by {
        lemma_covered_end_attained(es, ss);
        lemma_covered_end_ge(es2, ss, es.len() - 1);
        if covered_end(es, ss) != 0 {
            let w = choose|w: int|
                0 <= w < es.len() && (#[trigger] es[w]).1.valid_len > 0 && covered_end(es, ss)
                    == es[w].0 as int * ss + es[w].1.valid_len;
            if w == p {
            } else if w < p {
                lemma_covered_end_ge(es2, ss, w);
            } else {
                lemma_covered_end_ge(es2, ss, w - 1);
            }
        }
    }
    assert(covered_end(es2, ss) >= at + patch.len()) by {
        lemma_covered_end_ge(es2, ss, es.len() - 1);
    }
    assert(lb.len() == rr.len());

    assert(lb =~= rr) by {
        assert forall|q: int| 0 <= q < lb.len() implies lb[q] == rr[q] by {
            if at <= q < at + patch.len() {
                // Inside the patch: the new slab covers it and holds the patch.
                assert(entry_covers(es2, ss, es.len() - 1, q));
                let j = cover_of(es2, ss, q);
                lemma_cover_unique(es2, ss, j, es.len() - 1, q);
                assert(lb[q] == patch[q - at]);
            } else if a <= q < a + ss {
                // Inside the slab's region, outside the patch.
                let g = q - a;
                assert(covered(es, ss, q) ==> es[cover_of(es, ss, q)].0 == idx
                    && cover_of(es, ss, q) == p) by {
                    if covered(es, ss, q) {
                        let j = cover_of(es, ss, q);
                        lemma_only_own_key_covers(es, ss, idx, j, q);
                        if j != p {
                            assert(false);
                        }
                    }
                }
                assert(covered(es2, ss, q) ==> cover_of(es2, ss, q) == es.len() - 1) by {
                    if covered(es2, ss, q) {
                        let j = cover_of(es2, ss, q);
                        lemma_only_own_key_covers(es2, ss, idx, j, q);
                        lemma_cover_unique(es2, ss, j, es.len() - 1, q);
                    }
                }
                if g < v0 {
                    lemma_covered_end_ge(es, ss, p);
                    assert(entry_covers(es, ss, p, q));
                    assert(entry_covers(es2, ss, es.len() - 1, q));
                    assert(la[q] == d0[g]);
                    assert(lb[q] == d0[g]);
                } else if g < vn {
                    // The hole the write filled: store bytes, zeros past the
                    // store's end — exactly what the position read as before.
                    assert(!covered(es, ss, q));
                    assert(entry_covers(es2, ss, es.len() - 1, q));
                    if a + g < c.len() {
                        assert(lb[q] == c[q]);
                    } else {
                        assert(lb[q] == 0u8);
                    }
                } else {
                    // Past the new valid prefix: covered by neither.
                    assert(!covered(es, ss, q));
                    assert(!covered(es2, ss, q));
                }
            } else {
                // Another region: the same entries cover it either way.
                if covered(es, ss, q) {
                    let j = cover_of(es, ss, q);
                    assert(entry_covers(es, ss, j, q));
                    if j == p {
                        lemma_only_own_key_covers(es, ss, idx, j, q);
                        assert(es[p].1.wf(ss));
                        assert(false);
                    }
                    let j2: int = if j < p {
                        j
                    } else {
                        j - 1
                    };
                    assert(entry_covers(es2, ss, j2, q));
                    let w = cover_of(es2, ss, q);
                    lemma_cover_unique(es2, ss, w, j2, q);
                    lemma_covered_end_ge(es, ss, j);
                    assert(la[q] == lb[q]);
                } else if covered(es2, ss, q) {
                    let j = cover_of(es2, ss, q);
                    assert(entry_covers(es2, ss, j, q));
                    if j == es.len() - 1 {
                        assert(a <= q < a + ss);
                        assert(false);
                    }
                    let j1: int = if j < p {
                        j
                    } else {
                        j + 1
                    };
                    assert(entry_covers(es, ss, j1, q));
                    assert(false);
                }
            }
        }
    }
}

/// Law (write direction, fresh slab): the same as `lemma_write_acts_like_direct`
/// for an index not yet cached, when no eviction is needed: the written slab
/// starts empty, so the written form is over an all-zero block.
pub proof fn lemma_fresh_write_acts_like_direct(
    c: Seq<u8>,
    es: Seq<(u64, Slab)>,
    ss: int,
    idx: u64,
    s_new: Slab,
    off: int,
    patch: Seq<u8>,
)
    requires
        ss >= 1,
        distinct_keys(es),
        forall|m: int| 0 <= m < es.len() ==> (#[trigger] es[m]).1.wf(ss),
        !has_key(es, idx),
        0 <= off,
        1 <= patch.len(),
        off + patch.len() <= ss,
        s_new.data@ == written_data(zeros(ss), 0, off, patch, c, idx as int * ss),
        s_new.valid_len as int == off + patch.len(),
    ensures
        logical_bytes(c, es.push((idx, s_new)), ss) == pad_overwrite(
            logical_bytes(c, es, ss),
            idx as int * ss + off,
            patch,
        ),
{
    let a = idx as int * ss;
    let at = a + off;
    let vn = s_new.valid_len as int;
    let es2 = es.push((idx, s_new));
    let la = logical_bytes(c, es, ss);
    let lb = logical_bytes(c, es2, ss);
    let rr = pad_overwrite(la, at, patch);

    assert(forall|j: int| 0 <= j < es.len() ==> #[trigger] es2[j] == es[j]);
    assert(es2[es.len() as int] == (idx, s_new));

    assert(covered_end(es2, ss) <= max_int(covered_end(es, ss), at + patch.len())) by {
        lemma_covered_end_attained(es2, ss);
        if covered_end(es2, ss) != 0 {
            let w = choose|w: int|
                0 <= w < es2.len() && (#[trigger] es2[w]).1.valid_len > 0 && covered_end(es2, ss)
                    == es2[w].0 as int * ss + es2[w].1.valid_len;
            if w < es.len() {
                lemma_covered_end_ge(es, ss, w);
            }
        } else {
            lemma_covered_end_ge(es2, ss, 0);
        }
        if es.len() > 0 {
            lemma_covered_end_ge(es, ss, 0);
        }
        lemma_covered_end_ge(es2, ss, es.len() as int);
    }
    assert(covered_end(es, ss) <= covered_end(es2, ss)) by {
        lemma_covered_end_attained(es, ss);
        lemma_covered_end_ge(es2, ss, es.len() as int);
        if covered_end(es, ss) != 0 {
            let w = choose|w: int|
                0 <= w < es.len() && (#[trigger] es[w]).1.valid_len > 0 && covered_end(es, ss)
                    == es[w].0 as int * ss + es[w].1.valid_len;
            lemma_covered_end_ge(es2, ss, w);
        }
    }
    assert(covered_end(es2, ss) >= at + patch.len()) by {
        lemma_covered_end_ge(es2, ss, es.len() as int);
    }
    assert(lb.len() == rr.len());

    assert(lb =~= rr) by {
        assert forall|q: int| 0 <= q < lb.len() implies lb[q] == rr[q] by {
            if at <= q < at + patch.len() {
                assert(entry_covers(es2, ss, es.len() as int, q));
                let j = cover_of(es2, ss, q);
                lemma_cover_unique(es2, ss, j, es.len() as int, q);
                assert(lb[q] == patch[q - at]);
            } else if a <= q < a + ss {
                let g = q - a;
                assert(!covered(es, ss, q)) by {
                    if covered(es, ss, q) {
                        let j = cover_of(es, ss, q);
                        lemma_only_own_key_covers(es, ss, idx, j, q);
                    }
                }
                assert(covered(es2, ss, q) ==> cover_of(es2, ss, q) == es.len() as int) by {
                    if covered(es2, ss, q) {
                        let j = cover_of(es2, ss, q);
                        lemma_only_own_key_covers(es2, ss, idx, j, q);
                        lemma_cover_unique(es2, ss, j, es.len() as int, q);
                    }
                }
                if g < vn {
                    assert(entry_covers(es2, ss, es.len() as int, q));
                    if g < off {
                        if a + g < c.len() {
                            assert(lb[q] == c[q]);
                        } else {
                            assert(lb[q] == 0u8);
                        }
                    }
                } else {
                    assert(!covered(es2, ss, q));
                }
            } else {
                if covered(es, ss, q) {
                    let j = cover_of(es, ss, q);
                    assert(entry_covers(es, ss, j, q));
                    assert(entry_covers(es2, ss, j, q));
                    let w = cover_of(es2, ss, q);
                    lemma_cover_unique(es2, ss, w, j, q);
                    lemma_covered_end_ge(es, ss, j);
                    assert(la[q] == lb[q]);
                } else if covered(es2, ss, q) {
                    let j = cover_of(es2, ss, q);
                    assert(entry_covers(es2, ss, j, q));
                    if j == es.len() {
                        assert(a <= q < a + ss);
                        assert(false);
                    }
                    assert(entry_covers(es, ss, j, q));
                    assert(false);
                }
            }
        }
    }
}

/// Law (read direction, frame): demand-filling the slab for `idx` from the
/// store and moving it to the most recently used end leaves the logical
/// contents unchanged: the fill copies exactly the bytes the positions
/// already read as.
pub proof fn lemma_fill_preserves_logical(
    c: Seq<u8>,
    es: Seq<(u64, Slab)>,
    ss: int,
    p: int,
    idx: u64,
    s_new: Slab,
)
    requires
        ss >= 1,
        distinct_keys(es),
        forall|m: int| 0 <= m < es.len() ==> (#[trigger] es[m]).1.wf(ss),
        0 <= p < es.len(),
        es[p].0 == idx,
        es[p].1.valid_len <= s_new.valid_len <= ss,
        s_new.data@ == filled_data(
            es[p].1.data@,
            es[p].1.valid_len as int,
            s_new.valid_len as int,
            c,
            idx as int * ss,
        ),
        s_new.valid_len > es[p].1.valid_len ==> idx as int * ss + s_new.valid_len <= c.len(),
    ensures
        logical_bytes(c, es.remove(p).push((idx, s_new)), ss) == logical_bytes(c, es, ss),
{
    let a = idx as int * ss;
    let v0 = es[p].1.valid_len as int;
    let d0 = es[p].1.data@;
    let vn = s_new.valid_len as int;
    let es2 = es.remove(p).push((idx, s_new));
    let la = logical_bytes(c, es, ss);
    let lb = logical_bytes(c, es2, ss);
    assert(es[p].1.wf(ss));

    assert(forall|j: int| 0 <= j < p ==> #[trigger] es2[j] == es[j]);
    assert(forall|j: int| p <= j < es.len() - 1 ==> #[trigger] es2[j] == es[j + 1]);
    assert(es2[es.len() - 1] == (idx, s_new));
    assert(es2.len() == es.len());

    assert(covered_end(es2, ss) <= max_int(covered_end(es, ss), a + vn) && (vn == 0
        ==> covered_end(es2, ss) <= covered_end(es, ss))) by {
        lemma_covered_end_attained(es2, ss);
        if covered_end(es2, ss) != 0 {
            let w = choose|w: int|
                0 <= w < es2.len() && (#[trigger] es2[w]).1.valid_len > 0 && covered_end(es2, ss)
                    == es2[w].0 as int * ss + es2[w].1.valid_len;
            if w == es.len() - 1 {
                assert(vn > 0);
            } else if w < p {
                lemma_covered_end_ge(es, ss, w);
            } else {
                lemma_covered_end_ge(es, ss, w + 1);
            }
        } else {
            lemma_covered_end_ge(es, ss, p);
        }
    }
    assert(covered_end(es, ss) <= covered_end(es2, ss)) by {
        lemma_covered_end_attained(es, ss);
        lemma_covered_end_ge(es2, ss, es.len() - 1);
        if covered_end(es, ss) != 0 {
            let w = choose|w: int|
                0 <= w < es.len() && (#[trigger] es[w]).1.valid_len > 0 && covered_end(es, ss)
                    == es[w].0 as int * ss + es[w].1.valid_len;
            if w == p {
                assert(vn >= v0 > 0);
            } else if w < p {
                lemma_covered_end_ge(es2, ss, w);
            } else {
                lemma_covered_end_ge(es2, ss, w - 1);
            }
        }
    }
    assert(lb.len() == la.len()) by {
        lemma_covered_end_ge(es, ss, p);
    }

    assert(lb =~= la) by {
        assert forall|q: int| 0 <= q < lb.len() implies lb[q] == la[q] by {
            if a <= q < a + ss {
                let g = q - a;
                assert(covered(es, ss, q) ==> cover_of(es, ss, q) == p) by {
                    if covered(es, ss, q) {
                        let j = cover_of(es, ss, q);
                        lemma_only_own_key_covers(es, ss, idx, j, q);
                        if j != p {
                            assert(false);
                        }
                    }
                }
                assert(covered(es2, ss, q) ==> cover_of(es2, ss, q) == es.len() - 1) by {
                    if covered(es2, ss, q) {
                        let j = cover_of(es2, ss, q);
                        lemma_only_own_key_covers(es2, ss, idx, j, q);
                        lemma_cover_unique(es2, ss, j, es.len() - 1, q);
                    }
                }
                if g < v0 {
                    assert(entry_covers(es, ss, p, q));
                    assert(entry_covers(es2, ss, es.len() - 1, q));
                    assert(lb[q] == d0[g]);
                } else if g < vn {
                    assert(!covered(es, ss, q));
                    assert(entry_covers(es2, ss, es.len() - 1, q));
                    assert(lb[q] == c[q]);
                } else {
                    assert(!covered(es, ss, q));
                    assert(!covered(es2, ss, q));
                }
            } else {
                if covered(es, ss, q) {
                    let j = cover_of(es, ss, q);
                    assert(entry_covers(es, ss, j, q));
                    if j == p {
                        lemma_only_own_key_covers(es, ss, idx, j, q);
                        assert(false);
                    }
                    let j2: int = if j < p {
                        j
                    } else {
                        j - 1
                    };
                    assert(entry_covers(es2, ss, j2, q));
                    let w = cover_of(es2, ss, q);
                    lemma_cover_unique(es2, ss, w, j2, q);
                    lemma_covered_end_ge(es, ss, j);
                    assert(la[q] == lb[q]);
                } else if covered(es2, ss, q) {
                    let j = cover_of(es2, ss, q);
                    assert(entry_covers(es2, ss, j, q));
                    if j == es.len() - 1 {
                        assert(a <= q < a + ss);
                        assert(false);
                    }
                    let j1: int = if j < p {
                        j
                    } else {
                        j + 1
                    };
                    assert(entry_covers(es, ss, j1, q));
                    assert(false);
                }
            }
        }
    }
}

/// Law (read direction, frame, fresh slab): caching a slab demand-filled
/// purely from the store leaves the logical contents unchanged.
pub proof fn lemma_fresh_fill_preserves_logical(
    c: Seq<u8>,
    es: Seq<(u64, Slab)>,
    ss: int,
    idx: u64,
    s_new: Slab,
)
    requires
        ss >= 1,
        distinct_keys(es),
        forall|m: int| 0 <= m < es.len() ==> (#[trigger] es[m]).1.wf(ss),
        !has_key(es, idx),
        s_new.valid_len <= ss,
        s_new.data@ == filled_data(zeros(ss), 0, s_new.valid_len as int, c, idx as int * ss),
        s_new.valid_len > 0 ==> idx as int * ss + s_new.valid_len <= c.len(),
    ensures
        logical_bytes(c, es.push((idx, s_new)), ss) == logical_bytes(c, es, ss),
{
    let a = idx as int * ss;
    let vn = s_new.valid_len as int;
    let es2 = es.push((idx, s_new));
    let la = logical_bytes(c, es, ss);
    let lb = logical_bytes(c, es2, ss);

    assert(forall|j: int| 0 <= j < es.len() ==> #[trigger] es2[j] == es[j]);
    assert(es2[es.len() as int] == (idx, s_new));

    assert(covered_end(es2, ss) <= max_int(covered_end(es, ss), a + vn) && (vn == 0
        ==> covered_end(es2, ss) <= covered_end(es, ss))) by {
        lemma_covered_end_attained(es2, ss);
        if covered_end(es2, ss) != 0 {
            let w = choose|w: int|
                0 <= w < es2.len() && (#[trigger] es2[w]).1.valid_len > 0 && covered_end(es2, ss)
                    == es2[w].0 as int * ss + es2[w].1.valid_len;
            if w < es.len() {
                lemma_covered_end_ge(es, ss, w);
            } else {
                assert(vn > 0);
            }
        } else {
            lemma_covered_end_ge(es2, ss, 0);
        }
        if es.len() > 0 {
            lemma_covered_end_ge(es, ss, 0);
        }
        lemma_covered_end_ge(es2, ss, es.len() as int);
    }
    assert(covered_end(es, ss) <= covered_end(es2, ss)) by {
        lemma_covered_end_attained(es, ss);
        lemma_covered_end_ge(es2, ss, es.len() as int);
        if covered_end(es, ss) != 0 {
            let w = choose|w: int|
                0 <= w < es.len() && (#[trigger] es[w]).1.valid_len > 0 && covered_end(es, ss)
                    == es[w].0 as int * ss + es[w].1.valid_len;
            lemma_covered_end_ge(es2, ss, w);
        }
    }
    assert(lb.len() == la.len());

    assert(lb =~= la) by {
        assert forall|q: int| 0 <= q < lb.len() implies lb[q] == la[q] by {
            if a <= q < a + ss {
                let g = q - a;
                assert(!covered(es, ss, q)) by {
                    if covered(es, ss, q) {
                        let j = cover_of(es, ss, q);
                        lemma_only_own_key_covers(es, ss, idx, j, q);
                    }
                }
                assert(covered(es2, ss, q) ==> cover_of(es2, ss, q) == es.len() as int) by {
                    if covered(es2, ss, q) {
                        let j = cover_of(es2, ss, q);
                        lemma_only_own_key_covers(es2, ss, idx, j, q);
                        lemma_cover_unique(es2, ss, j, es.len() as int, q);
                    }
                }
                if g < vn {
                    assert(entry_covers(es2, ss, es.len() as int, q));
                    assert(lb[q] == c[q]);
                } else {
                    assert(!covered(es2, ss, q));
                }
            } else {
                if covered(es, ss, q) {
                    let j = cover_of(es, ss, q);
                    assert(entry_covers(es, ss, j, q));
                    assert(entry_covers(es2, ss, j, q));
                    let w = cover_of(es2, ss, q);
                    lemma_cover_unique(es2, ss, w, j, q);
                    lemma_covered_end_ge(es, ss, j);
                    assert(la[q] == lb[q]);
                } else if covered(es2, ss, q) {
                    let j = cover_of(es2, ss, q);
                    assert(entry_covers(es2, ss, j, q));
                    if j == es.len() {
                        assert(a <= q < a + ss);
                        assert(false);
                    }
                    assert(entry_covers(es, ss, j, q));
                    assert(false);
                }
            }
        }
    }
}

} // verus!
