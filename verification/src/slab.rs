//! A slab: a fixed-size in-memory block mirroring one aligned region of the
//! backing store, with a count of how many bytes at its start are meaningful
//! and a mark for local modification.

use vstd::prelude::*;
use crate::bytes::pad_overwrite;
use crate::store::{BackingStore, StoreError};

verus! {

/// One aligned region of the backing store, held in memory.
pub struct Slab {
    /// The block; always exactly the slab size of the owning cache.
    pub data: Vec<u8>,
    /// How many bytes at the start of `data` hold loaded or written content.
    /// Bytes past this count are zero.
    pub valid_len: usize,
    /// Whether the block was written since it was last carried to the store.
    pub dirty: bool,
}

impl Slab {
    /// A well-formed slab: a full-size block, a valid prefix within it, and
    /// zeros past the valid prefix.
    pub open spec fn wf(self, slab_size: int) -> bool {
        &&& self.data@.len() == slab_size
        &&& self.valid_len <= slab_size
        &&& forall|q: int| self.valid_len <= q < slab_size ==> self.data@[q] == 0u8
    }

    /// The bytes of the valid prefix.
    pub open spec fn valid_bytes(self) -> Seq<u8> {
        self.data@.take(self.valid_len as int)
    }

    /// An all-zero block with nothing valid and nothing dirty. No I/O.
    pub fn new(slab_size: usize) -> (r: Slab)
        ensures
            r.wf(slab_size as int),
            r.valid_len == 0,
            !r.dirty,
            r.data@ == crate::bytes::zeros(slab_size as int),
    {
        let mut data: Vec<u8> = Vec::new();
        while data.len() < slab_size
            invariant
                data@.len() <= slab_size,
                forall|q: int| 0 <= q < data@.len() ==> data@[q] == 0u8,
            decreases slab_size - data.len(),
        {
            data.push(0u8);
        }
        proof {
            assert(data@ =~= crate::bytes::zeros(slab_size as int));
        }
        Slab { data, valid_len: 0, dirty: false }
    }

    /// If dirty, seeks the store to this slab's aligned offset and writes the
    /// whole block — deliberately the entire block, not only the valid prefix
    /// — then clears the mark. On failure the mark stays set and any prefix of
    /// the block may have reached the store.
    pub fn write_back<F: BackingStore>(&mut self, store: &mut F, aligned: u64) -> (r: Result<
        (),
        StoreError,
    >)
        ensures
            final(self).data == old(self).data,
            final(self).valid_len == old(self).valid_len,
            r is Ok ==> !final(self).dirty && if old(self).dirty {
                final(store).contents() == pad_overwrite(
                    old(store).contents(),
                    aligned as int,
                    old(self).data@,
                )
            } else {
                *final(store) == *old(store)
            },
            r is Err ==> final(self).dirty == old(self).dirty && old(self).dirty && (exists|k: int|
                0 <= k <= old(self).data@.len() && final(store).contents() == pad_overwrite(
                    old(store).contents(),
                    aligned as int,
                    #[trigger] old(self).data@.take(k),
                )),
    {
        if !self.dirty {
            return Ok(());
        }
        match store.seek_to(aligned) {
            Ok(_) => {},
            Err(e) => {
                proof {
                    let w = self.data@.take(0);
                    assert(w.len() == 0);
                    assert(store.contents() == pad_overwrite(
                        old(store).contents(),
                        aligned as int,
                        w,
                    ));
                }
                return Err(e);
            },
        }
        match store.write_chunk(&self.data) {
            Ok(_) => {},
            Err(e) => {
                return Err(e);
            },
        }
        self.dirty = false;
        Ok(())
    }
}

} // verus!
