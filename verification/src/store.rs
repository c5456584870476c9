//! The capability a backing store must offer: positioned reads and writes
//! through a cursor, and seeking, each fallible. `MemStore` is an in-memory
//! store with exactly the direct-I/O semantics the contracts state; an
//! embedding that wants a file underneath implements `BackingStore` for its
//! own file wrapper outside this crate.

use vstd::prelude::*;
use crate::bytes::pad_overwrite;

verus! {

/// The ways an operation on a backing store can fail.
#[derive(Clone, Copy, Debug, PartialEq, Eq, Structural)]
pub enum StoreError {
    /// A seek was asked to land outside the representable range of positions.
    InvalidSeek,
    /// The store could not complete the transfer.
    Io,
}

/// How many bytes a store with the given contents can still hand out at `pos`.
pub open spec fn avail_from(contents: Seq<u8>, pos: int) -> int {
    if pos <= contents.len() {
        contents.len() - pos
    } else {
        0
    }
}

/// A random-access byte store with its own cursor.
///
/// Reads return everything available up to the asked-for length, so a read of
/// zero bytes with a non-empty buffer means the cursor is at or past the end.
/// Writes land at the cursor, zero-filling any gap between the old end and a
/// cursor placed past it. A failed write may have transferred any prefix.
pub trait BackingStore: Sized {
    /// The bytes the store holds. The default model is the empty store; a
    /// verified implementation overrides it with its real contents, and an
    /// unverified one outside this crate may leave it be, carrying the
    /// contracts below as documented obligations instead.
    open spec fn contents(&self) -> Seq<u8> {
        Seq::<u8>::empty()
    }

    /// The store's own cursor; see `contents` on the default.
    open spec fn position(&self) -> int {
        0
    }

    /// Moves the cursor to `pos`, which may lie past the end.
    fn seek_to(&mut self, pos: u64) -> (r: Result<u64, StoreError>)
        ensures
            final(self).contents() == old(self).contents(),
            r matches Ok(p) ==> p == pos && final(self).position() == pos as int,
    ;

    /// Moves the cursor to the end of the contents plus `delta`; fails when
    /// that position lies before the start.
    fn seek_from_end(&mut self, delta: i64) -> (r: Result<u64, StoreError>)
        ensures
            final(self).contents() == old(self).contents(),
            r matches Ok(p) ==> p as int == old(self).contents().len() + delta
                && final(self).position() == p as int,
            old(self).contents().len() + delta < 0 ==> r is Err,
    ;

    /// The cursor's current position.
    fn current_pos(&mut self) -> (r: Result<u64, StoreError>)
        ensures
            *final(self) == *old(self),
            r matches Ok(p) ==> p as int == old(self).position(),
    ;

    /// Reads from the cursor: everything available, capped at `max` bytes.
    fn read_chunk(&mut self, max: usize) -> (r: Result<Vec<u8>, StoreError>)
        requires
            old(self).position() >= 0,
        ensures
            final(self).contents() == old(self).contents(),
            r matches Ok(v) ==> {
                let n = if max as int <= avail_from(old(self).contents(), old(self).position()) {
                    max as int
                } else {
                    avail_from(old(self).contents(), old(self).position())
                };
                let start = if old(self).position() <= old(self).contents().len() {
                    old(self).position()
                } else {
                    old(self).contents().len() as int
                };
                &&& v@.len() == n
                &&& v@ == old(self).contents().subrange(start, start + n)
                &&& final(self).position() == old(self).position() + n
            },
            r is Err ==> final(self).position() == old(self).position(),
    ;

    /// Writes all of `data` at the cursor. On failure some prefix of `data`
    /// may have been transferred; the contents are never shortened.
    fn write_chunk(&mut self, data: &Vec<u8>) -> (r: Result<(), StoreError>)
        requires
            old(self).position() >= 0,
        ensures
            r is Ok ==> final(self).contents() == pad_overwrite(
                old(self).contents(),
                old(self).position(),
                data@,
            ) && final(self).position() == old(self).position() + data@.len(),
            r is Err ==> exists|k: int|
                0 <= k <= data@.len() && final(self).contents() == pad_overwrite(
                    old(self).contents(),
                    old(self).position(),
                    #[trigger] data@.take(k),
                ),
    ;

    /// Pushes any buffering the store itself keeps down to its medium.
    fn sync(&mut self) -> (r: Result<(), StoreError>)
        ensures
            final(self).contents() == old(self).contents(),
            final(self).position() == old(self).position(),
    ;
}

/// An in-memory backing store: a growable byte vector and a cursor.
pub struct MemStore {
    data: Vec<u8>,
    pos: u64,
}

impl MemStore {
    /// An empty store with the cursor at the start.
    pub fn new() -> (r: MemStore)
        ensures
            r.contents() == Seq::<u8>::empty(),
            r.position() == 0,
    {
        MemStore { data: Vec::new(), pos: 0 }
    }
}

impl BackingStore for MemStore {
    closed spec fn contents(&self) -> Seq<u8> {
        self.data@
    }

    closed spec fn position(&self) -> int {
        self.pos as int
    }

    fn seek_to(&mut self, pos: u64) -> (r: Result<u64, StoreError>) {
        self.pos = pos;
        Ok(pos)
    }

    fn seek_from_end(&mut self, delta: i64) -> (r: Result<u64, StoreError>) {
        let len = self.data.len() as u64;
        if delta >= 0 {
            let d = delta as u64;
            if d > u64::MAX - len {
                return Err(StoreError::InvalidSeek);
            }
            self.pos = len + d;
            Ok(self.pos)
        } else {
            let mag: u64 = if delta == i64::MIN {
                9223372036854775808u64
            } else {
                (-delta) as u64
            };
            if mag > len {
                Err(StoreError::InvalidSeek)
            } else {
                self.pos = len - mag;
                Ok(self.pos)
            }
        }
    }

    fn current_pos(&mut self) -> (r: Result<u64, StoreError>) {
        Ok(self.pos)
    }

    fn read_chunk(&mut self, max: usize) -> (r: Result<Vec<u8>, StoreError>) {
        let len = self.data.len();
        if self.pos >= len as u64 {
            let out: Vec<u8> = Vec::new();
            proof {
                assert(out@ =~= self.data@.subrange(
                    self.data@.len() as int,
                    self.data@.len() as int,
                ));
            }
            return Ok(out);
        }
        let start = self.pos as usize;
        let n = if max <= len - start { max } else { len - start };
        let mut out: Vec<u8> = Vec::new();
        let mut i: usize = 0;
        while i < n
            invariant
                0 <= i <= n,
                start + n <= self.data.len(),
                out@ == self.data@.subrange(start as int, start as int + i as int),
                self == old(self),
            decreases n - i,
        {
            out.push(self.data[start + i]);
            assert(out@ =~= self.data@.subrange(start as int, start as int + i as int + 1));
            i = i + 1;
        }
        self.pos = self.pos + n as u64;
        Ok(out)
    }

    fn write_chunk(&mut self, data: &Vec<u8>) -> (r: Result<(), StoreError>) {
        if data.len() == 0 {
            return Ok(());
        }
        if self.pos > (usize::MAX - data.len()) as u64 {
            proof {
                assert(self.data@ =~= pad_overwrite(self.data@, self.pos as int, data@.take(0)));
            }
            return Err(StoreError::Io);
        }
        let ghost base = self.data@;
        let ghost at = self.pos as int;
        let pos = self.pos as usize;
        while self.data.len() < pos
            invariant
                base.len() <= self.data@.len(),
                self.data@.len() <= pos || self.data@.len() == base.len(),
                forall|q: int| 0 <= q < base.len() ==> self.data@[q] == base[q],
                forall|q: int| base.len() <= q < self.data@.len() ==> self.data@[q] == 0u8,
                self.pos == pos,
                pos <= usize::MAX - data.len(),
            decreases pos - self.data.len(),
        {
            self.data.push(0u8);
        }
        let ghost padded = self.data@;
        proof {
            assert(padded.len() == if base.len() >= pos { base.len() as int } else { pos as int });
        }
        let mut i: usize = 0;
        while i < data.len()
            invariant
                0 <= i <= data@.len(),
                pos <= usize::MAX - data@.len(),
                padded.len() == if base.len() >= pos { base.len() as int } else { pos as int },
                forall|q: int| 0 <= q < base.len() ==> padded[q] == base[q],
                forall|q: int| base.len() <= q < padded.len() ==> padded[q] == 0u8,
                self.data@.len() == if padded.len() >= pos + i { padded.len() as int } else {
                    pos + i
                },
                forall|q: int| 0 <= q < self.data@.len() && !(pos <= q < pos + i) && q
                    < padded.len() ==> self.data@[q] == padded[q],
                forall|q: int| pos <= q < pos + i ==> self.data@[q] == data@[q - pos],
                self.pos == pos,
            decreases data@.len() - i,
        {
            if pos + i < self.data.len() {
                self.data.set(pos + i, data[i]);
            } else {
                self.data.push(data[i]);
            }
            i = i + 1;
        }
        proof {
            assert(self.data@.len() == pad_overwrite(base, at, data@).len());
            assert(forall|q: int|
                pos <= q < pos + data@.len() ==> self.data@[q] == data@[q - pos]);
            assert(forall|q: int|
                0 <= q < base.len() && !(pos <= q < pos + data@.len()) ==> self.data@[q]
                    == base[q]);
            assert forall|q: int|
                base.len() <= q < self.data@.len() && !(pos <= q < pos + data@.len())
                    implies self.data@[q] == 0u8 by {
                if q < padded.len() {
                    assert(self.data@[q] == padded[q]);
                    assert(padded[q] == 0u8);
                } else {
                    assert(padded.len() >= pos as int);
                    assert(false);
                }
            };
            assert(self.data@ =~= pad_overwrite(base, at, data@));
        }
        self.pos = pos as u64 + data.len() as u64;
        Ok(())
    }

    fn sync(&mut self) -> (r: Result<(), StoreError>) {
        Ok(())
    }
}

} // verus!
