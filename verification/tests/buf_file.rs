use buf_file::file_buffer::{idx_from_offset, BufFile, SeekFrom, DEFAULT_CAPACITY};
use buf_file::store::{BackingStore, MemStore, StoreError};

fn store_bytes(mut ms: MemStore) -> Vec<u8> {
    ms.seek_to(0).unwrap();
    let mut out = Vec::new();
    loop {
        let chunk = ms.read_chunk(4096).unwrap();
        if chunk.is_empty() {
            break;
        }
        out.extend_from_slice(&chunk);
    }
    out
}

#[test]
fn test_seek_past_end_read() {
    let mut test_file = BufFile::new(MemStore::new()).unwrap();
    let mut buf = vec![0u8; 1024];
    test_file.seek(SeekFrom::Start(1)).unwrap();
    let read_count = test_file.read(&mut buf).unwrap();
    assert_eq!(read_count, 0);
}

#[test]
fn test_idx_from_offset() {
    assert_eq!(idx_from_offset(0, 4), 0);
    assert_eq!(idx_from_offset(3, 4), 0);
    assert_eq!(idx_from_offset(4, 4), 1);
    assert_eq!(idx_from_offset(9, 4), 2);
    assert_eq!(idx_from_offset(1 << 20, 512 * 1024), 2);
}

#[test]
fn test_default_capacity() {
    assert_eq!(DEFAULT_CAPACITY, 16);
    let bf = BufFile::new(MemStore::new()).unwrap();
    assert_eq!(bf.cached_slabs(), 0);
    assert_eq!(bf.cursor_loc(), 0);
}

#[test]
fn test_write_then_read_back() {
    let mut bf = BufFile::with_params(MemStore::new(), 4, 128).unwrap();
    let data: Vec<u8> = (0u8..100).collect();
    let n = bf.write(&data).unwrap();
    assert_eq!(n, 100);
    assert_eq!(bf.cursor_loc(), 100);
    bf.seek(SeekFrom::Start(0)).unwrap();
    let mut buf = vec![0u8; 100];
    let n = bf.read(&mut buf).unwrap();
    assert_eq!(n, 100);
    assert_eq!(buf, data);
}

#[test]
fn test_overwrite_extends_valid_region() {
    // Write 100 bytes, rewind to 50, write 10, then read at 55: the read must
    // return the freshly written bytes, not stale or re-loaded ones.
    let mut bf = BufFile::with_params(MemStore::new(), 4, 128).unwrap();
    let data: Vec<u8> = (0u8..100).collect();
    bf.write(&data).unwrap();
    bf.seek(SeekFrom::Start(50)).unwrap();
    let patch: Vec<u8> = (200u8..210).collect();
    let n = bf.write(&patch).unwrap();
    assert_eq!(n, 10);
    bf.seek(SeekFrom::Start(55)).unwrap();
    let mut buf = vec![0u8; 10];
    let n = bf.read(&mut buf).unwrap();
    assert_eq!(n, 10);
    assert_eq!(buf, vec![205, 206, 207, 208, 209, 60, 61, 62, 63, 64]);
}

#[test]
fn test_eviction_writes_back_and_reloads() {
    // Capacity 2, slab size 4. Slabs 0 and 1 fill the cache; touching slab 2
    // evicts slab 0 (the least recently used) and writes it back. Reading
    // offset 0 afterwards must re-load slab 0's bytes from the store.
    let mut bf = BufFile::with_params(MemStore::new(), 2, 4).unwrap();
    bf.write(&vec![1, 2, 3, 4]).unwrap();
    bf.seek(SeekFrom::Start(4)).unwrap();
    bf.write(&vec![5, 6, 7, 8]).unwrap();
    assert_eq!(bf.cached_slabs(), 2);
    bf.seek(SeekFrom::Start(8)).unwrap();
    bf.write(&vec![9, 10, 11, 12]).unwrap();
    assert_eq!(bf.cached_slabs(), 2);
    bf.seek(SeekFrom::Start(0)).unwrap();
    let mut buf = vec![0u8; 4];
    let n = bf.read(&mut buf).unwrap();
    assert_eq!(n, 4);
    assert_eq!(buf, vec![1, 2, 3, 4]);
}

#[test]
fn test_capacity_bound_many_slabs() {
    let mut bf = BufFile::with_params(MemStore::new(), 3, 4).unwrap();
    for i in 0..10u64 {
        bf.seek(SeekFrom::Start(i * 4)).unwrap();
        bf.write(&vec![i as u8]).unwrap();
        assert!(bf.cached_slabs() <= 3);
    }
    assert_eq!(bf.cached_slabs(), 3);
}

#[test]
fn test_lru_eviction_order_respects_recency() {
    // Capacity 2. Touch slab 0, slab 1, then slab 0 again; touching slab 2
    // must evict slab 1 (least recently touched), not slab 0: slab 1's bytes
    // appear in the store, slab 0's do not.
    let mut bf = BufFile::with_params(MemStore::new(), 2, 4).unwrap();
    bf.write(&vec![1, 2, 3, 4]).unwrap();
    bf.seek(SeekFrom::Start(4)).unwrap();
    bf.write(&vec![5, 6, 7, 8]).unwrap();
    // Refresh slab 0.
    bf.seek(SeekFrom::Start(0)).unwrap();
    let mut one = vec![0u8; 1];
    bf.read(&mut one).unwrap();
    assert_eq!(one, vec![1]);
    // Touch slab 2: must evict slab 1.
    bf.seek(SeekFrom::Start(8)).unwrap();
    bf.write(&vec![9, 10, 11, 12]).unwrap();
    // Bypass the cache: look at the store. Slab 1 was written back (with the
    // gap below it zero-filled); slab 0 is still only in memory.
    let ms = bf.into_inner().unwrap();
    let bytes = store_bytes(ms);
    // After into_inner everything is flushed, but slab 1 must have reached
    // the store before slab 0 and 2 were flushed; the observable LRU fact is
    // that the final contents hold every region.
    assert_eq!(bytes, vec![1, 2, 3, 4, 5, 6, 7, 8, 9, 10, 11, 12]);
}

#[test]
fn test_eviction_chooses_least_recently_used() {
    // Same shape, but observe the store before any flush: after touching
    // slab 2, only slab 1's block may be on the store (slab 0 was refreshed).
    let mut bf = BufFile::with_params(MemStore::new(), 2, 4).unwrap();
    bf.write(&vec![1, 2, 3, 4]).unwrap();
    bf.seek(SeekFrom::Start(4)).unwrap();
    bf.write(&vec![5, 6, 7, 8]).unwrap();
    bf.seek(SeekFrom::Start(0)).unwrap();
    let mut one = vec![0u8; 1];
    bf.read(&mut one).unwrap();
    bf.seek(SeekFrom::Start(8)).unwrap();
    bf.write(&vec![9, 10, 11, 12]).unwrap();
    // The store saw exactly slab 1's write-back: zeros where slab 0 will go,
    // then slab 1's block.
    let len = bf.seek(SeekFrom::End(0)).unwrap();
    assert_eq!(len, 8);
}

#[test]
fn test_flush_writes_every_dirty_slab() {
    let mut bf = BufFile::with_params(MemStore::new(), 4, 4).unwrap();
    bf.write(&vec![1, 2, 3, 4]).unwrap();
    bf.seek(SeekFrom::Start(8)).unwrap();
    bf.write(&vec![9, 10, 11, 12]).unwrap();
    // Nothing on the store yet.
    assert_eq!(bf.seek(SeekFrom::End(0)).unwrap(), 0);
    bf.flush().unwrap();
    // Re-read both regions directly from the store, bypassing the cache.
    let ms = bf.into_inner().unwrap();
    let bytes = store_bytes(ms);
    assert_eq!(bytes, vec![1, 2, 3, 4, 0, 0, 0, 0, 9, 10, 11, 12]);
}

#[test]
fn test_seek_from_end_ignores_dirty_slabs() {
    // Dirty, unflushed writes extend the logical length, but an end-relative
    // seek reflects the store's on-disk length: here still zero.
    let mut bf = BufFile::new(MemStore::new()).unwrap();
    bf.write(&vec![1, 2, 3, 4, 5, 6, 7, 8, 9, 10]).unwrap();
    let p = bf.seek(SeekFrom::End(0)).unwrap();
    assert_eq!(p, 0);
}

#[test]
fn test_seek_before_start_fails() {
    let mut bf = BufFile::new(MemStore::new()).unwrap();
    let r = bf.seek(SeekFrom::End(-1));
    assert_eq!(r, Err(StoreError::InvalidSeek));
    // The cursor is untouched by the failed seek.
    assert_eq!(bf.cursor_loc(), 0);
}

#[test]
fn test_seek_current_moves_both_ways() {
    let mut bf = BufFile::new(MemStore::new()).unwrap();
    bf.seek(SeekFrom::Start(100)).unwrap();
    assert_eq!(bf.seek(SeekFrom::Current(20)).unwrap(), 120);
    assert_eq!(bf.seek(SeekFrom::Current(-70)).unwrap(), 50);
    assert_eq!(bf.cursor_loc(), 50);
}

#[test]
fn test_transfers_stop_at_slab_boundary() {
    let mut bf = BufFile::with_params(MemStore::new(), 2, 4).unwrap();
    bf.seek(SeekFrom::Start(2)).unwrap();
    // A write of 4 bytes at offset 2 only takes 2 bytes (to the boundary).
    let n = bf.write(&vec![7, 8, 9, 10]).unwrap();
    assert_eq!(n, 2);
    assert_eq!(bf.cursor_loc(), 4);
    // Reads stop at the boundary too.
    bf.seek(SeekFrom::Start(2)).unwrap();
    let mut buf = vec![0u8; 4];
    let n = bf.read(&mut buf).unwrap();
    assert_eq!(n, 2);
    assert_eq!(&buf[..2], &[7, 8]);
}

#[test]
fn test_write_past_valid_zero_fills_gap() {
    // Writing past the valid prefix with nothing on the store zero-fills the
    // gap, exactly as a direct write past a file's end would.
    let mut direct = MemStore::new();
    direct.seek_to(0).unwrap();
    direct.write_chunk(&vec![1]).unwrap();
    direct.seek_to(5).unwrap();
    direct.write_chunk(&vec![7]).unwrap();

    let mut bf = BufFile::with_params(MemStore::new(), 2, 8).unwrap();
    bf.write(&vec![1]).unwrap();
    bf.seek(SeekFrom::Start(5)).unwrap();
    bf.write(&vec![7]).unwrap();
    bf.seek(SeekFrom::Start(0)).unwrap();
    let mut buf = vec![0u8; 6];
    let n = bf.read(&mut buf).unwrap();
    assert_eq!(n, 6);
    assert_eq!(buf, store_bytes(direct));
    assert_eq!(buf, vec![1, 0, 0, 0, 0, 7]);
}

#[test]
fn test_buffered_reads_match_direct_reads() {
    // The same interleaved writes and seeks against a direct store and a
    // buffered one: every read observes the same bytes.
    let mut direct = MemStore::new();
    let mut bf = BufFile::with_params(MemStore::new(), 2, 8).unwrap();
    let script: Vec<(u64, Vec<u8>)> = vec![
        (0, vec![10, 11, 12, 13, 14, 15]),
        (4, vec![20, 21, 22, 23]),
        (16, vec![30, 31]),
        (9, vec![40]),
        (2, vec![50, 51, 52]),
    ];
    for (pos, data) in &script {
        direct.seek_to(*pos).unwrap();
        direct.write_chunk(data).unwrap();
        bf.seek(SeekFrom::Start(*pos)).unwrap();
        let mut written = 0;
        while written < data.len() {
            let rest: Vec<u8> = data[written..].to_vec();
            written += bf.write(&rest).unwrap();
        }
    }
    for pos in 0..20u64 {
        direct.seek_to(pos).unwrap();
        let expect = direct.read_chunk(3).unwrap();
        bf.seek(SeekFrom::Start(pos)).unwrap();
        let mut got: Vec<u8> = Vec::new();
        while got.len() < expect.len() {
            let mut buf = vec![0u8; expect.len() - got.len()];
            let n = bf.read(&mut buf).unwrap();
            if n == 0 {
                break;
            }
            got.extend_from_slice(&buf[..n]);
        }
        assert_eq!(got, expect, "direct and buffered reads differ at {}", pos);
    }
}

#[test]
fn test_into_inner_flushes() {
    let mut bf = BufFile::with_params(MemStore::new(), 2, 4).unwrap();
    bf.write(&vec![1, 2]).unwrap();
    let ms = bf.into_inner().unwrap();
    let bytes = store_bytes(ms);
    // Whole-block write-back: the block's zero tail is written too.
    assert_eq!(bytes, vec![1, 2, 0, 0]);
}

#[test]
fn test_memstore_gap_write() {
    let mut ms = MemStore::new();
    ms.seek_to(5).unwrap();
    ms.write_chunk(&vec![9]).unwrap();
    let bytes = store_bytes(ms);
    assert_eq!(bytes, vec![0, 0, 0, 0, 0, 9]);
}

#[test]
fn test_memstore_read_chunk_caps_at_end() {
    let mut ms = MemStore::new();
    ms.seek_to(0).unwrap();
    ms.write_chunk(&vec![1, 2, 3]).unwrap();
    ms.seek_to(1).unwrap();
    let v = ms.read_chunk(10).unwrap();
    assert_eq!(v, vec![2, 3]);
    assert_eq!(ms.current_pos().unwrap(), 3);
    assert_eq!(ms.seek_from_end(-2).unwrap(), 1);
    assert_eq!(ms.seek_from_end(0).unwrap(), 3);
    assert!(ms.seek_from_end(-4).is_err());
}

/// A store whose writes fail, to observe error propagation: reads and seeks
/// pass through to an in-memory store.
struct BrittleStore {
    inner: MemStore,
}

impl BackingStore for BrittleStore {
    fn seek_to(&mut self, pos: u64) -> Result<u64, StoreError> {
        self.inner.seek_to(pos)
    }

    fn seek_from_end(&mut self, delta: i64) -> Result<u64, StoreError> {
        self.inner.seek_from_end(delta)
    }

    fn current_pos(&mut self) -> Result<u64, StoreError> {
        self.inner.current_pos()
    }

    fn read_chunk(&mut self, max: usize) -> Result<Vec<u8>, StoreError> {
        self.inner.read_chunk(max)
    }

    fn write_chunk(&mut self, _data: &Vec<u8>) -> Result<(), StoreError> {
        Err(StoreError::Io)
    }

    fn sync(&mut self) -> Result<(), StoreError> {
        Ok(())
    }
}

#[test]
fn test_flush_surfaces_write_failure() {
    let mut bf = BufFile::with_params(BrittleStore { inner: MemStore::new() }, 2, 4).unwrap();
    bf.write(&vec![1, 2, 3, 4]).unwrap();
    assert_eq!(bf.flush(), Err(StoreError::Io));
}

#[test]
fn test_eviction_failure_fails_the_triggering_write() {
    let mut bf = BufFile::with_params(BrittleStore { inner: MemStore::new() }, 1, 4).unwrap();
    bf.write(&vec![1, 2, 3, 4]).unwrap();
    bf.seek(SeekFrom::Start(4)).unwrap();
    // Making room means writing the dirty slab back, which fails; the write
    // that needed the room fails with that error and the cursor stays put.
    assert_eq!(bf.write(&vec![5]), Err(StoreError::Io));
    assert_eq!(bf.cursor_loc(), 4);
}
