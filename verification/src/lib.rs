//! A buffered layer over a random-access byte store.
//!
//! Callers read, write and seek at arbitrary positions; the layer turns those
//! into fixed-size, aligned "slab" transfers against the backing store, keeps
//! a bounded least-recently-used set of slabs in memory, and writes dirty
//! slabs back when they are evicted or flushed.

pub mod bytes;
pub mod store;
pub mod slab;
pub mod cache;
pub mod file_buffer;
