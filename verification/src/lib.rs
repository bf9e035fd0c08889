//! An in-process key/value cache with W-TinyLFU admission, built on an
//! arena-allocated skiplist memtable.
//!
//! The crate is organised leaves-first:
//! - [`entry`] holds the value codec (meta byte, LEB128 expiry, payload);
//! - [`area`] is the bump arena that hands out 32-bit offsets;
//! - [`keys`] defines the byte-key order with its embedded timestamp suffix;
//! - [`skiplist`] is the ordered map over arena-held keys and values;
//! - [`iterator`] walks the skiplist base level in key order;
//! - [`counter`] is the Count-Min sketch frequency estimator;
//! - [`bloom`] is the doorkeeper filter for one-hit wonders;
//! - [`lru`] holds the window LRU and the segmented LRU;
//! - [`cache`] ties hashing, admission and eviction together.

pub mod area;
pub mod bloom;
pub mod cache;
pub mod counter;
pub mod entry;
pub mod iterator;
pub mod keys;
pub mod lru;
pub mod skiplist;
