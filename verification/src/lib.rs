//! An embedded, ordered key-value store organised as a log-structured merge tree.
//!
//! Writes go to an in-memory table; full tables are frozen and written out as
//! immutable sorted tables made of prefix-compressed blocks; reads merge the
//! layers from newest to oldest.

pub mod block;
pub mod bound;
pub mod buffer;
pub mod compact;
pub mod entries;
pub mod error;
pub mod iterators;
pub mod key;
pub mod lsm_iterator;
pub mod lsm_storage;
pub mod mem_table;
pub mod reads;
pub mod table;
