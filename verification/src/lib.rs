//! An embedded, ordered key-value store built as a log-structured merge tree.
//!
//! The crate holds the storage engine's logic: the key encoding and its order,
//! the write-ahead log's record format, the in-memory table, the immutable
//! sorted table image with its index and footer, the level structure with
//! lookup and compaction, and the engine state that ties them together.
//! Files, locks and threads belong to the program that embeds the engine; the
//! engine hands it byte images and log records and takes byte images back.

pub mod apart_laws;
pub mod bytes_order;
pub mod compaction;
pub mod key;
pub mod key_order;
pub mod laws;
pub mod levels;
pub mod lookup_laws;
pub mod lsm;
pub mod memtable;
pub mod merge;
pub mod names;
pub mod ordered_map;
pub mod sst;
pub mod table;
pub mod utils;
pub mod wal;
