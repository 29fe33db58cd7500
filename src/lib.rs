//! Incremental state-trie persistence: a delta model of trie node changes,
//! overlay cursors that read pending deltas over a durable trie, and the
//! single writer that commits executed blocks and their deltas.
//!
//! - `nibbles`: paths, hashes, nodes and the byte order keys sort by.
//! - `updates`: trie keys, pending operations, deltas and sorted snapshots.
//! - `table`: ordered trie tables and the cursor capability over them.
//! - `cursor`: overlay cursors and their factory.
//! - `flush`: the writes that flush a delta, and what they do to the tables.
//! - `store`: the durable trie tables, changed by those writes.
//! - `persistence`: which batches the writer takes, and its request handling.

pub mod nibbles;
pub mod updates;
pub mod table;
pub mod cursor;
pub mod flush;
pub mod store;
pub mod persistence;
