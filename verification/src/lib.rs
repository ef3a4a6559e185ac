//! An embedded storage layer that multiplexes many independent, named,
//! ordered tables onto a single ordered key-value engine. Tables are
//! told apart by a four-byte big-endian id prefixed to every key; a
//! registry persists the name/id mapping; TTL stores frame every value
//! with a write timestamp and expire old records at compaction time,
//! never dropping a table's latest record; a change feed hands out the
//! engine's write-ahead log as replayable batches of operations.

pub mod clock;
pub mod codec;
pub mod coder;
pub mod compact_filter;
pub mod consts;
pub mod cursor;
pub mod cursor_enhanced;
pub mod db;
pub mod entries;
pub mod error;
pub mod lex;
pub mod options;
pub mod store;
pub mod table;
pub mod table_enhanced;
pub mod types;
pub mod write_batch;
pub mod write_batch_enhanced;
pub mod write_op;
