//! Durability and in-memory index layer of a log-structured key-value store:
//! the record codec of the write-ahead log, the segment reader, the sorted
//! memtable and the replay that consolidates log segments on recovery.
pub mod order;
pub mod record;
pub mod memtable;
pub mod codec;
pub mod reader;
pub mod recovery;
