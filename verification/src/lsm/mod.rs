pub mod block_codec;
pub mod bloblog;
pub mod cache;
pub mod compaction;
pub mod compactor;
pub mod engine;
pub mod error;
pub mod iterator;
pub mod level;
pub mod manifest;
pub mod memtable;
pub mod metrics;
pub mod sstable;
pub mod table;
pub mod table_laws;
pub mod transaction;
pub mod varint;
pub mod wal_record;
