//! Logic of an ingest pipeline whose write-ahead log lives in an object store.

pub mod acks;
pub mod bench;
pub mod buffer;
pub mod config;
pub mod fetch;
pub mod gc;
pub mod id_map;
pub mod janitor;
pub mod mem_queue;
pub mod mrecordlog_utils;
pub mod object_wal;
pub mod parquet;
pub mod path;
pub mod pipeline;
pub mod position;
pub mod publisher;
pub mod stages;
pub mod state;
pub mod supervisor;
pub mod tantivy;
pub mod text;
pub mod text_map;
pub mod uploader;
pub mod wal;
