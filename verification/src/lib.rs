//! Exactly-once mirroring of Kafka topic partitions.

pub mod acks;
pub mod arrow_table;
pub mod assoc;
pub mod base64;
pub mod cache;
pub mod chain;
pub mod chain_laws;
pub mod column;
pub mod config;
pub mod config_laws;
pub mod content_laws;
pub mod envelope;
pub mod envsubst;
pub mod error;
pub mod filesystem;
pub mod format_laws;
pub mod http;
pub mod index_map;
pub mod json;
pub mod kafka;
pub mod listing_laws;
pub mod loop_laws;
pub mod mirror;
pub mod mock;
pub mod naming;
pub mod ndjson;
pub mod parquet;
pub mod process_laws;
pub mod read_laws;
pub mod record;
pub mod restart_laws;
pub mod run_loop;
pub mod schedule;
pub mod script_laws;
pub mod sink_laws;
pub mod snapshot;
pub mod supervisor;
pub mod tee;
pub mod tee_laws;
pub mod testing;
pub mod text;
pub mod url;
pub mod utf8;
pub mod validate;
