//! A verified tiered cache for byte ranges of immutable objects.

pub mod admission_lemmas;
pub mod admissions;
pub mod batching;
pub mod byte_count;
pub mod cache;
pub mod candidates;
pub mod compaction;
pub mod compaction_work;
pub mod config;
pub mod data_file;
pub mod download;
pub mod downloader;
pub mod engines;
pub mod evidence;
pub mod foyer_store;
pub mod io_error;
pub mod io_metrics;
pub mod keys;
pub mod laws;
pub mod metrics;
pub mod objects;
pub mod operations;
pub mod payload;
pub mod progress;
pub mod publication;
pub mod range;
pub mod ranges;
pub mod readings;
pub mod recording;
pub mod relief;
pub mod replay;
pub mod report;
pub mod retention;
pub mod shard;
pub mod shard_lemmas;
pub mod shard_state;
pub mod staleness;
pub mod store;
pub mod targets;
pub mod text;
pub mod timestamp;
pub mod trace;

pub use download::{Download, DownloadError};
pub use range::{ByteRange, InvalidRange};
