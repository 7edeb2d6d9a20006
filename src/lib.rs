//! A range cache for random-access reads over remote files: byte ranges are
//! scheduled for download, fetched under a bounded number of concurrent
//! downloads, and served from memory to synchronous readers.

pub mod cached_file;
pub mod cached_read;
pub mod chunk_map;
pub mod dispatcher;
pub mod downloader;
pub mod error;
pub mod file_table;
pub mod range_cache;
pub mod registry;
pub mod command;
pub mod http_range;
