//! A log-structured key-value store: each write appends a `key,value\n` record to one
//! growing data file, and an in-memory index maps every key to the byte range of the
//! value in its most recent record.
//!
//! The library holds the record layout, the index and its replay from file contents;
//! the caller moves bytes between the store and the data file.
pub mod error;
pub mod record;
pub mod index;
pub mod kv_db;
pub mod laws;
