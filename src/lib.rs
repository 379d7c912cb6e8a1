//! Storage core of a deduplicating backup server.
//!
//! - `tape`: framed block streams on sequential media (writer, reader, emulator)
//! - `time`: RFC 3339 time stamps of snapshots
//! - `backup_info`: groups, snapshots and their paths
//! - `prune`: retention policies
//! - `chunk_store`: content-addressed chunks and garbage collection
//! - `tools`: hex text, file-restore paths, host fingerprint, file chunking
//! - `manifest`: the file list of a snapshot
//! - `rrd_journal`, `rrd_slots`: journal replay and slot arithmetic of the metric store

pub mod tape;
pub mod time;
pub mod backup_info;
pub mod prune;
pub mod chunk_store;
pub mod tools;
pub mod manifest;
pub mod rrd_journal;
pub mod rrd_slots;
