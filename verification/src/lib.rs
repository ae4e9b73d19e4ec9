//! Snapshot-diff classification for a directory tree.
//!
//! A snapshot is one capture of a tree: a list of file records that share one
//! capture time. Given the records of two snapshots, the library sorts every
//! record into exactly one outcome: unchanged, renamed, moved, added or
//! missing. The rules are exact matches on the content hash, applied in a
//! fixed order; every function states its result over the views of its
//! arguments.

pub mod docs;
pub mod matching;
pub mod rules;
pub mod db;
pub mod error;
pub mod history;
pub mod dir_csv;
pub mod laws;
