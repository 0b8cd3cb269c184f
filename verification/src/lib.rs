//! Whole-machine file search on NTFS volumes.
//!
//! An index of a volume is built from its master file table and kept up to date from its
//! change journal; queries are globs that are matched against the paths of an index. What
//! reads volumes, sockets and files is left to the program around this library: it hands
//! in what was read, and does what it is told to do next.

pub mod buckets;
pub mod drive_laws;
pub mod engine;
pub mod enumerate;
pub mod gitignore;
pub mod glob;
pub mod index_laws;
pub mod ipc;
pub mod journal;
pub mod journal_laws;
pub mod json;
pub mod machine;
pub mod mcp;
pub mod message_laws;
pub mod mft;
pub mod path_laws;
pub mod query_laws;
pub mod report;
pub mod search;
pub mod search_laws;
pub mod service;
pub mod text;
pub mod text_laws;
pub mod usn;
pub mod usn_laws;
pub mod utf16;
pub mod volume;
pub mod watch;
