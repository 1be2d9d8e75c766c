//! A versioned page repository: the core of a page server for a
//! Postgres-compatible storage engine.
//!
//! The repository ingests decoded write-ahead-log (WAL) records and page
//! images, stores every page version keyed by `(relation, block, LSN)` in an
//! ordered key-value store, and answers time-travel reads: "give me block B of
//! relation R as of LSN L".  Reads are answered from the latest version
//! at-or-before the requested LSN; if that version is a WAL record, the chain
//! of records back to a base image is collected and handed to a redo manager.

pub mod clog;
pub mod codec;
pub mod errors;
pub mod lsn;
pub mod page_version;
pub mod pg_constants;
pub mod remote_storage;
pub mod repository;
pub mod store;
pub mod tag;
pub mod timeline;
pub mod waldecoder;
pub mod walrecord;
pub mod walredo;
