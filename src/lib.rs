//! A single-file, log-structured key-value store.
//!
//! The log is an append-only sequence of length-prefixed records; an offset
//! index maps each live key to the record that holds its current value.
//! Everything here works on the log's bytes: the host that owns the file
//! hands them in on open and writes out what the engine appends.
use vstd::prelude::*;

pub mod codec;
pub mod database;
pub mod error;
pub mod index;
pub mod laws;
pub mod log;
pub mod record;

pub use database::EmbeddedDatabase;
pub use error::DbError;
pub use record::Record;
