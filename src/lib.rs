//! A per-type, append-only store of fixed-size binary records.
//!
//! The library holds the store's rules: the registry of known record types,
//! the byte layout of a record, where a positional read lands, and how a type
//! file splits into payloads. Reading and writing files is left to the caller,
//! which hands the library plain byte buffers and file lengths.

pub mod database;
pub mod error;
pub mod record;
