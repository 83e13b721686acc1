//! A snippet manager's multi-index storage engine.
//!
//! Snippet records live in a primary store keyed by a monotonically
//! increasing integer identifier, persisted in a `sled` database.
//! Secondary indices map a language name or a tag label to the identifiers
//! of the records carrying it.  A coordinator sequences every mutation so
//! that no completed or interrupted operation ever leaves an index entry
//! pointing at a missing record, and a query engine answers filter requests
//! from the indices with a full-scan fallback.

pub mod codec;
pub mod engine;
pub mod export;
pub mod index;
pub mod kv;
pub mod laws;
pub mod snippet;
pub mod store;
