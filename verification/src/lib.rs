//! Reconciles a directory of versioned SQL migration files against the
//! persisted record of applied migrations, and applies pending ones as one
//! atomic batch.
//!
//! The library holds the logic: canonicalization and hashing of migration
//! text, inference of the filename numbering convention, the apply-order
//! sort, the drift/missing/pending classification, and the decisions of the
//! transactional apply session. A thin front end owns the actual database
//! connection and the file system and drives the session.

pub mod apply;
pub mod canon;
pub mod config;
pub mod entry;
pub mod hash;
pub mod names;
pub mod reconcile;
pub mod scan;
