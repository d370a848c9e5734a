//! The identity and integrity record of one migration.

use vstd::prelude::*;
use crate::hash::{content_hash, hash_content};

verus! {

/// The mathematical value of a migration entry: what the contracts speak
/// of.
pub ghost struct EntryModel {
    pub id: Option<i64>,
    pub filename: Seq<char>,
    pub hash: Seq<char>,
    pub timestamp: Option<i64>,
}

/// One migration's record: its filename (the natural key), the content
/// hash of its canonical text, and, once the store has applied it, the
/// assigned identifier and timestamp (seconds since the Unix epoch).
#[derive(Debug, Clone)]
pub struct MigrationEntry {
    pub id: Option<i64>,
    pub filename: String,
    pub hash: String,
    pub timestamp: Option<i64>,
}

impl View for MigrationEntry {
    type V = EntryModel;

    open spec fn view(&self) -> EntryModel {
        EntryModel {
            id: self.id,
            filename: self.filename@,
            hash: self.hash@,
            timestamp: self.timestamp,
        }
    }
}

/// The models of a list of entries.
pub open spec fn entry_views(v: Seq<MigrationEntry>) -> Seq<EntryModel> {
    v.map_values(|e: MigrationEntry| e@)
}

impl MigrationEntry {
    /// A fresh entry for an on-disk migration: hash computed from the
    /// file's text, identifier and timestamp still unassigned.
    pub fn new(filename: String, text: &str) -> (e: MigrationEntry)
        ensures
            e@.id is None,
            e@.timestamp is None,
            e@.filename == filename@,
            e@.hash == content_hash(text@),
    {
        MigrationEntry { id: None, filename, hash: hash_content(text), timestamp: None }
    }
}

} // verus!
