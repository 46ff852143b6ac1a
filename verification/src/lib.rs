//! Verified planning and reconciliation engine for a content-addressed
//! directory-to-object-store synchronizer.
//!
//! The library holds the logic of the tool: the manifest model, the scan
//! filters and key derivation, the diff/conflict classifier, the persisted
//! plan with its binary codec, the chunked-upload layout, and the delete
//! scoping rules. Filesystem and network work is left to the thin program
//! around the library, which hands plain values in and takes plain values
//! back.

use vstd::prelude::*;

pub mod archive;
pub mod chunk;
pub mod classify;
pub mod codec;
pub mod manifest;
pub mod planning;
pub mod remove;
pub mod scan;
pub mod text;

verus! {

/// One accepted upload action: a local file, its derived remote key,
/// its content fingerprint and its modification time in seconds since
/// the epoch. Scanning produces one such value per eligible file (a
/// candidate); the accepted candidates are persisted as the plan.
pub struct PlanEntry {
    pub key: String,
    pub path: String,
    pub hash: String,
    pub modified: u64,
}

/// The mathematical value of a [`PlanEntry`]: the same fields over
/// sequences of characters.
pub struct PlanEntryV {
    pub key: Seq<char>,
    pub path: Seq<char>,
    pub hash: Seq<char>,
    pub modified: u64,
}

impl View for PlanEntry {
    type V = PlanEntryV;

    open spec fn view(&self) -> PlanEntryV {
        PlanEntryV {
            key: self.key@,
            path: self.path@,
            hash: self.hash@,
            modified: self.modified,
        }
    }
}

impl PlanEntry {
    /// An explicit deep copy; a derived `Clone` would tell the verifier
    /// nothing about the fields of the copy.
    pub fn duplicate(&self) -> (r: PlanEntry)
        ensures
            r@ == self@,
    {
        PlanEntry {
            key: self.key.clone(),
            path: self.path.clone(),
            hash: self.hash.clone(),
            modified: self.modified,
        }
    }
}

/// The persisted, single-use artifact produced by planning and consumed
/// by push: the target store identifier, the canonical base path the keys
/// were derived from, and the accepted entries in order.
pub struct Plan {
    pub bucket_name: String,
    pub base_path: String,
    pub entries: Vec<PlanEntry>,
}

/// The mathematical value of a [`Plan`].
pub struct PlanV {
    pub bucket_name: Seq<char>,
    pub base_path: Seq<char>,
    pub entries: Seq<PlanEntryV>,
}

/// The views of a sequence of plan entries, in order.
pub open spec fn entries_view(s: Seq<PlanEntry>) -> Seq<PlanEntryV> {
    s.map_values(|e: PlanEntry| e@)
}

impl View for Plan {
    type V = PlanV;

    open spec fn view(&self) -> PlanV {
        PlanV {
            bucket_name: self.bucket_name@,
            base_path: self.base_path@,
            entries: entries_view(self.entries@),
        }
    }
}

/// One row of the manifest: the metadata remembered for a remotely
/// stored object. `key` is the object's identity; at most one row per
/// key exists in a well-formed manifest.
pub struct EntriesRow {
    pub key: String,
    pub path: String,
    pub hash: String,
    pub modified: u64,
}

/// The mathematical value of an [`EntriesRow`].
pub struct EntriesRowV {
    pub key: Seq<char>,
    pub path: Seq<char>,
    pub hash: Seq<char>,
    pub modified: u64,
}

impl View for EntriesRow {
    type V = EntriesRowV;

    open spec fn view(&self) -> EntriesRowV {
        EntriesRowV {
            key: self.key@,
            path: self.path@,
            hash: self.hash@,
            modified: self.modified,
        }
    }
}

/// The views of a sequence of manifest rows, in order.
pub open spec fn rows_view(s: Seq<EntriesRow>) -> Seq<EntriesRowV> {
    s.map_values(|r: EntriesRow| r@)
}

impl EntriesRow {
    /// An explicit deep copy, field by field.
    pub fn duplicate(&self) -> (r: EntriesRow)
        ensures
            r@ == self@,
    {
        EntriesRow {
            key: self.key.clone(),
            path: self.path.clone(),
            hash: self.hash.clone(),
            modified: self.modified,
        }
    }

    /// The manifest row recording an applied plan entry: same key, hash,
    /// origin path and modification time.
    pub fn from_plan_entry(e: &PlanEntry) -> (r: EntriesRow)
        ensures
            r@.key == e@.key,
            r@.path == e@.path,
            r@.hash == e@.hash,
            r@.modified == e@.modified,
    {
        EntriesRow {
            key: e.key.clone(),
            path: e.path.clone(),
            hash: e.hash.clone(),
            modified: e.modified,
        }
    }
}

} // verus!
