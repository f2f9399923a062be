//! The log of structural changes from which a table is recovered.
use vstd::prelude::*;

verus! {

/// The kinds of entry in the manifest.
#[derive(Debug)]
pub enum ManifestEntry {
    BeginTxn,
    EndTnx,
    CommitTxn,
    BeginCheckpoint,
    EndCheckpoint,
    AllocPage,
    FreePage,
    AllocParition,
    FreePartition,
    UndoAllocPage,
    UndoFreePage,
    UndoAllocParition,
    UndoFreeParition,
    UpdatePage,
    UndoUpdatPage,
}

/// The manifest of a table.
pub struct Manifest {}

} // verus!
