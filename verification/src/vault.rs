//! The vault: the three stores held together, and what the commands on
//! single files do to them.

use crate::category::{category_of_path, get_category};
use crate::history::{deletion_stamp, DeletionHistory, SnapshotRegistry, Stamp};
use crate::index::MetadataStore;
use crate::paths::{file_name, file_name_of};
use crate::records::{DeletedEntry, DeletedEntryView, FileMetaView, SnapshotInfoView};
use vstd::prelude::*;

verus! {

/// The three stores of the index, held together.
pub struct Vault {
    pub index: MetadataStore,
    pub history: DeletionHistory,
    pub snapshots: SnapshotRegistry,
}

impl Vault {
    /// All three stores are well formed.
    pub open spec fn wf(&self) -> bool {
        self.index.wf() && self.history.wf() && self.snapshots.wf()
    }

    /// A vault of three empty stores.
    pub fn new() -> (vault: Vault)
        ensures
            vault.wf(),
            vault.index@ == Map::<Seq<char>, FileMetaView>::empty(),
            vault.history@ == Map::<Stamp, DeletedEntryView>::empty(),
            vault.snapshots@ == Map::<Stamp, SnapshotInfoView>::empty(),
    {
        Vault {
            index: MetadataStore::new(),
            history: DeletionHistory::new(),
            snapshots: SnapshotRegistry::new(),
        }
    }
}

/// The deletion event of a file that is taken out by hand: what is known of
/// the file at `path`, the time, and why it leaves (`manual`, `permanent`).
pub open spec fn manual_event(
    hash: Seq<char>,
    path: Seq<char>,
    size: u64,
    deleted_at: u64,
    origin: Seq<char>,
) -> DeletedEntryView {
    DeletedEntryView {
        hash,
        path,
        name: file_name_of(path),
        size,
        category: category_of_path(path),
        deleted_at,
        snapshot_name: origin,
    }
}

/// The word that marks a file moved to the bin.
pub fn manual_origin() -> (word: &'static str)
    ensures
        word@ == "manual"@,
{
    "manual"
}

/// The word that marks a file deleted for good.
pub fn permanent_origin() -> (word: &'static str)
    ensures
        word@ == "permanent"@,
{
    "permanent"
}

/// Logs that the file indexed under `hash` leaves: the event is added to
/// the history and returned. The record stays in the index until it is
/// taken out, once the file is gone.
pub fn log_deletion(
    history: &mut DeletionHistory,
    hash: &str,
    path: &str,
    size: u64,
    deleted_at: u64,
    origin: &str,
) -> (event: DeletedEntry)
    requires
        old(history).wf(),
    ensures
        final(history).wf(),
        event@ == manual_event(hash@, path@, size, deleted_at, origin@),
        final(history)@ == old(history)@.insert(deletion_stamp(event@), event@),
{
    let event = DeletedEntry {
        hash: hash.to_owned(),
        path: path.to_owned(),
        name: file_name(path),
        size,
        category: get_category(path),
        deleted_at,
        snapshot_name: origin.to_owned(),
    };
    history.append(event.duplicate());
    event
}

} // verus!
