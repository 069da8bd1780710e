//! The scan of a folder: what the walk found is indexed, what was indexed
//! before and is gone is logged and dropped, and the scan is registered.

use crate::category::{category_of_path, get_category};
use crate::history::{deletion_stamp, deletion_views, Stamp};
use crate::index::{records_of, under, IndexEntry, MetadataStore};
use crate::paths::{file_name, file_name_of, folder_form, folder_form_of};
use crate::records::{
    DeletedEntry, DeletedEntryView, FileMeta, FileMetaView, SnapshotInfo, SnapshotInfoView,
    VaultError,
};
use crate::sorted::{lemma_filter_source, lemma_filter_take_none, lemma_filter_take_step};
use crate::vault::Vault;
use vstd::prelude::*;

verus! {

/// A regular file that a walk found and could read: where it is, what the
/// file system says of it, and the hash of its content.
#[derive(Debug, Clone, PartialEq, Eq)]
pub struct WalkedFile {
    pub path: String,
    pub size: u64,
    pub modified: String,
    pub hash: String,
}

/// What a `WalkedFile` holds, as mathematical values.
pub struct WalkedFileView {
    pub path: Seq<char>,
    pub size: u64,
    pub modified: Seq<char>,
    pub hash: Seq<char>,
}

impl View for WalkedFile {
    type V = WalkedFileView;

    open spec fn view(&self) -> WalkedFileView {
        WalkedFileView {
            path: self.path@,
            size: self.size,
            modified: self.modified@,
            hash: self.hash@,
        }
    }
}

/// A record that the index held under the scanned folder before the walk,
/// and whether its path is on disk after the walk.
#[derive(Debug, Clone, PartialEq, Eq)]
pub struct PreviousFile {
    pub hash: String,
    pub meta: FileMeta,
    pub on_disk: bool,
}

/// What a `PreviousFile` holds, as mathematical values.
pub struct PreviousFileView {
    pub hash: Seq<char>,
    pub meta: FileMetaView,
    pub on_disk: bool,
}

impl View for PreviousFile {
    type V = PreviousFileView;

    open spec fn view(&self) -> PreviousFileView {
        PreviousFileView { hash: self.hash@, meta: self.meta@, on_disk: self.on_disk }
    }
}

/// What a scan did: how many files it indexed, the deletion events it
/// logged, and the snapshot it registered.
#[derive(Debug, Clone, PartialEq, Eq)]
pub struct ScanReport {
    pub indexed: usize,
    pub deletions: Vec<DeletedEntry>,
    pub snapshot: SnapshotInfo,
}

/// The views of the walked files, in their order.
pub open spec fn walked_views(v: Seq<WalkedFile>) -> Seq<WalkedFileView> {
    Seq::new(v.len(), |i: int| v[i]@)
}

/// The views of the previous records, in their order.
pub open spec fn previous_views(v: Seq<PreviousFile>) -> Seq<PreviousFileView> {
    Seq::new(v.len(), |i: int| v[i]@)
}

/// The record that the index keeps of a walked file.
pub open spec fn meta_of(w: WalkedFileView) -> FileMetaView {
    FileMetaView {
        path: w.path,
        size: w.size,
        modified: w.modified,
        category: category_of_path(w.path),
    }
}

/// The index after the walked files were put into it one by one: a later
/// file takes the place of an earlier one with the same content.
pub open spec fn after_walk(index: Map<Seq<char>, FileMetaView>, walked: Seq<WalkedFileView>) -> Map<
    Seq<char>,
    FileMetaView,
>
    decreases walked.len(),
{
    if walked.len() == 0 {
        index
    } else {
        after_walk(index, walked.drop_last()).insert(walked.last().hash, meta_of(walked.last()))
    }
}

/// The walk found a file with the content hash `hash`.
pub open spec fn seen(walked: Seq<WalkedFileView>, hash: Seq<char>) -> bool {
    exists|i: int| 0 <= i < walked.len() && #[trigger] walked[i].hash == hash
}

/// The test "the record is gone": the walk found no file with its content,
/// and its path is not on disk.
pub open spec fn vanished(walked: Seq<WalkedFileView>) -> spec_fn(PreviousFileView) -> bool {
    |p: PreviousFileView| !p.on_disk && !seen(walked, p.hash)
}

/// The deletion event for a record found gone by the scan `snapshot_name`
/// of the time `timestamp`.
pub open spec fn event_of(timestamp: u64, snapshot_name: Seq<char>) -> spec_fn(
    PreviousFileView,
) -> DeletedEntryView {
    |p: PreviousFileView|
        DeletedEntryView {
            hash: p.hash,
            path: p.meta.path,
            name: file_name_of(p.meta.path),
            size: p.meta.size,
            category: p.meta.category,
            deleted_at: timestamp,
            snapshot_name,
        }
}

/// The deletion events of a scan: one for each previous record that is
/// gone, in the order of the previous records.
pub open spec fn scan_deletions(
    previous: Seq<PreviousFileView>,
    walked: Seq<WalkedFileView>,
    timestamp: u64,
    snapshot_name: Seq<char>,
) -> Seq<DeletedEntryView> {
    previous.filter(vanished(walked)).map_values(event_of(timestamp, snapshot_name))
}

/// The history after the events were logged one by one.
pub open spec fn logged(history: Map<Stamp, DeletedEntryView>, events: Seq<DeletedEntryView>) -> Map<
    Stamp,
    DeletedEntryView,
>
    decreases events.len(),
{
    if events.len() == 0 {
        history
    } else {
        logged(history, events.drop_last()).insert(deletion_stamp(events.last()), events.last())
    }
}

/// The index without the records of the events, taken out one by one.
pub open spec fn dropped(index: Map<Seq<char>, FileMetaView>, events: Seq<DeletedEntryView>) -> Map<
    Seq<char>,
    FileMetaView,
>
    decreases events.len(),
{
    if events.len() == 0 {
        index
    } else {
        dropped(index, events.drop_last()).remove(events.last().hash)
    }
}

/// The snapshot that a scan registers.
pub open spec fn snapshot_of(
    folder_path: Seq<char>,
    snapshot_name: Seq<char>,
    timestamp: u64,
    indexed: nat,
) -> SnapshotInfoView {
    SnapshotInfoView { name: snapshot_name, timestamp, file_count: indexed, folder_path }
}

/// Before the walk: the records that the index holds under `folder_path`.
pub fn begin_scan(index: &MetadataStore, folder_path: &str) -> (previous: Vec<IndexEntry>)
    ensures
        records_of(previous@) == index.records().filter(under(folder_form(folder_path@))),
{
    let norm = folder_form_of(folder_path);
    index.scan_prefix_by_path(norm.as_str())
}

/// Puts a walked file into the index under its content hash.
pub fn index_file(index: &mut MetadataStore, file: &WalkedFile) -> (hash: String)
    requires
        old(index).wf(),
    ensures
        final(index).wf(),
        final(index)@ == old(index)@.insert(file@.hash, meta_of(file@)),
        hash@ == file@.hash,
{
    let meta = FileMeta {
        path: file.path.clone(),
        size: file.size,
        modified: file.modified.clone(),
        category: get_category(file.path.as_str()),
    };
    index.put(file.hash.as_str(), meta);
    file.hash.clone()
}

/// After the walk: indexes the walked files, logs and drops the previous
/// records that are gone, and registers the snapshot. A scan of a folder
/// that is not on disk fails and changes nothing.
pub fn complete_scan(
    vault: &mut Vault,
    folder_path: &str,
    snapshot_name: &str,
    timestamp: u64,
    root_exists: bool,
    walked: &Vec<WalkedFile>,
    previous: &Vec<PreviousFile>,
) -> (done: Result<ScanReport, VaultError>)
    requires
        old(vault).wf(),
    ensures
        final(vault).wf(),
        done is Ok <==> root_exists,
        done is Err ==> done->Err_0 == VaultError::RootMissing && *final(vault) == *old(vault),
        done is Ok ==> ({
            let report = done->Ok_0;
            &&& deletion_views(report.deletions@) == scan_deletions(
                previous_views(previous@),
                walked_views(walked@),
                timestamp,
                snapshot_name@,
            )
            &&& final(vault).index@ == dropped(
                after_walk(old(vault).index@, walked_views(walked@)),
                deletion_views(report.deletions@),
            )
            &&& final(vault).history@ == logged(
                old(vault).history@,
                deletion_views(report.deletions@),
            )
            &&& final(vault).snapshots@ == old(vault).snapshots@.insert(
                (timestamp, snapshot_name@),
                report.snapshot@,
            )
            &&& report.indexed == walked.len()
            &&& report.snapshot@ == snapshot_of(
                folder_path@,
                snapshot_name@,
                timestamp,
                walked.len() as nat,
            )
        }),
{
    if !root_exists {
        return Err(VaultError::RootMissing);
    }
    let ghost w = walked_views(walked@);
    let ghost pv = previous_views(previous@);
    let ghost index_before = vault.index@;
    let ghost history_before = vault.history@;
    let mut scanned = MetadataStore::new();
    let mut i: usize = 0;
    while i < walked.len()
        invariant
            i <= walked.len(),
            w == walked_views(walked@),
            vault.wf(),
            scanned.wf(),
            vault.history@ == history_before,
            vault.snapshots == old(vault).snapshots,
            vault.index@ == after_walk(index_before, w.take(i as int)),
            scanned@ == after_walk(Map::empty(), w.take(i as int)),
        decreases walked.len() - i,
    {
        assert(w.take(i + 1).drop_last() =~= w.take(i as int));
        assert(w.take(i + 1).last() == walked@[i as int]@);
        index_file(&mut vault.index, &walked[i]);
        index_file(&mut scanned, &walked[i]);
        i += 1;
    }
    assert(w.take(walked.len() as int) =~= w);
    let ghost walked_index = vault.index@;
    let ghost gone = vanished(w);
    let ghost make = event_of(timestamp, snapshot_name@);
    let mut deletions: Vec<DeletedEntry> = Vec::new();
    let mut k: usize = 0;
    proof {
        lemma_filter_take_none(pv, gone);
        assert(deletion_views(deletions@) =~= pv.take(0).filter(gone).map_values(make));
    }
    while k < previous.len()
        invariant
            k <= previous.len(),
            pv == previous_views(previous@),
            w == walked_views(walked@),
            gone == vanished(w),
            make == event_of(timestamp, snapshot_name@),
            vault.wf(),
            scanned.wf(),
            scanned@ == after_walk(Map::empty(), w),
            vault.snapshots == old(vault).snapshots,
            deletion_views(deletions@) == pv.take(k as int).filter(gone).map_values(make),
            vault.index@ == dropped(walked_index, deletion_views(deletions@)),
            vault.history@ == logged(history_before, deletion_views(deletions@)),
        decreases previous.len() - k,
    {
        let p = &previous[k];
        proof {
            lemma_filter_take_step(pv, gone, k as int);
            lemma_after_walk_holds(Map::empty(), w, p.hash@);
            assert(pv[k as int] == p@);
        }
        if !p.on_disk && !scanned.contains(p.hash.as_str()) {
            let event = DeletedEntry {
                hash: p.hash.clone(),
                path: p.meta.path.clone(),
                name: file_name(p.meta.path.as_str()),
                size: p.meta.size,
                category: p.meta.category.clone(),
                deleted_at: timestamp,
                snapshot_name: snapshot_name.to_owned(),
            };
            assert(event@ =~= make(pv[k as int]));
            let ghost before = deletions@;
            vault.history.append(event.duplicate());
            vault.index.remove(p.hash.as_str());
            deletions.push(event);
            proof {
                let kept = pv.take(k as int).filter(gone);
                assert(kept.push(pv[k as int]).map_values(make) =~= kept.map_values(make).push(
                    make(pv[k as int]),
                ));
                assert(deletion_views(deletions@) =~= deletion_views(before).push(
                    make(pv[k as int]),
                ));
                assert(deletion_views(deletions@).drop_last() =~= deletion_views(before));
            }
        }
        k += 1;
    }
    assert(pv.take(previous.len() as int) =~= pv);
    let snapshot = SnapshotInfo {
        name: snapshot_name.to_owned(),
        timestamp,
        file_count: walked.len(),
        folder_path: folder_path.to_owned(),
    };
    vault.snapshots.append(snapshot.duplicate());
    Ok(ScanReport { indexed: walked.len(), deletions, snapshot })
}


/// Two files of one content leave one record: that of the file put last.
pub proof fn lemma_same_content_one_record(
    index: Map<Seq<char>, FileMetaView>,
    first: WalkedFileView,
    second: WalkedFileView,
)
    requires
        first.hash == second.hash,
    ensures
        after_walk(index, seq![first, second]) == index.insert(second.hash, meta_of(second)),
        after_walk(index, seq![first, second])[first.hash].path == second.path,
{
    let both = seq![first, second];
    assert(both.drop_last() =~= seq![first]);
    assert(seq![first].drop_last() =~= Seq::<WalkedFileView>::empty());
    reveal_with_fuel(after_walk, 3);
    assert(after_walk(index, both) =~= index.insert(second.hash, meta_of(second)));
}

/// After the walk the index holds what it held before and what the walk found.
pub proof fn lemma_after_walk_holds(
    index: Map<Seq<char>, FileMetaView>,
    walked: Seq<WalkedFileView>,
    hash: Seq<char>,
)
    ensures
        after_walk(index, walked).dom().contains(hash) <==> index.dom().contains(hash) || seen(
            walked,
            hash,
        ),
        !seen(walked, hash) && index.dom().contains(hash) ==> after_walk(index, walked)[hash]
            == index[hash],
    decreases walked.len(),
{
    if walked.len() > 0 {
        let rest = walked.drop_last();
        lemma_after_walk_holds(index, rest, hash);
        if seen(rest, hash) {
            let i = choose|i: int| 0 <= i < rest.len() && #[trigger] rest[i].hash == hash;
            assert(walked[i].hash == hash);
        }
        if seen(walked, hash) {
            let i = choose|i: int| 0 <= i < walked.len() && #[trigger] walked[i].hash == hash;
            if i < rest.len() {
                assert(rest[i].hash == hash);
            }
        }
        if walked.last().hash == hash {
            assert(walked[walked.len() - 1].hash == hash);
        }
    }
}

/// Some event is that of the content hash `hash`.
pub open spec fn has_event(events: Seq<DeletedEntryView>, hash: Seq<char>) -> bool {
    exists|k: int| 0 <= k < events.len() && #[trigger] events[k].hash == hash
}

/// Dropping the records of the events takes out exactly the records under
/// their hashes, and leaves the others as they were.
pub proof fn lemma_dropped_holds(
    index: Map<Seq<char>, FileMetaView>,
    events: Seq<DeletedEntryView>,
    hash: Seq<char>,
)
    ensures
        dropped(index, events).dom().contains(hash) <==> index.dom().contains(hash) && !has_event(
            events,
            hash,
        ),
        dropped(index, events).dom().contains(hash) ==> dropped(index, events)[hash]
            == index[hash],
    decreases events.len(),
{
    if events.len() > 0 {
        let rest = events.drop_last();
        lemma_dropped_holds(index, rest, hash);
        if has_event(rest, hash) {
            let k = choose|k: int| 0 <= k < rest.len() && #[trigger] rest[k].hash == hash;
            assert(events[k].hash == hash);
        }
        if has_event(events, hash) {
            let k = choose|k: int| 0 <= k < events.len() && #[trigger] events[k].hash == hash;
            if k < rest.len() {
                assert(rest[k].hash == hash);
            }
        }
        if events.last().hash == hash {
            assert(events[events.len() - 1].hash == hash);
        }
    }
}

/// What a scan does to the records that the index held under the scanned
/// folder, no two of them under one hash: one event is logged for each that
/// is gone, tagged with the scan's name and time; exactly those records
/// leave the index; a record that the walk found again is the one the walk
/// put, and any other stays as it was.
pub proof fn lemma_scan_drops_what_is_gone(
    index: Map<Seq<char>, FileMetaView>,
    previous: Seq<PreviousFileView>,
    walked: Seq<WalkedFileView>,
    timestamp: u64,
    snapshot_name: Seq<char>,
    i: int,
)
    requires
        0 <= i < previous.len(),
        forall|a: int| 0 <= a < previous.len() ==> index.dom().contains(#[trigger] previous[a].hash),
        forall|a: int, b: int|
            0 <= a < b < previous.len() ==> (#[trigger] previous[a]).hash != (
            #[trigger] previous[b]).hash,
    ensures
        ({
            let events = scan_deletions(previous, walked, timestamp, snapshot_name);
            let after = dropped(after_walk(index, walked), events);
            &&& events.len() == previous.filter(vanished(walked)).len()
            &&& forall|k: int|
                0 <= k < events.len() ==> (#[trigger] events[k]).snapshot_name == snapshot_name
                    && events[k].deleted_at == timestamp
            &&& vanished(walked)(previous[i]) <==> has_event(events, previous[i].hash)
            &&& vanished(walked)(previous[i]) <==> !after.dom().contains(previous[i].hash)
            &&& seen(walked, previous[i].hash) ==> after[previous[i].hash] == after_walk(
                index,
                walked,
            )[previous[i].hash]
            &&& !seen(walked, previous[i].hash) && previous[i].on_disk ==> after[previous[i].hash]
                == index[previous[i].hash]
        }),
{
    let gone = vanished(walked);
    let make = event_of(timestamp, snapshot_name);
    let kept = previous.filter(gone);
    let events = scan_deletions(previous, walked, timestamp, snapshot_name);
    let h = previous[i].hash;
    let mid = after_walk(index, walked);
    lemma_after_walk_holds(index, walked, h);
    lemma_dropped_holds(mid, events, h);
    if gone(previous[i]) {
        previous.lemma_filter_contains(gone, i);
        let k = choose|k: int| 0 <= k < kept.len() && kept[k] == previous[i];
        assert(events[k].hash == h);
    }
    if has_event(events, h) {
        let k = choose|k: int| 0 <= k < events.len() && #[trigger] events[k].hash == h;
        previous.lemma_filter_pred(gone, k);
        let j = lemma_filter_source(previous, gone, k);
        assert(previous[j].hash == h);
        if j < i {
            assert(previous[j].hash != previous[i].hash);
        } else if i < j {
            assert(previous[i].hash != previous[j].hash);
        }
    }
}

} // verus!
