//! The metadata store: one record for each content hash, kept in the order
//! of the hashes.

use crate::paths::{
    file_name, file_name_of, folder_form, folder_form_of, is_under, lies_under_form,
    matched_prefix, moved_path, rebase,
};
use crate::records::{
    FileMeta, FileMetaView, FileProperties, FilePropertiesView, FolderProperties,
    FolderPropertiesView, VaultError,
};
use crate::sorted::{
    as_map, ascending, find_place, has_key, holds_at, holds_key, is_place, keyed,
    lemma_same_keys, Probe, lemma_filter_ascending, lemma_filter_take_none,
    lemma_filter_take_step, lemma_insert, lemma_map_at, lemma_map_len, lemma_place_decides,
    lemma_remove, lemma_update,
};
use crate::text::{key_order, lemma_key_order_strict, same_text, str_precedes, texts};
use vstd::prelude::*;

verus! {

/// A content hash with the record kept under it.
#[derive(Debug, Clone, PartialEq, Eq)]
pub struct IndexEntry {
    pub hash: String,
    pub meta: FileMeta,
}

impl IndexEntry {
    /// A copy of this entry.
    pub fn duplicate(&self) -> (r: IndexEntry)
        ensures
            r == *self,
    {
        IndexEntry { hash: self.hash.clone(), meta: self.meta.duplicate() }
    }
}

/// A content hash to look an entry up by.
pub struct HashProbe<'a> {
    pub hash: &'a str,
}

impl<'a> Probe<IndexEntry> for HashProbe<'a> {
    type Key = Seq<char>;

    open spec fn key(&self) -> Seq<char> {
        self.hash@
    }

    open spec fn key_of(entry: IndexEntry) -> Seq<char> {
        entry.hash@
    }

    open spec fn order() -> spec_fn(Seq<char>, Seq<char>) -> bool {
        key_order()
    }

    proof fn lemma_order() {
        lemma_key_order_strict();
    }

    fn follows(&self, entry: &IndexEntry) -> (r: bool) {
        str_precedes(entry.hash.as_str(), self.hash)
    }

    fn precedes(&self, entry: &IndexEntry) -> (r: bool) {
        str_precedes(self.hash, entry.hash.as_str())
    }
}

/// A record as a pair of mathematical values: the hash and what is kept under it.
pub type Record = (Seq<char>, FileMetaView);

/// The record that an entry stands for.
pub open spec fn record_of(e: IndexEntry) -> Record {
    (e.hash@, e.meta@)
}

/// The records that the entries stand for, in their order.
pub open spec fn records_of(v: Seq<IndexEntry>) -> Seq<Record> {
    Seq::new(v.len(), |i: int| record_of(v[i]))
}

/// The test "the path of the record is the folder whose compared form is
/// `folder`, or lies below it".
pub open spec fn under(folder: Seq<char>) -> spec_fn(Record) -> bool {
    |r: Record| lies_under_form(r.1.path, folder)
}

/// The test "the path of the record is neither the folder whose compared
/// form is `folder` nor below it".
pub open spec fn not_under(folder: Seq<char>) -> spec_fn(Record) -> bool {
    |r: Record| !lies_under_form(r.1.path, folder)
}

/// The test "the record is that of an image".
pub open spec fn is_image() -> spec_fn(Record) -> bool {
    |r: Record| r.1.category == "image"@
}

/// The hash of a record.
pub open spec fn hash_of() -> spec_fn(Record) -> Seq<char> {
    |r: Record| r.0
}

/// The record with another path.
pub open spec fn with_path(r: Record, path: Seq<char>) -> Record {
    (r.0, FileMetaView { path, size: r.1.size, modified: r.1.modified, category: r.1.category })
}

/// What becomes of a record when `old_folder` becomes `new_folder`: a record
/// under the old folder gets its path under the new one, any other stays.
pub open spec fn rehomed(old_folder: Seq<char>, new_folder: Seq<char>) -> spec_fn(
    Record,
) -> Record {
    |r: Record|
        if lies_under_form(r.1.path, folder_form(old_folder)) {
            with_path(r, moved_path(r.1.path, old_folder, new_folder))
        } else {
            r
        }
}

/// Rehoming the records of a store keeps every hash, and changes the record
/// under a hash as it changes that record alone.
pub proof fn lemma_rehomed_map(r: Seq<Record>, old_folder: Seq<char>, new_folder: Seq<char>)
    requires
        ascending(r, key_order()),
    ensures
        ascending(r.map_values(rehomed(old_folder, new_folder)), key_order()),
        as_map(r.map_values(rehomed(old_folder, new_folder))).dom() == as_map(r).dom(),
        forall|hash: Seq<char>| #[trigger]
            as_map(r).dom().contains(hash) ==> as_map(
                r.map_values(rehomed(old_folder, new_folder)),
            )[hash] == rehomed(old_folder, new_folder)((hash, as_map(r)[hash])).1,
{
    let f = rehomed(old_folder, new_folder);
    let s = r.map_values(f);
    lemma_key_order_strict();
    assert forall|a: int, b: int| 0 <= a < b < s.len() implies key_order()(
        #[trigger] s[a].0,
        #[trigger] s[b].0,
    ) by {
        assert(key_order()(r[a].0, r[b].0));
    }
    assert forall|hash: Seq<char>| as_map(s).dom().contains(hash) <==> as_map(r).dom().contains(
        hash,
    ) by {
        if has_key(s, hash) {
            let i = choose|i: int| holds_key(s, hash, i);
            assert(holds_key(r, hash, i));
        }
        if has_key(r, hash) {
            let i = choose|i: int| holds_key(r, hash, i);
            assert(holds_key(s, hash, i));
        }
    }
    assert(as_map(s).dom() =~= as_map(r).dom());
    assert forall|hash: Seq<char>| #[trigger] as_map(r).dom().contains(hash) implies as_map(
        s,
    )[hash] == f((hash, as_map(r)[hash])).1 by {
        let i = choose|i: int| holds_key(r, hash, i);
        lemma_map_at(r, key_order(), i);
        assert(holds_key(s, hash, i));
        lemma_map_at(s, key_order(), i);
    }
}

/// The sizes of the records, added up.
pub open spec fn sum_sizes(r: Seq<Record>) -> nat
    decreases r.len(),
{
    if r.len() == 0 {
        0
    } else {
        sum_sizes(r.drop_last()) + r.last().1.size as nat
    }
}

/// The sizes of the records that `pred` keeps add up to no less than those
/// it keeps of the first `i`.
proof fn lemma_partial_sum(r: Seq<Record>, pred: spec_fn(Record) -> bool, i: int)
    requires
        0 <= i <= r.len(),
    ensures
        sum_sizes(r.take(i).filter(pred)) <= sum_sizes(r.filter(pred)),
    decreases r.len() - i,
{
    if i == r.len() {
        assert(r.take(i) =~= r);
    } else {
        lemma_filter_take_step(r, pred, i);
        let kept = r.take(i).filter(pred);
        assert(kept.push(r[i]).drop_last() =~= kept);
        lemma_partial_sum(r, pred, i + 1);
    }
}

/// The store of file records. Each content hash has one record at most, and
/// the records are kept in the order of their hashes.
pub struct MetadataStore {
    entries: Vec<IndexEntry>,
}

impl View for MetadataStore {
    type V = Map<Seq<char>, FileMetaView>;

    /// The store as a map from content hash to record.
    open spec fn view(&self) -> Map<Seq<char>, FileMetaView> {
        as_map(self.records())
    }
}

impl MetadataStore {
    /// The records of the store in the order in which it lists them.
    pub closed spec fn records(&self) -> Seq<Record> {
        records_of(self.entries@)
    }

    /// The store is well formed: its hashes ascend strictly, so none occurs twice.
    pub open spec fn wf(&self) -> bool {
        ascending(self.records(), key_order())
    }

    /// An empty store.
    pub fn new() -> (store: MetadataStore)
        ensures
            store.wf(),
            store.records() == Seq::<Record>::empty(),
            store@ == Map::<Seq<char>, FileMetaView>::empty(),
    {
        let store = MetadataStore { entries: Vec::new() };
        assert(store.records() =~= Seq::<Record>::empty());
        assert(store@ =~= Map::<Seq<char>, FileMetaView>::empty());
        store
    }

    /// The number of records.
    pub fn len(&self) -> (n: usize)
        requires
            self.wf(),
        ensures
            n == self.records().len(),
            n == self@.dom().len(),
    {
        proof {
            lemma_key_order_strict();
            lemma_map_len(self.records(), key_order());
        }
        self.entries.len()
    }

    /// Finds the place of `hash` among the entries.
    fn place(&self, hash: &str) -> (p: usize)
        requires
            self.wf(),
        ensures
            is_place(self.records(), key_order(), hash@, p as int),
            p <= self.entries.len(),
    {
        let probe = HashProbe { hash };
        proof {
            lemma_same_keys(
                self.records(),
                keyed::<IndexEntry, HashProbe>(self.entries@),
                key_order(),
                hash@,
                0,
            );
        }
        let p = find_place(&self.entries, &probe);
        proof {
            lemma_same_keys(
                self.records(),
                keyed::<IndexEntry, HashProbe>(self.entries@),
                key_order(),
                hash@,
                p as int,
            );
        }
        p
    }

    /// Tells whether the entry at the place `p` of `hash` is kept under `hash`.
    fn found(&self, hash: &str, p: usize) -> (yes: bool)
        requires
            self.wf(),
            is_place(self.records(), key_order(), hash@, p as int),
        ensures
            yes == self@.dom().contains(hash@),
            yes == has_key(self.records(), hash@),
            yes ==> p < self.entries.len() && self.records()[p as int].0 == hash@,
    {
        let probe = HashProbe { hash };
        proof {
            lemma_key_order_strict();
            lemma_same_keys(
                self.records(),
                keyed::<IndexEntry, HashProbe>(self.entries@),
                key_order(),
                hash@,
                p as int,
            );
            lemma_place_decides(self.records(), key_order(), hash@, p as int);
        }
        holds_at(&self.entries, &probe, p)
    }

    /// Keeps `meta` under `hash`, in place of what was kept there.
    pub fn put(&mut self, hash: &str, meta: FileMeta)
        requires
            old(self).wf(),
        ensures
            final(self).wf(),
            final(self)@ == old(self)@.insert(hash@, meta@),
    {
        let p = self.place(hash);
        let yes = self.found(hash, p);
        let ghost r = self.records();
        proof {
            lemma_key_order_strict();
        }
        if yes {
            let entry = IndexEntry { hash: hash.to_owned(), meta };
            self.entries.set(p, entry);
            proof {
                lemma_update(r, key_order(), p as int, meta@);
                assert(self.records() =~= r.update(p as int, (r[p as int].0, meta@)));
            }
        } else {
            let entry = IndexEntry { hash: hash.to_owned(), meta };
            self.entries.insert(p, entry);
            proof {
                lemma_insert(r, key_order(), p as int, hash@, meta@);
                assert(self.records() =~= r.insert(p as int, (hash@, meta@)));
            }
        }
    }

    /// Tells whether a record is kept under `hash`.
    pub fn contains(&self, hash: &str) -> (yes: bool)
        requires
            self.wf(),
        ensures
            yes == self@.dom().contains(hash@),
    {
        let p = self.place(hash);
        self.found(hash, p)
    }

    /// The record kept under `hash`, if there is one.
    pub fn get(&self, hash: &str) -> (found: Option<FileMeta>)
        requires
            self.wf(),
        ensures
            found is Some <==> self@.dom().contains(hash@),
            found is Some ==> found->0@ == self@[hash@],
    {
        let p = self.place(hash);
        if self.found(hash, p) {
            proof {
                lemma_key_order_strict();
                lemma_map_at(self.records(), key_order(), p as int);
            }
            Some(self.entries[p].meta.duplicate())
        } else {
            None
        }
    }

    /// Takes the record kept under `hash` out of the store and returns it.
    pub fn remove(&mut self, hash: &str) -> (taken: Option<FileMeta>)
        requires
            old(self).wf(),
        ensures
            final(self).wf(),
            final(self)@ == old(self)@.remove(hash@),
            taken is Some <==> old(self)@.dom().contains(hash@),
            taken is Some ==> taken->0@ == old(self)@[hash@],
    {
        let p = self.place(hash);
        let ghost r = self.records();
        if self.found(hash, p) {
            proof {
                lemma_key_order_strict();
                lemma_map_at(r, key_order(), p as int);
                lemma_remove(r, key_order(), p as int);
            }
            let entry = self.entries.remove(p);
            assert(self.records() =~= r.remove(p as int));
            Some(entry.meta)
        } else {
            assert(self@ =~= self@.remove(hash@));
            None
        }
    }

    /// Takes every record out of the store.
    pub fn clear(&mut self)
        ensures
            final(self).wf(),
            final(self).records() == Seq::<Record>::empty(),
            final(self)@ == Map::<Seq<char>, FileMetaView>::empty(),
    {
        self.entries.clear();
        assert(self.records() =~= Seq::<Record>::empty());
        assert(self@ =~= Map::<Seq<char>, FileMetaView>::empty());
    }

    /// All entries, in the order of their hashes.
    pub fn list(&self) -> (out: Vec<IndexEntry>)
        ensures
            records_of(out@) == self.records(),
    {
        let mut out: Vec<IndexEntry> = Vec::new();
        let mut i: usize = 0;
        while i < self.entries.len()
            invariant
                i <= self.entries.len(),
                out.len() == i,
                forall|k: int| 0 <= k < i ==> #[trigger] out@[k] == self.entries@[k],
            decreases self.entries.len() - i,
        {
            out.push(self.entries[i].duplicate());
            i += 1;
        }
        assert(records_of(out@) =~= self.records());
        out
    }

    /// The entries whose paths are the folder whose compared form is
    /// `normalized_prefix` or lie below it, in the order of their hashes.
    pub fn scan_prefix_by_path(&self, normalized_prefix: &str) -> (out: Vec<IndexEntry>)
        ensures
            records_of(out@) == self.records().filter(under(normalized_prefix@)),
    {
        let ghost r = self.records();
        let ghost pred = under(normalized_prefix@);
        let mut out: Vec<IndexEntry> = Vec::new();
        let mut i: usize = 0;
        proof {
            lemma_filter_take_none(r, pred);
            assert(records_of(out@) =~= r.take(0).filter(pred));
        }
        while i < self.entries.len()
            invariant
                i <= self.entries.len(),
                r == self.records(),
                pred == under(normalized_prefix@),
                records_of(out@) == r.take(i as int).filter(pred),
            decreases self.entries.len() - i,
        {
            proof {
                lemma_filter_take_step(r, pred, i as int);
            }
            if is_under(self.entries[i].meta.path.as_str(), normalized_prefix) {
                let ghost before = out@;
                out.push(self.entries[i].duplicate());
                assert(records_of(out@) =~= records_of(before).push(r[i as int]));
            }
            i += 1;
        }
        assert(r.take(self.entries.len() as int) =~= r);
        out
    }

    /// The entries of images, in the order of their hashes.
    pub fn image_candidates(&self) -> (out: Vec<IndexEntry>)
        ensures
            records_of(out@) == self.records().filter(is_image()),
    {
        let ghost r = self.records();
        let mut out: Vec<IndexEntry> = Vec::new();
        let mut i: usize = 0;
        proof {
            lemma_filter_take_none(r, is_image());
            assert(records_of(out@) =~= r.take(0).filter(is_image()));
        }
        while i < self.entries.len()
            invariant
                i <= self.entries.len(),
                r == self.records(),
                records_of(out@) == r.take(i as int).filter(is_image()),
            decreases self.entries.len() - i,
        {
            proof {
                lemma_filter_take_step(r, is_image(), i as int);
            }
            if same_text(self.entries[i].meta.category.as_str(), "image") {
                let ghost before = out@;
                out.push(self.entries[i].duplicate());
                assert(records_of(out@) =~= records_of(before).push(r[i as int]));
            }
            i += 1;
        }
        assert(r.take(self.entries.len() as int) =~= r);
        out
    }

    /// Gives the record kept under `hash` the path `new_path`.
    pub fn relocate(&mut self, hash: &str, new_path: &str) -> (done: Result<(), VaultError>)
        requires
            old(self).wf(),
        ensures
            final(self).wf(),
            done is Ok <==> old(self)@.dom().contains(hash@),
            done is Ok ==> final(self)@ == old(self)@.insert(
                hash@,
                with_path((hash@, old(self)@[hash@]), new_path@).1,
            ),
            done is Err ==> final(self)@ == old(self)@ && done == Err::<(), VaultError>(
                VaultError::NotFound,
            ),
    {
        let p = self.place(hash);
        let ghost r = self.records();
        if self.found(hash, p) {
            let kept = &self.entries[p];
            let entry = IndexEntry {
                hash: kept.hash.clone(),
                meta: FileMeta {
                    path: new_path.to_owned(),
                    size: kept.meta.size,
                    modified: kept.meta.modified.clone(),
                    category: kept.meta.category.clone(),
                },
            };
            let ghost v = entry.meta@;
            self.entries.set(p, entry);
            proof {
                lemma_key_order_strict();
                lemma_map_at(r, key_order(), p as int);
                lemma_update(r, key_order(), p as int, v);
                assert(self.records() =~= r.update(p as int, (r[p as int].0, v)));
            }
            Ok(())
        } else {
            Err(VaultError::NotFound)
        }
    }

    /// Follows a folder that was renamed or moved: every record under
    /// `old_folder` gets its path under `new_folder`, the rest of its path as
    /// it was; no other record changes. Returns the entries that changed.
    pub fn rewrite_prefix(&mut self, old_folder: &str, new_folder: &str) -> (changed: Vec<
        IndexEntry,
    >)
        requires
            old(self).wf(),
        ensures
            final(self).wf(),
            final(self).records() == old(self).records().map_values(
                rehomed(old_folder@, new_folder@),
            ),
            records_of(changed@) == old(self).records().filter(
                under(folder_form(old_folder@)),
            ).map_values(rehomed(old_folder@, new_folder@)),
            final(self)@.dom() == old(self)@.dom(),
            forall|hash: Seq<char>| #[trigger]
                old(self)@.dom().contains(hash) ==> final(self)@[hash] == rehomed(
                    old_folder@,
                    new_folder@,
                )((hash, old(self)@[hash])).1,
    {
        let old_form = folder_form_of(old_folder);
        let ghost r = self.records();
        let ghost pred = under(folder_form(old_folder@));
        let ghost f = rehomed(old_folder@, new_folder@);
        let mut changed: Vec<IndexEntry> = Vec::new();
        let mut i: usize = 0;
        let n = self.entries.len();
        proof {
            lemma_filter_take_none(r, pred);
            assert(records_of(changed@) =~= r.take(0).filter(pred).map_values(f));
        }
        while i < n
            invariant
                i <= n,
                n == self.entries.len(),
                n == r.len(),
                old_form@ == folder_form(old_folder@),
                pred == under(folder_form(old_folder@)),
                f == rehomed(old_folder@, new_folder@),
                forall|k: int| 0 <= k < i ==> record_of(#[trigger] self.entries@[k]) == f(r[k]),
                forall|k: int| i <= k < n ==> record_of(#[trigger] self.entries@[k]) == r[k],
                records_of(changed@) == r.take(i as int).filter(pred).map_values(f),
            decreases n - i,
        {
            proof {
                lemma_filter_take_step(r, pred, i as int);
            }
            if let Some(cut) = matched_prefix(
                self.entries[i].meta.path.as_str(),
                old_form.as_str(),
            ) {
                let kept = &self.entries[i];
                let path = rebase(kept.meta.path.as_str(), cut, new_folder);
                let entry = IndexEntry {
                    hash: kept.hash.clone(),
                    meta: FileMeta {
                        path,
                        size: kept.meta.size,
                        modified: kept.meta.modified.clone(),
                        category: kept.meta.category.clone(),
                    },
                };
                assert(record_of(entry) =~= f(r[i as int]));
                let ghost before = changed@;
                changed.push(entry.duplicate());
                self.entries.set(i, entry);
                proof {
                    let kept_before = r.take(i as int).filter(pred);
                    assert(kept_before.push(r[i as int]).map_values(f) =~= kept_before.map_values(
                        f,
                    ).push(f(r[i as int])));
                    assert(records_of(changed@) =~= records_of(before).push(f(r[i as int])));
                }
            }
            i += 1;
        }
        proof {
            assert(r.take(n as int) =~= r);
            assert(self.records() =~= r.map_values(f));
            assert forall|a: int, b: int| 0 <= a < b < self.records().len() implies key_order()(
                #[trigger] self.records()[a].0,
                #[trigger] self.records()[b].0,
            ) by {
                assert(key_order()(r[a].0, r[b].0));
            }
            lemma_rehomed_map(r, old_folder@, new_folder@);
        }
        changed
    }

    /// Takes every record under `folder` out of the store. Returns the hashes
    /// of the records taken out, in their order.
    pub fn remove_under(&mut self, folder: &str) -> (removed: Vec<String>)
        requires
            old(self).wf(),
        ensures
            final(self).wf(),
            final(self).records() == old(self).records().filter(not_under(folder_form(folder@))),
            texts(removed@) == old(self).records().filter(
                under(folder_form(folder@)),
            ).map_values(hash_of()),
    {
        let norm = folder_form_of(folder);
        let ghost r = self.records();
        let ghost gone = under(folder_form(folder@));
        let ghost stay = not_under(folder_form(folder@));
        let mut kept: Vec<IndexEntry> = Vec::new();
        let mut removed: Vec<String> = Vec::new();
        let mut i: usize = 0;
        proof {
            lemma_filter_take_none(r, gone);
            lemma_filter_take_none(r, stay);
            assert(records_of(kept@) =~= r.take(0).filter(stay));
            assert(texts(removed@) =~= r.take(0).filter(gone).map_values(
                hash_of(),
            ));
        }
        while i < self.entries.len()
            invariant
                i <= self.entries.len(),
                r == self.records(),
                norm@ == folder_form(folder@),
                gone == under(folder_form(folder@)),
                stay == not_under(folder_form(folder@)),
                records_of(kept@) == r.take(i as int).filter(stay),
                texts(removed@) == r.take(i as int).filter(gone).map_values(
                    hash_of(),
                ),
            decreases self.entries.len() - i,
        {
            proof {
                lemma_filter_take_step(r, gone, i as int);
                lemma_filter_take_step(r, stay, i as int);
            }
            if is_under(self.entries[i].meta.path.as_str(), norm.as_str()) {
                let ghost before = removed@;
                removed.push(self.entries[i].hash.clone());
                proof {
                    let gone_before = r.take(i as int).filter(gone);
                    assert(gone_before.push(r[i as int]).map_values(hash_of())
                        =~= gone_before.map_values(hash_of()).push(r[i as int].0));
                    assert(texts(removed@) =~= texts(
                        before,
                    ).push(r[i as int].0));
                }
            } else {
                let ghost before = kept@;
                kept.push(self.entries[i].duplicate());
                assert(records_of(kept@) =~= records_of(before).push(r[i as int]));
            }
            i += 1;
        }
        proof {
            assert(r.take(self.entries.len() as int) =~= r);
            lemma_filter_ascending(r, key_order(), stay);
        }
        self.entries = kept;
        removed
    }

    /// What is known of the file kept under `hash`. `exists_on_disk` is passed
    /// through: whether its path is there now.
    pub fn file_properties(&self, hash: &str, exists_on_disk: bool) -> (found: Result<
        FileProperties,
        VaultError,
    >)
        requires
            self.wf(),
        ensures
            found is Ok <==> self@.dom().contains(hash@),
            found is Ok ==> found->Ok_0@ == (FilePropertiesView {
                path: self@[hash@].path,
                name: file_name_of(self@[hash@].path),
                size: self@[hash@].size,
                hash: hash@,
                modified: self@[hash@].modified,
                category: self@[hash@].category,
                exists_on_disk,
            }),
            found is Err ==> found == Err::<FileProperties, VaultError>(VaultError::NotFound),
    {
        match self.get(hash) {
            Some(meta) => {
                let name = file_name(meta.path.as_str());
                Ok(
                    FileProperties {
                        path: meta.path,
                        name,
                        size: meta.size,
                        hash: hash.to_owned(),
                        modified: meta.modified,
                        category: meta.category,
                        exists_on_disk,
                    },
                )
            },
            None => Err(VaultError::NotFound),
        }
    }

    /// Counts the records under `folder_path` and adds up their sizes.
    /// `exists_on_disk` is passed through. Returns `None` exactly when the
    /// sizes add up to more than a `u64` holds.
    pub fn folder_properties(&self, folder_path: &str, exists_on_disk: bool) -> (found: Option<
        FolderProperties,
    >)
        ensures
            found is None <==> sum_sizes(
                self.records().filter(under(folder_form(folder_path@))),
            ) > u64::MAX,
            found is Some ==> found->0@ == (FolderPropertiesView {
                path: folder_path@,
                name: file_name_of(folder_path@),
                file_count: self.records().filter(under(folder_form(folder_path@))).len(),
                total_size: sum_sizes(self.records().filter(under(folder_form(folder_path@)))),
                exists_on_disk,
            }),
    {
        let norm = folder_form_of(folder_path);
        let name = file_name(folder_path);
        let ghost r = self.records();
        let ghost pred = under(folder_form(folder_path@));
        let mut file_count: usize = 0;
        let mut total_size: u64 = 0;
        let mut i: usize = 0;
        proof {
            lemma_filter_take_none(r, pred);
        }
        while i < self.entries.len()
            invariant
                i <= self.entries.len(),
                r == self.records(),
                norm@ == folder_form(folder_path@),
                pred == under(folder_form(folder_path@)),
                file_count == r.take(i as int).filter(pred).len(),
                file_count <= i,
                total_size == sum_sizes(r.take(i as int).filter(pred)),
            decreases self.entries.len() - i,
        {
            proof {
                lemma_filter_take_step(r, pred, i as int);
                let kept = r.take(i as int).filter(pred);
                assert(kept.push(r[i as int]).drop_last() =~= kept);
                lemma_partial_sum(r, pred, i + 1);
            }
            if is_under(self.entries[i].meta.path.as_str(), norm.as_str()) {
                file_count += 1;
                match total_size.checked_add(self.entries[i].meta.size) {
                    Some(t) => {
                        total_size = t;
                    },
                    None => {
                        return None;
                    },
                }
            }
            i += 1;
        }
        assert(r.take(self.entries.len() as int) =~= r);
        Some(
            FolderProperties {
                path: folder_path.to_owned(),
                name,
                file_count,
                total_size,
                exists_on_disk,
            },
        )
    }
}

} // verus!
