//! The integrity check: a file whose content no longer has the hash under
//! which it is indexed is reported.

use crate::sorted::{lemma_filter_take_none, lemma_filter_take_step};
use crate::hashing::content_hash;
use crate::text::same_text;
use vstd::prelude::*;

verus! {

/// An indexed file that was hashed again: the hash under which it is
/// indexed, its path, and the hash of what the path holds now.
#[derive(Debug, Clone, PartialEq, Eq)]
pub struct Rehashed {
    pub hash: String,
    pub path: String,
    pub current: String,
}

/// What a `Rehashed` holds, as mathematical values.
pub struct RehashedView {
    pub hash: Seq<char>,
    pub path: Seq<char>,
    pub current: Seq<char>,
}

impl View for Rehashed {
    type V = RehashedView;

    open spec fn view(&self) -> RehashedView {
        RehashedView { hash: self.hash@, path: self.path@, current: self.current@ }
    }
}

impl Rehashed {
    /// A copy of this entry.
    pub fn duplicate(&self) -> (r: Rehashed)
        ensures
            r == *self,
    {
        Rehashed {
            hash: self.hash.clone(),
            path: self.path.clone(),
            current: self.current.clone(),
        }
    }
}

/// The views of the entries, in their order.
pub open spec fn rehashed_views(v: Seq<Rehashed>) -> Seq<RehashedView> {
    Seq::new(v.len(), |i: int| v[i]@)
}

/// The test "the content changed": the hash of what the path holds now is
/// not the hash under which the file is indexed.
pub open spec fn changed() -> spec_fn(RehashedView) -> bool {
    |r: RehashedView| r.current != r.hash
}

/// The files whose content changed since they were indexed, in the order given.
pub fn find_corrupted(checked: &Vec<Rehashed>) -> (corrupted: Vec<Rehashed>)
    ensures
        rehashed_views(corrupted@) == rehashed_views(checked@).filter(changed()),
{
    let ghost all = rehashed_views(checked@);
    let mut corrupted: Vec<Rehashed> = Vec::new();
    let mut i: usize = 0;
    proof {
        lemma_filter_take_none(all, changed());
        assert(rehashed_views(corrupted@) =~= all.take(0).filter(changed()));
    }
    while i < checked.len()
        invariant
            i <= checked.len(),
            all == rehashed_views(checked@),
            rehashed_views(corrupted@) == all.take(i as int).filter(changed()),
        decreases checked.len() - i,
    {
        proof {
            lemma_filter_take_step(all, changed(), i as int);
        }
        let c = &checked[i];
        if !same_text(c.current.as_str(), c.hash.as_str()) {
            let ghost before = corrupted@;
            corrupted.push(c.duplicate());
            assert(rehashed_views(corrupted@) =~= rehashed_views(before).push(all[i as int]));
        }
        i += 1;
    }
    assert(all.take(checked.len() as int) =~= all);
    corrupted
}

/// A file is reported exactly when its content changed: one that hashes as
/// it was indexed is never among the corrupted, one that hashes otherwise
/// always is.
pub proof fn lemma_reported_iff_changed(checked: Seq<RehashedView>, i: int)
    requires
        0 <= i < checked.len(),
    ensures
        checked.filter(changed()).contains(checked[i]) <==> checked[i].current
            != checked[i].hash,
{
    let out = checked.filter(changed());
    if out.contains(checked[i]) {
        let k = choose|k: int| 0 <= k < out.len() && out[k] == checked[i];
        checked.lemma_filter_pred(changed(), k);
    }
    if checked[i].current != checked[i].hash {
        checked.lemma_filter_contains(changed(), i);
    }
}


/// A file that was indexed with bytes of one content hash and now holds
/// bytes of another is reported; a file that still holds bytes of the hash
/// under which it was indexed is not. Whether other bytes have another hash
/// is for the hash function to keep.
pub proof fn lemma_overwritten_file_is_reported(
    checked: Seq<RehashedView>,
    i: int,
    before: Seq<u8>,
    now: Seq<u8>,
)
    requires
        0 <= i < checked.len(),
        checked[i].hash == content_hash(before),
        checked[i].current == content_hash(now),
    ensures
        content_hash(now) != content_hash(before) ==> checked.filter(changed()).contains(
            checked[i],
        ),
        now == before ==> !checked.filter(changed()).contains(checked[i]),
{
    lemma_reported_iff_changed(checked, i);
}

} // verus!
