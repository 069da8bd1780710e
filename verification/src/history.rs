//! The deletion history and the snapshot registry: two logs that list
//! their entries by time, most recent first.

use crate::records::{DeletedEntry, DeletedEntryView, SnapshotInfo, SnapshotInfoView};
use crate::sorted::{
    as_map, ascending, find_place, has_key, holds_at, is_place, is_strict_order, keyed,
    lemma_insert, lemma_map_at, lemma_map_len, lemma_place_decides, lemma_remove,
    lemma_same_keys, lemma_update, Probe,
};
use crate::text::{
    lemma_precedes_irreflexive, lemma_precedes_total, lemma_precedes_transitive, precedes,
    str_precedes,
};
use vstd::prelude::*;

verus! {

/// What names a log entry: its time in seconds and a text (the content hash
/// of a deletion, the name of a snapshot).
pub type Stamp = (u64, Seq<char>);

/// The order of a log: later times first; at one time, in the order of the texts.
pub open spec fn stamp_order() -> spec_fn(Stamp, Stamp) -> bool {
    |a: Stamp, b: Stamp| a.0 > b.0 || (a.0 == b.0 && precedes(a.1, b.1))
}

/// The order of a log is a strict total order.
pub proof fn lemma_stamp_order_strict()
    ensures
        is_strict_order(stamp_order()),
{
    let lt = stamp_order();
    assert forall|a: Stamp| !#[trigger] lt(a, a) by {
        lemma_precedes_irreflexive(a.1);
    }
    assert forall|a: Stamp, b: Stamp, c: Stamp| #[trigger] lt(a, b) && #[trigger] lt(
        b,
        c,
    ) implies lt(a, c) by {
        if a.0 == b.0 && b.0 == c.0 {
            lemma_precedes_transitive(a.1, b.1, c.1);
        }
    }
    assert forall|a: Stamp, b: Stamp| a == b || #[trigger] lt(a, b) || lt(b, a) by {
        lemma_precedes_total(a.1, b.1);
    }
}

/// Tells whether the stamp `(at, text)` comes before `(other_at, other_text)`.
fn stamp_before(at: u64, text: &str, other_at: u64, other_text: &str) -> (r: bool)
    ensures
        r == stamp_order()((at, text@), (other_at, other_text@)),
{
    at > other_at || (at == other_at && str_precedes(text, other_text))
}

/// An entry of a log: it has a view, and its view has a stamp.
pub trait Stamped: View + Sized {
    /// The stamp that names the entry with the view `v`.
    spec fn stamp_of(v: Self::V) -> Stamp;

    /// The time of the entry's stamp.
    fn time(&self) -> (t: u64)
        ensures
            t == Self::stamp_of(self@).0,
    ;

    /// The text of the entry's stamp.
    fn text(&self) -> (s: &str)
        ensures
            s@ == Self::stamp_of(self@).1,
    ;

    /// A copy of the entry.
    fn copy(&self) -> (c: Self)
        ensures
            c@ == self@,
    ;
}

/// A stamp to look an entry of a log up by.
pub struct StampProbe<'a> {
    pub at: u64,
    pub text: &'a str,
}

impl<'a, T: Stamped> Probe<T> for StampProbe<'a> {
    type Key = Stamp;

    open spec fn key(&self) -> Stamp {
        (self.at, self.text@)
    }

    open spec fn key_of(entry: T) -> Stamp {
        T::stamp_of(entry@)
    }

    open spec fn order() -> spec_fn(Stamp, Stamp) -> bool {
        stamp_order()
    }

    proof fn lemma_order() {
        lemma_stamp_order_strict();
    }

    fn follows(&self, entry: &T) -> (r: bool) {
        stamp_before(entry.time(), entry.text(), self.at, self.text)
    }

    fn precedes(&self, entry: &T) -> (r: bool) {
        stamp_before(self.at, self.text, entry.time(), entry.text())
    }
}

/// The records that the entries stand for, in their order: each view under
/// its stamp.
pub open spec fn log_records<T: Stamped>(v: Seq<T>) -> Seq<(Stamp, T::V)> {
    Seq::new(v.len(), |i: int| (T::stamp_of(v[i]@), v[i]@))
}

/// A log of stamped entries, kept in the order of their stamps: most
/// recent first. One stamp names one entry.
pub struct Log<T: Stamped> {
    entries: Vec<T>,
}

impl<T: Stamped> View for Log<T> {
    type V = Map<Stamp, T::V>;

    /// The log as a map from stamp to entry.
    open spec fn view(&self) -> Map<Stamp, T::V> {
        as_map(self.records())
    }
}

impl<T: Stamped> Log<T> {
    /// The entries in the order in which the log lists them.
    pub closed spec fn records(&self) -> Seq<(Stamp, T::V)> {
        log_records(self.entries@)
    }

    /// The log is well formed: its stamps ascend strictly in the order of the log.
    pub open spec fn wf(&self) -> bool {
        ascending(self.records(), stamp_order())
    }

    /// An empty log.
    pub fn new() -> (log: Log<T>)
        ensures
            log.wf(),
            log.records() == Seq::<(Stamp, T::V)>::empty(),
            log@ == Map::<Stamp, T::V>::empty(),
    {
        let log = Log { entries: Vec::new() };
        assert(log.records() =~= Seq::<(Stamp, T::V)>::empty());
        assert(log@ =~= Map::<Stamp, T::V>::empty());
        log
    }

    /// The number of entries.
    pub fn len(&self) -> (n: usize)
        requires
            self.wf(),
        ensures
            n == self.records().len(),
            n == self@.dom().len(),
    {
        proof {
            lemma_stamp_order_strict();
            lemma_map_len(self.records(), stamp_order());
        }
        self.entries.len()
    }

    /// Finds the place of the stamp `(at, text)` among the entries.
    fn place(&self, at: u64, text: &str) -> (p: usize)
        requires
            self.wf(),
        ensures
            is_place(self.records(), stamp_order(), (at, text@), p as int),
            p <= self.entries.len(),
    {
        let probe = StampProbe { at, text };
        proof {
            lemma_same_keys(
                self.records(),
                keyed::<T, StampProbe>(self.entries@),
                stamp_order(),
                (at, text@),
                0,
            );
        }
        let p = find_place(&self.entries, &probe);
        proof {
            lemma_same_keys(
                self.records(),
                keyed::<T, StampProbe>(self.entries@),
                stamp_order(),
                (at, text@),
                p as int,
            );
        }
        p
    }

    /// Tells whether the entry at the place `p` of the stamp carries that stamp.
    fn found(&self, at: u64, text: &str, p: usize) -> (yes: bool)
        requires
            self.wf(),
            is_place(self.records(), stamp_order(), (at, text@), p as int),
        ensures
            yes == self@.dom().contains((at, text@)),
            yes == has_key(self.records(), (at, text@)),
            yes ==> p < self.entries.len() && self.records()[p as int].0 == (at, text@),
    {
        let probe = StampProbe { at, text };
        proof {
            lemma_stamp_order_strict();
            lemma_same_keys(
                self.records(),
                keyed::<T, StampProbe>(self.entries@),
                stamp_order(),
                (at, text@),
                p as int,
            );
            lemma_place_decides(self.records(), stamp_order(), (at, text@), p as int);
        }
        holds_at(&self.entries, &probe, p)
    }

    /// Adds `entry` to the log under its stamp. An entry that carries the
    /// stamp of one already logged takes its place.
    pub fn append(&mut self, entry: T)
        requires
            old(self).wf(),
        ensures
            final(self).wf(),
            final(self)@ == old(self)@.insert(T::stamp_of(entry@), entry@),
    {
        let p = self.place(entry.time(), entry.text());
        let yes = self.found(entry.time(), entry.text(), p);
        let ghost r = self.records();
        let ghost k = T::stamp_of(entry@);
        let ghost v = entry@;
        proof {
            lemma_stamp_order_strict();
        }
        if yes {
            self.entries.set(p, entry);
            proof {
                lemma_update(r, stamp_order(), p as int, v);
                assert(self.records() =~= r.update(p as int, (r[p as int].0, v)));
            }
        } else {
            self.entries.insert(p, entry);
            proof {
                lemma_insert(r, stamp_order(), p as int, k, v);
                assert(self.records() =~= r.insert(p as int, (k, v)));
            }
        }
    }

    /// All entries, most recent first; entries of one time in the order of
    /// their texts.
    pub fn list(&self) -> (out: Vec<T>)
        requires
            self.wf(),
        ensures
            log_records(out@) == self.records(),
            forall|i: int, j: int|
                0 <= i < j < out.len() ==> T::stamp_of((#[trigger] out@[i])@).0 >= T::stamp_of(
                    (#[trigger] out@[j])@,
                ).0,
    {
        let mut out: Vec<T> = Vec::new();
        let mut i: usize = 0;
        while i < self.entries.len()
            invariant
                i <= self.entries.len(),
                out.len() == i,
                forall|k: int| 0 <= k < i ==> (#[trigger] out@[k])@ == self.entries@[k]@,
            decreases self.entries.len() - i,
        {
            out.push(self.entries[i].copy());
            i += 1;
        }
        assert(log_records(out@) =~= self.records());
        assert forall|i: int, j: int| 0 <= i < j < out.len() implies T::stamp_of(
            (#[trigger] out@[i])@,
        ).0 >= T::stamp_of((#[trigger] out@[j])@).0 by {
            assert(stamp_order()(self.records()[i].0, self.records()[j].0));
        }
        out
    }

    /// Takes the entry with the stamp `(at, text)` out of the log and
    /// returns it.
    fn take(&mut self, at: u64, text: &str) -> (taken: Option<T>)
        requires
            old(self).wf(),
        ensures
            final(self).wf(),
            final(self)@ == old(self)@.remove((at, text@)),
            taken is Some <==> old(self)@.dom().contains((at, text@)),
            taken is Some ==> taken->0@ == old(self)@[(at, text@)],
    {
        let p = self.place(at, text);
        let ghost r = self.records();
        if self.found(at, text, p) {
            proof {
                lemma_stamp_order_strict();
                lemma_map_at(r, stamp_order(), p as int);
                lemma_remove(r, stamp_order(), p as int);
            }
            let entry = self.entries.remove(p);
            assert(self.records() =~= r.remove(p as int));
            Some(entry)
        } else {
            assert(self@ =~= self@.remove((at, text@)));
            None
        }
    }

    /// Takes every entry out of the log.
    pub fn clear(&mut self)
        ensures
            final(self).wf(),
            final(self).records() == Seq::<(Stamp, T::V)>::empty(),
            final(self)@ == Map::<Stamp, T::V>::empty(),
    {
        self.entries.clear();
        assert(self.records() =~= Seq::<(Stamp, T::V)>::empty());
        assert(self@ =~= Map::<Stamp, T::V>::empty());
    }
}

/// The stamp of a deletion event: when the file left, and its content hash.
pub open spec fn deletion_stamp(e: DeletedEntryView) -> Stamp {
    (e.deleted_at, e.hash)
}

/// The views of the events, in their order.
pub open spec fn deletion_views(v: Seq<DeletedEntry>) -> Seq<DeletedEntryView> {
    Seq::new(v.len(), |i: int| v[i]@)
}

impl Stamped for DeletedEntry {
    open spec fn stamp_of(v: DeletedEntryView) -> Stamp {
        deletion_stamp(v)
    }

    fn time(&self) -> (t: u64) {
        self.deleted_at
    }

    fn text(&self) -> (s: &str) {
        self.hash.as_str()
    }

    fn copy(&self) -> (c: DeletedEntry) {
        self.duplicate()
    }
}

/// The log of files that left the index. Events are only added; one time
/// and one content hash name one event.
pub type DeletionHistory = Log<DeletedEntry>;

/// The stamp of a snapshot: when the scan ran, and its name.
pub open spec fn snapshot_stamp(s: SnapshotInfoView) -> Stamp {
    (s.timestamp, s.name)
}

impl Stamped for SnapshotInfo {
    open spec fn stamp_of(v: SnapshotInfoView) -> Stamp {
        snapshot_stamp(v)
    }

    fn time(&self) -> (t: u64) {
        self.timestamp
    }

    fn text(&self) -> (s: &str) {
        self.name.as_str()
    }

    fn copy(&self) -> (c: SnapshotInfo) {
        self.duplicate()
    }
}

/// The registry of completed scans. One time and one name stand for one snapshot.
pub type SnapshotRegistry = Log<SnapshotInfo>;

impl Log<SnapshotInfo> {
    /// Takes the snapshot named `name` of the time `timestamp` out of the
    /// registry and returns it. Other snapshots of that name stay.
    pub fn remove(&mut self, name: &str, timestamp: u64) -> (taken: Option<SnapshotInfo>)
        requires
            old(self).wf(),
        ensures
            final(self).wf(),
            final(self)@ == old(self)@.remove((timestamp, name@)),
            taken is Some <==> old(self)@.dom().contains((timestamp, name@)),
            taken is Some ==> taken->0@ == old(self)@[(timestamp, name@)],
    {
        self.take(timestamp, name)
    }
}

} // verus!
