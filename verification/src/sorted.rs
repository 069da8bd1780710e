//! Records kept in the order of their keys, and the map they stand for.

use vstd::prelude::*;

verus! {

/// `lt` is a strict total order: nothing comes before itself, the order is
/// transitive, and of two different keys one comes first.
pub open spec fn is_strict_order<K>(lt: spec_fn(K, K) -> bool) -> bool {
    &&& forall|a: K| !#[trigger] lt(a, a)
    &&& forall|a: K, b: K, c: K| #[trigger] lt(a, b) && #[trigger] lt(b, c) ==> lt(a, c)
    &&& forall|a: K, b: K| a == b || #[trigger] lt(a, b) || lt(b, a)
}

/// The keys of `r` ascend strictly in the order `lt`.
pub open spec fn ascending<K, V>(r: Seq<(K, V)>, lt: spec_fn(K, K) -> bool) -> bool {
    forall|i: int, j: int| 0 <= i < j < r.len() ==> lt(#[trigger] r[i].0, #[trigger] r[j].0)
}

/// The record at position `i` of `r` has the key `k`.
pub open spec fn holds_key<K, V>(r: Seq<(K, V)>, k: K, i: int) -> bool {
    0 <= i < r.len() && r[i].0 == k
}

/// Some record of `r` has the key `k`.
pub open spec fn has_key<K, V>(r: Seq<(K, V)>, k: K) -> bool {
    exists|i: int| holds_key(r, k, i)
}

/// The map from the keys of `r` to the values recorded with them.
pub open spec fn as_map<K, V>(r: Seq<(K, V)>) -> Map<K, V> {
    Map::new(|k: K| has_key(r, k), |k: K| r[choose|i: int| holds_key(r, k, i)].1)
}

/// Position `p` is where the key `k` stands or would stand in `r`: the keys
/// before it come before `k`, those from it on do not.
pub open spec fn is_place<K, V>(r: Seq<(K, V)>, lt: spec_fn(K, K) -> bool, k: K, p: int) -> bool {
    &&& 0 <= p <= r.len()
    &&& forall|i: int| 0 <= i < p ==> lt(#[trigger] r[i].0, k)
    &&& forall|i: int| p <= i < r.len() ==> !lt(#[trigger] r[i].0, k)
}

/// In ascending records a key stands at one position at most.
pub proof fn lemma_key_once<K, V>(r: Seq<(K, V)>, lt: spec_fn(K, K) -> bool, k: K, i: int, j: int)
    requires
        is_strict_order(lt),
        ascending(r, lt),
        holds_key(r, k, i),
        holds_key(r, k, j),
    ensures
        i == j,
{
    if i < j {
        assert(lt(r[i].0, r[j].0));
    } else if j < i {
        assert(lt(r[j].0, r[i].0));
    }
}

/// The map of ascending records gives each key the value recorded with it.
pub proof fn lemma_map_at<K, V>(r: Seq<(K, V)>, lt: spec_fn(K, K) -> bool, i: int)
    requires
        is_strict_order(lt),
        ascending(r, lt),
        0 <= i < r.len(),
    ensures
        as_map(r).dom().contains(r[i].0),
        as_map(r)[r[i].0] == r[i].1,
{
    let k = r[i].0;
    assert(holds_key(r, k, i));
    let j = choose|j: int| holds_key(r, k, j);
    lemma_key_once(r, lt, k, i, j);
}

/// The key `k` is in `r` exactly when it stands at its place.
pub proof fn lemma_place_decides<K, V>(r: Seq<(K, V)>, lt: spec_fn(K, K) -> bool, k: K, p: int)
    requires
        is_strict_order(lt),
        ascending(r, lt),
        is_place(r, lt, k, p),
    ensures
        has_key(r, k) <==> (p < r.len() && r[p].0 == k),
        p < r.len() && r[p].0 != k ==> lt(k, r[p].0),
        p < r.len() && !lt(k, r[p].0) ==> r[p].0 == k,
        as_map(r).dom().contains(k) <==> has_key(r, k),
{
    if has_key(r, k) {
        let i = choose|i: int| holds_key(r, k, i);
        if i < p {
            assert(lt(r[i].0, k));
        } else if i > p {
            assert(lt(r[p].0, r[i].0));
            assert(!lt(r[p].0, k));
        }
    }
    if p < r.len() && r[p].0 == k {
        assert(holds_key(r, k, p));
    }
}

/// Putting a new key at its place keeps the records ascending and adds the
/// key to their map.
pub proof fn lemma_insert<K, V>(r: Seq<(K, V)>, lt: spec_fn(K, K) -> bool, p: int, k: K, v: V)
    requires
        is_strict_order(lt),
        ascending(r, lt),
        is_place(r, lt, k, p),
        !has_key(r, k),
    ensures
        ascending(r.insert(p, (k, v)), lt),
        as_map(r.insert(p, (k, v))) == as_map(r).insert(k, v),
{
    let s = r.insert(p, (k, v));
    assert forall|i: int| p <= i < r.len() implies lt(k, #[trigger] r[i].0) by {
        assert(!lt(r[i].0, k));
        assert(!holds_key(r, k, i));
    }
    assert forall|i: int, j: int| 0 <= i < j < s.len() implies lt(
        #[trigger] s[i].0,
        #[trigger] s[j].0,
    ) by {
        let a = if i < p {
            i
        } else {
            i - 1
        };
        let b = if j < p {
            j
        } else {
            j - 1
        };
        if i != p && j != p {
            assert(lt(r[a].0, r[b].0));
        } else if i == p {
            assert(lt(k, r[b].0));
        } else {
            assert(lt(r[a].0, k));
        }
    }
    assert forall|x: K| as_map(s).dom().contains(x) <==> as_map(r).insert(k, v).dom().contains(
        x,
    ) by {
        if has_key(s, x) {
            let i = choose|i: int| holds_key(s, x, i);
            if i < p {
                assert(holds_key(r, x, i));
            } else if i > p {
                assert(holds_key(r, x, i - 1));
            }
        }
        if has_key(r, x) {
            let i = choose|i: int| holds_key(r, x, i);
            if i < p {
                assert(holds_key(s, x, i));
            } else {
                assert(holds_key(s, x, i + 1));
            }
        }
        if x == k {
            assert(holds_key(s, x, p));
        }
    }
    assert forall|x: K| as_map(s).dom().contains(x) implies as_map(s)[x] == as_map(r).insert(
        k,
        v,
    )[x] by {
        let i = choose|i: int| holds_key(s, x, i);
        lemma_map_at(s, lt, i);
        if i < p {
            lemma_map_at(r, lt, i);
        } else if i > p {
            lemma_map_at(r, lt, i - 1);
        }
    }
    assert(as_map(s) =~= as_map(r).insert(k, v));
}

/// Giving the record at `p` a new value keeps the records ascending and
/// changes the value of its key in their map.
pub proof fn lemma_update<K, V>(r: Seq<(K, V)>, lt: spec_fn(K, K) -> bool, p: int, v: V)
    requires
        is_strict_order(lt),
        ascending(r, lt),
        0 <= p < r.len(),
    ensures
        ascending(r.update(p, (r[p].0, v)), lt),
        as_map(r.update(p, (r[p].0, v))) == as_map(r).insert(r[p].0, v),
{
    let k = r[p].0;
    let s = r.update(p, (k, v));
    assert forall|i: int, j: int| 0 <= i < j < s.len() implies lt(
        #[trigger] s[i].0,
        #[trigger] s[j].0,
    ) by {
        assert(lt(r[i].0, r[j].0));
    }
    assert forall|x: K| as_map(s).dom().contains(x) <==> as_map(r).insert(k, v).dom().contains(
        x,
    ) by {
        if has_key(s, x) {
            let i = choose|i: int| holds_key(s, x, i);
            assert(holds_key(r, x, i));
        }
        if has_key(r, x) {
            let i = choose|i: int| holds_key(r, x, i);
            assert(holds_key(s, x, i));
        }
        if x == k {
            assert(holds_key(s, x, p));
        }
    }
    assert forall|x: K| as_map(s).dom().contains(x) implies as_map(s)[x] == as_map(r).insert(
        k,
        v,
    )[x] by {
        let i = choose|i: int| holds_key(s, x, i);
        lemma_map_at(s, lt, i);
        lemma_map_at(r, lt, i);
    }
    assert(as_map(s) =~= as_map(r).insert(k, v));
}

/// Taking the record at `p` out keeps the records ascending and takes its
/// key out of their map.
pub proof fn lemma_remove<K, V>(r: Seq<(K, V)>, lt: spec_fn(K, K) -> bool, p: int)
    requires
        is_strict_order(lt),
        ascending(r, lt),
        0 <= p < r.len(),
    ensures
        ascending(r.remove(p), lt),
        as_map(r.remove(p)) == as_map(r).remove(r[p].0),
{
    let k = r[p].0;
    let s = r.remove(p);
    assert forall|i: int, j: int| 0 <= i < j < s.len() implies lt(
        #[trigger] s[i].0,
        #[trigger] s[j].0,
    ) by {
        let a = if i < p {
            i
        } else {
            i + 1
        };
        let b = if j < p {
            j
        } else {
            j + 1
        };
        assert(lt(r[a].0, r[b].0));
    }
    assert forall|x: K| as_map(s).dom().contains(x) <==> as_map(r).remove(k).dom().contains(
        x,
    ) by {
        if has_key(s, x) {
            let i = choose|i: int| holds_key(s, x, i);
            let a = if i < p {
                i
            } else {
                i + 1
            };
            assert(holds_key(r, x, a));
            if x == k {
                lemma_key_once(r, lt, k, a, p);
            }
        }
        if has_key(r, x) && x != k {
            let i = choose|i: int| holds_key(r, x, i);
            if i < p {
                assert(holds_key(s, x, i));
            } else {
                assert(holds_key(s, x, i - 1));
            }
        }
    }
    assert forall|x: K| as_map(s).dom().contains(x) implies as_map(s)[x] == as_map(r).remove(
        k,
    )[x] by {
        let i = choose|i: int| holds_key(s, x, i);
        lemma_map_at(s, lt, i);
        if i < p {
            lemma_map_at(r, lt, i);
        } else {
            lemma_map_at(r, lt, i + 1);
        }
    }
    assert(as_map(s) =~= as_map(r).remove(k));
}

/// Ascending records hold as many records as their map has keys.
pub proof fn lemma_map_len<K, V>(r: Seq<(K, V)>, lt: spec_fn(K, K) -> bool)
    requires
        is_strict_order(lt),
        ascending(r, lt),
    ensures
        as_map(r).dom().finite(),
        as_map(r).dom().len() == r.len(),
    decreases r.len(),
{
    if r.len() == 0 {
        assert(as_map(r).dom() =~= Set::<K>::empty());
    } else {
        let p = r.len() - 1;
        lemma_remove(r, lt, p);
        lemma_map_len(r.remove(p), lt);
        lemma_map_at(r, lt, p);
        assert(as_map(r).dom() =~= as_map(r.remove(p)).dom().insert(r[p].0));
    }
}


/// Filtering one item more: what `pred` keeps of the first `i + 1` items is
/// what it keeps of the first `i`, with item `i` behind them if `pred` holds of it.
pub proof fn lemma_filter_take_step<A>(s: Seq<A>, pred: spec_fn(A) -> bool, i: int)
    requires
        0 <= i < s.len(),
    ensures
        s.take(i + 1).filter(pred) == if pred(s[i]) {
            s.take(i).filter(pred).push(s[i])
        } else {
            s.take(i).filter(pred)
        },
{
    assert(s.take(i + 1) =~= s.take(i).push(s[i]));
    s.take(i).lemma_filter_push(s[i], pred);
}

/// Nothing is kept of no items.
pub proof fn lemma_filter_take_none<A>(s: Seq<A>, pred: spec_fn(A) -> bool)
    ensures
        s.take(0).filter(pred) == Seq::<A>::empty(),
{
    reveal(Seq::filter);
    assert(s.take(0).filter(pred) =~= Seq::<A>::empty());
}

/// Every record that a filter keeps was among the records filtered, and at
/// least as far back as its place among the kept ones.
pub proof fn lemma_filter_source<A>(s: Seq<A>, pred: spec_fn(A) -> bool, i: int) -> (j: int)
    requires
        0 <= i < s.filter(pred).len(),
    ensures
        i <= j < s.len(),
        s[j] == s.filter(pred)[i],
        s.len() - j >= s.filter(pred).len() - i,
    decreases s.len(),
{
    reveal(Seq::filter);
    let rest = s.drop_last();
    if pred(s.last()) && i == s.filter(pred).len() - 1 {
        rest.lemma_filter_len(pred);
        s.len() - 1
    } else {
        lemma_filter_source(rest, pred, i)
    }
}

/// What a filter keeps of ascending records ascends.
pub proof fn lemma_filter_ascending<K, V>(
    r: Seq<(K, V)>,
    lt: spec_fn(K, K) -> bool,
    pred: spec_fn((K, V)) -> bool,
)
    requires
        ascending(r, lt),
    ensures
        ascending(r.filter(pred), lt),
    decreases r.len(),
{
    reveal(Seq::filter);
    if r.len() > 0 {
        let rest = r.drop_last();
        lemma_filter_ascending(rest, lt, pred);
        let kept = rest.filter(pred);
        if pred(r.last()) {
            let all = kept.push(r.last());
            assert forall|i: int, j: int| 0 <= i < j < all.len() implies lt(
                #[trigger] all[i].0,
                #[trigger] all[j].0,
            ) by {
                if j < kept.len() {
                    assert(lt(kept[i].0, kept[j].0));
                } else {
                    let a = lemma_filter_source(rest, pred, i);
                    assert(lt(r[a].0, r[r.len() - 1].0));
                }
            }
        }
    }
}


/// What entries of the type `T` are looked up by: the probe has a key, every
/// entry has one, the keys have a strict total order, and the probe can be
/// held against an entry.
pub trait Probe<T> {
    /// The keys by which entries are ordered.
    type Key;

    /// The key that is looked for.
    spec fn key(&self) -> Self::Key;

    /// The key of an entry.
    spec fn key_of(entry: T) -> Self::Key;

    /// The order of the keys.
    spec fn order() -> spec_fn(Self::Key, Self::Key) -> bool;

    /// The order of the keys is a strict total order.
    proof fn lemma_order()
        ensures
            is_strict_order(Self::order()),
    ;

    /// Tells whether the entry comes before the key that is looked for.
    fn follows(&self, entry: &T) -> (r: bool)
        ensures
            r == Self::order()(Self::key_of(*entry), self.key()),
    ;

    /// Tells whether the key that is looked for comes before the entry.
    fn precedes(&self, entry: &T) -> (r: bool)
        ensures
            r == Self::order()(self.key(), Self::key_of(*entry)),
    ;
}

/// The entries, each under its key.
pub open spec fn keyed<T, P: Probe<T>>(v: Seq<T>) -> Seq<(P::Key, T)> {
    Seq::new(v.len(), |i: int| (P::key_of(v[i]), v[i]))
}

/// Records with the same keys at the same positions ascend together, give
/// a key the same place, and hold the same keys.
pub proof fn lemma_same_keys<K, V, W>(
    a: Seq<(K, V)>,
    b: Seq<(K, W)>,
    lt: spec_fn(K, K) -> bool,
    k: K,
    p: int,
)
    requires
        a.len() == b.len(),
        forall|i: int| 0 <= i < a.len() ==> (#[trigger] a[i]).0 == b[i].0,
    ensures
        ascending(a, lt) <==> ascending(b, lt),
        is_place(a, lt, k, p) <==> is_place(b, lt, k, p),
        has_key(a, k) <==> has_key(b, k),
{
    if ascending(a, lt) {
        assert forall|i: int, j: int| 0 <= i < j < b.len() implies lt(
            #[trigger] b[i].0,
            #[trigger] b[j].0,
        ) by {
            assert(lt(a[i].0, a[j].0));
        }
    }
    if ascending(b, lt) {
        assert forall|i: int, j: int| 0 <= i < j < a.len() implies lt(
            #[trigger] a[i].0,
            #[trigger] a[j].0,
        ) by {
            assert(lt(b[i].0, b[j].0));
        }
    }
    if is_place(a, lt, k, p) {
        assert forall|i: int| 0 <= i < p implies lt(#[trigger] b[i].0, k) by {
            assert(lt(a[i].0, k));
        }
        assert forall|i: int| p <= i < b.len() implies !lt(#[trigger] b[i].0, k) by {
            assert(!lt(a[i].0, k));
        }
    }
    if is_place(b, lt, k, p) {
        assert forall|i: int| 0 <= i < p implies lt(#[trigger] a[i].0, k) by {
            assert(lt(b[i].0, k));
        }
        assert forall|i: int| p <= i < a.len() implies !lt(#[trigger] a[i].0, k) by {
            assert(!lt(b[i].0, k));
        }
    }
    if has_key(a, k) {
        let i = choose|i: int| holds_key(a, k, i);
        assert(holds_key(b, k, i));
    }
    if has_key(b, k) {
        let i = choose|i: int| holds_key(b, k, i);
        assert(holds_key(a, k, i));
    }
}

/// Finds by halving the place of the probe's key among entries that ascend.
pub fn find_place<T, P: Probe<T>>(entries: &Vec<T>, probe: &P) -> (p: usize)
    requires
        ascending(keyed::<T, P>(entries@), P::order()),
    ensures
        is_place(keyed::<T, P>(entries@), P::order(), probe.key(), p as int),
        p <= entries.len(),
{
    let ghost r = keyed::<T, P>(entries@);
    let ghost k = probe.key();
    let mut lo: usize = 0;
    let mut hi: usize = entries.len();
    proof {
        P::lemma_order();
    }
    while lo < hi
        invariant
            lo <= hi <= entries.len(),
            r == keyed::<T, P>(entries@),
            k == probe.key(),
            ascending(r, P::order()),
            is_strict_order(P::order()),
            forall|i: int| 0 <= i < lo ==> P::order()(#[trigger] r[i].0, k),
            forall|i: int| hi <= i < r.len() ==> !P::order()(#[trigger] r[i].0, k),
        decreases hi - lo,
    {
        let mid = lo + (hi - lo) / 2;
        assert(r[mid as int].0 == P::key_of(entries@[mid as int]));
        if probe.follows(&entries[mid]) {
            assert forall|i: int| 0 <= i < mid + 1 implies P::order()(#[trigger] r[i].0, k) by {
                if i < mid {
                    assert(P::order()(r[i].0, r[mid as int].0));
                }
            }
            lo = mid + 1;
        } else {
            assert forall|i: int| mid <= i < r.len() implies !P::order()(#[trigger] r[i].0, k) by {
                if i > mid {
                    assert(P::order()(r[mid as int].0, r[i].0));
                }
            }
            hi = mid;
        }
    }
    lo
}

/// Tells whether the entry at the place `p` of the probe's key has that key.
pub fn holds_at<T, P: Probe<T>>(entries: &Vec<T>, probe: &P, p: usize) -> (yes: bool)
    requires
        ascending(keyed::<T, P>(entries@), P::order()),
        is_place(keyed::<T, P>(entries@), P::order(), probe.key(), p as int),
    ensures
        yes == has_key(keyed::<T, P>(entries@), probe.key()),
        yes ==> p < entries.len() && P::key_of(entries@[p as int]) == probe.key(),
{
    proof {
        P::lemma_order();
        lemma_place_decides(keyed::<T, P>(entries@), P::order(), probe.key(), p as int);
    }
    if p < entries.len() {
        assert(keyed::<T, P>(entries@)[p as int].0 == P::key_of(entries@[p as int]));
        !probe.precedes(&entries[p])
    } else {
        false
    }
}

} // verus!
