//! Strings as the index sees them: their characters, their lower-case form
//! and the order in which keys are kept.

use crate::sorted::is_strict_order;
use vstd::prelude::*;
use vstd::string::*;
use vstd::utf8::*;

verus! {

/// `String::push` appends the given character to the end of the string.
pub assume_specification[ String::push ](s: &mut String, c: char)
    ensures
        final(s)@ == old(s)@.push(c),
;

/// The lower-case form that `str::to_lowercase` gives to a string.
pub uninterp spec fn lowercase(s: Seq<char>) -> Seq<char>;

/// `str::to_lowercase` returns the lower-case equivalent of the string as
/// Unicode defines it; the result depends on the characters alone.
#[verifier::external_body]
pub(crate) fn to_lower(s: &str) -> (r: String)
    ensures
        r@ == lowercase(s@),
{
    s.to_lowercase()
}

/// The characters of `s`, in order.
pub fn chars_of(s: &str) -> (v: Vec<char>)
    ensures
        v@ == s@,
{
    broadcast use vstd::string::group_string_axioms;

    let mut v: Vec<char> = Vec::new();
    for c in it: s.chars()
        invariant
            it.seq() == s@,
            v@ == it.seq().take(it.index() as int),
    {
        v.push(c);
    }
    assert(v@ =~= s@);
    v
}

/// The string made of `chars`, in order.
pub fn string_of(chars: &Vec<char>) -> (s: String)
    ensures
        s@ == chars@,
{
    let mut s = String::new();
    let mut i: usize = 0;
    while i < chars.len()
        invariant
            i <= chars.len(),
            s@ == chars@.take(i as int),
        decreases chars.len() - i,
    {
        s.push(chars[i]);
        assert(chars@.take(i + 1) =~= chars@.take(i as int).push(chars@[i as int]));
        i += 1;
    }
    assert(chars@.take(chars.len() as int) =~= chars@);
    s
}

/// `a` comes before `b` in the order of byte strings: at the first position
/// where they differ `a` has the smaller byte, or `a` ends there and `b` goes on.
pub open spec fn bytes_precede(a: Seq<u8>, b: Seq<u8>) -> bool {
    exists|k: int| #[trigger] differ_at(a, b, k) && (k == a.len() || a[k] < b[k])
}

/// `a` and `b` agree before position `k`, `b` reaches past `k`, and `a` ends
/// at `k` or holds another byte there.
pub open spec fn differ_at(a: Seq<u8>, b: Seq<u8>, k: int) -> bool {
    &&& 0 <= k <= a.len()
    &&& k < b.len()
    &&& a.take(k) == b.take(k)
    &&& (k < a.len() ==> a[k] != b[k])
}

/// The order in which keys are kept: that of their UTF-8 bytes.
pub open spec fn precedes(a: Seq<char>, b: Seq<char>) -> bool {
    bytes_precede(encode_utf8(a), encode_utf8(b))
}

/// Two byte strings differ at one position at most.
proof fn lemma_differ_once(a: Seq<u8>, b: Seq<u8>, j: int, k: int)
    requires
        differ_at(a, b, j) || differ_at(b, a, j),
        differ_at(a, b, k) || differ_at(b, a, k),
    ensures
        j == k,
{
    if j < k {
        assert(a.take(k)[j] == b.take(k)[j]);
    } else if k < j {
        assert(a.take(j)[k] == b.take(j)[k]);
    }
}

/// Two byte strings that agree up to `i` are equal, or one precedes the other.
proof fn lemma_bytes_compare_from(a: Seq<u8>, b: Seq<u8>, i: int)
    requires
        0 <= i <= a.len(),
        i <= b.len(),
        a.take(i) == b.take(i),
    ensures
        a == b || bytes_precede(a, b) || bytes_precede(b, a),
    decreases a.len() - i,
{
    if i == a.len() && i == b.len() {
        assert(a.take(i) =~= a);
        assert(b.take(i) =~= b);
    } else if i == a.len() {
        assert(differ_at(a, b, i));
    } else if i == b.len() {
        assert(differ_at(b, a, i));
    } else if a[i] != b[i] {
        assert(differ_at(a, b, i));
        assert(differ_at(b, a, i));
    } else {
        assert(a.take(i + 1) =~= a.take(i).push(a[i]));
        assert(b.take(i + 1) =~= b.take(i).push(b[i]));
        lemma_bytes_compare_from(a, b, i + 1);
    }
}

/// No key precedes itself.
pub proof fn lemma_precedes_irreflexive(a: Seq<char>)
    ensures
        !precedes(a, a),
{
}

/// The order of keys is transitive.
pub proof fn lemma_precedes_transitive(a: Seq<char>, b: Seq<char>, c: Seq<char>)
    requires
        precedes(a, b),
        precedes(b, c),
    ensures
        precedes(a, c),
{
    let x = encode_utf8(a);
    let y = encode_utf8(b);
    let z = encode_utf8(c);
    let j = choose|k: int| #[trigger] differ_at(x, y, k) && (k == x.len() || x[k] < y[k]);
    let k = choose|k: int| #[trigger] differ_at(y, z, k) && (k == y.len() || y[k] < z[k]);
    let m = if j <= k {
        j
    } else {
        k
    };
    assert(x.take(m) =~= z.take(m)) by {
        assert forall|i: int| 0 <= i < m implies x[i] == z[i] by {
            assert(x.take(j)[i] == y.take(j)[i]);
            assert(y.take(k)[i] == z.take(k)[i]);
        }
    }
    if j < k {
        assert(y.take(k)[j] == z.take(k)[j]);
    } else if k < j {
        assert(x.take(j)[k] == y.take(j)[k]);
    }
    assert(differ_at(x, z, m));
}

/// Of two different keys one precedes the other.
pub proof fn lemma_precedes_total(a: Seq<char>, b: Seq<char>)
    ensures
        a == b || precedes(a, b) || precedes(b, a),
{
    let x = encode_utf8(a);
    let y = encode_utf8(b);
    assert(x.take(0) =~= y.take(0));
    lemma_bytes_compare_from(x, y, 0);
    if x == y {
        encode_utf8_decode_utf8(a);
        encode_utf8_decode_utf8(b);
    }
}

/// Tells whether the key `a` comes before the key `b`.
pub fn str_precedes(a: &str, b: &str) -> (r: bool)
    ensures
        r == precedes(a@, b@),
{
    let x = a.as_bytes();
    let y = b.as_bytes();
    let mut i: usize = 0;
    while i < x.len() && i < y.len()
        invariant
            i <= x.len(),
            i <= y.len(),
            x@ == encode_utf8(a@),
            y@ == encode_utf8(b@),
            x@.take(i as int) == y@.take(i as int),
        decreases x.len() - i,
    {
        if x[i] != y[i] {
            assert(differ_at(x@, y@, i as int));
            assert(differ_at(y@, x@, i as int));
            proof {
                if x[i as int] > y[i as int] && bytes_precede(x@, y@) {
                    let k = choose|k: int| #[trigger]
                        differ_at(x@, y@, k) && (k == x@.len() || x@[k] < y@[k]);
                    lemma_differ_once(x@, y@, k, i as int);
                }
            }
            return x[i] < y[i];
        }
        assert(x@.take(i + 1) =~= x@.take(i as int).push(x@[i as int]));
        assert(y@.take(i + 1) =~= y@.take(i as int).push(y@[i as int]));
        i += 1;
    }
    proof {
        if i < y.len() {
            assert(differ_at(x@, y@, i as int));
        } else if bytes_precede(x@, y@) {
            let k = choose|k: int| #[trigger]
                differ_at(x@, y@, k) && (k == x@.len() || x@[k] < y@[k]);
            assert(x@.take(i as int)[k] == y@.take(i as int)[k]);
        }
    }
    i < y.len()
}


/// The end of `s` after its last character that satisfies `sep`; all of `s`
/// where no character does.
pub open spec fn after_last(s: Seq<char>, sep: spec_fn(char) -> bool) -> Seq<char>
    decreases s.len(),
{
    if s.len() == 0 {
        s
    } else if sep(s.last()) {
        Seq::empty()
    } else {
        after_last(s.drop_last(), sep).push(s.last())
    }
}

/// `after_last` is the part of `s` from `start` on, where `start` is just
/// behind the last separator, or zero if there is none.
pub proof fn lemma_after_last_from(s: Seq<char>, sep: spec_fn(char) -> bool, start: int)
    requires
        0 <= start <= s.len(),
        forall|k: int| start <= k < s.len() ==> !sep(#[trigger] s[k]),
        start == 0 || sep(s[start - 1]),
    ensures
        after_last(s, sep) == s.skip(start),
    decreases s.len(),
{
    if s.len() == 0 {
        assert(s.skip(start) =~= s);
    } else if start == s.len() {
        assert(s.skip(start) =~= Seq::<char>::empty());
    } else {
        let t = s.drop_last();
        assert forall|k: int| start <= k < t.len() implies !sep(#[trigger] t[k]) by {
            assert(t[k] == s[k]);
        }
        lemma_after_last_from(t, sep, start);
        assert(s.skip(start) =~= t.skip(start).push(s.last()));
    }
}

/// The string made of the characters of `chars` from position `start` on.
pub fn string_from(chars: &Vec<char>, start: usize) -> (s: String)
    requires
        start <= chars.len(),
    ensures
        s@ == chars@.skip(start as int),
{
    let mut s = String::new();
    let mut i: usize = start;
    while i < chars.len()
        invariant
            start <= i <= chars.len(),
            s@ == chars@.subrange(start as int, i as int),
        decreases chars.len() - i,
    {
        s.push(chars[i]);
        assert(chars@.subrange(start as int, i + 1) =~= chars@.subrange(start as int, i as int).push(
            chars@[i as int],
        ));
        i += 1;
    }
    assert(chars@.subrange(start as int, chars.len() as int) =~= chars@.skip(start as int));
    s
}


/// The order of keys as a relation.
pub open spec fn key_order() -> spec_fn(Seq<char>, Seq<char>) -> bool {
    |a: Seq<char>, b: Seq<char>| precedes(a, b)
}

/// The order of keys is a strict total order.
pub proof fn lemma_key_order_strict()
    ensures
        is_strict_order(key_order()),
{
    let lt = key_order();
    assert forall|a: Seq<char>, b: Seq<char>, c: Seq<char>| #[trigger]
        lt(a, b) && #[trigger] lt(b, c) implies lt(a, c) by {
        lemma_precedes_transitive(a, b, c);
    }
    assert forall|a: Seq<char>, b: Seq<char>| a == b || #[trigger] lt(a, b) || lt(b, a) by {
        lemma_precedes_total(a, b);
    }
}


/// The contents of each string of `v`.
pub open spec fn texts(v: Seq<String>) -> Seq<Seq<char>> {
    v.map_values(|s: String| s@)
}


/// Tells whether two strings hold the same characters.
pub fn same_text(a: &str, b: &str) -> (r: bool)
    ensures
        r == (a@ == b@),
{
    let x = a.as_bytes();
    let y = b.as_bytes();
    proof {
        encode_utf8_decode_utf8(a@);
        encode_utf8_decode_utf8(b@);
    }
    if x.len() != y.len() {
        return false;
    }
    let mut i: usize = 0;
    while i < x.len()
        invariant
            i <= x.len(),
            x.len() == y.len(),
            x@ == encode_utf8(a@),
            y@ == encode_utf8(b@),
            forall|k: int| 0 <= k < i ==> x@[k] == y@[k],
        decreases x.len() - i,
    {
        if x[i] != y[i] {
            return false;
        }
        i += 1;
    }
    assert(x@ =~= y@);
    true
}

/// The string made of the first `end` characters of `chars`.
pub fn string_upto(chars: &Vec<char>, end: usize) -> (s: String)
    requires
        end <= chars.len(),
    ensures
        s@ == chars@.take(end as int),
{
    let mut s = String::new();
    let mut i: usize = 0;
    while i < end
        invariant
            i <= end <= chars.len(),
            s@ == chars@.take(i as int),
        decreases end - i,
    {
        s.push(chars[i]);
        assert(chars@.take(i + 1) =~= chars@.take(i as int).push(chars@[i as int]));
        i += 1;
    }
    s
}

} // verus!
