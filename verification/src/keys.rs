//! The keys under which the logs are persisted: a word for the kind of
//! entry, the time, and the text that names the entry. A deletion key holds
//! the time in twenty digits, a snapshot key in plain decimal.

use vstd::prelude::*;

verus! {

/// The decimal digit for a number below ten.
pub open spec fn digit(d: int) -> char {
    seq!['0', '1', '2', '3', '4', '5', '6', '7', '8', '9'][d]
}

/// The number in decimal, without leading zeros.
pub open spec fn decimal(n: nat) -> Seq<char>
    decreases n,
{
    if n < 10 {
        seq![digit(n as int)]
    } else {
        decimal(n / 10).push(digit((n % 10) as int))
    }
}

/// The last `width` decimal digits of `n`, with zeros in front where `n`
/// has fewer.
pub open spec fn fixed(n: nat, width: nat) -> Seq<char>
    decreases width,
{
    if width == 0 {
        Seq::empty()
    } else {
        fixed(n / 10, (width - 1) as nat).push(digit((n % 10) as int))
    }
}

/// The time as it stands in a key: in twenty digits, which hold every `u64`.
pub open spec fn padded(at: u64) -> Seq<char> {
    fixed(at as nat, 20)
}

/// The key of a deletion event: `deleted::`, the time, `::`, the content hash.
pub open spec fn deletion_key_of(deleted_at: u64, hash: Seq<char>) -> Seq<char> {
    "deleted::"@ + padded(deleted_at) + "::"@ + hash
}

/// The key of a snapshot: `snapshot::`, the time in plain decimal, `::`,
/// the name.
pub open spec fn snapshot_key_of(timestamp: u64, name: Seq<char>) -> Seq<char> {
    "snapshot::"@ + decimal(timestamp as nat) + "::"@ + name
}

/// The decimal digit for `d`.
fn digit_char(d: u64) -> (c: char)
    requires
        d < 10,
    ensures
        c == digit(d as int),
{
    match d {
        0 => '0',
        1 => '1',
        2 => '2',
        3 => '3',
        4 => '4',
        5 => '5',
        6 => '6',
        7 => '7',
        8 => '8',
        _ => '9',
    }
}

/// Writes `n` in decimal behind what `s` holds.
pub fn push_decimal(s: &mut String, n: u64)
    ensures
        final(s)@ == old(s)@ + decimal(n as nat),
    decreases n,
{
    if n >= 10 {
        push_decimal(s, n / 10);
    }
    s.push(digit_char(n % 10));
    assert(s@ =~= old(s)@ + decimal(n as nat));
}

/// Writes the last `width` digits of `n` behind what `s` holds, with zeros
/// in front where `n` has fewer.
pub fn push_fixed(s: &mut String, n: u64, width: u8)
    ensures
        final(s)@ == old(s)@ + fixed(n as nat, width as nat),
    decreases width,
{
    if width > 0 {
        push_fixed(s, n / 10, width - 1);
        s.push(digit_char(n % 10));
    }
    assert(s@ =~= old(s)@ + fixed(n as nat, width as nat));
}

/// The key under which the deletion event of `hash` at `deleted_at` is persisted.
pub fn deletion_key(deleted_at: u64, hash: &str) -> (key: String)
    ensures
        key@ == deletion_key_of(deleted_at, hash@),
{
    let mut key = "deleted::".to_owned();
    push_fixed(&mut key, deleted_at, 20);
    key.append("::");
    key.append(hash);
    key
}

/// The key under which the snapshot `name` of `timestamp` is persisted.
pub fn snapshot_key(timestamp: u64, name: &str) -> (key: String)
    ensures
        key@ == snapshot_key_of(timestamp, name@),
{
    let mut key = "snapshot::".to_owned();
    push_decimal(&mut key, timestamp);
    key.append("::");
    key.append(name);
    key
}

/// The two kinds of keys are told apart by how they begin: a scan of the
/// keys that begin with `deleted::` meets every deletion event and no snapshot,
/// and a scan of those that begin with `snapshot::` the reverse.
pub proof fn lemma_kinds_apart(at: u64, text: Seq<char>)
    ensures
        "deleted::"@.is_prefix_of(deletion_key_of(at, text)),
        "snapshot::"@.is_prefix_of(snapshot_key_of(at, text)),
        !"snapshot::"@.is_prefix_of(deletion_key_of(at, text)),
        !"deleted::"@.is_prefix_of(snapshot_key_of(at, text)),
{
    reveal_strlit("deleted::");
    reveal_strlit("snapshot::");
    let d = deletion_key_of(at, text);
    let s = snapshot_key_of(at, text);
    assert(d.subrange(0, 9) =~= "deleted::"@);
    assert(s.subrange(0, 10) =~= "snapshot::"@);
    assert(d[0] == 'd');
    assert(s[0] == 's');
    if "snapshot::"@.is_prefix_of(d) {
        assert(d.subrange(0, 10)[0] == 's');
    }
    if "deleted::"@.is_prefix_of(s) {
        assert(s.subrange(0, 9)[0] == 'd');
    }
}


/// The ten digits are ten different characters, and none is a colon.
proof fn lemma_digits(a: int, b: int)
    requires
        0 <= a < 10,
        0 <= b < 10,
    ensures
        digit(a) != ':',
        digit(a) == digit(b) ==> a == b,
{
}

/// A number in decimal has at least one character, and no colon.
proof fn lemma_decimal_shape(n: nat, i: int)
    ensures
        decimal(n).len() >= 1,
        0 <= i < decimal(n).len() ==> decimal(n)[i] != ':',
        n >= 10 ==> decimal(n).len() >= 2,
    decreases n,
{
    lemma_digits((n % 10) as int, 0);
    if n >= 10 {
        lemma_decimal_shape(n / 10, i);
    }
}

/// Different numbers are written differently.
pub proof fn lemma_decimal_injective(a: nat, b: nat)
    requires
        decimal(a) == decimal(b),
    ensures
        a == b,
    decreases a,
{
    lemma_decimal_shape(a, 0);
    lemma_decimal_shape(b, 0);
    lemma_digits((a % 10) as int, (b % 10) as int);
    if a < 10 && b < 10 {
        assert(decimal(a)[0] == decimal(b)[0]);
        assert(digit(a as int) == digit(b as int));
    } else if a >= 10 && b >= 10 {
        let x = decimal(a / 10);
        let y = decimal(b / 10);
        assert(decimal(a).last() == decimal(b).last());
        assert(x =~= decimal(a).drop_last());
        assert(y =~= decimal(b).drop_last());
        lemma_decimal_injective(a / 10, b / 10);
        assert(a / 10 == b / 10);
        assert(decimal(a) == x.push(digit((a % 10) as int)));
        assert(decimal(b) == y.push(digit((b % 10) as int)));
        assert(x.push(digit((a % 10) as int)).last() == digit((a % 10) as int));
        assert(y.push(digit((b % 10) as int)).last() == digit((b % 10) as int));
        assert(digit((a % 10) as int) == digit((b % 10) as int));
        assert(a % 10 == b % 10);
    } else if a < 10 {
        assert(decimal(a).len() == 1);
        assert(decimal(b).len() >= 2);
    } else {
        assert(decimal(b).len() == 1);
        assert(decimal(a).len() >= 2);
    }
}

/// Ten to the power `k`.
spec fn pow10(k: nat) -> nat
    decreases k,
{
    if k == 0 {
        1
    } else {
        10 * pow10((k - 1) as nat)
    }
}

/// A number in `width` digits has `width` characters.
proof fn lemma_fixed_len(n: nat, width: nat)
    ensures
        fixed(n, width).len() == width,
    decreases width,
{
    if width > 0 {
        lemma_fixed_len(n / 10, (width - 1) as nat);
    }
}

/// Different numbers that fit in `width` digits are written differently.
proof fn lemma_fixed_injective(a: nat, b: nat, width: nat)
    requires
        a < pow10(width),
        b < pow10(width),
        fixed(a, width) == fixed(b, width),
    ensures
        a == b,
    decreases width,
{
    if width > 0 {
        let x = fixed(a / 10, (width - 1) as nat);
        let y = fixed(b / 10, (width - 1) as nat);
        lemma_digits((a % 10) as int, (b % 10) as int);
        assert(fixed(a, width) == x.push(digit((a % 10) as int)));
        assert(fixed(b, width) == y.push(digit((b % 10) as int)));
        assert(x.push(digit((a % 10) as int)).last() == digit((a % 10) as int));
        assert(y.push(digit((b % 10) as int)).last() == digit((b % 10) as int));
        assert(x =~= fixed(a, width).drop_last());
        assert(y =~= fixed(b, width).drop_last());
        lemma_fixed_injective(a / 10, b / 10, (width - 1) as nat);
    }
}

/// A time and a text are read back from `time::text` in one way only.
proof fn lemma_stamp_read_back(a: u64, x: Seq<char>, b: u64, y: Seq<char>)
    requires
        padded(a) + "::"@ + x == padded(b) + "::"@ + y,
    ensures
        a == b,
        x == y,
{
    reveal_strlit("::");
    let s = padded(a) + "::"@ + x;
    let t = padded(b) + "::"@ + y;
    lemma_fixed_len(a as nat, 20);
    lemma_fixed_len(b as nat, 20);
    assert(padded(a) =~= s.take(20));
    assert(padded(b) =~= t.take(20));
    assert(pow10(20) == 100_000_000_000_000_000_000) by {
        reveal_with_fuel(pow10, 21);
    }
    lemma_fixed_injective(a as nat, b as nat, 20);
    assert(x =~= s.skip(22));
    assert(y =~= t.skip(22));
}

/// Two deletion events have one key only if they have one time and one
/// content hash: what names an event in the log names it in the store.
pub proof fn lemma_deletion_key_names_one(at: u64, hash: Seq<char>, other_at: u64, other: Seq<char>)
    requires
        deletion_key_of(at, hash) == deletion_key_of(other_at, other),
    ensures
        at == other_at,
        hash == other,
{
    let p = "deleted::"@;
    let s = padded(at) + "::"@ + hash;
    let t = padded(other_at) + "::"@ + other;
    assert(s =~= deletion_key_of(at, hash).skip(p.len() as int));
    assert(t =~= deletion_key_of(other_at, other).skip(p.len() as int));
    lemma_stamp_read_back(at, hash, other_at, other);
}

/// A time in plain decimal and a text are read back from `time::text` in
/// one way only: the time ends at the first colon.
proof fn lemma_plain_read_back(a: nat, x: Seq<char>, b: nat, y: Seq<char>)
    requires
        decimal(a) + "::"@ + x == decimal(b) + "::"@ + y,
    ensures
        a == b,
        x == y,
{
    reveal_strlit("::");
    let da = decimal(a);
    let db = decimal(b);
    let s = da + "::"@ + x;
    let t = db + "::"@ + y;
    assert("::"@.len() == 2 && "::"@[0] == ':');
    assert(s[da.len() as int] == ':');
    assert(t[db.len() as int] == ':');
    if da.len() < db.len() {
        lemma_decimal_shape(b, da.len() as int);
        assert(t[da.len() as int] == db[da.len() as int]);
    } else if db.len() < da.len() {
        lemma_decimal_shape(a, db.len() as int);
        assert(s[db.len() as int] == da[db.len() as int]);
    }
    assert(da =~= s.take(da.len() as int));
    assert(db =~= t.take(db.len() as int));
    lemma_decimal_injective(a, b);
    assert(x =~= s.skip(da.len() as int + 2));
    assert(y =~= t.skip(db.len() as int + 2));
}

/// Two snapshots have one key only if they have one time and one name.
pub proof fn lemma_snapshot_key_names_one(at: u64, name: Seq<char>, other_at: u64, other: Seq<char>)
    requires
        snapshot_key_of(at, name) == snapshot_key_of(other_at, other),
    ensures
        at == other_at,
        name == other,
{
    let p = "snapshot::"@;
    let s = decimal(at as nat) + "::"@ + name;
    let t = decimal(other_at as nat) + "::"@ + other;
    assert(s =~= snapshot_key_of(at, name).skip(p.len() as int));
    assert(t =~= snapshot_key_of(other_at, other).skip(p.len() as int));
    lemma_plain_read_back(at as nat, name, other_at as nat, other);
}

} // verus!
