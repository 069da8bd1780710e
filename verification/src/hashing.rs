//! The content hash: the BLAKE3 digest of a file's bytes, written in hex.

use vstd::prelude::*;

verus! {

/// `blake3::Hasher`, the state of a hash in the making. Its value is not seen
/// here; `absorbed` and `plain` name what the contracts say of it.
#[verifier::external_type_specification]
#[verifier::external_body]
pub struct ExHasher(blake3::Hasher);

/// The BLAKE3 digest of `data`: the 32 bytes that `blake3::Hasher::finalize`
/// returns once exactly `data` has been fed to the hasher.
pub uninterp spec fn blake3_digest(data: Seq<u8>) -> Seq<u8>;

/// The bytes that have been fed to the hasher since it was made.
pub uninterp spec fn absorbed(h: blake3::Hasher) -> Seq<u8>;

/// The hasher was made for the plain hash function, by `blake3::Hasher::new`:
/// without a key and without a context for key derivation.
pub uninterp spec fn plain(h: blake3::Hasher) -> bool;

/// `blake3::Hasher::new` makes a hasher for the plain hash function that
/// has been fed nothing.
#[verifier::external_body]
fn hasher_new() -> (h: blake3::Hasher)
    ensures
        plain(h),
        absorbed(h) == Seq::<u8>::empty(),
{
    blake3::Hasher::new()
}

/// `blake3::Hasher::update` feeds `chunk` to a plain hasher, behind what it
/// was fed before, and leaves it plain; it may be called any number of times.
#[verifier::external_body]
fn hasher_update(h: &mut blake3::Hasher, chunk: &[u8])
    requires
        plain(*old(h)),
    ensures
        plain(*final(h)),
        absorbed(*final(h)) == absorbed(*old(h)) + chunk@,
{
    h.update(chunk);
}

/// `blake3::Hasher::finalize` returns the hash of all that the hasher was
/// fed, 32 bytes, and leaves the hasher as it was. For a plain hasher that
/// is the BLAKE3 digest of those bytes.
#[verifier::external_body]
fn hasher_finalize(h: &blake3::Hasher) -> (digest: Vec<u8>)
    requires
        plain(*h),
    ensures
        digest@ == blake3_digest(absorbed(*h)),
        digest@.len() == 32,
{
    h.finalize().as_bytes().to_vec()
}

/// The hex digit for a number below sixteen, in lower case.
pub open spec fn hex_digit(n: int) -> char {
    seq!['0', '1', '2', '3', '4', '5', '6', '7', '8', '9', 'a', 'b', 'c', 'd', 'e', 'f'][n]
}

/// The bytes written in hex: two lower-case digits for each byte, the high
/// half first.
pub open spec fn hex_of(bytes: Seq<u8>) -> Seq<char> {
    Seq::new(
        2 * bytes.len(),
        |i: int|
            if i % 2 == 0 {
                hex_digit(bytes[i / 2] as int / 16)
            } else {
                hex_digit(bytes[i / 2] as int % 16)
            },
    )
}

/// The content hash of `data`: its BLAKE3 digest in hex.
pub open spec fn content_hash(data: Seq<u8>) -> Seq<char> {
    hex_of(blake3_digest(data))
}

/// All the chunks, one behind the other.
pub open spec fn joined(chunks: Seq<Vec<u8>>) -> Seq<u8>
    decreases chunks.len(),
{
    if chunks.len() == 0 {
        Seq::empty()
    } else {
        joined(chunks.drop_last()) + chunks.last()@
    }
}

/// The hex digit for `n`.
fn hex_char(n: u8) -> (c: char)
    requires
        n < 16,
    ensures
        c == hex_digit(n as int),
{
    match n {
        0 => '0',
        1 => '1',
        2 => '2',
        3 => '3',
        4 => '4',
        5 => '5',
        6 => '6',
        7 => '7',
        8 => '8',
        9 => '9',
        10 => 'a',
        11 => 'b',
        12 => 'c',
        13 => 'd',
        14 => 'e',
        _ => 'f',
    }
}

/// Writes `bytes` in hex.
pub fn to_hex(bytes: &[u8]) -> (s: String)
    ensures
        s@ == hex_of(bytes@),
{
    let mut s = String::new();
    let mut i: usize = 0;
    while i < bytes.len()
        invariant
            i <= bytes.len(),
            s@ == hex_of(bytes@.take(i as int)),
        decreases bytes.len() - i,
    {
        let b = bytes[i];
        s.push(hex_char(b / 16));
        s.push(hex_char(b % 16));
        assert(s@ =~= hex_of(bytes@.take(i + 1))) by {
            let before = hex_of(bytes@.take(i as int));
            let after = hex_of(bytes@.take(i + 1));
            assert(after.len() == before.len() + 2);
            assert forall|k: int| 0 <= k < after.len() implies s@[k] == after[k] by {
                if k < before.len() {
                    assert(bytes@.take(i as int)[k / 2] == bytes@.take(i + 1)[k / 2]);
                    assert(s@[k] == before[k]);
                }
            }
        }
        i += 1;
    }
    assert(bytes@.take(bytes.len() as int) =~= bytes@);
    s
}

/// A content hash in the making: bytes are fed to it chunk by chunk, and
/// the hash of all of them is read at the end.
pub struct ContentHasher {
    inner: blake3::Hasher,
}

impl ContentHasher {
    /// The hasher is one for the plain hash function, as `new` makes it.
    pub closed spec fn wf(&self) -> bool {
        plain(self.inner)
    }

    /// The bytes fed so far, in order.
    pub closed spec fn fed(&self) -> Seq<u8> {
        absorbed(self.inner)
    }

    /// A hasher that has been fed nothing.
    pub fn new() -> (h: ContentHasher)
        ensures
            h.wf(),
            h.fed() == Seq::<u8>::empty(),
    {
        ContentHasher { inner: hasher_new() }
    }

    /// Feeds `chunk` behind what was fed before.
    pub fn update(&mut self, chunk: &[u8])
        requires
            old(self).wf(),
        ensures
            final(self).wf(),
            final(self).fed() == old(self).fed() + chunk@,
    {
        hasher_update(&mut self.inner, chunk);
    }

    /// The content hash of all that was fed: 64 hex digits.
    pub fn finish(&self) -> (hash: String)
        requires
            self.wf(),
        ensures
            hash@ == content_hash(self.fed()),
            hash@.len() == 64,
    {
        let digest = hasher_finalize(&self.inner);
        to_hex(digest.as_slice())
    }
}

/// The content hash of `data`. It depends on the bytes alone: equal bytes
/// give equal hashes, wherever they come from and however often they are hashed.
pub fn hash_bytes(data: &[u8]) -> (hash: String)
    ensures
        hash@ == content_hash(data@),
        hash@.len() == 64,
{
    let mut h = ContentHasher::new();
    h.update(data);
    assert(Seq::<u8>::empty() + data@ =~= data@);
    h.finish()
}

/// The content hash of the chunks taken together: feeding a file piece by
/// piece gives the hash of the whole file.
pub fn hash_chunks(chunks: &Vec<Vec<u8>>) -> (hash: String)
    ensures
        hash@ == content_hash(joined(chunks@)),
        hash@.len() == 64,
{
    let mut h = ContentHasher::new();
    let mut i: usize = 0;
    while i < chunks.len()
        invariant
            i <= chunks.len(),
            h.wf(),
            h.fed() == joined(chunks@.take(i as int)),
        decreases chunks.len() - i,
    {
        h.update(chunks[i].as_slice());
        assert(chunks@.take(i + 1).drop_last() =~= chunks@.take(i as int));
        i += 1;
    }
    assert(chunks@.take(chunks.len() as int) =~= chunks@);
    h.finish()
}

/// Cutting the bytes into chunks does not change what they are: the chunks
/// before a cut and those behind it, joined, are all the chunks joined.
pub proof fn lemma_joined_split(chunks: Seq<Vec<u8>>, cut: int)
    requires
        0 <= cut <= chunks.len(),
    ensures
        joined(chunks) == joined(chunks.take(cut)) + joined(chunks.skip(cut)),
    decreases chunks.len(),
{
    if cut == chunks.len() {
        assert(chunks.take(cut) =~= chunks);
        assert(chunks.skip(cut) =~= Seq::<Vec<u8>>::empty());
        assert(joined(chunks) =~= joined(chunks) + Seq::<u8>::empty());
    } else {
        let rest = chunks.drop_last();
        lemma_joined_split(rest, cut);
        assert(rest.take(cut) =~= chunks.take(cut));
        assert(chunks.skip(cut).drop_last() =~= rest.skip(cut));
        assert(joined(chunks) =~= joined(chunks.take(cut)) + joined(chunks.skip(cut)));
    }
}


/// The content hash is a function of the bytes: two files that hold the
/// same bytes have the same hash, and hashing the same bytes again gives
/// the same hash again.
pub proof fn lemma_equal_bytes_equal_hash(a: Seq<u8>, b: Seq<u8>)
    requires
        a =~= b,
    ensures
        content_hash(a) == content_hash(b),
{
}

} // verus!
