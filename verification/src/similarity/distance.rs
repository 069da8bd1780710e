//! The distance between fingerprints: the number of bits in which they differ.

use vstd::prelude::*;

verus! {

/// Width of a perceptual fingerprint in bits; also the largest possible distance.
pub const FINGERPRINT_BITS: u32 = 64;

/// Number of one bits in the binary representation of `x`.
pub open spec fn bit_count(x: u64) -> nat
    decreases x,
{
    if x == 0 {
        0
    } else {
        (x % 2) as nat + bit_count(x / 2)
    }
}

/// Counts the one bits of `x`.
pub fn count_bits(x: u64) -> (r: u32)
    ensures
        r == bit_count(x),
{
    let mut rest = x;
    let mut r: u32 = 0;
    proof {
        assert(0x1_0000_0000_0000_0000 == pow2(64)) by {
            reveal_with_fuel(pow2, 65);
        }
        lemma_bit_count_below(x, 64);
    }
    while rest != 0
        invariant
            r + bit_count(rest) == bit_count(x),
            bit_count(x) <= 64,
        decreases rest,
    {
        r = r + (rest % 2) as u32;
        rest = rest / 2;
    }
    r
}

/// Hamming distance between two fingerprints: the number of differing bits.
pub open spec fn distance(a: u64, b: u64) -> nat {
    bit_count(a ^ b)
}

/// Counts the bits in which `a` and `b` differ.
pub fn hamming_distance(a: u64, b: u64) -> (d: u32)
    ensures
        d == distance(a, b),
        d <= FINGERPRINT_BITS,
{
    proof {
        lemma_distance_bounded(a, b);
    }
    count_bits(a ^ b)
}

/// Two to the power `k`.
spec fn pow2(k: nat) -> nat
    decreases k,
{
    if k == 0 {
        1
    } else {
        2 * pow2((k - 1) as nat)
    }
}

/// A number below two to the `k` has at most `k` one bits.
proof fn lemma_bit_count_below(x: u64, k: nat)
    requires
        x < pow2(k),
    ensures
        bit_count(x) <= k,
    decreases k,
{
    if x != 0 {
        lemma_bit_count_below(x / 2, (k - 1) as nat);
    }
}

/// Only zero has no one bit.
proof fn lemma_bit_count_zero(x: u64)
    ensures
        bit_count(x) == 0 <==> x == 0,
    decreases x,
{
    if x != 0 {
        lemma_bit_count_zero(x / 2);
    }
}

/// The largest number below two to the `k` has `k` one bits.
proof fn lemma_bit_count_full(x: u64, k: nat)
    requires
        x + 1 == pow2(k),
    ensures
        bit_count(x) == k,
    decreases k,
{
    if k != 0 {
        lemma_bit_count_full(x / 2, (k - 1) as nat);
    }
}

/// No two fingerprints are further apart than the fingerprint is wide.
pub proof fn lemma_distance_bounded(a: u64, b: u64)
    ensures
        distance(a, b) <= FINGERPRINT_BITS,
{
    assert(pow2(64) == 0x1_0000_0000_0000_0000) by {
        reveal_with_fuel(pow2, 65);
    }
    lemma_bit_count_below(a ^ b, 64);
}

/// The distance does not depend on the order of its arguments.
pub proof fn lemma_distance_symmetric(a: u64, b: u64)
    ensures
        distance(a, b) == distance(b, a),
{
    assert(a ^ b == b ^ a) by (bit_vector);
}

/// Two fingerprints are at distance zero exactly when they are equal.
pub proof fn lemma_distance_zero(a: u64, b: u64)
    ensures
        distance(a, b) == 0 <==> a == b,
{
    lemma_bit_count_zero(a ^ b);
    assert((a ^ b == 0) <==> (a == b)) by (bit_vector);
}

/// A fingerprint and its bitwise complement are at the largest distance.
pub proof fn lemma_distance_complement(a: u64)
    ensures
        distance(a, !a) == FINGERPRINT_BITS,
{
    assert(a ^ !a == 0xffff_ffff_ffff_ffffu64) by (bit_vector);
    assert(pow2(64) == 0x1_0000_0000_0000_0000) by {
        reveal_with_fuel(pow2, 65);
    }
    lemma_bit_count_full(0xffff_ffff_ffff_ffffu64, 64);
}

/// Bit `i` of the fingerprint `x` is set.
pub open spec fn bit_set(x: u64, i: int) -> bool {
    0 <= i < 64 && (x >> (i as u64)) & 1 == 1
}

/// Setting bit `i` sets that bit and leaves every other bit as it was.
proof fn lemma_set_bit(x: u64, i: u64, j: u64)
    requires
        i < 64,
        j < 64,
    ensures
        ((x | (1u64 << i)) >> j) & 1 == 1 <==> (j == i || (x >> j) & 1 == 1),
{
    assert(((x | (1u64 << i)) >> j) & 1 == 1 <==> (j == i || (x >> j) & 1 == 1)) by (bit_vector)
        requires
            i < 64,
            j < 64,
    ;
}

/// Builds a fingerprint from the outcome of its comparisons: bit `i` is set
/// exactly when `flags[i]` holds. Flags from the 64th on are left out.
pub fn fingerprint_from_flags(flags: &Vec<bool>) -> (x: u64)
    ensures
        forall|i: int| 0 <= i < 64 ==> (#[trigger] bit_set(x, i) <==> (i < flags.len() && flags@[i])),
{
    let mut x: u64 = 0;
    let mut k: u64 = 0;
    assert forall|i: int| 0 <= i < 64 implies !#[trigger] bit_set(0u64, i) by {
        let j = i as u64;
        assert((0u64 >> j) & 1 == 0) by (bit_vector);
    }
    while k < 64 && (k as usize) < flags.len()
        invariant
            k <= 64,
            k <= flags.len(),
            forall|i: int| 0 <= i < 64 ==> (#[trigger] bit_set(x, i) <==> (i < k && flags@[i])),
        decreases 64 - k,
    {
        if flags[k as usize] {
            let ghost before = x;
            x = x | (1u64 << k);
            assert forall|i: int| 0 <= i < 64 implies (#[trigger] bit_set(x, i) <==> (i < k + 1
                && flags@[i])) by {
                lemma_set_bit(before, k, i as u64);
                assert(bit_set(before, i) <==> (i < k && flags@[i]));
            }
        }
        k += 1;
    }
    x
}

} // verus!
