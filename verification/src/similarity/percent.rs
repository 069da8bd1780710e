//! How similar the members of a group are, in percent.

use crate::similarity::distance::{
    distance, hamming_distance, lemma_distance_bounded, FINGERPRINT_BITS,
};
use crate::similarity::grouping::valid_members;
use vstd::prelude::*;

verus! {

/// Number of unordered pairs among `m` items.
pub open spec fn pair_count(m: nat) -> nat
    decreases m,
{
    if m == 0 {
        0
    } else {
        pair_count((m - 1) as nat) + (m - 1) as nat
    }
}

/// Sum of the distances from member `j` to the members before position `k`.
pub open spec fn spread(fps: Seq<u64>, members: Seq<usize>, j: int, k: int) -> nat
    decreases k,
{
    if k <= 0 {
        0
    } else {
        spread(fps, members, j, k - 1) + distance(
            fps[members[k - 1] as int],
            fps[members[j] as int],
        )
    }
}

/// Sum of the distances over all unordered pairs among the first `m` members.
pub open spec fn pair_distance_sum(fps: Seq<u64>, members: Seq<usize>, m: int) -> nat
    decreases m,
{
    if m <= 0 {
        0
    } else {
        pair_distance_sum(fps, members, m - 1) + spread(fps, members, m - 1, m - 1)
    }
}

/// The share that the distances of a group take of the largest distances
/// its pairs could have, in percent and rounded down: a hundred times the
/// sum of the distances, over 64 for each pair. Zero for fewer than two members.
pub open spec fn distance_percent(fps: Seq<u64>, members: Seq<usize>) -> nat {
    if members.len() < 2 {
        0
    } else {
        ((100 * pair_distance_sum(fps, members, members.len() as int)) / (pair_count(
            members.len(),
        ) * 64)) as nat
    }
}

/// Similarity of a group in percent: 100 minus the average pairwise distance
/// as a share of the fingerprint width. The share is computed from the sum
/// of the distances and rounded once.
pub open spec fn similarity_percent(fps: Seq<u64>, members: Seq<usize>) -> nat {
    (100 - distance_percent(fps, members)) as nat
}

/// Among `m` items there are `m * (m - 1) / 2` pairs.
proof fn lemma_pair_count_closed(m: nat)
    ensures
        2 * pair_count(m) == m * (m - 1),
    decreases m,
{
    if m > 0 {
        let k = (m - 1) as nat;
        lemma_pair_count_closed(k);
        assert(m * (m - 1) == k * (k - 1) + 2 * k) by (nonlinear_arith)
            requires
                k == m - 1,
        ;
    } else {
        assert(m * (m - 1) == 0) by (nonlinear_arith)
            requires
                m == 0,
        ;
    }
}

/// More items have no fewer pairs.
proof fn lemma_pair_count_monotone(a: nat, b: nat)
    requires
        a <= b,
    ensures
        pair_count(a) <= pair_count(b),
    decreases b,
{
    if a < b {
        lemma_pair_count_monotone(a, (b - 1) as nat);
    }
}

/// Each of `k` distances is at most 64.
proof fn lemma_spread_bounded(fps: Seq<u64>, members: Seq<usize>, j: int, k: int)
    requires
        0 <= k,
    ensures
        spread(fps, members, j, k) <= 64 * k,
    decreases k,
{
    if k > 0 {
        lemma_spread_bounded(fps, members, j, k - 1);
        lemma_distance_bounded(fps[members[k - 1] as int], fps[members[j] as int]);
    }
}

/// The distances of all pairs add up to at most 64 for each pair.
proof fn lemma_pair_sum_bounded(fps: Seq<u64>, members: Seq<usize>, m: int)
    requires
        0 <= m,
    ensures
        pair_distance_sum(fps, members, m) <= 64 * pair_count(m as nat),
    decreases m,
{
    if m > 0 {
        lemma_pair_sum_bounded(fps, members, m - 1);
        lemma_spread_bounded(fps, members, m - 1, m - 1);
    }
}

/// Computes the similarity of a group without ever holding the full sum of
/// its distances: the sum is kept as `avg * pairs + rest` with `rest < pairs`.
pub(crate) fn similarity_of(fps: &Vec<u64>, members: &Vec<usize>) -> (percent: u32)
    requires
        valid_members(members@, fps.len() as nat),
    ensures
        percent == similarity_percent(fps@, members@),
        percent <= 100,
{
    let m = members.len();
    if m < 2 {
        return 100;
    }
    proof {
        lemma_pair_count_closed(m as nat);
        assert((m as int) * (m - 1) < 0x1_0000_0000_0000_0000_0000_0000_0000_0000) by (nonlinear_arith)
            requires
                2 <= m < 0x1_0000_0000_0000_0000,
        ;
        assert((m as int) * (m - 1) >= 2) by (nonlinear_arith)
            requires
                2 <= m,
        ;
    }
    let pairs: u128 = (m as u128) * ((m - 1) as u128) / 2;
    assert(pairs == pair_count(m as nat));
    assert(pairs < 0x8000_0000_0000_0000_0000_0000_0000_0000);
    let mut avg: u32 = 0;
    let mut rest: u128 = 0;
    let mut j: usize = 1;
    assert(pair_distance_sum(fps@, members@, 1) == 0) by {
        reveal_with_fuel(pair_distance_sum, 2);
        reveal_with_fuel(spread, 2);
    }
    while j < m
        invariant
            m == members.len(),
            m >= 2,
            1 <= j <= m,
            valid_members(members@, fps.len() as nat),
            pairs == pair_count(m as nat),
            1 <= pairs < 0x8000_0000_0000_0000_0000_0000_0000_0000,
            rest < pairs,
            avg <= 64,
            pair_distance_sum(fps@, members@, j as int) == avg * pairs + rest,
        decreases m - j,
    {
        let mut i: usize = 0;
        while i < j
            invariant
                m == members.len(),
                j < m,
                i <= j,
                valid_members(members@, fps.len() as nat),
                pairs == pair_count(m as nat),
                1 <= pairs < 0x8000_0000_0000_0000_0000_0000_0000_0000,
                rest < pairs,
                avg <= 64,
                pair_distance_sum(fps@, members@, j as int) + spread(
                    fps@,
                    members@,
                    j as int,
                    i as int,
                ) == avg * pairs + rest,
            decreases j - i,
        {
            let d = hamming_distance(fps[members[i]], fps[members[j]]);
            let ghost sum = pair_distance_sum(fps@, members@, j as int) + spread(
                fps@,
                members@,
                j as int,
                i + 1,
            );
            proof {
                lemma_pair_sum_bounded(fps@, members@, j as int);
                lemma_spread_bounded(fps@, members@, j as int, i + 1);
                lemma_pair_count_monotone((j + 1) as nat, m as nat);
                assert(sum <= 64 * pairs);
                lemma_pair_count_closed(m as nat);
            }
            rest = rest + d as u128;
            while rest >= pairs
                invariant
                    pairs >= 1,
                    avg <= 64,
                    sum <= 64 * pairs,
                    sum == avg * pairs + rest,
                decreases rest,
            {
                assert((avg + 1) * pairs == avg * pairs + pairs) by (nonlinear_arith);
                assert(avg + 1 <= 64) by (nonlinear_arith)
                    requires
                        (avg + 1) * pairs <= 64 * pairs,
                        pairs >= 1,
                ;
                rest = rest - pairs;
                avg = avg + 1;
            }
            i += 1;
        }
        j += 1;
    }
    // a hundred times the rest, again as `extra * pairs + left` with `left < pairs`
    let mut extra: u32 = 0;
    let mut left: u128 = 0;
    let mut n: u32 = 0;
    assert(0 * rest == 0 * pairs + 0) by (nonlinear_arith);
    while n < 100
        invariant
            n <= 100,
            extra <= n,
            1 <= pairs < 0x8000_0000_0000_0000_0000_0000_0000_0000,
            rest < pairs,
            left < pairs,
            n * rest == extra * pairs + left,
        decreases 100 - n,
    {
        assert((n + 1) * rest == n * rest + rest) by (nonlinear_arith);
        assert((extra + 1) * pairs == extra * pairs + pairs) by (nonlinear_arith);
        left = left + rest;
        if left >= pairs {
            left = left - pairs;
            extra = extra + 1;
        }
        n = n + 1;
    }
    let whole: u32 = 100 * avg + extra;
    let off: u32 = whole / 64;
    proof {
        let sum = pair_distance_sum(fps@, members@, m as int) as int;
        lemma_pair_sum_bounded(fps@, members@, m as int);
        assert(100 * sum == whole * pairs + left) by (nonlinear_arith)
            requires
                sum == avg * pairs + rest,
                100 * rest == extra * pairs + left,
                whole == 100 * avg + extra,
        ;
        vstd::arithmetic::div_mod::lemma_fundamental_div_mod_converse(
            100 * sum,
            pairs as int,
            whole as int,
            left as int,
        );
        vstd::arithmetic::div_mod::lemma_div_denominator(100 * sum, pairs as int, 64);
        assert(whole <= 6400) by (nonlinear_arith)
            requires
                100 * sum == whole * pairs + left,
                sum <= 64 * pairs,
                pairs >= 1,
                left >= 0,
        ;
        assert(off == distance_percent(fps@, members@));
    }
    100 - off
}

/// All members of the group are at the distance `c` from each other.
pub open spec fn evenly_spread(fps: Seq<u64>, members: Seq<usize>, c: nat) -> bool {
    forall|i: int, j: int|
        0 <= i < j < members.len() ==> distance(
            #[trigger] fps[members[i] as int],
            #[trigger] fps[members[j] as int],
        ) == c
}

/// In an evenly spread group the distances to `k` members add up to `c * k`.
proof fn lemma_even_spread(fps: Seq<u64>, members: Seq<usize>, c: nat, j: int, k: int)
    requires
        evenly_spread(fps, members, c),
        0 <= k <= j < members.len(),
    ensures
        spread(fps, members, j, k) == c * k,
    decreases k,
{
    if k > 0 {
        lemma_even_spread(fps, members, c, j, k - 1);
        assert(distance(fps[members[k - 1] as int], fps[members[j] as int]) == c);
        assert(c * k == c * (k - 1) + c) by (nonlinear_arith);
    } else {
        assert(c * k == 0) by (nonlinear_arith)
            requires
                k == 0,
        ;
    }
}

/// In an evenly spread group the distances of all pairs add up to `c` for each pair.
proof fn lemma_even_pair_sum(fps: Seq<u64>, members: Seq<usize>, c: nat, m: int)
    requires
        evenly_spread(fps, members, c),
        0 <= m <= members.len(),
    ensures
        pair_distance_sum(fps, members, m) == c * pair_count(m as nat),
    decreases m,
{
    if m > 0 {
        lemma_even_pair_sum(fps, members, c, m - 1);
        lemma_even_spread(fps, members, c, m - 1, m - 1);
        let p = pair_count((m - 1) as nat);
        assert(c * (p + (m - 1)) == c * p + c * (m - 1)) by (nonlinear_arith);
    } else {
        assert(c * pair_count(0) == 0) by (nonlinear_arith)
            requires
                pair_count(0) == 0,
        ;
    }
}

/// The similarity lies within one point of the exact value: with `off`
/// for what is taken off a hundred, `off` is at most a hundred times the
/// sum over 64 for each pair, and `off + 1` is more.
pub proof fn lemma_similarity_is_close(fps: Seq<u64>, members: Seq<usize>)
    requires
        members.len() >= 2,
    ensures
        similarity_percent(fps, members) <= 100,
        similarity_percent(fps, members) == 100 - distance_percent(fps, members),
        distance_percent(fps, members) * (64 * pair_count(members.len())) <= 100
            * pair_distance_sum(fps, members, members.len() as int),
        100 * pair_distance_sum(fps, members, members.len() as int) < (distance_percent(
            fps,
            members,
        ) + 1) * (64 * pair_count(members.len())),
{
    let m = members.len();
    let p = pair_count(m);
    let x = 100 * pair_distance_sum(fps, members, m as int);
    let d = (p * 64) as int;
    lemma_pair_count_monotone(2, m);
    assert(pair_count(2) == 1) by {
        reveal_with_fuel(pair_count, 3);
    }
    lemma_pair_sum_bounded(fps, members, m as int);
    vstd::arithmetic::div_mod::lemma_fundamental_div_mod(x as int, d);
    let q = x as int / d;
    assert(q >= 0 && q <= 100 && q * d <= x < (q + 1) * d) by (nonlinear_arith)
        requires
            x == d * q + x as int % d,
            0 <= x as int % d < d,
            0 <= x <= 100 * d,
            d > 0,
    ;
    assert(q * (64 * p) == q * d && (q + 1) * (64 * p) == (q + 1) * d) by (nonlinear_arith)
        requires
            d == p * 64,
    ;
}

/// A group whose members are all at the distance `c` from each other is
/// `100 - 100 * c / 64` percent similar. So a group of identical
/// fingerprints is 100 percent similar, and a pair at the largest distance
/// 0 percent.
pub proof fn lemma_similarity_of_even_group(fps: Seq<u64>, members: Seq<usize>, c: nat)
    requires
        members.len() >= 2,
        evenly_spread(fps, members, c),
        c <= FINGERPRINT_BITS,
    ensures
        similarity_percent(fps, members) == 100 - (100 * c) / 64,
        c == 0 ==> similarity_percent(fps, members) == 100,
        c == FINGERPRINT_BITS ==> similarity_percent(fps, members) == 0,
{
    let m = members.len();
    let p = pair_count(m);
    lemma_even_pair_sum(fps, members, c, m as int);
    lemma_pair_count_monotone(2, m);
    assert(pair_count(2) == 1) by {
        reveal_with_fuel(pair_count, 3);
    }
    let x = 100 * pair_distance_sum(fps, members, m as int);
    assert(x == p * (100 * c)) by (nonlinear_arith)
        requires
            x == 100 * (c * p),
    ;
    vstd::arithmetic::div_mod::lemma_div_multiples_vanish((100 * c) as int, p as int);
    vstd::arithmetic::div_mod::lemma_div_denominator(x as int, p as int, 64);
}

} // verus!
