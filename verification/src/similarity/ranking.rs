//! The order in which groups are reported: larger groups first.

use crate::similarity::grouping::{member_lists, valid_members};
use vstd::prelude::*;

verus! {

/// The groups of exactly `size` members, in the order in which `groups` lists them.
pub open spec fn of_size(groups: Seq<Seq<usize>>, size: nat) -> Seq<Seq<usize>> {
    groups.filter(|g: Seq<usize>| g.len() == size)
}

/// The groups of at most `max` members, larger groups before smaller ones,
/// groups of one size in the order in which `groups` lists them.
pub open spec fn largest_first(groups: Seq<Seq<usize>>, max: nat) -> Seq<Seq<usize>>
    decreases max,
{
    if max == 0 {
        of_size(groups, 0)
    } else {
        of_size(groups, max) + largest_first(groups, (max - 1) as nat)
    }
}

/// A copy of a list of members.
fn copy_members(members: &Vec<usize>) -> (copy: Vec<usize>)
    ensures
        copy@ == members@,
{
    let mut copy: Vec<usize> = Vec::new();
    let mut k: usize = 0;
    while k < members.len()
        invariant
            k <= members.len(),
            copy@ == members@.take(k as int),
        decreases members.len() - k,
    {
        copy.push(members[k]);
        assert(members@.take(k + 1) =~= members@.take(k as int).push(members@[k as int]));
        k += 1;
    }
    assert(members@.take(members.len() as int) =~= members@);
    copy
}

/// Orders the groups by size, largest first, keeping the given order among
/// groups of one size. Groups of more than `max` members are left out.
pub(crate) fn rank_by_size(groups: &Vec<Vec<usize>>, max: usize) -> (out: Vec<Vec<usize>>)
    requires
        forall|h: int| 0 <= h < groups.len() ==> valid_members((#[trigger] groups@[h])@, max as nat),
    ensures
        member_lists(out@) == largest_first(member_lists(groups@), max as nat),
        forall|g: int| 0 <= g < out.len() ==> valid_members((#[trigger] out@[g])@, max as nat),
{
    let ghost all = member_lists(groups@);
    let mut out: Vec<Vec<usize>> = Vec::new();
    let mut size: usize = max;
    assert(member_lists(out@) + largest_first(all, size as nat) =~= largest_first(
        all,
        max as nat,
    ));
    loop
        invariant_except_break
            size <= max,
            all == member_lists(groups@),
            member_lists(out@) + largest_first(all, size as nat) == largest_first(
                all,
                max as nat,
            ),
        invariant
            forall|h: int|
                0 <= h < groups.len() ==> valid_members((#[trigger] groups@[h])@, max as nat),
            forall|g: int| 0 <= g < out.len() ==> valid_members((#[trigger] out@[g])@, max as nat),
        ensures
            member_lists(out@) == largest_first(all, max as nat),
        decreases size,
    {
        let ghost base = member_lists(out@);
        let mut h: usize = 0;
        assert(of_size(all.take(0), size as nat) =~= Seq::<Seq<usize>>::empty()) by {
            reveal(Seq::filter);
        }
        assert(member_lists(out@) =~= base + of_size(all.take(0), size as nat));
        while h < groups.len()
            invariant
                h <= groups.len(),
                all == member_lists(groups@),
                member_lists(out@) == base + of_size(all.take(h as int), size as nat),
                forall|x: int|
                    0 <= x < groups.len() ==> valid_members(
                        (#[trigger] groups@[x])@,
                        max as nat,
                    ),
                forall|g: int|
                    0 <= g < out.len() ==> valid_members((#[trigger] out@[g])@, max as nat),
            decreases groups.len() - h,
        {
            proof {
                assert(all.take(h + 1) =~= all.take(h as int).push(all[h as int]));
                all.take(h as int).lemma_filter_push(
                    all[h as int],
                    |g: Seq<usize>| g.len() == size as nat,
                );
            }
            if groups[h].len() == size {
                let ghost before = out@;
                let copy = copy_members(&groups[h]);
                out.push(copy);
                assert(member_lists(out@) =~= member_lists(before).push(all[h as int]));
                assert(member_lists(out@) =~= base + of_size(all.take(h + 1), size as nat));
                assert forall|g: int| 0 <= g < out.len() implies valid_members(
                    (#[trigger] out@[g])@,
                    max as nat,
                ) by {
                    if g < before.len() {
                        assert(out@[g] == before[g]);
                    } else {
                        assert(out@[g]@ == groups@[h as int]@);
                    }
                }
            }
            h += 1;
        }
        assert(all.take(groups.len() as int) =~= all);
        if size == 0 {
            assert(member_lists(out@) =~= largest_first(all, max as nat));
            break ;
        }
        assert(member_lists(out@) + largest_first(all, (size - 1) as nat) =~= base
            + largest_first(all, size as nat));
        size = size - 1;
    }
    out
}

/// No group among those of at most `max` members has more than `max`.
proof fn lemma_ranked_sizes(groups: Seq<Seq<usize>>, max: nat, i: int)
    requires
        0 <= i < largest_first(groups, max).len(),
    ensures
        largest_first(groups, max)[i].len() <= max,
    decreases max,
{
    let first = of_size(groups, max);
    if i < first.len() {
        groups.lemma_filter_pred(|g: Seq<usize>| g.len() == max, i);
    } else {
        lemma_ranked_sizes(groups, (max - 1) as nat, i - first.len());
    }
}

/// The groups come largest first: no group is listed before a larger one.
pub proof fn lemma_largest_come_first(groups: Seq<Seq<usize>>, max: nat, i: int, j: int)
    requires
        0 <= i < j < largest_first(groups, max).len(),
    ensures
        largest_first(groups, max)[i].len() >= largest_first(groups, max)[j].len(),
    decreases max,
{
    let first = of_size(groups, max);
    if j < first.len() {
        groups.lemma_filter_pred(|g: Seq<usize>| g.len() == max, i);
        groups.lemma_filter_pred(|g: Seq<usize>| g.len() == max, j);
    } else if i < first.len() {
        groups.lemma_filter_pred(|g: Seq<usize>| g.len() == max, i);
        lemma_ranked_sizes(groups, (max - 1) as nat, j - first.len());
    } else {
        lemma_largest_come_first(groups, (max - 1) as nat, i - first.len(), j - first.len());
    }
}


/// Ranking leaves no group out: every group of at most `max` members is listed.
pub proof fn lemma_ranking_lists_every_group(groups: Seq<Seq<usize>>, max: nat, i: int)
    requires
        0 <= i < groups.len(),
        groups[i].len() <= max,
    ensures
        largest_first(groups, max).contains(groups[i]),
    decreases max,
{
    let first = of_size(groups, max);
    if groups[i].len() == max {
        groups.lemma_filter_contains(|g: Seq<usize>| g.len() == max, i);
        let k = choose|k: int| 0 <= k < first.len() && first[k] == groups[i];
        assert(largest_first(groups, max)[k] == groups[i]);
    } else {
        lemma_ranking_lists_every_group(groups, (max - 1) as nat, i);
        let rest = largest_first(groups, (max - 1) as nat);
        let k = choose|k: int| 0 <= k < rest.len() && rest[k] == groups[i];
        assert(largest_first(groups, max)[first.len() + k] == groups[i]);
    }
}

/// Ranking adds no group: every group listed is one of the groups given.
pub proof fn lemma_ranking_lists_groups_only(groups: Seq<Seq<usize>>, max: nat, k: int)
    requires
        0 <= k < largest_first(groups, max).len(),
    ensures
        groups.contains(largest_first(groups, max)[k]),
    decreases max,
{
    let first = of_size(groups, max);
    if k < first.len() {
        assert(first.contains(first[k]));
        groups.lemma_filter_contains_rev(|g: Seq<usize>| g.len() == max, first[k]);
    } else {
        lemma_ranking_lists_groups_only(groups, (max - 1) as nat, k - first.len());
    }
}

} // verus!
