//! Finding the groups of linked images.

use crate::similarity::distance::hamming_distance;
use crate::similarity::links::{
    lemma_linked_has_near, has_near, keeps_near_together, lemma_linked_reflexive, lemma_linked_same_label,
    lemma_linked_symmetric, lemma_linked_transitive, lemma_near_is_linked, lemma_near_symmetric,
    linked, near,
};
use vstd::prelude::*;

verus! {

/// The pair `(a, b)` with `a < b` has been examined once the double loop of
/// `label_groups` stands at `(i, j)`.
spec fn visited(i: int, j: int, a: int, b: int) -> bool {
    a < b && (a < i || (a == i && b < j))
}

/// What holds of the labels while pairs are examined: labels stay below
/// `next`, only images with a near image carry one, equal labels imply a
/// link, and every near pair examined so far shares a label.
spec fn labelling_ok(
    fps: Seq<u64>,
    threshold: u32,
    labels: Seq<Option<usize>>,
    next: int,
    i: int,
    j: int,
) -> bool {
    &&& labels.len() == fps.len()
    &&& forall|a: int|
        0 <= a < labels.len() && (#[trigger] labels[a]) is Some ==> labels[a]->0 < next
            && has_near(fps, threshold, a)
    &&& forall|a: int, b: int|
        #![trigger labels[a], labels[b]]
        0 <= a < labels.len() && 0 <= b < labels.len() && labels[a] is Some && labels[a]
            == labels[b] ==> linked(fps, threshold, a, b)
    &&& forall|a: int, b: int|
        #![trigger visited(i, j, a, b)]
        0 <= a < b < labels.len() && visited(i, j, a, b) && near(fps, threshold, a, b)
            ==> labels[a] is Some && labels[a] == labels[b]
}

/// Image `a` is tied to the pair `(i, j)` under `labels`: it is one of the
/// two, or carries the label of one of them.
spec fn tied(labels: Seq<Option<usize>>, i: int, j: int, a: int) -> bool {
    a == i || a == j || (labels[a] is Some && (labels[a] == labels[i] || labels[a] == labels[j]))
}

/// Joining the groups of a near pair `(i, j)` keeps "equal labels imply a link".
proof fn lemma_join_keeps_links(
    fps: Seq<u64>,
    threshold: u32,
    before: Seq<Option<usize>>,
    after: Seq<Option<usize>>,
    i: int,
    j: int,
)
    requires
        before.len() == fps.len(),
        after.len() == fps.len(),
        near(fps, threshold, i, j),
        forall|a: int, b: int|
            #![trigger before[a], before[b]]
            0 <= a < before.len() && 0 <= b < before.len() && before[a] is Some && before[a]
                == before[b] ==> linked(fps, threshold, a, b),
        forall|a: int, b: int|
            #![trigger after[a], after[b]]
            0 <= a < after.len() && 0 <= b < after.len() && after[a] is Some && after[a]
                == after[b] ==> (before[a] is Some && before[a] == before[b]) || (tied(
                before,
                i,
                j,
                a,
            ) && tied(before, i, j, b)),
    ensures
        forall|a: int, b: int|
            #![trigger after[a], after[b]]
            0 <= a < after.len() && 0 <= b < after.len() && after[a] is Some && after[a]
                == after[b] ==> linked(fps, threshold, a, b),
{
    assert forall|a: int, b: int|
        #![trigger after[a], after[b]]
        0 <= a < after.len() && 0 <= b < after.len() && after[a] is Some && after[a]
            == after[b] implies linked(fps, threshold, a, b) by {
        if before[a] is Some && before[a] == before[b] {
        } else {
            lemma_tied_is_linked(fps, threshold, before, i, j, a);
            lemma_tied_is_linked(fps, threshold, before, i, j, b);
            lemma_linked_symmetric(fps, threshold, b, i);
            lemma_linked_transitive(fps, threshold, a, i, b);
        }
    }
}

/// An image tied to a near pair is linked to the pair's first image.
proof fn lemma_tied_is_linked(
    fps: Seq<u64>,
    threshold: u32,
    labels: Seq<Option<usize>>,
    i: int,
    j: int,
    a: int,
)
    requires
        labels.len() == fps.len(),
        0 <= a < labels.len(),
        near(fps, threshold, i, j),
        tied(labels, i, j, a),
        forall|x: int, y: int|
            #![trigger labels[x], labels[y]]
            0 <= x < labels.len() && 0 <= y < labels.len() && labels[x] is Some && labels[x]
                == labels[y] ==> linked(fps, threshold, x, y),
    ensures
        linked(fps, threshold, a, i),
{
    lemma_near_is_linked(fps, threshold, i, j);
    lemma_linked_symmetric(fps, threshold, i, j);
    lemma_linked_reflexive(fps, threshold, i);
    if a == i {
    } else if a == j {
    } else if labels[a] == labels[i] {
        assert(linked(fps, threshold, a, i));
    } else {
        assert(labels[a] == labels[j]);
        assert(linked(fps, threshold, a, j));
        lemma_linked_transitive(fps, threshold, a, j, i);
    }
}

/// Gives every image that carries the label `from` the label `to`.
fn relabel(labels: &mut Vec<Option<usize>>, from: usize, to: usize)
    ensures
        final(labels).len() == old(labels).len(),
        forall|k: int|
            0 <= k < old(labels).len() ==> #[trigger] final(labels)[k] == if old(labels)[k]
                == Some(from) {
                Some(to)
            } else {
                old(labels)[k]
            },
{
    let n = labels.len();
    let mut k: usize = 0;
    while k < n
        invariant
            k <= n,
            labels.len() == n,
            n == old(labels).len(),
            forall|x: int|
                0 <= x < k ==> #[trigger] labels[x] == if old(labels)[x] == Some(from) {
                    Some(to)
                } else {
                    old(labels)[x]
                },
            forall|x: int| k <= x < n ==> #[trigger] labels[x] == old(labels)[x],
        decreases n - k,
    {
        if labels[k] == Some(from) {
            labels.set(k, Some(to));
        }
        k += 1;
    }
}

/// Labels the images so that two of them share a label exactly when they are
/// linked: every pair is examined once, and a pair within the threshold
/// founds a group, joins one, or merges two.
pub fn label_groups(fps: &Vec<u64>, threshold: u32) -> (labels: Vec<Option<usize>>)
    ensures
        labels.len() == fps.len(),
        forall|a: int|
            0 <= a < fps.len() ==> ((#[trigger] labels@[a]) is Some <==> has_near(
                fps@,
                threshold,
                a,
            )),
        forall|a: int, b: int|
            #![trigger linked(fps@, threshold, a, b)]
            0 <= a < fps.len() && 0 <= b < fps.len() && a != b ==> ((labels@[a] is Some
                && labels@[a] == labels@[b]) <==> linked(fps@, threshold, a, b)),
{
    let n = fps.len();
    let mut labels: Vec<Option<usize>> = Vec::new();
    while labels.len() < n
        invariant
            labels.len() <= n,
            forall|a: int| 0 <= a < labels.len() ==> (#[trigger] labels[a]) is None,
        decreases n - labels.len(),
    {
        labels.push(None);
    }
    let mut next: usize = 0;
    let mut i: usize = 0;
    while i < n
        invariant
            n == fps.len(),
            i <= n,
            next <= i,
            labelling_ok(fps@, threshold, labels@, next as int, i as int, 0),
        decreases n - i,
    {
        let mut j: usize = i + 1;
        assert(labelling_ok(fps@, threshold, labels@, next as int, i as int, j as int)) by {
            assert forall|a: int, b: int|
                #![trigger visited(i as int, j as int, a, b)]
                visited(i as int, j as int, a, b) implies visited(i as int, 0, a, b) by {}
        }
        while j < n
            invariant
                n == fps.len(),
                i < n,
                i < j <= n,
                next <= i + 1,
                labels[i as int] is None ==> next <= i,
                labelling_ok(fps@, threshold, labels@, next as int, i as int, j as int),
            decreases n - j,
        {
            let d = hamming_distance(fps[i], fps[j]);
            let ghost before = labels@;
            let ghost next_before = next as int;
            if d <= threshold {
                assert(near(fps@, threshold, i as int, j as int));
                proof {
                    lemma_near_symmetric(fps@, threshold, i as int, j as int);
                }
                let li = labels[i];
                let lj = labels[j];
                match (li, lj) {
                    (None, None) => {
                        labels.set(i, Some(next));
                        labels.set(j, Some(next));
                        next = next + 1;
                    },
                    (Some(g), None) => {
                        labels.set(j, Some(g));
                    },
                    (None, Some(g)) => {
                        labels.set(i, Some(g));
                    },
                    (Some(gi), Some(gj)) => {
                        if gi != gj {
                            relabel(&mut labels, gj, gi);
                        }
                    },
                }
                proof {
                    lemma_join_keeps_links(
                        fps@,
                        threshold,
                        before,
                        labels@,
                        i as int,
                        j as int,
                    );
                    assert forall|a: int, b: int|
                        #![trigger visited(i as int, j + 1, a, b)]
                        0 <= a < b < labels.len() && visited(i as int, j + 1, a, b) && near(
                            fps@,
                            threshold,
                            a,
                            b,
                        ) implies labels[a] is Some && labels[a] == labels[b] by {
                        if a == i && b == j {
                        } else {
                            assert(visited(i as int, j as int, a, b));
                            assert(before[a] is Some && before[a] == before[b]);
                        }
                    }
                }
            } else {
                assert forall|a: int, b: int|
                    #![trigger visited(i as int, j + 1, a, b)]
                    0 <= a < b < labels.len() && visited(i as int, j + 1, a, b) && near(
                        fps@,
                        threshold,
                        a,
                        b,
                    ) implies labels[a] is Some && labels[a] == labels[b] by {
                    assert(visited(i as int, j as int, a, b));
                }
            }
            j = j + 1;
        }
        i = i + 1;
        assert(labelling_ok(fps@, threshold, labels@, next as int, i as int, 0)) by {
            assert forall|a: int, b: int|
                #![trigger visited(i as int, 0, a, b)]
                0 <= a < b < labels.len() && visited(i as int, 0, a, b) implies visited(
                i - 1,
                n as int,
                a,
                b,
            ) by {}
        }
    }
    proof {
        lemma_labels_match_links(fps@, threshold, labels@, next as int);
    }
    labels
}

/// The label of image `a` as a number, with a fresh one for an image without label.
spec fn label_number(labels: Seq<Option<usize>>, a: int) -> int {
    if 0 <= a < labels.len() {
        match labels[a] {
            Some(g) => g as int,
            None => labels.len() + a,
        }
    } else {
        -1 - a
    }
}

/// Once every pair has been examined, labels and links say the same.
proof fn lemma_labels_match_links(
    fps: Seq<u64>,
    threshold: u32,
    labels: Seq<Option<usize>>,
    next: int,
)
    requires
        next <= fps.len(),
        labelling_ok(fps, threshold, labels, next, fps.len() as int, 0),
    ensures
        forall|a: int|
            0 <= a < fps.len() ==> ((#[trigger] labels[a]) is Some <==> has_near(
                fps,
                threshold,
                a,
            )),
        forall|a: int, b: int|
            #![trigger linked(fps, threshold, a, b)]
            0 <= a < fps.len() && 0 <= b < fps.len() && a != b ==> ((labels[a] is Some
                && labels[a] == labels[b]) <==> linked(fps, threshold, a, b)),
{
    let n = fps.len() as int;
    assert forall|a: int, b: int| near(fps, threshold, a, b) implies labels[a] is Some
        && labels[a] == labels[b] by {
        if a < b {
            assert(visited(n, 0, a, b));
        } else {
            lemma_near_symmetric(fps, threshold, a, b);
            assert(visited(n, 0, b, a));
        }
    }
    let f = |a: int| label_number(labels, a);
    assert(keeps_near_together(fps, threshold, f));
    assert forall|a: int, b: int|
        #![trigger linked(fps, threshold, a, b)]
        0 <= a < fps.len() && 0 <= b < fps.len() && a != b implies ((labels[a] is Some
            && labels[a] == labels[b]) <==> linked(fps, threshold, a, b)) by {
        if linked(fps, threshold, a, b) {
            lemma_linked_same_label(fps, threshold, f, a, b);
            assert(label_number(labels, a) == label_number(labels, b));
        }
    }
}

/// The positions `0, 1, .., n - 1` in ascending order.
pub open spec fn positions(n: nat) -> Seq<usize> {
    Seq::new(n, |i: int| i as usize)
}

/// Image `i` opens a group: it has a near image, and no earlier image is
/// linked to it.
pub open spec fn opens_group(fps: Seq<u64>, threshold: u32, i: int) -> bool {
    has_near(fps, threshold, i) && forall|j: int|
        0 <= j < i ==> !#[trigger] linked(fps, threshold, j, i)
}

/// The images among the first `k` that are linked to image `i`, ascending.
pub open spec fn group_among(fps: Seq<u64>, threshold: u32, i: int, k: nat) -> Seq<usize> {
    positions(k).filter(|x: usize| linked(fps, threshold, i, x as int))
}

/// The group of image `i`: all images linked to it, ascending.
pub open spec fn group_of(fps: Seq<u64>, threshold: u32, i: int) -> Seq<usize> {
    group_among(fps, threshold, i, fps.len())
}

/// Among the first `k` images, those that open a group, ascending.
pub open spec fn openers_among(fps: Seq<u64>, threshold: u32, k: nat) -> Seq<usize> {
    positions(k).filter(|i: usize| opens_group(fps, threshold, i as int))
}

/// The groups opened by the first `k` images, in the order of their first members.
pub open spec fn groups_among(fps: Seq<u64>, threshold: u32, k: nat) -> Seq<Seq<usize>> {
    openers_among(fps, threshold, k).map_values(|i: usize| group_of(fps, threshold, i as int))
}

/// All groups of two or more linked images, each one ascending, in the order
/// of their first members. An image without a near image is in none.
pub open spec fn groups(fps: Seq<u64>, threshold: u32) -> Seq<Seq<usize>> {
    groups_among(fps, threshold, fps.len())
}

/// The member lists of `v` as sequences.
pub open spec fn member_lists(v: Seq<Vec<usize>>) -> Seq<Seq<usize>> {
    v.map_values(|m: Vec<usize>| m@)
}

/// The first `k + 1` positions are the first `k` and then `k`.
proof fn lemma_positions_step(k: nat)
    requires
        k < usize::MAX,
    ensures
        positions(k + 1) == positions(k).push(k as usize),
{
    assert(positions(k + 1) =~= positions(k).push(k as usize));
}

/// Looking at one image more adds it to the group exactly when it is linked.
proof fn lemma_group_among_step(fps: Seq<u64>, threshold: u32, i: int, k: nat)
    requires
        k < usize::MAX,
    ensures
        group_among(fps, threshold, i, k + 1) == if linked(fps, threshold, i, k as int) {
            group_among(fps, threshold, i, k).push(k as usize)
        } else {
            group_among(fps, threshold, i, k)
        },
{
    lemma_positions_step(k);
    positions(k).lemma_filter_push(k as usize, |x: usize| linked(fps, threshold, i, x as int));
}

/// Looking at one image more adds its group exactly when it opens one.
proof fn lemma_groups_among_step(fps: Seq<u64>, threshold: u32, k: nat)
    requires
        k < usize::MAX,
    ensures
        groups_among(fps, threshold, k + 1) == if opens_group(fps, threshold, k as int) {
            groups_among(fps, threshold, k).push(group_of(fps, threshold, k as int))
        } else {
            groups_among(fps, threshold, k)
        },
{
    lemma_positions_step(k);
    positions(k).lemma_filter_push(k as usize, |i: usize| opens_group(fps, threshold, i as int));
    if opens_group(fps, threshold, k as int) {
        assert(groups_among(fps, threshold, k + 1) =~= groups_among(fps, threshold, k).push(
            group_of(fps, threshold, k as int),
        ));
    }
}

/// Lists the images that carry the label `g`, ascending.
fn members_with_label(
    fps: &Vec<u64>,
    threshold: u32,
    labels: &Vec<Option<usize>>,
    i: usize,
    g: usize,
) -> (members: Vec<usize>)
    requires
        labels.len() == fps.len(),
        i < fps.len(),
        labels@[i as int] == Some(g),
        forall|b: int|
            #![trigger linked(fps@, threshold, i as int, b)]
            0 <= b < fps.len() && b != i ==> ((labels@[b] == Some(g)) <==> linked(
                fps@,
                threshold,
                i as int,
                b,
            )),
    ensures
        members@ == group_of(fps@, threshold, i as int),
        valid_members(members@, fps.len() as nat),
{
    let n = fps.len();
    let mut members: Vec<usize> = Vec::new();
    let mut k: usize = 0;
    assert(group_among(fps@, threshold, i as int, 0) =~= Seq::<usize>::empty()) by {
        assert(positions(0) =~= Seq::<usize>::empty());
        reveal(Seq::filter);
    }
    while k < n
        invariant
            n == fps.len(),
            labels.len() == n,
            i < n,
            k <= n,
            labels@[i as int] == Some(g),
            members@ == group_among(fps@, threshold, i as int, k as nat),
            k > i ==> members.len() > 0,
            forall|x: int| 0 <= x < members.len() ==> #[trigger] members@[x] < n,
            forall|b: int|
                #![trigger linked(fps@, threshold, i as int, b)]
                0 <= b < fps.len() && b != i ==> ((labels@[b] == Some(g)) <==> linked(
                    fps@,
                    threshold,
                    i as int,
                    b,
                )),
        decreases n - k,
    {
        proof {
            lemma_group_among_step(fps@, threshold, i as int, k as nat);
            lemma_linked_reflexive(fps@, threshold, i as int);
        }
        if labels[k] == Some(g) {
            members.push(k);
        }
        k += 1;
    }
    members
}

/// Collects the groups of linked images: each group lists its members in
/// ascending order, and the groups come in the order of their first members.
pub fn collect_groups(fps: &Vec<u64>, threshold: u32) -> (out: Vec<Vec<usize>>)
    ensures
        member_lists(out@) == groups(fps@, threshold),
        forall|g: int|
            0 <= g < out.len() ==> valid_members((#[trigger] out@[g])@, fps.len() as nat),
{
    let labels = label_groups(fps, threshold);
    let n = fps.len();
    let mut out: Vec<Vec<usize>> = Vec::new();
    let mut i: usize = 0;
    assert(member_lists(out@) =~= groups_among(fps@, threshold, 0)) by {
        assert(positions(0) =~= Seq::<usize>::empty());
        reveal(Seq::filter);
    }
    while i < n
        invariant
            n == fps.len(),
            labels.len() == n,
            i <= n,
            member_lists(out@) == groups_among(fps@, threshold, i as nat),
            forall|g: int|
                0 <= g < out.len() ==> valid_members((#[trigger] out@[g])@, fps.len() as nat),
            forall|a: int|
                0 <= a < fps.len() ==> ((#[trigger] labels@[a]) is Some <==> has_near(
                    fps@,
                    threshold,
                    a,
                )),
            forall|a: int, b: int|
                #![trigger linked(fps@, threshold, a, b)]
                0 <= a < fps.len() && 0 <= b < fps.len() && a != b ==> ((labels@[a] is Some
                    && labels@[a] == labels@[b]) <==> linked(fps@, threshold, a, b)),
        decreases n - i,
    {
        proof {
            lemma_groups_among_step(fps@, threshold, i as nat);
        }
        let ghost before = out@;
        match labels[i] {
            Some(g) => {
                let mut earlier = false;
                let mut j: usize = 0;
                while j < i
                    invariant
                        j <= i,
                        i < n,
                        labels.len() == n,
                        earlier <==> exists|x: int| 0 <= x < j && labels@[x] == Some(g),
                    decreases i - j,
                {
                    if labels[j] == Some(g) {
                        earlier = true;
                    }
                    j += 1;
                }
                proof {
                    if earlier {
                        let x = choose|x: int| 0 <= x < i && labels@[x] == Some(g);
                        assert(linked(fps@, threshold, x, i as int));
                    } else {
                        assert forall|x: int| 0 <= x < i implies !#[trigger] linked(
                            fps@,
                            threshold,
                            x,
                            i as int,
                        ) by {
                            assert(!(labels@[x] == Some(g)));
                        }
                    }
                    assert(earlier <==> !opens_group(fps@, threshold, i as int));
                    assert forall|b: int|
                        #![trigger linked(fps@, threshold, i as int, b)]
                        0 <= b < fps.len() && b != i implies ((labels@[b] == Some(g)) <==> linked(
                            fps@,
                            threshold,
                            i as int,
                            b,
                        )) by {}
                }
                if !earlier {
                    let members = members_with_label(fps, threshold, &labels, i, g);
                    out.push(members);
                    assert(member_lists(out@) =~= member_lists(before).push(
                        group_of(fps@, threshold, i as int),
                    ));
                }
            },
            None => {
                assert(!opens_group(fps@, threshold, i as int));
            },
        }
        i += 1;
    }
    out
}

/// Every member of `members` is a position below `n`, and there is at least one.
pub open spec fn valid_members(members: Seq<usize>, n: nat) -> bool {
    members.len() > 0 && forall|k: int| 0 <= k < members.len() ==> #[trigger] members[k] < n
}


/// Every group has at least two members: the image that opens it and an
/// image near that one.
pub proof fn lemma_group_has_two(fps: Seq<u64>, threshold: u32, i: int)
    requires
        0 <= i < fps.len(),
        fps.len() <= usize::MAX,
        opens_group(fps, threshold, i),
    ensures
        group_of(fps, threshold, i).len() >= 2,
        group_of(fps, threshold, i).contains(i as usize),
{
    let all = positions(fps.len());
    let pred = |x: usize| linked(fps, threshold, i, x as int);
    let group = group_of(fps, threshold, i);
    let b = choose|b: int| near(fps, threshold, i, b);
    lemma_near_is_linked(fps, threshold, i, b);
    lemma_linked_reflexive(fps, threshold, i);
    assert(all[i] == i as usize && all[b] == b as usize);
    all.lemma_filter_contains(pred, i);
    all.lemma_filter_contains(pred, b);
    let x = choose|x: int| 0 <= x < group.len() && group[x] == all[i];
    let y = choose|y: int| 0 <= y < group.len() && group[y] == all[b];
    assert(x != y);
}


/// Every image that has a near image belongs to a group: the first image
/// linked to it opens one.
pub proof fn lemma_near_image_is_grouped(fps: Seq<u64>, threshold: u32, a: int) -> (i: int)
    requires
        has_near(fps, threshold, a),
    ensures
        0 <= i <= a,
        opens_group(fps, threshold, i),
        linked(fps, threshold, i, a),
    decreases a,
{
    if exists|j: int| 0 <= j < a && linked(fps, threshold, j, a) {
        let j = choose|j: int| 0 <= j < a && linked(fps, threshold, j, a);
        lemma_linked_has_near(fps, threshold, j, a);
        let i = lemma_near_image_is_grouped(fps, threshold, j);
        lemma_linked_transitive(fps, threshold, i, j, a);
        i
    } else {
        lemma_linked_reflexive(fps, threshold, a);
        a
    }
}

/// No image belongs to two groups: two images that open groups and are
/// linked to one image are one and the same.
pub proof fn lemma_one_group_each(fps: Seq<u64>, threshold: u32, i: int, j: int, a: int)
    requires
        opens_group(fps, threshold, i),
        opens_group(fps, threshold, j),
        linked(fps, threshold, i, a),
        linked(fps, threshold, j, a),
    ensures
        i == j,
{
    lemma_linked_symmetric(fps, threshold, j, a);
    lemma_linked_transitive(fps, threshold, i, a, j);
    lemma_linked_symmetric(fps, threshold, i, j);
}

/// An image without a near image belongs to no group.
pub proof fn lemma_lone_image_is_in_no_group(fps: Seq<u64>, threshold: u32, i: int, a: int)
    requires
        0 <= a < fps.len(),
        fps.len() <= usize::MAX,
        !has_near(fps, threshold, a),
        opens_group(fps, threshold, i),
    ensures
        !group_of(fps, threshold, i).contains(a as usize),
{
    let all = positions(fps.len());
    let pred = |x: usize| linked(fps, threshold, i, x as int);
    let group = group_of(fps, threshold, i);
    if group.contains(a as usize) {
        let k = choose|k: int| 0 <= k < group.len() && group[k] == a as usize;
        all.lemma_filter_pred(pred, k);
        if i != a {
            lemma_linked_has_near(fps, threshold, i, a);
        }
    }
}


/// No group has more members than there are images.
pub proof fn lemma_groups_fit(fps: Seq<u64>, threshold: u32, g: int)
    requires
        0 <= g < groups(fps, threshold).len(),
    ensures
        groups(fps, threshold)[g].len() <= fps.len(),
{
    let openers = openers_among(fps, threshold, fps.len());
    let i = openers[g];
    positions(fps.len()).lemma_filter_len(|x: usize| linked(fps, threshold, i as int, x as int));
}

} // verus!
