//! Which images belong together: those joined by a chain of near images.

use crate::similarity::distance::{
    distance, lemma_distance_bounded, lemma_distance_symmetric, lemma_distance_zero,
    FINGERPRINT_BITS,
};
use vstd::prelude::*;

verus! {

/// Images `a` and `b` are distinct positions of `fps` whose fingerprints lie
/// within `threshold` of each other.
pub open spec fn near(fps: Seq<u64>, threshold: u32, a: int, b: int) -> bool {
    &&& 0 <= a < fps.len()
    &&& 0 <= b < fps.len()
    &&& a != b
    &&& distance(fps[a], fps[b]) <= threshold
}

/// Image `a` has at least one other image within `threshold`.
pub open spec fn has_near(fps: Seq<u64>, threshold: u32, a: int) -> bool {
    exists|b: int| near(fps, threshold, a, b)
}

/// The labelling `f` gives one label to any two images that are near each other.
pub open spec fn keeps_near_together(fps: Seq<u64>, threshold: u32, f: spec_fn(int) -> int) -> bool {
    forall|a: int, b: int| #[trigger] near(fps, threshold, a, b) ==> f(a) == f(b)
}

/// Images `a` and `b` belong together: no labelling that keeps near images
/// together can tell them apart. This is the smallest equivalence relation
/// that contains `near`; `lemma_linked_iff_chained` restates it with chains.
#[verifier::opaque]
pub open spec fn linked(fps: Seq<u64>, threshold: u32, a: int, b: int) -> bool {
    forall|f: spec_fn(int) -> int| #[trigger]
        keeps_near_together(fps, threshold, f) ==> f(a) == f(b)
}

/// Every image is linked to itself.
pub proof fn lemma_linked_reflexive(fps: Seq<u64>, threshold: u32, a: int)
    ensures
        linked(fps, threshold, a, a),
{
    reveal(linked);
}

/// Images that are near each other are linked.
pub proof fn lemma_near_is_linked(fps: Seq<u64>, threshold: u32, a: int, b: int)
    requires
        near(fps, threshold, a, b),
    ensures
        linked(fps, threshold, a, b),
{
    reveal(linked);
}

/// Being linked does not depend on the order of the two images.
pub proof fn lemma_linked_symmetric(fps: Seq<u64>, threshold: u32, a: int, b: int)
    requires
        linked(fps, threshold, a, b),
    ensures
        linked(fps, threshold, b, a),
{
    reveal(linked);
}

/// Links compose: what is linked to a linked image is linked.
pub proof fn lemma_linked_transitive(fps: Seq<u64>, threshold: u32, a: int, b: int, c: int)
    requires
        linked(fps, threshold, a, b),
        linked(fps, threshold, b, c),
    ensures
        linked(fps, threshold, a, c),
{
    reveal(linked);
}

/// Being near does not depend on the order of the two images.
pub proof fn lemma_near_symmetric(fps: Seq<u64>, threshold: u32, a: int, b: int)
    requires
        near(fps, threshold, a, b),
    ensures
        near(fps, threshold, b, a),
{
    lemma_distance_symmetric(fps[a], fps[b]);
}

/// Linked images get one label from any labelling that keeps near images together.
pub proof fn lemma_linked_same_label(
    fps: Seq<u64>,
    threshold: u32,
    f: spec_fn(int) -> int,
    a: int,
    b: int,
)
    requires
        keeps_near_together(fps, threshold, f),
        linked(fps, threshold, a, b),
    ensures
        f(a) == f(b),
{
    reveal(linked);
}

/// A chain of at most `k` steps leads from image `a` to image `b`, each
/// step between two images that are near each other.
pub open spec fn chained(fps: Seq<u64>, threshold: u32, a: int, b: int, k: nat) -> bool
    decreases k,
{
    if k == 0 {
        a == b
    } else {
        chained(fps, threshold, a, b, (k - 1) as nat) || exists|m: int| #[trigger]
            near(fps, threshold, m, b) && chained(fps, threshold, a, m, (k - 1) as nat)
    }
}

/// A chain can be made one step longer at its end.
proof fn lemma_chain_extends(fps: Seq<u64>, threshold: u32, a: int, x: int, y: int, k: nat)
    requires
        chained(fps, threshold, a, x, k),
        near(fps, threshold, x, y),
    ensures
        chained(fps, threshold, a, y, k + 1),
{
}

/// Images joined by a chain are linked.
proof fn lemma_chained_is_linked(fps: Seq<u64>, threshold: u32, a: int, b: int, k: nat)
    requires
        chained(fps, threshold, a, b, k),
    ensures
        linked(fps, threshold, a, b),
    decreases k,
{
    if k == 0 {
        lemma_linked_reflexive(fps, threshold, a);
    } else if chained(fps, threshold, a, b, (k - 1) as nat) {
        lemma_chained_is_linked(fps, threshold, a, b, (k - 1) as nat);
    } else {
        let m = choose|m: int| #[trigger]
            near(fps, threshold, m, b) && chained(fps, threshold, a, m, (k - 1) as nat);
        lemma_chained_is_linked(fps, threshold, a, m, (k - 1) as nat);
        lemma_near_is_linked(fps, threshold, m, b);
        lemma_linked_transitive(fps, threshold, a, m, b);
    }
}

/// Image `x` can be reached from image `a` by some chain.
spec fn reached(fps: Seq<u64>, threshold: u32, a: int, x: int) -> bool {
    exists|k: nat| chained(fps, threshold, a, x, k)
}

/// Two images are linked exactly when a chain of near images leads from one
/// to the other.
pub proof fn lemma_linked_iff_chained(fps: Seq<u64>, threshold: u32, a: int, b: int)
    ensures
        linked(fps, threshold, a, b) <==> exists|k: nat| chained(fps, threshold, a, b, k),
{
    if exists|k: nat| chained(fps, threshold, a, b, k) {
        let k = choose|k: nat| chained(fps, threshold, a, b, k);
        lemma_chained_is_linked(fps, threshold, a, b, k);
    }
    if linked(fps, threshold, a, b) {
        let f = |x: int|
            if reached(fps, threshold, a, x) {
                1int
            } else {
                0int
            };
        assert forall|x: int, y: int| #[trigger] near(fps, threshold, x, y) implies f(x) == f(
            y,
        ) by {
            lemma_near_symmetric(fps, threshold, x, y);
            if reached(fps, threshold, a, x) {
                let k = choose|k: nat| chained(fps, threshold, a, x, k);
                lemma_chain_extends(fps, threshold, a, x, y, k);
            }
            if reached(fps, threshold, a, y) {
                let k = choose|k: nat| chained(fps, threshold, a, y, k);
                lemma_chain_extends(fps, threshold, a, y, x, k);
            }
        }
        assert(keeps_near_together(fps, threshold, f));
        lemma_linked_same_label(fps, threshold, f, a, b);
        assert(chained(fps, threshold, a, a, 0));
        assert(reached(fps, threshold, a, a));
        assert(reached(fps, threshold, a, b));
    }
}


/// An image that is linked to another one has a near image: links are made
/// of steps between near images.
pub proof fn lemma_linked_has_near(fps: Seq<u64>, threshold: u32, a: int, b: int)
    requires
        linked(fps, threshold, a, b),
        a != b,
    ensures
        has_near(fps, threshold, a),
        has_near(fps, threshold, b),
{
    if !has_near(fps, threshold, a) {
        let f = |x: int|
            if x == a {
                1int
            } else {
                0int
            };
        assert forall|x: int, y: int| #[trigger] near(fps, threshold, x, y) implies f(x) == f(
            y,
        ) by {
            lemma_near_symmetric(fps, threshold, x, y);
        }
        lemma_linked_same_label(fps, threshold, f, a, b);
    }
    if !has_near(fps, threshold, b) {
        let f = |x: int|
            if x == b {
                1int
            } else {
                0int
            };
        assert forall|x: int, y: int| #[trigger] near(fps, threshold, x, y) implies f(x) == f(
            y,
        ) by {
            lemma_near_symmetric(fps, threshold, x, y);
        }
        lemma_linked_same_label(fps, threshold, f, a, b);
    }
}


/// Two images with one fingerprint are near each other at every threshold,
/// and so belong to one group.
pub proof fn lemma_identical_are_linked(fps: Seq<u64>, threshold: u32, a: int, b: int)
    requires
        0 <= a < fps.len(),
        0 <= b < fps.len(),
        a != b,
        fps[a] == fps[b],
    ensures
        near(fps, threshold, a, b),
        linked(fps, threshold, a, b),
{
    lemma_distance_zero(fps[a], fps[b]);
    lemma_near_is_linked(fps, threshold, a, b);
}

/// At a threshold as wide as the fingerprint any two images are near each
/// other, and so all images belong to one group.
pub proof fn lemma_wide_threshold_links_all(fps: Seq<u64>, threshold: u32, a: int, b: int)
    requires
        0 <= a < fps.len(),
        0 <= b < fps.len(),
        a != b,
        threshold >= FINGERPRINT_BITS,
    ensures
        near(fps, threshold, a, b),
        linked(fps, threshold, a, b),
{
    lemma_distance_bounded(fps[a], fps[b]);
    lemma_near_is_linked(fps, threshold, a, b);
}

} // verus!
