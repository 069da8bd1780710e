//! The report on similar images: each group with its representative, the
//! other members and its similarity.

use crate::similarity::grouping::{collect_groups, groups, member_lists, valid_members};
use crate::similarity::percent::{similarity_of, similarity_percent};
use crate::similarity::ranking::{largest_first, rank_by_size};
use crate::text::texts;
use vstd::prelude::*;

verus! {

/// An image offered for grouping: the content hash that names it, its
/// perceptual fingerprint and the size of its file.
#[derive(Debug, Clone, PartialEq, Eq)]
pub struct ImageEntry {
    pub hash: String,
    pub fingerprint: u64,
    pub size: u64,
}

/// A group of similar images: the hash of its representative, the hashes of
/// the other members, and how similar the members are, in percent.
#[derive(Debug, Clone, PartialEq, Eq)]
pub struct SimilarGroup {
    pub best: String,
    pub others: Vec<String>,
    pub similarity: u32,
}

/// What a `SimilarGroup` holds, as mathematical values.
#[verifier::ext_equal]
pub struct SimilarGroupView {
    pub best: Seq<char>,
    pub others: Seq<Seq<char>>,
    pub similarity: nat,
}

impl View for SimilarGroup {
    type V = SimilarGroupView;

    open spec fn view(&self) -> SimilarGroupView {
        SimilarGroupView {
            best: self.best@,
            others: texts(self.others@),
            similarity: self.similarity as nat,
        }
    }
}

/// The fingerprints of `images`, position by position.
pub open spec fn fingerprints(images: Seq<ImageEntry>) -> Seq<u64> {
    images.map_values(|e: ImageEntry| e.fingerprint)
}

/// The file sizes of `images`, position by position.
pub open spec fn sizes(images: Seq<ImageEntry>) -> Seq<u64> {
    images.map_values(|e: ImageEntry| e.size)
}

/// The representative of a group: the member with the largest file; among
/// members with files of that size, the one listed last.
pub open spec fn best_of(sizes: Seq<u64>, members: Seq<usize>) -> usize
    decreases members.len(),
{
    if members.len() == 0 {
        0
    } else if members.len() == 1 {
        members[0]
    } else {
        let before = best_of(sizes, members.drop_last());
        if sizes[members.last() as int] >= sizes[before as int] {
            members.last()
        } else {
            before
        }
    }
}

/// The hashes of the members other than `best`, in the members' order.
pub open spec fn others_of(images: Seq<ImageEntry>, members: Seq<usize>, best: usize) -> Seq<
    Seq<char>,
> {
    members.filter(other_than(best)).map_values(hash_at(images))
}

/// The test "is not `best`".
pub open spec fn other_than(best: usize) -> spec_fn(usize) -> bool {
    |x: usize| x != best
}

/// The hash of the image at a position.
pub open spec fn hash_at(images: Seq<ImageEntry>) -> spec_fn(usize) -> Seq<char> {
    |x: usize| images[x as int].hash@
}

/// What is reported of one group.
pub open spec fn summary(images: Seq<ImageEntry>, members: Seq<usize>) -> SimilarGroupView {
    let best = best_of(sizes(images), members);
    SimilarGroupView {
        best: images[best as int].hash@,
        others: others_of(images, members, best),
        similarity: similarity_percent(fingerprints(images), members),
    }
}

/// The report on `images`: one summary for each group of linked images,
/// larger groups first, groups of one size in the order of their first members.
pub open spec fn similar_groups(images: Seq<ImageEntry>, threshold: u32) -> Seq<
    SimilarGroupView,
> {
    largest_first(groups(fingerprints(images), threshold), images.len()).map_values(
        |members: Seq<usize>| summary(images, members),
    )
}

/// What each group of `v` holds.
pub open spec fn group_views(v: Seq<SimilarGroup>) -> Seq<SimilarGroupView> {
    v.map_values(|g: SimilarGroup| g@)
}

/// The fingerprints of the images, position by position.
fn fingerprints_of(images: &Vec<ImageEntry>) -> (fps: Vec<u64>)
    ensures
        fps@ == fingerprints(images@),
{
    let mut fps: Vec<u64> = Vec::new();
    let mut i: usize = 0;
    while i < images.len()
        invariant
            i <= images.len(),
            fps.len() == i,
            forall|k: int| 0 <= k < i ==> #[trigger] fps@[k] == images@[k].fingerprint,
        decreases images.len() - i,
    {
        fps.push(images[i].fingerprint);
        i += 1;
    }
    assert(fps@ =~= fingerprints(images@));
    fps
}

/// Picks the representative of a group.
fn pick_best(images: &Vec<ImageEntry>, members: &Vec<usize>) -> (best: usize)
    requires
        valid_members(members@, images.len() as nat),
    ensures
        best == best_of(sizes(images@), members@),
        best < images.len(),
{
    let mut best = members[0];
    let mut k: usize = 1;
    assert(members@.take(1).len() == 1);
    while k < members.len()
        invariant
            1 <= k <= members.len(),
            valid_members(members@, images.len() as nat),
            best == best_of(sizes(images@), members@.take(k as int)),
            best < images.len(),
        decreases members.len() - k,
    {
        let m = members[k];
        assert(members@.take(k + 1).drop_last() =~= members@.take(k as int));
        if images[m].size >= images[best].size {
            best = m;
        }
        k += 1;
    }
    assert(members@.take(members.len() as int) =~= members@);
    best
}

/// Looking at one member more adds its hash to the others unless it is the best.
proof fn lemma_others_step(images: Seq<ImageEntry>, members: Seq<usize>, m: usize, best: usize)
    ensures
        others_of(images, members.push(m), best) == if m != best {
            others_of(images, members, best).push(images[m as int].hash@)
        } else {
            others_of(images, members, best)
        },
{
    members.lemma_filter_push(m, other_than(best));
    if m != best {
        assert(others_of(images, members.push(m), best) =~= others_of(
            images,
            members,
            best,
        ).push(images[m as int].hash@));
    }
}

/// Lists the hashes of the members other than `best`.
fn list_others(images: &Vec<ImageEntry>, members: &Vec<usize>, best: usize) -> (others: Vec<
    String,
>)
    requires
        valid_members(members@, images.len() as nat),
    ensures
        texts(others@) == others_of(images@, members@, best),
{
    let mut others: Vec<String> = Vec::new();
    let mut k: usize = 0;
    assert(others_of(images@, members@.take(0), best) =~= Seq::<Seq<char>>::empty()) by {
        reveal(Seq::filter);
    }
    assert(texts(others@) =~= others_of(images@, members@.take(0), best));
    while k < members.len()
        invariant
            k <= members.len(),
            valid_members(members@, images.len() as nat),
            texts(others@) == others_of(images@, members@.take(k as int), best),
        decreases members.len() - k,
    {
        let m = members[k];
        proof {
            assert(members@.take(k + 1) =~= members@.take(k as int).push(m));
            lemma_others_step(images@, members@.take(k as int), m, best);
        }
        if m != best {
            let ghost before = others@;
            others.push(images[m].hash.clone());
            assert(texts(others@) =~= texts(before).push(images@[m as int].hash@));
        }
        k += 1;
    }
    assert(members@.take(members.len() as int) =~= members@);
    others
}

/// Reports on one group: its representative, the others, and its similarity.
fn summarise(images: &Vec<ImageEntry>, fps: &Vec<u64>, members: &Vec<usize>) -> (group:
    SimilarGroup)
    requires
        fps@ == fingerprints(images@),
        valid_members(members@, images.len() as nat),
    ensures
        group@ == summary(images@, members@),
{
    let best = pick_best(images, members);
    let others = list_others(images, members, best);
    let similarity = similarity_of(fps, members);
    SimilarGroup { best: images[best].hash.clone(), others, similarity }
}

/// Groups the images whose fingerprints are linked by distances of at most
/// `threshold`, and reports each group of two or more: its representative,
/// the other members, and its similarity. Larger groups come first.
pub fn find_similar_images(images: &Vec<ImageEntry>, threshold: u32) -> (out: Vec<SimilarGroup>)
    ensures
        group_views(out@) == similar_groups(images@, threshold),
{
    let fps = fingerprints_of(images);
    let found = collect_groups(&fps, threshold);
    let ranked = rank_by_size(&found, images.len());
    let ghost wanted = largest_first(groups(fps@, threshold), images.len() as nat);
    let mut out: Vec<SimilarGroup> = Vec::new();
    let mut g: usize = 0;
    while g < ranked.len()
        invariant
            g <= ranked.len(),
            fps@ == fingerprints(images@),
            member_lists(ranked@) == wanted,
            out.len() == g,
            forall|x: int|
                0 <= x < ranked.len() ==> valid_members(
                    (#[trigger] ranked@[x])@,
                    images.len() as nat,
                ),
            forall|x: int| 0 <= x < g ==> (#[trigger] out@[x])@ == summary(images@, wanted[x]),
        decreases ranked.len() - g,
    {
        let group = summarise(images, &fps, &ranked[g]);
        assert(member_lists(ranked@)[g as int] == ranked@[g as int]@);
        out.push(group);
        g += 1;
    }
    assert(group_views(out@) =~= similar_groups(images@, threshold));
    out
}

} // verus!
