use vault_index::similarity::distance::count_bits;
use vault_index::similarity::{
    collect_groups, find_similar_images, fingerprint_from_flags, hamming_distance, label_groups,
    ImageEntry, SimilarGroup,
};

fn image(hash: &str, fingerprint: u64, size: u64) -> ImageEntry {
    ImageEntry { hash: hash.to_string(), fingerprint, size }
}

#[test]
fn distance_of_equal_fingerprints_is_zero() {
    assert_eq!(hamming_distance(0xdead_beef, 0xdead_beef), 0);
}

#[test]
fn distance_counts_differing_bits() {
    assert_eq!(hamming_distance(0b1011, 0b0001), 2);
    assert_eq!(hamming_distance(0, u64::MAX), 64);
    assert_eq!(hamming_distance(1 << 63, 0), 1);
}

#[test]
fn distance_is_symmetric() {
    assert_eq!(hamming_distance(0xf0f0, 0x1234), hamming_distance(0x1234, 0xf0f0));
}

#[test]
fn no_images_give_no_groups() {
    assert_eq!(find_similar_images(&vec![], 10), Vec::<SimilarGroup>::new());
}

#[test]
fn a_single_image_is_in_no_group() {
    assert_eq!(find_similar_images(&vec![image("a", 7, 1)], 64), Vec::<SimilarGroup>::new());
}

#[test]
fn threshold_zero_groups_identical_fingerprints_only() {
    let images = vec![image("a", 0xff, 10), image("b", 0xff, 20), image("c", 0xff00, 30)];
    let groups = find_similar_images(&images, 0);
    assert_eq!(
        groups,
        vec![SimilarGroup { best: "b".to_string(), others: vec!["a".to_string()], similarity: 100 }]
    );
}

#[test]
fn a_large_threshold_groups_everything() {
    let images = vec![image("a", 0xff, 10), image("b", 0xff, 20), image("c", 0xff00, 30)];
    let groups = find_similar_images(&images, 64);
    assert_eq!(groups.len(), 1);
    assert_eq!(groups[0].best, "c");
    assert_eq!(groups[0].others, vec!["a".to_string(), "b".to_string()]);
    // distances 0, 16, 16: 3200 / (64 * 3) is 16 rounded down, so 84
    assert_eq!(groups[0].similarity, 84);
}

#[test]
fn a_pair_at_the_largest_distance_is_zero_percent_similar() {
    let images = vec![image("a", 0, 1), image("b", u64::MAX, 1)];
    let groups = find_similar_images(&images, 64);
    assert_eq!(
        groups,
        vec![SimilarGroup { best: "b".to_string(), others: vec!["a".to_string()], similarity: 0 }]
    );
}

#[test]
fn similarity_is_rounded_once() {
    // one pair at distance 1: 100 / 64 is 1 rounded down, so 99
    let images = vec![image("a", 0b0, 5), image("b", 0b1, 4)];
    let groups = find_similar_images(&images, 1);
    assert_eq!(groups[0].similarity, 99);
    assert_eq!(groups[0].best, "a");
    // distances 0, 1, 1: 200 / (64 * 3) is 1 rounded down, so 99
    let images = vec![image("a", 0, 1), image("b", 0, 1), image("c", 1, 1)];
    assert_eq!(find_similar_images(&images, 1)[0].similarity, 99);
}

#[test]
fn one_bits_are_counted() {
    assert_eq!(count_bits(0), 0);
    assert_eq!(count_bits(0b1011), 3);
    assert_eq!(count_bits(u64::MAX), 64);
    assert_eq!(count_bits(1 << 63), 1);
}

#[test]
fn chains_of_near_images_form_one_group() {
    // 0 - 1 - 3 - 7: neighbours are at distance 1, the ends at distance 3
    let images = vec![image("a", 0, 1), image("b", 1, 1), image("c", 3, 1), image("d", 7, 9)];
    let groups = find_similar_images(&images, 1);
    assert_eq!(groups.len(), 1);
    assert_eq!(groups[0].best, "d");
    assert_eq!(groups[0].others, vec!["a".to_string(), "b".to_string(), "c".to_string()]);
    // distances 1, 2, 3, 1, 2, 1: 1000 / (64 * 6) is 2 rounded down, so 98
    assert_eq!(groups[0].similarity, 98);
}

#[test]
fn two_groups_found_apart_are_merged_by_a_later_pair() {
    // pairs (0,1) and (2,3) found first, then (1,2) joins the two groups
    let fps = vec![0b0000u64, 0b0001, 0b0111, 0b1111, 0xffff_0000];
    let labels = label_groups(&fps, 1);
    assert!(labels[0].is_some());
    assert_eq!(labels[0], labels[1]);
    assert_eq!(labels[2], labels[3]);
    assert_ne!(labels[0], labels[2]);
    assert_eq!(labels[4], None);
    let joined = label_groups(&fps, 2);
    assert_eq!(joined[0], joined[3]);
    assert_eq!(joined[4], None);
    assert_eq!(collect_groups(&fps, 2), vec![vec![0usize, 1, 2, 3]]);
}

#[test]
fn larger_groups_come_first() {
    let images = vec![
        image("u1", 0x1, 1),
        image("t1", 0xff00, 1),
        image("u2", 0x1, 2),
        image("t2", 0xff00, 2),
        image("t3", 0xff00, 3),
        image("alone", 0xffff_ffff_0000_0000, 9),
    ];
    let groups = find_similar_images(&images, 0);
    assert_eq!(groups.len(), 2);
    assert_eq!(groups[0].best, "t3");
    assert_eq!(groups[0].others, vec!["t1".to_string(), "t2".to_string()]);
    assert_eq!(groups[1].best, "u2");
    assert_eq!(groups[1].others, vec!["u1".to_string()]);
}

#[test]
fn groups_of_one_size_keep_the_order_of_their_first_members() {
    let images =
        vec![image("x1", 0xa, 1), image("y1", 0xb00, 1), image("y2", 0xb00, 1), image("x2", 0xa, 1)];
    let groups = find_similar_images(&images, 0);
    assert_eq!(groups.len(), 2);
    assert_eq!(groups[0].best, "x2");
    assert_eq!(groups[1].best, "y2");
}

#[test]
fn the_largest_file_represents_the_group_and_the_last_wins_a_tie() {
    let images = vec![image("a", 5, 300), image("b", 5, 100), image("c", 5, 300)];
    let groups = find_similar_images(&images, 0);
    assert_eq!(groups[0].best, "c");
    assert_eq!(groups[0].others, vec!["a".to_string(), "b".to_string()]);
    let images = vec![image("a", 5, 301), image("b", 5, 100), image("c", 5, 300)];
    assert_eq!(find_similar_images(&images, 0)[0].best, "a");
}

#[test]
fn flags_become_the_bits_of_a_fingerprint() {
    assert_eq!(fingerprint_from_flags(&vec![]), 0);
    assert_eq!(fingerprint_from_flags(&vec![true, false, true, true]), 0b1101);
    let mut flags = vec![false; 63];
    flags[62] = true;
    assert_eq!(fingerprint_from_flags(&flags), 1 << 62);
    assert_eq!(fingerprint_from_flags(&vec![true; 70]), u64::MAX);
}
