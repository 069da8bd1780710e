use vault_index::hashing::{hash_bytes, hash_chunks, to_hex, ContentHasher};

#[test]
fn the_hash_of_nothing_is_the_known_digest() {
    assert_eq!(
        hash_bytes(b""),
        "af1349b9f5f9a1a6a0404dea36dcc9499bcb25c9adc112b7cc9a93cae41f3262"
    );
}

#[test]
fn the_hash_is_the_digest_that_blake3_gives() {
    let data = b"the quick brown fox";
    assert_eq!(hash_bytes(data), blake3::hash(data).to_hex().to_string());
    assert_eq!(hash_bytes(data).len(), 64);
}

#[test]
fn equal_bytes_have_equal_hashes() {
    let first = vec![1u8, 2, 3, 4, 5];
    let second = vec![1u8, 2, 3, 4, 5];
    assert_eq!(hash_bytes(&first), hash_bytes(&second));
    assert_eq!(hash_bytes(&first), hash_bytes(&first));
}

#[test]
fn other_bytes_have_another_hash() {
    assert_ne!(hash_bytes(b"abc"), hash_bytes(b"abd"));
}

#[test]
fn hashing_in_chunks_gives_the_hash_of_the_whole() {
    let whole = b"hello, world of chunks".to_vec();
    let chunks = vec![whole[..5].to_vec(), Vec::new(), whole[5..9].to_vec(), whole[9..].to_vec()];
    assert_eq!(hash_chunks(&chunks), hash_bytes(&whole));
    assert_eq!(hash_chunks(&vec![]), hash_bytes(b""));
}

#[test]
fn a_hasher_can_be_read_and_fed_on() {
    let mut h = ContentHasher::new();
    h.update(b"ab");
    assert_eq!(h.finish(), hash_bytes(b"ab"));
    h.update(b"c");
    assert_eq!(h.finish(), hash_bytes(b"abc"));
}

#[test]
fn hex_is_lower_case_with_the_high_digit_first() {
    assert_eq!(to_hex(&[0x00, 0x0f, 0xa5, 0xff]), "000fa5ff");
    assert_eq!(to_hex(&[]), "");
}
