use vault_index::hashing::hash_bytes;
use vault_index::integrity::{find_corrupted, Rehashed};

fn rehashed(hash: &str, path: &str, current: &str) -> Rehashed {
    Rehashed { hash: hash.to_string(), path: path.to_string(), current: current.to_string() }
}

#[test]
fn an_untouched_file_is_not_reported() {
    let checked = vec![rehashed("h1", "/a", "h1"), rehashed("h2", "/b", "h2")];
    assert_eq!(find_corrupted(&checked), Vec::<Rehashed>::new());
}

#[test]
fn a_changed_file_is_reported() {
    let checked =
        vec![rehashed("h1", "/a", "h1"), rehashed("h2", "/b", "zz"), rehashed("h3", "/c", "h")];
    assert_eq!(
        find_corrupted(&checked),
        vec![rehashed("h2", "/b", "zz"), rehashed("h3", "/c", "h")]
    );
}

#[test]
fn overwriting_a_file_shows_in_its_hash() {
    let indexed = hash_bytes(b"first content");
    let untouched = hash_bytes(b"first content");
    let overwritten = hash_bytes(b"other content");
    let checked = vec![
        rehashed(&indexed, "/kept", &untouched),
        rehashed(&indexed, "/changed", &overwritten),
    ];
    let corrupted = find_corrupted(&checked);
    assert_eq!(corrupted.len(), 1);
    assert_eq!(corrupted[0].path, "/changed");
}

#[test]
fn nothing_checked_nothing_reported() {
    assert_eq!(find_corrupted(&vec![]), Vec::<Rehashed>::new());
}
