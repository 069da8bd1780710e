use vault_index::history::{DeletionHistory, SnapshotRegistry};
use vault_index::records::{DeletedEntry, SnapshotInfo};
use vault_index::vault::{log_deletion, manual_origin, permanent_origin};

fn event(hash: &str, deleted_at: u64, origin: &str) -> DeletedEntry {
    DeletedEntry {
        hash: hash.to_string(),
        path: "/p/f.txt".to_string(),
        name: "f.txt".to_string(),
        size: 1,
        category: "document".to_string(),
        deleted_at,
        snapshot_name: origin.to_string(),
    }
}

fn snapshot(name: &str, timestamp: u64) -> SnapshotInfo {
    SnapshotInfo {
        name: name.to_string(),
        timestamp,
        file_count: 3,
        folder_path: "/p".to_string(),
    }
}

#[test]
fn deletions_are_listed_most_recent_first() {
    let mut history = DeletionHistory::new();
    history.append(event("a", 100, "manual"));
    history.append(event("b", 300, "manual"));
    history.append(event("c", 200, "permanent"));
    let listed = history.list();
    let times: Vec<u64> = listed.iter().map(|e| e.deleted_at).collect();
    assert_eq!(times, vec![300, 200, 100]);
    assert_eq!(history.len(), 3);
}

#[test]
fn deletions_of_one_time_are_listed_in_the_order_of_their_hashes() {
    let mut history = DeletionHistory::new();
    history.append(event("zz", 5, "scan"));
    history.append(event("aa", 5, "scan"));
    history.append(event("mm", 5, "scan"));
    let listed = history.list();
    let hashes: Vec<&str> = listed.iter().map(|e| e.hash.as_str()).collect();
    assert_eq!(hashes, vec!["aa", "mm", "zz"]);
}

#[test]
fn one_time_and_one_hash_name_one_event() {
    let mut history = DeletionHistory::new();
    history.append(event("a", 7, "manual"));
    history.append(event("a", 7, "permanent"));
    assert_eq!(history.list(), vec![event("a", 7, "permanent")]);
}

#[test]
fn clearing_the_history_empties_it_and_may_be_done_again() {
    let mut history = DeletionHistory::new();
    history.append(event("a", 1, "manual"));
    history.append(event("b", 2, "manual"));
    history.clear();
    assert_eq!(history.list(), Vec::<DeletedEntry>::new());
    history.clear();
    assert_eq!(history.len(), 0);
}

#[test]
fn a_deletion_by_hand_is_logged_with_what_is_known_of_the_file() {
    let mut history = DeletionHistory::new();
    let e = log_deletion(&mut history, "h1", "C:\\pics\\Cat.PNG", 77, 1234, manual_origin());
    assert_eq!(
        e,
        DeletedEntry {
            hash: "h1".to_string(),
            path: "C:\\pics\\Cat.PNG".to_string(),
            name: "Cat.PNG".to_string(),
            size: 77,
            category: "image".to_string(),
            deleted_at: 1234,
            snapshot_name: "manual".to_string(),
        }
    );
    assert_eq!(history.list(), vec![e]);
    let p = log_deletion(&mut history, "h2", "/x", 0, 1235, permanent_origin());
    assert_eq!(p.snapshot_name, "permanent");
    assert_eq!(p.category, "other");
    assert_eq!(history.list()[0], p);
}

#[test]
fn snapshots_are_listed_most_recent_first() {
    let mut registry = SnapshotRegistry::new();
    registry.append(snapshot("first", 10));
    registry.append(snapshot("third", 30));
    registry.append(snapshot("second", 20));
    let listed = registry.list();
    let names: Vec<&str> = listed.iter().map(|s| s.name.as_str()).collect();
    assert_eq!(names, vec!["third", "second", "first"]);
}

#[test]
fn a_snapshot_is_removed_by_name_and_time() {
    let mut registry = SnapshotRegistry::new();
    registry.append(snapshot("weekly", 10));
    registry.append(snapshot("weekly", 20));
    assert_eq!(registry.remove("weekly", 10), Some(snapshot("weekly", 10)));
    assert_eq!(registry.remove("weekly", 10), None);
    assert_eq!(registry.remove("other", 20), None);
    assert_eq!(registry.list(), vec![snapshot("weekly", 20)]);
}

#[test]
fn clearing_the_registry_empties_it_and_may_be_done_again() {
    let mut registry = SnapshotRegistry::new();
    registry.append(snapshot("a", 1));
    registry.clear();
    registry.clear();
    assert_eq!(registry.len(), 0);
    assert_eq!(registry.list(), Vec::<SnapshotInfo>::new());
}
