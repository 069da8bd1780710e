use vault_index::records::{DeletedEntry, FileMeta, SnapshotInfo, VaultError};
use vault_index::scan::{begin_scan, complete_scan, index_file, PreviousFile, WalkedFile};
use vault_index::vault::Vault;

fn walked(path: &str, size: u64, hash: &str) -> WalkedFile {
    WalkedFile {
        path: path.to_string(),
        size,
        modified: "now".to_string(),
        hash: hash.to_string(),
    }
}

fn meta(path: &str, size: u64, modified: &str, category: &str) -> FileMeta {
    FileMeta {
        path: path.to_string(),
        size,
        modified: modified.to_string(),
        category: category.to_string(),
    }
}

fn previous_of(vault: &Vault, folder: &str, on_disk: &[bool]) -> Vec<PreviousFile> {
    let entries = begin_scan(&vault.index, folder);
    assert_eq!(entries.len(), on_disk.len());
    let mut out = Vec::new();
    for (e, d) in entries.into_iter().zip(on_disk.iter()) {
        out.push(PreviousFile { hash: e.hash, meta: e.meta, on_disk: *d });
    }
    out
}

#[test]
fn a_first_scan_indexes_what_the_walk_found() {
    let mut vault = Vault::new();
    let files = vec![walked("/data/a.png", 10, "ha"), walked("/data/b.txt", 20, "hb")];
    let previous = previous_of(&vault, "/data", &[]);
    let report =
        complete_scan(&mut vault, "/data", "first", 1000, true, &files, &previous).unwrap();
    assert_eq!(report.indexed, 2);
    assert_eq!(report.deletions, Vec::<DeletedEntry>::new());
    assert_eq!(
        report.snapshot,
        SnapshotInfo {
            name: "first".to_string(),
            timestamp: 1000,
            file_count: 2,
            folder_path: "/data".to_string(),
        }
    );
    assert_eq!(vault.index.get("ha"), Some(meta("/data/a.png", 10, "now", "image")));
    assert_eq!(vault.index.get("hb"), Some(meta("/data/b.txt", 20, "now", "document")));
    assert_eq!(vault.snapshots.list(), vec![report.snapshot]);
    assert_eq!(vault.history.len(), 0);
}

#[test]
fn a_scan_logs_and_drops_what_is_gone_and_keeps_the_rest() {
    let mut vault = Vault::new();
    vault.index.put("h1", meta("/data/one.txt", 1, "old", "document"));
    vault.index.put("h2", meta("/data/two.txt", 2, "old", "document"));
    vault.index.put("h3", meta("/data/three.png", 3, "old", "image"));
    vault.index.put("h4", meta("/data/four.bin", 4, "old", "other"));
    vault.index.put("out", meta("/elsewhere/x", 9, "old", "other"));
    // one.txt is found again; two.txt and three.png are gone from the disk;
    // four.bin was not read by the walk but is still on disk
    let previous = previous_of(&vault, "/data", &[true, false, false, true]);
    let files = vec![walked("/data/one.txt", 11, "h1")];
    let report =
        complete_scan(&mut vault, "/data", "nightly", 2000, true, &files, &previous).unwrap();
    assert_eq!(report.indexed, 1);
    assert_eq!(report.deletions.len(), 2);
    assert_eq!(
        report.deletions[0],
        DeletedEntry {
            hash: "h2".to_string(),
            path: "/data/two.txt".to_string(),
            name: "two.txt".to_string(),
            size: 2,
            category: "document".to_string(),
            deleted_at: 2000,
            snapshot_name: "nightly".to_string(),
        }
    );
    assert_eq!(report.deletions[1].hash, "h3");
    assert_eq!(report.deletions[1].snapshot_name, "nightly");
    assert_eq!(vault.index.len(), 3);
    assert_eq!(vault.index.get("h1"), Some(meta("/data/one.txt", 11, "now", "document")));
    assert_eq!(vault.index.get("h2"), None);
    assert_eq!(vault.index.get("h3"), None);
    assert_eq!(vault.index.get("h4"), Some(meta("/data/four.bin", 4, "old", "other")));
    assert_eq!(vault.index.get("out"), Some(meta("/elsewhere/x", 9, "old", "other")));
    assert_eq!(vault.history.list(), report.deletions);
    assert_eq!(vault.snapshots.list()[0].file_count, 1);
}

#[test]
fn a_file_found_again_under_another_path_is_not_a_deletion() {
    let mut vault = Vault::new();
    vault.index.put("h1", meta("/data/old_name.txt", 1, "old", "document"));
    let previous = previous_of(&vault, "/data", &[false]);
    let files = vec![walked("/data/new_name.txt", 1, "h1")];
    let report = complete_scan(&mut vault, "/data", "s", 5, true, &files, &previous).unwrap();
    assert_eq!(report.deletions, Vec::<DeletedEntry>::new());
    assert_eq!(vault.index.get("h1").unwrap().path, "/data/new_name.txt");
}

#[test]
fn two_walked_files_of_one_content_leave_one_record() {
    let mut vault = Vault::new();
    let files = vec![walked("/d/copy1.jpg", 5, "same"), walked("/d/copy2.jpg", 5, "same")];
    let report = complete_scan(&mut vault, "/d", "s", 1, true, &files, &vec![]).unwrap();
    assert_eq!(report.indexed, 2);
    assert_eq!(vault.index.len(), 1);
    assert_eq!(vault.index.get("same").unwrap().path, "/d/copy2.jpg");
}

#[test]
fn scans_of_one_name_are_told_apart_by_their_time() {
    let mut vault = Vault::new();
    complete_scan(&mut vault, "/d", "daily", 1, true, &vec![], &vec![]).unwrap();
    complete_scan(&mut vault, "/d", "daily", 2, true, &vec![], &vec![]).unwrap();
    let listed = vault.snapshots.list();
    assert_eq!(listed.len(), 2);
    assert_eq!(listed[0].timestamp, 2);
    assert_eq!(listed[1].timestamp, 1);
}

#[test]
fn a_single_file_is_indexed_under_its_hash() {
    let mut vault = Vault::new();
    let hash = index_file(&mut vault.index, &walked("/music/Song.MP3", 99, "hs"));
    assert_eq!(hash, "hs");
    assert_eq!(vault.index.get("hs"), Some(meta("/music/Song.MP3", 99, "now", "audio")));
}

#[test]
fn the_scan_starts_from_the_records_under_the_folder() {
    let mut vault = Vault::new();
    vault.index.put("h1", meta("C:\\Data\\a", 1, "old", "other"));
    vault.index.put("h2", meta("c:/other/b", 1, "old", "other"));
    let previous = begin_scan(&vault.index, "c:/data");
    assert_eq!(previous.len(), 1);
    assert_eq!(previous[0].hash, "h1");
}

#[test]
fn a_scan_of_a_folder_that_is_not_there_fails_and_changes_nothing() {
    let mut vault = Vault::new();
    vault.index.put("h1", meta("/gone/one.txt", 1, "old", "document"));
    let previous = previous_of(&vault, "/gone", &[false]);
    let files = vec![walked("/gone/new.txt", 2, "h2")];
    let done = complete_scan(&mut vault, "/gone", "s", 9, false, &files, &previous);
    assert_eq!(done, Err(VaultError::RootMissing));
    assert_eq!(vault.index.len(), 1);
    assert_eq!(vault.index.get("h1"), Some(meta("/gone/one.txt", 1, "old", "document")));
    assert_eq!(vault.history.len(), 0);
    assert_eq!(vault.snapshots.len(), 0);
}

#[test]
fn a_scan_leaves_the_records_of_a_sibling_folder_alone() {
    let mut vault = Vault::new();
    vault.index.put("h1", meta("/a/b/x.txt", 1, "old", "document"));
    vault.index.put("h2", meta("/a/bc/y.txt", 2, "old", "document"));
    let before = begin_scan(&vault.index, "/a/b");
    assert_eq!(before.len(), 1);
    assert_eq!(before[0].hash, "h1");
    let previous = previous_of(&vault, "/a/b", &[false]);
    let report = complete_scan(&mut vault, "/a/b", "s", 3, true, &vec![], &previous).unwrap();
    assert_eq!(report.deletions.len(), 1);
    assert_eq!(report.deletions[0].hash, "h1");
    assert_eq!(vault.index.get("h2"), Some(meta("/a/bc/y.txt", 2, "old", "document")));
}
