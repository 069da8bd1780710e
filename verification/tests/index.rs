use vault_index::index::{IndexEntry, MetadataStore};
use vault_index::records::{FileMeta, FolderProperties, VaultError};

fn meta(path: &str, size: u64, category: &str) -> FileMeta {
    FileMeta {
        path: path.to_string(),
        size,
        modified: "then".to_string(),
        category: category.to_string(),
    }
}

fn hashes(entries: &Vec<IndexEntry>) -> Vec<String> {
    let mut out = Vec::new();
    for e in entries {
        out.push(e.hash.clone());
    }
    out
}

#[test]
fn a_new_store_is_empty() {
    let store = MetadataStore::new();
    assert_eq!(store.len(), 0);
    assert_eq!(store.get("h"), None);
    assert!(!store.contains("h"));
    assert_eq!(store.list(), Vec::<IndexEntry>::new());
}

#[test]
fn a_record_is_found_under_its_hash() {
    let mut store = MetadataStore::new();
    store.put("h1", meta("/a/x.txt", 3, "document"));
    assert_eq!(store.get("h1"), Some(meta("/a/x.txt", 3, "document")));
    assert_eq!(store.get("h2"), None);
    assert!(store.contains("h1"));
    assert_eq!(store.len(), 1);
}

#[test]
fn two_files_of_one_content_leave_one_record_and_the_last_path_wins() {
    let mut store = MetadataStore::new();
    store.put("same", meta("/a/first.txt", 3, "document"));
    store.put("same", meta("/b/second.txt", 3, "document"));
    assert_eq!(store.len(), 1);
    assert_eq!(store.get("same").unwrap().path, "/b/second.txt");
}

#[test]
fn records_are_listed_in_the_order_of_their_hashes() {
    let mut store = MetadataStore::new();
    for h in ["m", "c", "x", "a", "ab", "B", ""] {
        store.put(h, meta("/p", 1, "other"));
    }
    assert_eq!(hashes(&store.list()), vec!["", "B", "a", "ab", "c", "m", "x"]);
    assert_eq!(store.len(), 7);
}

#[test]
fn removing_takes_one_record_out() {
    let mut store = MetadataStore::new();
    store.put("h1", meta("/a", 1, "other"));
    store.put("h2", meta("/b", 2, "other"));
    assert_eq!(store.remove("h1"), Some(meta("/a", 1, "other")));
    assert_eq!(store.remove("h1"), None);
    assert_eq!(store.len(), 1);
    assert_eq!(store.get("h2"), Some(meta("/b", 2, "other")));
}

#[test]
fn clearing_empties_the_store_and_may_be_done_again() {
    let mut store = MetadataStore::new();
    store.put("h1", meta("/a", 1, "other"));
    store.clear();
    assert_eq!(store.len(), 0);
    store.clear();
    assert_eq!(store.len(), 0);
    assert_eq!(store.get("h1"), None);
}

#[test]
fn a_scan_by_prefix_finds_the_records_under_a_folder() {
    let mut store = MetadataStore::new();
    store.put("h1", meta("C:\\Foo\\bar.txt", 1, "document"));
    store.put("h2", meta("c:/foo/sub/pic.png", 2, "image"));
    store.put("h3", meta("c:/other/x", 3, "other"));
    store.put("h4", meta("c:/foobar/x", 4, "other"));
    let found = store.scan_prefix_by_path("c:/foo");
    assert_eq!(hashes(&found), vec!["h1", "h2"]);
    assert_eq!(store.scan_prefix_by_path("c:/nothing"), Vec::<IndexEntry>::new());
}

#[test]
fn renaming_a_folder_reaches_its_records_and_no_others() {
    let mut store = MetadataStore::new();
    store.put("hx", meta("/a/b/x.txt", 1, "document"));
    store.put("hy", meta("/a/c/y.txt", 2, "document"));
    store.put("hz", meta("/a/bc/y.txt", 3, "document"));
    let changed = store.rewrite_prefix("/a/b", "/a/z");
    assert_eq!(store.get("hx").unwrap().path, "/a/z/x.txt");
    assert_eq!(store.get("hy").unwrap().path, "/a/c/y.txt");
    assert_eq!(store.get("hz").unwrap().path, "/a/bc/y.txt");
    assert_eq!(changed.len(), 1);
    assert_eq!(changed[0].hash, "hx");
    assert_eq!(changed[0].meta, meta("/a/z/x.txt", 1, "document"));
    assert_eq!(store.len(), 3);
}

#[test]
fn the_new_folder_stands_before_the_rest_as_it_is_given() {
    let mut store = MetadataStore::new();
    store.put("hx", meta("/a/b/x.txt", 1, "document"));
    store.rewrite_prefix("/a/b", "/a/z/");
    assert_eq!(store.get("hx").unwrap().path, "/a/z//x.txt");
}

#[test]
fn renaming_a_folder_to_itself_changes_no_path() {
    let mut store = MetadataStore::new();
    store.put("hx", meta("/a/b/x.txt", 1, "document"));
    store.rewrite_prefix("/a/b", "/a/b");
    assert_eq!(store.get("hx").unwrap().path, "/a/b/x.txt");
}

#[test]
fn moving_a_folder_matches_without_regard_to_case_and_separators() {
    let mut store = MetadataStore::new();
    store.put("h1", meta("C:\\Data\\Old\\a.bin", 1, "other"));
    store.put("h2", meta("c:/data/older/b.bin", 1, "other"));
    store.rewrite_prefix("c:/DATA/old/", "D:\\New");
    assert_eq!(store.get("h1").unwrap().path, "D:\\New\\a.bin");
    assert_eq!(store.get("h2").unwrap().path, "c:/data/older/b.bin");
}

#[test]
fn a_single_record_gets_a_new_path() {
    let mut store = MetadataStore::new();
    store.put("h1", meta("/a/x.txt", 5, "document"));
    assert_eq!(store.relocate("h1", "/a/renamed.txt"), Ok(()));
    assert_eq!(store.get("h1"), Some(meta("/a/renamed.txt", 5, "document")));
    assert_eq!(store.relocate("nope", "/q"), Err(VaultError::NotFound));
    assert_eq!(store.len(), 1);
}

#[test]
fn removing_a_folder_takes_out_its_records() {
    let mut store = MetadataStore::new();
    store.put("h1", meta("/a/b/x", 1, "other"));
    store.put("h2", meta("/a/c/y", 1, "other"));
    store.put("h3", meta("/A/B/z", 1, "other"));
    store.put("h4", meta("/a/bc/q", 1, "other"));
    let removed = store.remove_under("/a/b");
    assert_eq!(removed, vec!["h1".to_string(), "h3".to_string()]);
    assert_eq!(hashes(&store.list()), vec!["h2", "h4"]);
    assert_eq!(store.remove_under("/a/b"), Vec::<String>::new());
}

#[test]
fn folder_properties_count_and_add_up() {
    let mut store = MetadataStore::new();
    store.put("h1", meta("/data/set/a", 10, "other"));
    store.put("h2", meta("/data/set/b", 32, "other"));
    store.put("h3", meta("/data/else", 100, "other"));
    store.put("h4", meta("/data/settings/c", 1000, "other"));
    assert_eq!(
        store.folder_properties("/data/set", true),
        Some(FolderProperties {
            path: "/data/set".to_string(),
            name: "set".to_string(),
            file_count: 2,
            total_size: 42,
            exists_on_disk: true,
        })
    );
    let empty = store.folder_properties("/none", false).unwrap();
    assert_eq!(empty.file_count, 0);
    assert_eq!(empty.total_size, 0);
    assert!(!empty.exists_on_disk);
}

#[test]
fn folder_properties_do_not_wrap_around() {
    let mut store = MetadataStore::new();
    store.put("h1", meta("/big/a", u64::MAX, "other"));
    assert_eq!(store.folder_properties("/big", true).unwrap().total_size, u64::MAX);
    store.put("h2", meta("/big/b", 1, "other"));
    assert_eq!(store.folder_properties("/big", true), None);
}

#[test]
fn file_properties_name_the_file() {
    let mut store = MetadataStore::new();
    store.put("h1", meta("C:\\pics\\cat.JPG", 7, "image"));
    let p = store.file_properties("h1", true).unwrap();
    assert_eq!(p.path, "C:\\pics\\cat.JPG");
    assert_eq!(p.name, "cat.JPG");
    assert_eq!(p.size, 7);
    assert_eq!(p.hash, "h1");
    assert_eq!(p.modified, "then");
    assert_eq!(p.category, "image");
    assert!(p.exists_on_disk);
    assert_eq!(store.file_properties("h2", true), Err(VaultError::NotFound));
    assert_eq!(VaultError::NotFound.message(), "Hash not found");
    assert_eq!(VaultError::RootMissing.message(), "Folder does not exist");
    assert_eq!(VaultError::NoParent.message(), "No parent");
    assert_eq!(VaultError::NoFileName.message(), "No filename");
    assert_eq!(VaultError::NoFolderName.message(), "No folder name");
}

#[test]
fn image_candidates_are_the_records_of_images() {
    let mut store = MetadataStore::new();
    store.put("h1", meta("/a.png", 1, "image"));
    store.put("h2", meta("/b.txt", 1, "document"));
    store.put("h3", meta("/c.gif", 1, "image"));
    assert_eq!(hashes(&store.image_candidates()), vec!["h1", "h3"]);
}
