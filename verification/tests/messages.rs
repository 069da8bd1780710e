use vault_index::messages::{added_message, bin_message, scan_message, short_hash};

#[test]
fn an_added_file_is_named_with_the_start_of_its_hash() {
    assert_eq!(
        added_message("C:\\pics\\cat.png", "0123456789abcdef0123"),
        "Added: cat.png (0123456789ab)"
    );
    assert_eq!(added_message("/a/b", "short"), "Added: b (short)");
}

#[test]
fn a_short_hash_has_twelve_characters_at_most() {
    assert_eq!(short_hash("0123456789abcdef"), "0123456789ab");
    assert_eq!(short_hash("0123456789ab"), "0123456789ab");
    assert_eq!(short_hash(""), "");
}

#[test]
fn a_scan_says_what_it_indexed() {
    assert_eq!(scan_message(12, "weekly"), "Indexed 12 files. Snapshot 'weekly' saved.");
    assert_eq!(scan_message(0, ""), "Indexed 0 files. Snapshot '' saved.");
}

#[test]
fn a_folder_in_the_bin_says_how_many_files_went() {
    assert_eq!(bin_message(3), "Moved 3 files to Recycle Bin.");
}
