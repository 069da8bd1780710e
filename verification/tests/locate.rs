use vault_index::locate::{moved_file_path, moved_folder_path, or_missing, renamed_path};
use vault_index::records::VaultError;

#[test]
fn a_renamed_file_stands_in_the_same_folder() {
    assert_eq!(renamed_path("/a/b/x.txt", "y.txt"), Ok("/a/b/y.txt".to_string()));
    assert_eq!(renamed_path("/a/b", "z"), Ok("/a/z".to_string()));
}

#[test]
fn the_root_has_no_parent() {
    assert_eq!(renamed_path("/", "x"), Err(VaultError::NoParent));
    assert_eq!(renamed_path("", "x"), Err(VaultError::NoParent));
}

#[test]
fn a_moved_file_keeps_its_name() {
    assert_eq!(moved_file_path("/a/b/x.txt", "/dest"), Ok("/dest/x.txt".to_string()));
    assert_eq!(moved_folder_path("/a/b", "/dest/sub"), Ok("/dest/sub/b".to_string()));
}

#[test]
fn a_path_without_a_last_component_cannot_be_moved() {
    assert_eq!(moved_file_path("/", "/dest"), Err(VaultError::NoFileName));
    assert_eq!(moved_folder_path("/a/..", "/dest"), Err(VaultError::NoFolderName));
}

#[test]
fn what_is_missing_becomes_the_given_error() {
    assert_eq!(or_missing(Some("p".to_string()), VaultError::NoParent), Ok("p".to_string()));
    assert_eq!(or_missing(None, VaultError::NoFileName), Err(VaultError::NoFileName));
}
