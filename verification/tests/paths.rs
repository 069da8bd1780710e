use vault_index::paths::{
    boundaries, file_name, find_boundary, folder_form_of, is_under, matched_prefix, move_path,
    normalize, rebase, slash_normalize, trim_separators, Boundary,
};
use vault_index::text::same_text;

#[test]
fn backslashes_become_slashes() {
    assert_eq!(slash_normalize("C:\\Foo\\bar.txt"), "C:/Foo/bar.txt");
    assert_eq!(slash_normalize("/a/b"), "/a/b");
    assert_eq!(slash_normalize(""), "");
}

#[test]
fn the_compared_form_is_lower_case_with_slashes() {
    assert_eq!(normalize("C:\\Foo"), "c:/foo");
    assert_eq!(normalize("c:/foo/Bar.TXT"), "c:/foo/bar.txt");
}

#[test]
fn paths_compare_across_separators_and_case() {
    assert!(is_under("c:/foo/bar.txt", &normalize("C:\\Foo")));
    assert!(is_under("C:\\FOO\\bar.txt", &normalize("c:/foo")));
    assert!(!is_under("c:/other/bar.txt", &normalize("C:\\Foo")));
    assert!(!is_under("c:/fo", &normalize("c:/foo")));
}

#[test]
fn the_file_name_is_the_last_component() {
    assert_eq!(file_name("/a/b/x.txt"), "x.txt");
    assert_eq!(file_name("C:\\Users\\me\\pic.png"), "pic.png");
    assert_eq!(file_name("mixed/sep\\name"), "name");
    assert_eq!(file_name("plain"), "plain");
    assert_eq!(file_name("/ends/with/"), "");
    assert_eq!(file_name(""), "");
}

#[test]
fn a_sibling_that_shares_the_start_of_a_name_is_not_under_the_folder() {
    assert!(is_under("/a/b/x.txt", &folder_form_of("/a/b")));
    assert!(is_under("/a/b", &folder_form_of("/a/b")));
    assert!(!is_under("/a/bc/y.txt", &folder_form_of("/a/b")));
    assert!(!is_under("/a/bc", &folder_form_of("/a/b")));
    assert!(!is_under("/a", &folder_form_of("/a/b")));
    assert_eq!(matched_prefix("/a/b/x.txt", "/a/b"), Some(4));
    assert_eq!(matched_prefix("/a/bc/y.txt", "/a/b"), None);
}

#[test]
fn a_folder_with_a_separator_at_its_end_is_the_same_folder() {
    assert_eq!(trim_separators("/a/b/"), "/a/b");
    assert_eq!(trim_separators("C:\\Data\\\\"), "C:\\Data");
    assert_eq!(trim_separators("/"), "");
    assert_eq!(trim_separators("plain"), "plain");
    assert_eq!(folder_form_of("C:\\Foo\\"), "c:/foo");
    assert!(is_under("/a/b/x.txt", &folder_form_of("/a/b/")));
    assert!(!is_under("/a/bc/x.txt", &folder_form_of("/a/b/")));
    assert!(is_under("/x/y", &folder_form_of("/")));
}

#[test]
fn a_moved_path_keeps_what_lay_behind_the_folder_as_it_is_written() {
    assert_eq!(move_path("/a/b/x.txt", "/a/b", "/a/z"), "/a/z/x.txt");
    assert_eq!(move_path("/a/bc/y.txt", "/a/b", "/a/z"), "/a/bc/y.txt");
    assert_eq!(
        move_path("C:\\Old\\Sub\\F.bin", "c:/old", "D:\\New"),
        "D:\\New\\Sub\\F.bin"
    );
    assert_eq!(move_path("/a/b", "/a/b", "/q"), "/q");
    assert_eq!(move_path("/a/b/x", "/a/b/", "/q"), "/q/x");
}

#[test]
fn the_new_folder_is_put_as_it_is_given() {
    assert_eq!(move_path("/a/b/x.txt", "/a/b", "/a/z/"), "/a/z//x.txt");
    assert_eq!(move_path("/a/b/x.txt", "/a/b", ""), "/x.txt");
}

fn boundary(at: usize, form: &str) -> Boundary {
    Boundary { at, form: form.to_string() }
}

#[test]
fn the_boundaries_of_a_path_are_its_separators_and_its_end() {
    assert_eq!(
        boundaries("/A/b\\c"),
        vec![boundary(0, ""), boundary(2, "/a"), boundary(4, "/a/b"), boundary(6, "/a/b/c")]
    );
    assert_eq!(boundaries(""), vec![boundary(0, "")]);
    assert_eq!(boundaries("x"), vec![boundary(1, "x")]);
}

#[test]
fn the_first_boundary_with_the_form_of_the_folder_is_the_cut() {
    let under = vec![boundary(0, ""), boundary(2, "/a"), boundary(4, "/a/b"), boundary(10, "/a/b/x.txt")];
    assert_eq!(find_boundary(&under, "/a/b"), Some(4));
    let sibling = vec![boundary(0, ""), boundary(2, "/a"), boundary(5, "/a/bc"), boundary(11, "/a/bc/y.txt")];
    assert_eq!(find_boundary(&sibling, "/a/b"), None);
    let twice = vec![boundary(3, "x"), boundary(7, "x")];
    assert_eq!(find_boundary(&twice, "x"), Some(3));
    assert_eq!(find_boundary(&vec![], "x"), None);
}

#[test]
fn rebasing_keeps_the_rest_as_it_is_written() {
    assert_eq!(rebase("/a", 10, "/new"), "/new");
    assert_eq!(rebase("/a\\b", 2, "/new"), "/new\\b");
}

#[test]
fn letters_beyond_ascii_compare_without_regard_to_case() {
    assert!(is_under("/Données/École/a.txt", &folder_form_of("/DONNÉES/école")));
    assert_eq!(move_path("/Données/École/a.txt", "/DONNÉES/école", "/neu"), "/neu/a.txt");
}

#[test]
fn a_letter_whose_lower_case_is_longer_does_not_shift_the_cut() {
    assert_eq!(move_path("/\u{130}/x.txt", "/\u{130}", "/z"), "/z/x.txt");
    assert_eq!(move_path("/\u{130}/x.txt", "/\u{130}", "/\u{130}"), "/\u{130}/x.txt");
}

#[test]
fn texts_are_equal_when_their_characters_are() {
    assert!(same_text("abc", "abc"));
    assert!(same_text("", ""));
    assert!(!same_text("abc", "abd"));
    assert!(!same_text("abc", "ab"));
    assert!(!same_text("é", "e"));
}
