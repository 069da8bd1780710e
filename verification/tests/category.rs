use vault_index::category::{category_of_extension, extension, get_category};

#[test]
fn each_category_is_told_by_its_extensions() {
    assert_eq!(get_category("/photos/cat.jpg"), "image");
    assert_eq!(get_category("logo.svg"), "image");
    assert_eq!(get_category("clip.mkv"), "video");
    assert_eq!(get_category("notes.md"), "document");
    assert_eq!(get_category("sheet.xlsx"), "document");
    assert_eq!(get_category("song.flac"), "audio");
    assert_eq!(get_category("backup.tar"), "archive");
    assert_eq!(get_category("old.7z"), "archive");
    assert_eq!(get_category("setup.msi"), "executable");
    assert_eq!(get_category("data.bin"), "other");
}

#[test]
fn the_extension_is_read_without_regard_to_case() {
    assert_eq!(get_category("C:\\Pictures\\HOLIDAY.JPEG"), "image");
    assert_eq!(get_category("Movie.Mp4"), "video");
}

#[test]
fn only_the_part_behind_the_last_dot_counts() {
    assert_eq!(get_category("archive.tar.gz"), "archive");
    assert_eq!(get_category("photo.png.txt"), "document");
    assert_eq!(get_category("folder.zip/readme"), "other");
}

#[test]
fn a_name_without_a_dot_has_no_extension() {
    assert_eq!(extension("README"), "");
    assert_eq!(get_category("README"), "other");
    assert_eq!(get_category("png"), "other");
    assert_eq!(get_category("mp3"), "other");
    assert_eq!(get_category("/music.mp3/cover"), "other");
    assert_eq!(get_category("C:\\archive.zip\\notes"), "other");
    assert_eq!(get_category(""), "other");
    assert_eq!(extension("trailing."), "");
}

#[test]
fn the_extension_is_that_of_the_last_component() {
    assert_eq!(extension("/dir.v2/song.MP3"), "MP3");
    assert_eq!(get_category("/dir.v2/song.MP3"), "audio");
    assert_eq!(extension("C:\\a.b\\c.tar.gz"), "gz");
    assert_eq!(extension(".hidden"), "hidden");
}

#[test]
fn the_extension_table_wants_lower_case() {
    assert_eq!(category_of_extension("pdf"), "document");
    assert_eq!(category_of_extension("PDF"), "other");
}

#[test]
fn lower_case_is_that_of_unicode() {
    // the Kelvin sign has the small letter k as its lower case
    assert_eq!(get_category("clip.M\u{212A}V"), "video");
    assert_eq!(extension("clip.M\u{212A}V"), "M\u{212A}V");
}
