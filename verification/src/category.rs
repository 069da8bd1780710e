//! The category of a file, derived from the extension of its path.

use crate::paths::{file_name, file_name_of};
use crate::text::{
    after_last, chars_of, lemma_after_last_from, lowercase, same_text, string_from, to_lower,
};
use vstd::prelude::*;

verus! {

/// The test "is a dot".
pub open spec fn is_dot() -> spec_fn(char) -> bool {
    |c: char| c == '.'
}

/// The extension of a path: what follows the last dot of its last
/// component; nothing where that component holds no dot.
pub open spec fn extension_of(path: Seq<char>) -> Seq<char> {
    let name = file_name_of(path);
    if name.contains('.') {
        after_last(name, is_dot())
    } else {
        Seq::empty()
    }
}

/// The extensions of images.
pub open spec fn is_image_extension(ext: Seq<char>) -> bool {
    ext == "jpg"@ || ext == "jpeg"@ || ext == "png"@ || ext == "gif"@ || ext == "webp"@ || ext
        == "bmp"@ || ext == "svg"@ || ext == "ico"@
}

/// The extensions of videos.
pub open spec fn is_video_extension(ext: Seq<char>) -> bool {
    ext == "mp4"@ || ext == "mkv"@ || ext == "mov"@ || ext == "avi"@ || ext == "wmv"@ || ext
        == "webm"@ || ext == "flv"@
}

/// The extensions of documents.
pub open spec fn is_document_extension(ext: Seq<char>) -> bool {
    ext == "pdf"@ || ext == "doc"@ || ext == "docx"@ || ext == "txt"@ || ext == "xlsx"@ || ext
        == "xls"@ || ext == "pptx"@ || ext == "csv"@ || ext == "md"@
}

/// The extensions of sound files.
pub open spec fn is_audio_extension(ext: Seq<char>) -> bool {
    ext == "mp3"@ || ext == "wav"@ || ext == "flac"@ || ext == "aac"@ || ext == "ogg"@ || ext
        == "m4a"@
}

/// The extensions of archives.
pub open spec fn is_archive_extension(ext: Seq<char>) -> bool {
    ext == "zip"@ || ext == "rar"@ || ext == "7z"@ || ext == "tar"@ || ext == "gz"@ || ext
        == "bz2"@
}

/// The extensions of programs and installers.
pub open spec fn is_executable_extension(ext: Seq<char>) -> bool {
    ext == "exe"@ || ext == "msi"@ || ext == "dmg"@ || ext == "deb"@
}

/// The category that a lower-case extension stands for.
pub open spec fn category_of(ext: Seq<char>) -> Seq<char> {
    if is_image_extension(ext) {
        "image"@
    } else if is_video_extension(ext) {
        "video"@
    } else if is_document_extension(ext) {
        "document"@
    } else if is_audio_extension(ext) {
        "audio"@
    } else if is_archive_extension(ext) {
        "archive"@
    } else if is_executable_extension(ext) {
        "executable"@
    } else {
        "other"@
    }
}

/// The extension of `path`, as it is written there.
pub fn extension(path: &str) -> (ext: String)
    ensures
        ext@ == extension_of(path@),
{
    let name = file_name(path);
    let chars = chars_of(name.as_str());
    let mut start: usize = chars.len();
    while start > 0 && chars[start - 1] != '.'
        invariant
            start <= chars.len(),
            forall|k: int| start <= k < chars.len() ==> chars@[k] != '.',
        decreases start,
    {
        start -= 1;
    }
    if start == 0 {
        assert(!chars@.contains('.'));
        String::new()
    } else {
        proof {
            assert(chars@[start - 1] == '.');
            lemma_after_last_from(chars@, is_dot(), start as int);
        }
        string_from(&chars, start)
    }
}

/// The category of a lower-case extension: one of `image`, `video`,
/// `document`, `audio`, `archive`, `executable` and `other`.
pub fn category_of_extension(ext: &str) -> (c: String)
    ensures
        c@ == category_of(ext@),
{
    if same_text(ext, "jpg") || same_text(ext, "jpeg") || same_text(ext, "png") || same_text(ext, "gif") || same_text(ext, "webp")
        || same_text(ext, "bmp") || same_text(ext, "svg") || same_text(ext, "ico") {
        "image".to_owned()
    } else if same_text(ext, "mp4") || same_text(ext, "mkv") || same_text(ext, "mov") || same_text(ext, "avi") || same_text(ext, "wmv")
        || same_text(ext, "webm") || same_text(ext, "flv") {
        "video".to_owned()
    } else if same_text(ext, "pdf") || same_text(ext, "doc") || same_text(ext, "docx") || same_text(ext, "txt") || same_text(ext, "xlsx")
        || same_text(ext, "xls") || same_text(ext, "pptx") || same_text(ext, "csv") || same_text(ext, "md") {
        "document".to_owned()
    } else if same_text(ext, "mp3") || same_text(ext, "wav") || same_text(ext, "flac") || same_text(ext, "aac") || same_text(ext, "ogg")
        || same_text(ext, "m4a") {
        "audio".to_owned()
    } else if same_text(ext, "zip") || same_text(ext, "rar") || same_text(ext, "7z") || same_text(ext, "tar") || same_text(ext, "gz")
        || same_text(ext, "bz2") {
        "archive".to_owned()
    } else if same_text(ext, "exe") || same_text(ext, "msi") || same_text(ext, "dmg") || same_text(ext, "deb") {
        "executable".to_owned()
    } else {
        "other".to_owned()
    }
}

/// The category of a path: `other` where the path has no extension, else
/// the category of its extension in lower case.
pub open spec fn category_of_path(path: Seq<char>) -> Seq<char> {
    let ext = extension_of(path);
    if ext.len() == 0 {
        "other"@
    } else {
        category_of(lowercase(ext))
    }
}

/// The category of the file at `path`, from its extension without regard to case.
pub fn get_category(path: &str) -> (c: String)
    ensures
        c@ == category_of_path(path@),
{
    let ext = extension(path);
    if ext.as_str().is_empty() {
        return "other".to_owned();
    }
    let lower = to_lower(ext.as_str());
    category_of_extension(lower.as_str())
}

} // verus!
