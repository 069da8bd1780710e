//! Paths as the index compares them: with one kind of separator, without
//! regard to case, and component by component.

use crate::text::{
    after_last, chars_of, lemma_after_last_from, lowercase, same_text, string_from, string_upto,
    to_lower,
};
use vstd::prelude::*;

verus! {

/// A character with the backslash turned into a slash.
pub open spec fn slash(c: char) -> char {
    if c == '\\' {
        '/'
    } else {
        c
    }
}

/// The path with every backslash turned into a slash.
pub open spec fn slashed(path: Seq<char>) -> Seq<char> {
    Seq::new(path.len(), |i: int| slash(path[i]))
}

/// The form in which paths are compared: slashes only, lower case.
pub open spec fn normalized(path: Seq<char>) -> Seq<char> {
    lowercase(slashed(path))
}

/// The test "is a slash or a backslash".
pub open spec fn is_separator() -> spec_fn(char) -> bool {
    |c: char| c == '/' || c == '\\'
}

/// The last component of a path: what follows its last separator.
pub open spec fn file_name_of(path: Seq<char>) -> Seq<char> {
    after_last(path, is_separator())
}

/// The folder without the separators at its end.
pub open spec fn trimmed(folder: Seq<char>) -> Seq<char>
    decreases folder.len(),
{
    if folder.len() > 0 && is_separator()(folder.last()) {
        trimmed(folder.drop_last())
    } else {
        folder
    }
}

/// The form by which a folder is compared: without the separators at its
/// end, slashes only, lower case.
pub open spec fn folder_form(folder: Seq<char>) -> Seq<char> {
    normalized(trimmed(folder))
}

/// The first `k` characters of `path` are the folder of the compared form
/// `form`: the path ends there or goes on with a separator, and what stands
/// before compares equal to the folder.
pub open spec fn matches_at(path: Seq<char>, form: Seq<char>, k: int) -> bool {
    &&& 0 <= k <= path.len()
    &&& (k == path.len() || is_separator()(path[k]))
    &&& normalized(path.take(k)) == form
}

/// The first position from `from` on at which `path` matches the folder;
/// one past the length of the path where there is none.
pub open spec fn first_match(path: Seq<char>, form: Seq<char>, from: int) -> int
    decreases path.len() - from + 1,
{
    if from < 0 || from > path.len() {
        path.len() as int + 1
    } else if matches_at(path, form, from) {
        from
    } else {
        first_match(path, form, from + 1)
    }
}

/// `path` is the folder of the compared form `form` or lies below it. A
/// path that only shares the beginning of a name with the folder does not.
pub open spec fn lies_under_form(path: Seq<char>, form: Seq<char>) -> bool {
    first_match(path, form, 0) <= path.len()
}

/// `path` is `folder` or lies below it.
pub open spec fn lies_under(path: Seq<char>, folder: Seq<char>) -> bool {
    lies_under_form(path, folder_form(folder))
}

/// What `path` holds behind the folder of the compared form `form`, as it
/// is written in `path`; nothing where the path does not lie under the folder.
pub open spec fn rest_behind(path: Seq<char>, form: Seq<char>) -> Seq<char> {
    if lies_under_form(path, form) {
        path.skip(first_match(path, form, 0))
    } else {
        Seq::empty()
    }
}

/// What is left of `s` behind its first `n` characters; nothing where it has fewer.
pub open spec fn rest_after(s: Seq<char>, n: nat) -> Seq<char> {
    if n <= s.len() {
        s.skip(n as int)
    } else {
        Seq::empty()
    }
}

/// The path of a record under `old_folder` after that folder became
/// `new_folder`: the new folder as it is given, then what the path held
/// behind the old one, unchanged.
pub open spec fn moved_path(path: Seq<char>, old_folder: Seq<char>, new_folder: Seq<char>) -> Seq<
    char,
> {
    new_folder + rest_behind(path, folder_form(old_folder))
}

/// The path of a record after `old_folder` became `new_folder`: moved where
/// it lay under the old folder, as it was where it did not.
pub open spec fn path_after_move(
    path: Seq<char>,
    old_folder: Seq<char>,
    new_folder: Seq<char>,
) -> Seq<char> {
    if lies_under(path, old_folder) {
        moved_path(path, old_folder, new_folder)
    } else {
        path
    }
}

/// The first match is a match, and no position before it is one.
pub proof fn lemma_first_match(path: Seq<char>, form: Seq<char>, from: int)
    requires
        0 <= from <= path.len() + 1,
    ensures
        from <= first_match(path, form, from),
        first_match(path, form, from) <= path.len() ==> matches_at(
            path,
            form,
            first_match(path, form, from),
        ),
        forall|k: int| from <= k < first_match(path, form, from) ==> !matches_at(path, form, k),
    decreases path.len() - from + 1,
{
    if from <= path.len() && !matches_at(path, form, from) {
        lemma_first_match(path, form, from + 1);
    }
}

/// A path lies under a folder exactly when it matches the folder somewhere.
pub proof fn lemma_lies_under(path: Seq<char>, form: Seq<char>)
    ensures
        lies_under_form(path, form) <==> exists|k: int| matches_at(path, form, k),
{
    lemma_first_match(path, form, 0);
    if lies_under_form(path, form) {
        assert(matches_at(path, form, first_match(path, form, 0)));
    }
}

/// A path under a folder is made of a part that compares equal to the
/// folder and of the rest, which is empty or begins with a separator;
/// moving the folder puts the new folder, as it is given, in place of the
/// first part and keeps the rest as it is written. So a folder that is
/// renamed to itself changes a path only in how the folder's own part is
/// written.
pub proof fn lemma_moved_keeps_rest(path: Seq<char>, old_folder: Seq<char>, new_folder: Seq<char>)
    requires
        lies_under(path, old_folder),
    ensures
        ({
            let k = first_match(path, folder_form(old_folder), 0);
            &&& path == path.take(k) + rest_behind(path, folder_form(old_folder))
            &&& normalized(path.take(k)) == folder_form(old_folder)
            &&& rest_behind(path, folder_form(old_folder)).len() == 0 || is_separator()(
                rest_behind(path, folder_form(old_folder))[0],
            )
            &&& moved_path(path, old_folder, new_folder) == new_folder + rest_behind(
                path,
                folder_form(old_folder),
            )
        }),
{
    let form = folder_form(old_folder);
    lemma_first_match(path, form, 0);
    let k = first_match(path, form, 0);
    assert(path =~= path.take(k) + path.skip(k));
}

/// The folder without the separators at its end is its beginning up to
/// `end`, where only separators follow and none stands just before.
proof fn lemma_trimmed_upto(folder: Seq<char>, end: int)
    requires
        0 <= end <= folder.len(),
        forall|k: int| end <= k < folder.len() ==> is_separator()(#[trigger] folder[k]),
        end == 0 || !is_separator()(folder[end - 1]),
    ensures
        trimmed(folder) == folder.take(end),
    decreases folder.len(),
{
    if end == folder.len() {
        assert(folder.take(end) =~= folder);
    } else {
        let rest = folder.drop_last();
        assert forall|k: int| end <= k < rest.len() implies is_separator()(#[trigger] rest[k]) by {
            assert(rest[k] == folder[k]);
        }
        lemma_trimmed_upto(rest, end);
        assert(rest.take(end) =~= folder.take(end));
    }
}

/// Turns every backslash of `path` into a slash.
pub fn slash_normalize(path: &str) -> (r: String)
    ensures
        r@ == slashed(path@),
{
    let chars = chars_of(path);
    let mut r = String::new();
    let mut i: usize = 0;
    while i < chars.len()
        invariant
            i <= chars.len(),
            chars@ == path@,
            r@ == slashed(path@).take(i as int),
        decreases chars.len() - i,
    {
        let c = chars[i];
        if c == '\\' {
            r.push('/');
        } else {
            r.push(c);
        }
        assert(slashed(path@).take(i + 1) =~= slashed(path@).take(i as int).push(slash(c)));
        i += 1;
    }
    assert(slashed(path@).take(chars.len() as int) =~= slashed(path@));
    r
}

/// The form of `path` by which paths are compared.
pub fn normalize(path: &str) -> (r: String)
    ensures
        r@ == normalized(path@),
{
    let s = slash_normalize(path);
    to_lower(s.as_str())
}

/// Takes the separators off the end of `folder`.
pub fn trim_separators(folder: &str) -> (r: String)
    ensures
        r@ == trimmed(folder@),
{
    let chars = chars_of(folder);
    let mut end: usize = chars.len();
    while end > 0 && (chars[end - 1] == '/' || chars[end - 1] == '\\')
        invariant
            end <= chars.len(),
            forall|k: int| end <= k < chars.len() ==> is_separator()(#[trigger] chars@[k]),
        decreases end,
    {
        end -= 1;
    }
    proof {
        lemma_trimmed_upto(chars@, end as int);
    }
    string_upto(&chars, end)
}

/// The form of `folder` by which folders are compared.
pub fn folder_form_of(folder: &str) -> (r: String)
    ensures
        r@ == folder_form(folder@),
{
    let t = trim_separators(folder);
    normalize(t.as_str())
}

/// A place where the folder's part of a path may end: the position, and
/// the compared form of the path up to it.
#[derive(Debug, Clone, PartialEq, Eq)]
pub struct Boundary {
    pub at: usize,
    pub form: String,
}

/// What the boundaries hold, as mathematical values.
pub open spec fn boundary_views(v: Seq<Boundary>) -> Seq<(usize, Seq<char>)> {
    Seq::new(v.len(), |i: int| (v[i].at, v[i].form@))
}

/// The position of the first boundary whose compared form is `form`;
/// `None` where no boundary has that form.
pub open spec fn first_with_form(bounds: Seq<(usize, Seq<char>)>, form: Seq<char>) -> Option<
    usize,
>
    decreases bounds.len(),
{
    if bounds.len() == 0 {
        None
    } else {
        match first_with_form(bounds.drop_last(), form) {
            Some(at) => Some(at),
            None => if bounds.last().1 == form {
                Some(bounds.last().0)
            } else {
                None
            },
        }
    }
}

/// What is found among the first boundaries is found among all.
proof fn lemma_first_stays(bounds: Seq<(usize, Seq<char>)>, form: Seq<char>, n: int)
    requires
        0 <= n <= bounds.len(),
        first_with_form(bounds.take(n), form) is Some,
    ensures
        first_with_form(bounds, form) == first_with_form(bounds.take(n), form),
    decreases bounds.len() - n,
{
    if n == bounds.len() {
        assert(bounds.take(n) =~= bounds);
    } else {
        assert(bounds.take(n + 1).drop_last() =~= bounds.take(n));
        lemma_first_stays(bounds, form, n + 1);
    }
}

/// Decides on compared forms that are given: the position of the first
/// boundary whose form is `form`.
pub fn find_boundary(bounds: &Vec<Boundary>, form: &str) -> (cut: Option<usize>)
    ensures
        cut == first_with_form(boundary_views(bounds@), form@),
{
    let ghost all = boundary_views(bounds@);
    let mut i: usize = 0;
    while i < bounds.len()
        invariant
            i <= bounds.len(),
            all == boundary_views(bounds@),
            first_with_form(all.take(i as int), form@) is None,
        decreases bounds.len() - i,
    {
        assert(all.take(i + 1).drop_last() =~= all.take(i as int));
        if same_text(bounds[i].form.as_str(), form) {
            proof {
                lemma_first_stays(all, form@, i + 1);
            }
            return Some(bounds[i].at);
        }
        i += 1;
    }
    assert(all.take(bounds.len() as int) =~= all);
    None
}

/// The boundaries of `path` before position `n`, in ascending order: each
/// position at which the path ends or goes on with a separator, with the
/// compared form of the path up to it.
pub open spec fn boundaries_before(path: Seq<char>, n: nat) -> Seq<(usize, Seq<char>)>
    decreases n,
{
    if n == 0 {
        Seq::empty()
    } else {
        let k = (n - 1) as nat;
        let before = boundaries_before(path, k);
        if k <= path.len() && (k == path.len() || is_separator()(path[k as int])) {
            before.push((k as usize, normalized(path.take(k as int))))
        } else {
            before
        }
    }
}

/// All boundaries of `path`.
pub open spec fn boundaries_of(path: Seq<char>) -> Seq<(usize, Seq<char>)> {
    boundaries_before(path, path.len() + 1)
}

/// The first boundary with the folder's form is the first match of the folder.
proof fn lemma_boundary_is_match(path: Seq<char>, form: Seq<char>, n: nat)
    requires
        n <= path.len() + 1,
        path.len() <= usize::MAX,
    ensures
        match first_with_form(boundaries_before(path, n), form) {
            Some(at) => at < n && matches_at(path, form, at as int) && forall|j: int|
                0 <= j < at ==> !matches_at(path, form, j),
            None => forall|j: int| 0 <= j < n ==> !matches_at(path, form, j),
        },
    decreases n,
{
    if n > 0 {
        let k = (n - 1) as nat;
        let before = boundaries_before(path, k);
        lemma_boundary_is_match(path, form, k);
        if k == path.len() || is_separator()(path[k as int]) {
            let x = (k as usize, normalized(path.take(k as int)));
            assert(before.push(x).drop_last() =~= before);
        }
    }
}

/// Lists the boundaries of `path` with their compared forms.
pub fn boundaries(path: &str) -> (bounds: Vec<Boundary>)
    ensures
        boundary_views(bounds@) == boundaries_of(path@),
        path@.len() <= usize::MAX,
{
    let chars = chars_of(path);
    let mut bounds: Vec<Boundary> = Vec::new();
    let mut k: usize = 0;
    assert(boundary_views(bounds@) =~= boundaries_before(path@, 0));
    loop
        invariant
            k <= chars.len(),
            chars@ == path@,
            boundary_views(bounds@) == boundaries_before(path@, k as nat),
        decreases chars.len() - k,
    {
        if k == chars.len() || chars[k] == '/' || chars[k] == '\\' {
            let part = string_upto(&chars, k);
            let form = normalize(part.as_str());
            let ghost before = bounds@;
            bounds.push(Boundary { at: k, form });
            assert(boundary_views(bounds@) =~= boundary_views(before).push(
                (k, normalized(path@.take(k as int))),
            ));
        }
        assert(boundary_views(bounds@) == boundaries_before(path@, (k + 1) as nat));
        if k == chars.len() {
            return bounds;
        }
        k += 1;
    }
}

/// Finds where `path` matches the folder of the compared form `form`: the
/// number of characters of `path` that are the folder's part. `None` where
/// the path does not lie under the folder.
pub fn matched_prefix(path: &str, form: &str) -> (cut: Option<usize>)
    ensures
        cut is Some <==> lies_under_form(path@, form@),
        cut is Some ==> cut->0 == first_match(path@, form@, 0) && cut->0 <= path@.len(),
        cut == first_with_form(boundaries_of(path@), form@),
{
    let bounds = boundaries(path);
    proof {
        lemma_boundary_is_match(path@, form@, path@.len() + 1);
        lemma_first_match(path@, form@, 0);
    }
    find_boundary(&bounds, form)
}

/// Tells whether `path` is the folder of the compared form `form` or lies
/// below it.
pub fn is_under(path: &str, form: &str) -> (r: bool)
    ensures
        r == lies_under_form(path@, form@),
{
    matched_prefix(path, form).is_some()
}

/// The last component of `path`.
pub fn file_name(path: &str) -> (name: String)
    ensures
        name@ == file_name_of(path@),
{
    let chars = chars_of(path);
    let mut start: usize = chars.len();
    while start > 0 && chars[start - 1] != '/' && chars[start - 1] != '\\'
        invariant
            start <= chars.len(),
            forall|k: int| start <= k < chars.len() ==> chars@[k] != '/' && chars@[k] != '\\',
        decreases start,
    {
        start -= 1;
    }
    proof {
        lemma_after_last_from(chars@, is_separator(), start as int);
    }
    string_from(&chars, start)
}

/// Puts `new_prefix` in place of the first `cut` characters of `path`; the
/// rest of `path` stays as it is written.
pub fn rebase(path: &str, cut: usize, new_prefix: &str) -> (r: String)
    ensures
        r@ == new_prefix@ + rest_after(path@, cut as nat),
{
    let chars = chars_of(path);
    let mut r = new_prefix.to_owned();
    if cut <= chars.len() {
        let rest = string_from(&chars, cut);
        r.append(rest.as_str());
    } else {
        assert(r@ =~= r@ + Seq::<char>::empty());
    }
    r
}

/// The path of a record after the folder `old_folder` became `new_folder`.
pub fn move_path(path: &str, old_folder: &str, new_folder: &str) -> (r: String)
    ensures
        r@ == path_after_move(path@, old_folder@, new_folder@),
{
    let form = folder_form_of(old_folder);
    match matched_prefix(path, form.as_str()) {
        Some(cut) => rebase(path, cut, new_folder),
        None => path.to_owned(),
    }
}

} // verus!
