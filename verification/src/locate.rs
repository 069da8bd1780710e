//! Where a renamed or moved file or folder comes to stand. The paths are
//! taken apart and put together as the platform does it.

use crate::records::VaultError;
use std::path::Path;
use vstd::prelude::*;

verus! {

/// `std::path::Path::parent`: the path without its last component, if it
/// has one. What counts as a component depends on the platform, so nothing
/// is said of the result.
#[verifier::external_body]
fn parent_of(path: &str) -> (parent: Option<String>) {
    match Path::new(path).parent() {
        Some(p) => Some(p.to_string_lossy().to_string()),
        None => None,
    }
}

/// `std::path::Path::file_name`: the last component of the path, if it has
/// one. Nothing is said of the result.
#[verifier::external_body]
fn last_component_of(path: &str) -> (name: Option<String>) {
    match Path::new(path).file_name() {
        Some(n) => Some(n.to_string_lossy().to_string()),
        None => None,
    }
}

/// `std::path::Path::join`: `name` put behind `base` with the platform's
/// separator. Nothing is said of the result.
#[verifier::external_body]
fn join_paths(base: &str, name: &str) -> (joined: String) {
    Path::new(base).join(name).to_string_lossy().to_string()
}

/// What was found, or the error `missing` where nothing was.
pub fn or_missing(found: Option<String>, missing: VaultError) -> (r: Result<String, VaultError>)
    ensures
        match found {
            Some(s) => r == Ok::<String, VaultError>(s),
            None => r == Err::<String, VaultError>(missing),
        },
{
    match found {
        Some(s) => Ok(s),
        None => Err(missing),
    }
}

/// The path of `old_path` under the name `new_name`: the new name in the
/// parent of the old path. Fails only where the old path has no parent.
pub fn renamed_path(old_path: &str, new_name: &str) -> (r: Result<String, VaultError>)
    ensures
        r is Err ==> r == Err::<String, VaultError>(VaultError::NoParent),
{
    match or_missing(parent_of(old_path), VaultError::NoParent) {
        Ok(parent) => Ok(join_paths(parent.as_str(), new_name)),
        Err(e) => Err(e),
    }
}

/// The path of the file at `path` once it is moved into `destination`: the
/// file's name in that folder. Fails only where the path has no file name.
pub fn moved_file_path(path: &str, destination: &str) -> (r: Result<String, VaultError>)
    ensures
        r is Err ==> r == Err::<String, VaultError>(VaultError::NoFileName),
{
    match or_missing(last_component_of(path), VaultError::NoFileName) {
        Ok(name) => Ok(join_paths(destination, name.as_str())),
        Err(e) => Err(e),
    }
}

/// The path of the folder at `path` once it is moved into `destination`:
/// the folder's name in that folder. Fails only where the path has no last
/// component.
pub fn moved_folder_path(path: &str, destination: &str) -> (r: Result<String, VaultError>)
    ensures
        r is Err ==> r == Err::<String, VaultError>(VaultError::NoFolderName),
{
    match or_missing(last_component_of(path), VaultError::NoFolderName) {
        Ok(name) => Ok(join_paths(destination, name.as_str())),
        Err(e) => Err(e),
    }
}

} // verus!
