//! The values that the index keeps and reports.

use vstd::prelude::*;

verus! {

/// What is recorded of a file under its content hash.
#[derive(Debug, Clone, PartialEq, Eq)]
pub struct FileMeta {
    pub path: String,
    pub size: u64,
    pub modified: String,
    pub category: String,
}

/// What a `FileMeta` holds, as mathematical values.
#[verifier::ext_equal]
pub struct FileMetaView {
    pub path: Seq<char>,
    pub size: u64,
    pub modified: Seq<char>,
    pub category: Seq<char>,
}

impl View for FileMeta {
    type V = FileMetaView;

    open spec fn view(&self) -> FileMetaView {
        FileMetaView {
            path: self.path@,
            size: self.size,
            modified: self.modified@,
            category: self.category@,
        }
    }
}

impl FileMeta {
    /// A copy of this record.
    pub fn duplicate(&self) -> (r: FileMeta)
        ensures
            r == *self,
    {
        FileMeta {
            path: self.path.clone(),
            size: self.size,
            modified: self.modified.clone(),
            category: self.category.clone(),
        }
    }
}

/// A file that left the index: what was known of it, when it left, and why
/// (`manual`, `permanent`, or the name of the scan that missed it).
#[derive(Debug, Clone, PartialEq, Eq)]
pub struct DeletedEntry {
    pub hash: String,
    pub path: String,
    pub name: String,
    pub size: u64,
    pub category: String,
    pub deleted_at: u64,
    pub snapshot_name: String,
}

/// What a `DeletedEntry` holds, as mathematical values.
#[verifier::ext_equal]
pub struct DeletedEntryView {
    pub hash: Seq<char>,
    pub path: Seq<char>,
    pub name: Seq<char>,
    pub size: u64,
    pub category: Seq<char>,
    pub deleted_at: u64,
    pub snapshot_name: Seq<char>,
}

impl View for DeletedEntry {
    type V = DeletedEntryView;

    open spec fn view(&self) -> DeletedEntryView {
        DeletedEntryView {
            hash: self.hash@,
            path: self.path@,
            name: self.name@,
            size: self.size,
            category: self.category@,
            deleted_at: self.deleted_at,
            snapshot_name: self.snapshot_name@,
        }
    }
}

impl DeletedEntry {
    /// A copy of this event.
    pub fn duplicate(&self) -> (r: DeletedEntry)
        ensures
            r == *self,
    {
        DeletedEntry {
            hash: self.hash.clone(),
            path: self.path.clone(),
            name: self.name.clone(),
            size: self.size,
            category: self.category.clone(),
            deleted_at: self.deleted_at,
            snapshot_name: self.snapshot_name.clone(),
        }
    }
}

/// The summary of one completed scan.
#[derive(Debug, Clone, PartialEq, Eq)]
pub struct SnapshotInfo {
    pub name: String,
    pub timestamp: u64,
    pub file_count: usize,
    pub folder_path: String,
}

/// What a `SnapshotInfo` holds, as mathematical values.
#[verifier::ext_equal]
pub struct SnapshotInfoView {
    pub name: Seq<char>,
    pub timestamp: u64,
    pub file_count: nat,
    pub folder_path: Seq<char>,
}

impl View for SnapshotInfo {
    type V = SnapshotInfoView;

    open spec fn view(&self) -> SnapshotInfoView {
        SnapshotInfoView {
            name: self.name@,
            timestamp: self.timestamp,
            file_count: self.file_count as nat,
            folder_path: self.folder_path@,
        }
    }
}

impl SnapshotInfo {
    /// A copy of this summary.
    pub fn duplicate(&self) -> (r: SnapshotInfo)
        ensures
            r == *self,
    {
        SnapshotInfo {
            name: self.name.clone(),
            timestamp: self.timestamp,
            file_count: self.file_count,
            folder_path: self.folder_path.clone(),
        }
    }
}

/// What is reported of one indexed file.
#[derive(Debug, Clone, PartialEq, Eq)]
pub struct FileProperties {
    pub path: String,
    pub name: String,
    pub size: u64,
    pub hash: String,
    pub modified: String,
    pub category: String,
    pub exists_on_disk: bool,
}

/// What a `FileProperties` holds, as mathematical values.
#[verifier::ext_equal]
pub struct FilePropertiesView {
    pub path: Seq<char>,
    pub name: Seq<char>,
    pub size: u64,
    pub hash: Seq<char>,
    pub modified: Seq<char>,
    pub category: Seq<char>,
    pub exists_on_disk: bool,
}

impl View for FileProperties {
    type V = FilePropertiesView;

    open spec fn view(&self) -> FilePropertiesView {
        FilePropertiesView {
            path: self.path@,
            name: self.name@,
            size: self.size,
            hash: self.hash@,
            modified: self.modified@,
            category: self.category@,
            exists_on_disk: self.exists_on_disk,
        }
    }
}

/// What is reported of the indexed files under one folder.
#[derive(Debug, Clone, PartialEq, Eq)]
pub struct FolderProperties {
    pub path: String,
    pub name: String,
    pub file_count: usize,
    pub total_size: u64,
    pub exists_on_disk: bool,
}

/// What a `FolderProperties` holds, as mathematical values.
#[verifier::ext_equal]
pub struct FolderPropertiesView {
    pub path: Seq<char>,
    pub name: Seq<char>,
    pub file_count: nat,
    pub total_size: nat,
    pub exists_on_disk: bool,
}

impl View for FolderProperties {
    type V = FolderPropertiesView;

    open spec fn view(&self) -> FolderPropertiesView {
        FolderPropertiesView {
            path: self.path@,
            name: self.name@,
            file_count: self.file_count as nat,
            total_size: self.total_size as nat,
            exists_on_disk: self.exists_on_disk,
        }
    }
}

/// Why an operation could not be done.
#[derive(Debug, Clone, Copy, PartialEq, Eq)]
pub enum VaultError {
    /// No record is kept under the given content hash.
    NotFound,
    /// The folder to scan is not on disk.
    RootMissing,
    /// The path has no parent in which a renamed file or folder could stand.
    NoParent,
    /// The path of the file has no last component to keep as its name.
    NoFileName,
    /// The path of the folder has no last component to keep as its name.
    NoFolderName,
}

/// The error in words.
pub open spec fn message_of(e: VaultError) -> Seq<char> {
    match e {
        VaultError::NotFound => "Hash not found"@,
        VaultError::RootMissing => "Folder does not exist"@,
        VaultError::NoParent => "No parent"@,
        VaultError::NoFileName => "No filename"@,
        VaultError::NoFolderName => "No folder name"@,
    }
}

impl VaultError {
    /// The error in words.
    pub fn message(&self) -> (text: String)
        ensures
            text@ == message_of(*self),
    {
        match self {
            VaultError::NotFound => "Hash not found".to_owned(),
            VaultError::RootMissing => "Folder does not exist".to_owned(),
            VaultError::NoParent => "No parent".to_owned(),
            VaultError::NoFileName => "No filename".to_owned(),
            VaultError::NoFolderName => "No folder name".to_owned(),
        }
    }
}

} // verus!
