//! The manifest of a snapshot: which files it holds, with sizes and checksums.
//! Its JSON form is written outside the library.

use vstd::prelude::*;

use crate::backup_info::BackupDir;

verus! {

/// One file listed in a manifest.
#[derive(Debug)]
pub struct FileInfo {
    pub filename: String,
    pub size: u64,
    pub csum: [u8; 32],
}

/// The manifest of one snapshot.
#[derive(Debug)]
pub struct BackupManifest {
    snapshot: BackupDir,
    files: Vec<FileInfo>,
}

impl BackupManifest {
    pub closed spec fn snapshot_spec(&self) -> BackupDir {
        self.snapshot
    }

    pub closed spec fn files_spec(&self) -> Seq<FileInfo> {
        self.files@
    }

    /// An empty manifest of `snapshot`.
    pub fn new(snapshot: BackupDir) -> (r: Self)
        ensures
            r.snapshot_spec() == snapshot,
            r.files_spec().len() == 0,
    {
        BackupManifest { files: Vec::new(), snapshot }
    }

    /// Lists one more file.
    pub fn add_file(&mut self, filename: String, size: u64, csum: [u8; 32])
        ensures
            final(self).snapshot_spec() == old(self).snapshot_spec(),
            final(self).files_spec() == old(self).files_spec().push(
                FileInfo { filename, size, csum },
            ),
    {
        self.files.push(FileInfo { filename, size, csum });
    }

    /// The snapshot the manifest describes.
    pub fn snapshot(&self) -> (r: &BackupDir)
        ensures
            *r == self.snapshot_spec(),
    {
        &self.snapshot
    }

    /// The listed files, in the order they were added.
    pub fn files(&self) -> (r: &Vec<FileInfo>)
        ensures
            r@ == self.files_spec(),
    {
        &self.files
    }
}

} // verus!
