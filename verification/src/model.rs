//! The values that scanning, grouping and copying exchange.
use vstd::prelude::*;

verus! {

/// A BLAKE3 digest of a file's contents: its 32 bytes read as two big-endian
/// halves, `hi` from the first sixteen bytes and `lo` from the last sixteen.
#[derive(Clone, Copy, Debug, PartialEq, Eq, Structural, Hash)]
pub struct ContentHash {
    pub hi: u128,
    pub lo: u128,
}

/// A regular file found while scanning.
///
/// `path` holds the path's bytes in the platform's encoding; `modified` is the
/// modification time in nanoseconds relative to the Unix epoch (negative when
/// earlier).
#[derive(Debug, PartialEq, Eq)]
pub struct FileInfo {
    /// Path bytes as reported by the directory walker.
    pub path: Vec<u8>,
    /// File size in bytes.
    pub size: u64,
    /// Modification time used to select the newest copy.
    pub modified: i128,
}

/// The mathematical value of a [`FileInfo`].
pub struct FileView {
    pub path: Seq<u8>,
    pub size: u64,
    pub modified: i128,
}

impl View for FileInfo {
    type V = FileView;

    open spec fn view(&self) -> FileView {
        FileView { path: self.path@, size: self.size, modified: self.modified }
    }
}

impl Clone for FileInfo {
    fn clone(&self) -> (r: Self)
        ensures
            r@ == self@,
    {
        let path = self.path.clone();
        assert(path@ =~= self.path@);
        FileInfo { path, size: self.size, modified: self.modified }
    }
}

/// A file with the digest of its contents.
#[derive(Debug)]
pub struct HashedFile {
    pub hash: ContentHash,
    pub file: FileInfo,
}

/// The mathematical value of a [`HashedFile`].
pub struct HashedView {
    pub hash: ContentHash,
    pub file: FileView,
}

impl View for HashedFile {
    type V = HashedView;

    open spec fn view(&self) -> HashedView {
        HashedView { hash: self.hash, file: self.file@ }
    }
}

/// Files with identical size and contents.
#[derive(Debug)]
pub struct DuplicateGroup {
    /// BLAKE3 digest shared by every file in this group.
    pub hash: ContentHash,
    /// Files with identical contents, in path order.
    pub files: Vec<FileInfo>,
    /// Bytes recoverable when one copy is retained.
    pub reclaimable_bytes: u64,
}

/// The mathematical value of a [`DuplicateGroup`].
pub struct GroupView {
    pub hash: ContentHash,
    pub files: Seq<FileView>,
    pub reclaimable_bytes: u64,
}

impl View for DuplicateGroup {
    type V = GroupView;

    open spec fn view(&self) -> GroupView {
        GroupView {
            hash: self.hash,
            files: crate::order::views(self.files@),
            reclaimable_bytes: self.reclaimable_bytes,
        }
    }
}

/// Summary of a duplicate-aware copy.
#[derive(Debug, Clone, Copy, PartialEq, Eq, Structural)]
pub struct CopyStats {
    /// Files copied into the destination.
    pub copied_files: usize,
    /// Files skipped because their content already existed.
    pub skipped_files: usize,
    /// Bytes written into the destination.
    pub copied_bytes: u64,
}

} // verus!
