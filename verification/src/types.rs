//! The values that move between a directory lister and the traversal.

use crate::records::{PathMap, Records};
use vstd::prelude::*;

verus! {

/// Identity of a filesystem object: the id of its device and its number there.
pub type NodeId = (u64, u64);

/// The result of a traversal, keyed by path.
pub type DirectoryScanResult = PathMap;

/// A filesystem object: where it was found and which object it is.
pub struct NodeInfo {
    pub path: String,
    pub id: NodeId,
}

/// A symbolic link, which is listed and never followed.
pub struct SymLinkInfo {
    pub path: String,
}

/// A file with its size in bytes.
pub struct FileInfo {
    pub size: u128,
    pub node: NodeInfo,
}

/// A subdirectory.
pub struct DirectoryInfo {
    pub node: NodeInfo,
}

#[derive(Debug, Clone, Copy, PartialEq, Eq, Structural)]
pub enum NodeType {
    File,
    Directory,
}

#[derive(Debug, Clone, Copy, PartialEq, Eq, Structural)]
pub struct NodeResult {
    pub size: u128,
    pub node_type: NodeType,
}

/// The children of one directory, sorted by what they are.
pub struct DirectoryResult {
    pub files: Vec<FileInfo>,
    pub directories: Vec<DirectoryInfo>,
    pub sym_links: Vec<SymLinkInfo>,
}

/// Why a directory could not be listed.
#[derive(Debug, Clone, Copy, PartialEq, Eq, Structural)]
pub enum ListError {
    /// Permission was denied.
    Access,
    /// The directory vanished between its discovery and its listing.
    NotFound,
    /// Any other fault of the listing.
    Io,
}

/// What a directory entry is.
#[derive(Debug, Clone, Copy, PartialEq, Eq, Structural)]
pub enum EntryKind {
    File,
    Directory,
    SymbolicLink,
    /// A socket, a device or anything else that has no size to account for.
    Other,
}

/// One child of a listed directory, before it is sorted by kind.
pub struct DirectoryEntry {
    pub path: String,
    pub identity: NodeId,
    pub kind: EntryKind,
    /// Meaningful for files only.
    pub size: u128,
}

/// A directory that was left out because its listing failed.
pub struct SkippedDirectory {
    pub path: String,
    pub error: ListError,
}

/// What a traversal returns.
pub struct ScanResult {
    /// Size and kind of every file counted and every directory credited.
    pub result: DirectoryScanResult,
    /// The further references to files that had been counted before.
    pub double_count: DirectoryScanResult,
    /// The directories whose listing failed, in the order of their failure.
    pub skipped: Vec<SkippedDirectory>,
}

/// A [`NodeInfo`] as plain values.
pub struct NodeView {
    pub path: Seq<char>,
    pub id: NodeId,
}

/// A [`FileInfo`] as plain values.
pub struct FileView {
    pub size: u128,
    pub node: NodeView,
}

/// A [`DirectoryResult`] as plain values.
pub struct Listing {
    pub files: Seq<FileView>,
    pub directories: Seq<NodeView>,
    pub sym_links: Seq<Seq<char>>,
}

/// A [`DirectoryEntry`] as plain values.
pub struct EntryView {
    pub path: Seq<char>,
    pub identity: NodeId,
    pub kind: EntryKind,
    pub size: u128,
}

/// A [`SkippedDirectory`] as plain values.
pub struct SkippedView {
    pub path: Seq<char>,
    pub error: ListError,
}

/// A [`ScanResult`] as plain values.
pub struct ScanView {
    pub result: Records,
    pub double_count: Records,
    pub skipped: Seq<SkippedView>,
}

impl View for NodeInfo {
    type V = NodeView;

    open spec fn view(&self) -> NodeView {
        NodeView { path: self.path@, id: self.id }
    }
}

impl View for SymLinkInfo {
    type V = Seq<char>;

    open spec fn view(&self) -> Seq<char> {
        self.path@
    }
}

impl View for FileInfo {
    type V = FileView;

    open spec fn view(&self) -> FileView {
        FileView { size: self.size, node: self.node@ }
    }
}

impl View for DirectoryInfo {
    type V = NodeView;

    open spec fn view(&self) -> NodeView {
        self.node@
    }
}

impl View for DirectoryResult {
    type V = Listing;

    open spec fn view(&self) -> Listing {
        Listing {
            files: file_views(self.files@),
            directories: directory_views(self.directories@),
            sym_links: self.sym_links@.map_values(|l: SymLinkInfo| l@),
        }
    }
}

impl View for DirectoryEntry {
    type V = EntryView;

    open spec fn view(&self) -> EntryView {
        EntryView { path: self.path@, identity: self.identity, kind: self.kind, size: self.size }
    }
}

impl View for SkippedDirectory {
    type V = SkippedView;

    open spec fn view(&self) -> SkippedView {
        SkippedView { path: self.path@, error: self.error }
    }
}

impl View for ScanResult {
    type V = ScanView;

    open spec fn view(&self) -> ScanView {
        ScanView {
            result: self.result@,
            double_count: self.double_count@,
            skipped: self.skipped@.map_values(|s: SkippedDirectory| s@),
        }
    }
}

/// The files as plain values.
pub open spec fn file_views(files: Seq<FileInfo>) -> Seq<FileView> {
    files.map_values(|file: FileInfo| file@)
}

/// The subdirectories as plain values.
pub open spec fn directory_views(dirs: Seq<DirectoryInfo>) -> Seq<NodeView> {
    dirs.map_values(|dir: DirectoryInfo| dir@)
}

/// What a lister answered, as plain values.
pub open spec fn outcome_view(outcome: Result<DirectoryResult, ListError>) -> Result<
    Listing,
    ListError,
> {
    match outcome {
        Ok(listing) => Ok(listing@),
        Err(error) => Err(error),
    }
}

/// The record of a counted file.
pub open spec fn file_record(size: u128) -> NodeResult {
    NodeResult { size, node_type: NodeType::File }
}

/// The record of a directory with `size` bytes counted beneath it.
pub open spec fn directory_record(size: u128) -> NodeResult {
    NodeResult { size, node_type: NodeType::Directory }
}

/// `n`, or the largest size that fits where `n` does not.
pub open spec fn clamp(n: nat) -> u128 {
    if n > u128::MAX {
        u128::MAX
    } else {
        n as u128
    }
}

} // verus!
