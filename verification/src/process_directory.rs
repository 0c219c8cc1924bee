//! Sorting the children of a directory by what they are.

use crate::types::{
    DirectoryEntry, DirectoryInfo, DirectoryResult, EntryKind, EntryView, FileInfo, FileView,
    Listing, NodeInfo, NodeView, SymLinkInfo,
};
use vstd::prelude::*;

verus! {

/// The files among `entries`, in their order, each with its size.
pub open spec fn files_of(entries: Seq<EntryView>) -> Seq<FileView>
    decreases entries.len(),
{
    if entries.len() == 0 {
        Seq::empty()
    } else {
        let before = files_of(entries.drop_last());
        let entry = entries.last();
        if entry.kind == EntryKind::File {
            before.push(
                FileView { size: entry.size, node: NodeView { path: entry.path, id: entry.identity } },
            )
        } else {
            before
        }
    }
}

/// The subdirectories among `entries`, in their order.
pub open spec fn directories_of(entries: Seq<EntryView>) -> Seq<NodeView>
    decreases entries.len(),
{
    if entries.len() == 0 {
        Seq::empty()
    } else {
        let before = directories_of(entries.drop_last());
        let entry = entries.last();
        if entry.kind == EntryKind::Directory {
            before.push(NodeView { path: entry.path, id: entry.identity })
        } else {
            before
        }
    }
}

/// The paths of the symbolic links among `entries`, in their order.
pub open spec fn sym_links_of(entries: Seq<EntryView>) -> Seq<Seq<char>>
    decreases entries.len(),
{
    if entries.len() == 0 {
        Seq::empty()
    } else {
        let before = sym_links_of(entries.drop_last());
        let entry = entries.last();
        if entry.kind == EntryKind::SymbolicLink {
            before.push(entry.path)
        } else {
            before
        }
    }
}

/// The entries as plain values.
pub open spec fn entry_views(entries: Seq<DirectoryEntry>) -> Seq<EntryView> {
    entries.map_values(|entry: DirectoryEntry| entry@)
}

/// Sorts the children of one directory into files, subdirectories and
/// symbolic links. A symbolic link keeps its path only, so that it is never
/// followed nor counted; an entry of any other kind is dropped.
pub fn process_directory(entries: Vec<DirectoryEntry>) -> (sorted: DirectoryResult)
    ensures
        sorted@ == (Listing {
            files: files_of(entry_views(entries@)),
            directories: directories_of(entry_views(entries@)),
            sym_links: sym_links_of(entry_views(entries@)),
        }),
{
    let mut files: Vec<FileInfo> = Vec::new();
    let mut directories: Vec<DirectoryInfo> = Vec::new();
    let mut sym_links: Vec<SymLinkInfo> = Vec::new();
    let ghost views = entry_views(entries@);
    let mut i: usize = 0;
    while i < entries.len()
        invariant
            i <= entries.len(),
            views == entry_views(entries@),
            files@.map_values(|file: FileInfo| file@) =~= files_of(views.take(i as int)),
            directories@.map_values(|dir: DirectoryInfo| dir@) =~= directories_of(
                views.take(i as int),
            ),
            sym_links@.map_values(|link: SymLinkInfo| link@) =~= sym_links_of(
                views.take(i as int),
            ),
        decreases entries.len() - i,
    {
        let entry = &entries[i];
        proof {
            assert(views.take(i + 1).drop_last() =~= views.take(i as int));
            assert(views.take(i + 1).last() == entry@);
        }
        match entry.kind {
            EntryKind::File => {
                files.push(
                    FileInfo {
                        size: entry.size,
                        node: NodeInfo { path: entry.path.clone(), id: entry.identity },
                    },
                );
            },
            EntryKind::Directory => {
                directories.push(
                    DirectoryInfo {
                        node: NodeInfo { path: entry.path.clone(), id: entry.identity },
                    },
                );
            },
            EntryKind::SymbolicLink => {
                sym_links.push(SymLinkInfo { path: entry.path.clone() });
            },
            EntryKind::Other => {},
        }
        i = i + 1;
    }
    proof {
        assert(views.take(entries.len() as int) =~= views);
    }
    DirectoryResult { files, directories, sym_links }
}

} // verus!
