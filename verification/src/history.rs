//! The account of a traversal as a function of the listings that it took in.

use crate::paths::lemma_parent_shorter;
use crate::paths::parent;
use crate::records::Records;
use crate::tally::{ancestors, Tally};
use crate::types::{FileView, ListError, Listing, NodeId, NodeView};
use vstd::prelude::*;

verus! {

/// A step of a traversal as plain values: a directory and the outcome of its listing.
pub struct Visit {
    pub dir: Seq<char>,
    pub outcome: Result<Listing, ListError>,
}

impl Visit {
    /// Whether the listing succeeded.
    pub open spec fn listed(self) -> bool {
        self.outcome is Ok
    }

    /// The files of the listing; none where it failed.
    pub open spec fn files(self) -> Seq<FileView> {
        match self.outcome {
            Ok(listing) => listing.files,
            Err(_) => Seq::empty(),
        }
    }

    /// The subdirectories of the listing; none where it failed.
    pub open spec fn directories(self) -> Seq<NodeView> {
        match self.outcome {
            Ok(listing) => listing.directories,
            Err(_) => Seq::empty(),
        }
    }
}

/// The account after the listings of `visits` were taken in, one after the
/// other, by a traversal that started at `root`.
pub open spec fn account(root: Seq<char>, visits: Seq<Visit>) -> Tally
    decreases visits.len(),
{
    if visits.len() == 0 {
        Tally::empty()
    } else {
        account(root, visits.drop_last()).settle(root, visits.last().dir, visits.last().outcome)
    }
}

/// Some listing of `visits` that succeeded is credited to `path`.
pub open spec fn charged(root: Seq<char>, visits: Seq<Visit>, path: Seq<char>) -> bool {
    exists|i: int|
        0 <= i < visits.len() && (#[trigger] visits[i]).listed() && ancestors(
            visits[i].dir,
            root,
        ).contains(path)
}

/// Some file of a listing of `visits` has the path `path`.
pub open spec fn names_file(visits: Seq<Visit>, path: Seq<char>) -> bool {
    exists|i: int, j: int|
        0 <= i < visits.len() && 0 <= j < visits[i].files().len() && (
        #[trigger] visits[i].files()[j]).node.path == path
}

/// The account of any listings is sound.
pub proof fn lemma_account_wf(root: Seq<char>, visits: Seq<Visit>)
    ensures
        account(root, visits).wf(),
    decreases visits.len(),
{
    if visits.len() > 0 {
        lemma_account_wf(root, visits.drop_last());
        account(root, visits.drop_last()).lemma_settle_wf(
            root,
            visits.last().dir,
            visits.last().outcome,
        );
    }
}

/// The chain starts at the directory, and every further path is shorter than
/// the one before, so that none comes twice.
pub proof fn lemma_ancestors(dir: Seq<char>, root: Seq<char>)
    ensures
        ancestors(dir, root).len() >= 1,
        ancestors(dir, root)[0] == dir,
        forall|i: int|
            0 < i < ancestors(dir, root).len() ==> (#[trigger] ancestors(dir, root)[i]).len()
                < dir.len(),
        ancestors(dir, root).no_duplicates(),
        dir == root ==> ancestors(dir, root) == seq![dir],
    decreases dir.len(),
{
    if dir != root {
        match parent(dir) {
            None => {},
            Some(up) => {
                lemma_parent_shorter(dir);
                lemma_ancestors(up, root);
                let rest = ancestors(up, root);
                let chain = ancestors(dir, root);
                assert(chain == seq![dir] + rest);
                assert forall|i: int| 0 < i < chain.len() implies (#[trigger] chain[i]).len()
                    < dir.len() by {
                    assert(chain[i] == rest[i - 1]);
                    if i - 1 > 0 {
                        assert(rest[i - 1].len() < up.len());
                    }
                }
                assert forall|i: int, j: int|
                    0 <= i < chain.len() && 0 <= j < chain.len() && i != j implies chain[i]
                    != chain[j] by {
                    if i > 0 && j > 0 {
                        assert(chain[i] == rest[i - 1]);
                        assert(chain[j] == rest[j - 1]);
                    } else if i == 0 {
                        assert(chain[j].len() < dir.len());
                    } else {
                        assert(chain[i].len() < dir.len());
                    }
                }
            },
        }
    }
}

impl Records {
    /// A credit changes the record of its path and no other.
    pub proof fn lemma_credit_map(self, path: Seq<char>, amount: u128, other: Seq<char>)
        ensures
            self.credit(path, amount).map.contains_key(path),
            other != path ==> self.credit(path, amount).map.contains_key(other)
                == self.map.contains_key(other),
            other != path && self.map.contains_key(other) ==> self.credit(path, amount).map[other]
                == self.map[other],
    {
    }

    /// Crediting a chain without repetitions credits each of its paths once
    /// and leaves every other path as it was.
    pub proof fn lemma_credit_all_map(self, chain: Seq<Seq<char>>, amount: u128, path: Seq<char>)
        requires
            chain.no_duplicates(),
        ensures
            chain.contains(path) ==> self.credit_all(chain, amount).map.contains_key(path)
                && self.credit_all(chain, amount).map[path] == self.credit(path, amount).map[path],
            !chain.contains(path) ==> self.credit_all(chain, amount).map.contains_key(path)
                == self.map.contains_key(path),
            !chain.contains(path) && self.map.contains_key(path) ==> self.credit_all(
                chain,
                amount,
            ).map[path] == self.map[path],
        decreases chain.len(),
    {
        if chain.len() > 0 {
            let first = chain[0];
            let rest = chain.drop_first();
            let next = self.credit(first, amount);
            assert forall|i: int, j: int|
                0 <= i < rest.len() && 0 <= j < rest.len() && i != j implies rest[i]
                != rest[j] by {
                assert(rest[i] == chain[i + 1]);
                assert(rest[j] == chain[j + 1]);
            }
            next.lemma_credit_all_map(rest, amount, path);
            self.lemma_credit_map(first, amount, path);
            if path == first {
                if rest.contains(path) {
                    let k = choose|k: int| 0 <= k < rest.len() && rest[k] == path;
                    assert(chain[k + 1] == path);
                    assert(chain[0] == path);
                }
            } else {
                if chain.contains(path) {
                    let k = choose|k: int| 0 <= k < chain.len() && chain[k] == path;
                    assert(rest[k - 1] == path);
                }
                if rest.contains(path) {
                    let k = choose|k: int| 0 <= k < rest.len() && rest[k] == path;
                    assert(chain[k + 1] == path);
                }
            }
        }
    }
}

impl Tally {
    /// Counting files touches the records of their paths and no others.
    pub proof fn lemma_count_files_frame(self, files: Seq<FileView>, path: Seq<char>)
        requires
            forall|j: int| 0 <= j < files.len() ==> (#[trigger] files[j]).node.path != path,
        ensures
            self.count_files(files).result.map.contains_key(path) == self.result.map.contains_key(
                path,
            ),
            self.result.map.contains_key(path) ==> self.count_files(files).result.map[path]
                == self.result.map[path],
            self.count_files(files).double_count.map.contains_key(path)
                == self.double_count.map.contains_key(path),
            self.double_count.map.contains_key(path) ==> self.count_files(
                files,
            ).double_count.map[path] == self.double_count.map[path],
        decreases files.len(),
    {
        if files.len() > 0 {
            let before = files.drop_last();
            assert forall|j: int| 0 <= j < before.len() implies (#[trigger] before[j]).node.path
                != path by {
                assert(before[j] == files[j]);
            }
            self.lemma_count_files_frame(before, path);
            assert(files.last() == files[files.len() - 1]);
        }
    }

    /// The identities seen after files were counted are those seen before
    /// and those of the files.
    pub proof fn lemma_count_files_visited(self, files: Seq<FileView>, id: NodeId)
        ensures
            self.count_files(files).visited.contains(id) <==> self.visited.contains(id) || exists|
                j: int,
            |
                0 <= j < files.len() && (#[trigger] files[j]).node.id == id,
        decreases files.len(),
    {
        if files.len() > 0 {
            let before = files.drop_last();
            self.lemma_count_files_visited(before, id);
            let last = files.last();
            assert(last == files[files.len() - 1]);
            if exists|j: int| 0 <= j < before.len() && (#[trigger] before[j]).node.id == id {
                let j = choose|j: int| 0 <= j < before.len() && (#[trigger] before[j]).node.id == id;
                assert(files[j] == before[j]);
            }
            if exists|j: int| 0 <= j < files.len() && (#[trigger] files[j]).node.id == id {
                let j = choose|j: int| 0 <= j < files.len() && (#[trigger] files[j]).node.id == id;
                if j < before.len() {
                    assert(before[j] == files[j]);
                }
            }
        }
    }

    /// The identities seen after subdirectories were marked are those seen
    /// before and those of the subdirectories.
    pub proof fn lemma_mark_dirs_visited(self, dirs: Seq<NodeView>, id: NodeId)
        ensures
            self.mark_dirs(dirs).visited.contains(id) <==> self.visited.contains(id) || exists|
                j: int,
            |
                0 <= j < dirs.len() && (#[trigger] dirs[j]).id == id,
        decreases dirs.len(),
    {
        if dirs.len() > 0 {
            let before = dirs.drop_last();
            self.lemma_mark_dirs_visited(before, id);
            let last = dirs.last();
            assert(last == dirs[dirs.len() - 1]);
            if exists|j: int| 0 <= j < before.len() && (#[trigger] before[j]).id == id {
                let j = choose|j: int| 0 <= j < before.len() && (#[trigger] before[j]).id == id;
                assert(dirs[j] == before[j]);
            }
            if exists|j: int| 0 <= j < dirs.len() && (#[trigger] dirs[j]).id == id {
                let j = choose|j: int| 0 <= j < dirs.len() && (#[trigger] dirs[j]).id == id;
                if j < before.len() {
                    assert(before[j] == dirs[j]);
                }
            }
        }
    }
}

/// What is true of a run without its last listing, and of that listing, is
/// what is true of the run.
pub proof fn lemma_charged_step(root: Seq<char>, visits: Seq<Visit>, path: Seq<char>)
    requires
        visits.len() > 0,
    ensures
        charged(root, visits, path) <==> charged(root, visits.drop_last(), path) || (
        visits.last().listed() && ancestors(visits.last().dir, root).contains(path)),
{
    let before = visits.drop_last();
    if charged(root, visits, path) {
        let i = choose|i: int|
            0 <= i < visits.len() && (#[trigger] visits[i]).listed() && ancestors(
                visits[i].dir,
                root,
            ).contains(path);
        if i < before.len() {
            assert(before[i] == visits[i]);
        }
    }
    if charged(root, before, path) {
        let i = choose|i: int|
            0 <= i < before.len() && (#[trigger] before[i]).listed() && ancestors(
                before[i].dir,
                root,
            ).contains(path);
        assert(visits[i] == before[i]);
    }
    if visits.last().listed() && ancestors(visits.last().dir, root).contains(path) {
        assert(visits[visits.len() - 1] == visits.last());
    }
}

/// A path names a file of a run if it names one of the run without its
/// last listing, or one of that listing.
pub proof fn lemma_names_file_step(visits: Seq<Visit>, path: Seq<char>)
    requires
        visits.len() > 0,
    ensures
        names_file(visits, path) <==> names_file(visits.drop_last(), path) || exists|j: int|
            0 <= j < visits.last().files().len() && (#[trigger] visits.last().files()[j]).node.path
                == path,
{
    let before = visits.drop_last();
    let last = visits.last();
    assert(visits[visits.len() - 1] == last);
    if names_file(visits, path) {
        let (i, j) = choose|i: int, j: int|
            0 <= i < visits.len() && 0 <= j < visits[i].files().len() && (
            #[trigger] visits[i].files()[j]).node.path == path;
        if i < before.len() {
            assert(before[i] == visits[i]);
            assert(before[i].files()[j].node.path == path);
        } else {
            assert(last.files()[j].node.path == path);
        }
    }
    if names_file(before, path) {
        let (i, j) = choose|i: int, j: int|
            0 <= i < before.len() && 0 <= j < before[i].files().len() && (
            #[trigger] before[i].files()[j]).node.path == path;
        assert(visits[i] == before[i]);
        assert(visits[i].files()[j].node.path == path);
    }
    if exists|j: int|
        0 <= j < last.files().len() && (#[trigger] last.files()[j]).node.path == path {
        let j = choose|j: int|
            0 <= j < last.files().len() && (#[trigger] last.files()[j]).node.path == path;
        assert(visits[visits.len() - 1].files()[j].node.path == path);
    }
}

} // verus!
