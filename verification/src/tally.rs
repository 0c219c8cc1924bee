//! What a traversal has accounted for so far, and how one listing changes it.

use crate::paths::{lemma_parent_shorter, parent};
use crate::records::Records;
use crate::types::{
    clamp, file_record, FileView, ListError, Listing, NodeId, NodeView, ScanView, SkippedView,
};
use vstd::prelude::*;

verus! {

/// The paths that a listing of `dir` is credited to: `dir` itself and every
/// path above it, up to and including `root`. Where `root` is not above
/// `dir`, the chain ends with the last path that has a parent no more.
pub open spec fn ancestors(dir: Seq<char>, root: Seq<char>) -> Seq<Seq<char>>
    decreases dir.len(),
{
    if dir == root {
        seq![dir]
    } else {
        match parent(dir) {
            None => seq![dir],
            Some(up) => {
                proof {
                    lemma_parent_shorter(dir);
                }
                seq![dir] + ancestors(up, root)
            },
        }
    }
}

impl Records {
    /// Credits `amount` to each path of `chain`, from the first to the last.
    pub open spec fn credit_all(self, chain: Seq<Seq<char>>, amount: u128) -> Records
        decreases chain.len(),
    {
        if chain.len() == 0 {
            self
        } else {
            self.credit(chain[0], amount).credit_all(chain.drop_first(), amount)
        }
    }

    /// Credits keep the order in step with the map.
    pub proof fn lemma_credit_all_wf(self, chain: Seq<Seq<char>>, amount: u128)
        requires
            self.wf(),
        ensures
            self.credit_all(chain, amount).wf(),
        decreases chain.len(),
    {
        if chain.len() > 0 {
            self.lemma_credit_wf(chain[0], amount);
            self.credit(chain[0], amount).lemma_credit_all_wf(chain.drop_first(), amount);
        }
    }
}

/// The account of a traversal.
#[verifier::ext_equal]
pub struct Tally {
    /// The identities that were counted as files or queued as directories.
    pub visited: Set<NodeId>,
    /// Size and kind of every file counted and every directory credited.
    pub result: Records,
    /// The further references to files that had been counted before.
    pub double_count: Records,
    /// The directories whose listing failed.
    pub skipped: Seq<SkippedView>,
}

impl Tally {
    /// Nothing seen and nothing recorded.
    pub open spec fn empty() -> Tally {
        Tally {
            visited: Set::empty(),
            result: Records::empty(),
            double_count: Records::empty(),
            skipped: Seq::empty(),
        }
    }

    /// Finitely many identities were seen, and both sets of records are in
    /// step with their order.
    pub open spec fn wf(self) -> bool {
        &&& self.visited.finite()
        &&& self.result.wf()
        &&& self.double_count.wf()
    }

    /// What the caller of a traversal gets to see.
    pub open spec fn scan(self) -> ScanView {
        ScanView { result: self.result, double_count: self.double_count, skipped: self.skipped }
    }

    /// Accounts for one file of a listing. A file whose identity was seen
    /// before goes to the ledger of duplicates and adds to no size; any other
    /// is marked as seen and gets its record.
    pub open spec fn count_file(self, file: FileView) -> Tally {
        if self.visited.contains(file.node.id) {
            Tally {
                double_count: self.double_count.insert(file.node.path, file_record(file.size)),
                ..self
            }
        } else {
            Tally {
                visited: self.visited.insert(file.node.id),
                result: self.result.insert(file.node.path, file_record(file.size)),
                ..self
            }
        }
    }

    /// Accounts for the files of a listing, in their order.
    pub open spec fn count_files(self, files: Seq<FileView>) -> Tally
        decreases files.len(),
    {
        if files.len() == 0 {
            self
        } else {
            self.count_files(files.drop_last()).count_file(files.last())
        }
    }

    /// The sum of the sizes of those among `files` that [`Self::count_files`]
    /// counts, which is what their directory gains by them.
    pub open spec fn counted(self, files: Seq<FileView>) -> nat
        decreases files.len(),
    {
        if files.len() == 0 {
            0
        } else {
            let before = self.counted(files.drop_last());
            if self.count_files(files.drop_last()).visited.contains(files.last().node.id) {
                before
            } else {
                before + files.last().size as nat
            }
        }
    }

    /// Marks the identities of the subdirectories of a listing as seen.
    pub open spec fn mark_dirs(self, dirs: Seq<NodeView>) -> Tally
        decreases dirs.len(),
    {
        if dirs.len() == 0 {
            self
        } else {
            let before = self.mark_dirs(dirs.drop_last());
            Tally { visited: before.visited.insert(dirs.last().id), ..before }
        }
    }

    /// The paths of those among `dirs` whose identity had not been seen when
    /// their turn came: the directories that the listing adds to the queue.
    pub open spec fn discover(self, dirs: Seq<NodeView>) -> Seq<Seq<char>>
        decreases dirs.len(),
    {
        if dirs.len() == 0 {
            Seq::empty()
        } else {
            let before = self.discover(dirs.drop_last());
            if self.mark_dirs(dirs.drop_last()).visited.contains(dirs.last().id) {
                before
            } else {
                before.push(dirs.last().path)
            }
        }
    }

    /// The account after the listing of `dir` has been dealt with.
    ///
    /// A failed listing is noted and changes nothing else. Of a listing that
    /// succeeded the files are counted, then the subdirectories marked, and
    /// what the files added is credited to `dir` and every path above it up
    /// to `root`. Symbolic links are left aside.
    pub open spec fn settle(
        self,
        root: Seq<char>,
        dir: Seq<char>,
        outcome: Result<Listing, ListError>,
    ) -> Tally {
        match outcome {
            Err(error) => Tally {
                skipped: self.skipped.push(SkippedView { path: dir, error }),
                ..self
            },
            Ok(listing) => {
                let counted = self.count_files(listing.files);
                let marked = counted.mark_dirs(listing.directories);
                Tally {
                    result: marked.result.credit_all(
                        ancestors(dir, root),
                        clamp(self.counted(listing.files)),
                    ),
                    ..marked
                }
            },
        }
    }

    /// The directories that the listing adds to the queue.
    pub open spec fn found(self, outcome: Result<Listing, ListError>) -> Seq<Seq<char>> {
        match outcome {
            Err(_) => Seq::empty(),
            Ok(listing) => self.count_files(listing.files).discover(listing.directories),
        }
    }

    /// Counting files keeps the account sound, forgets no identity and
    /// skips no directory.
    pub proof fn lemma_count_files_wf(self, files: Seq<FileView>)
        requires
            self.wf(),
        ensures
            self.count_files(files).wf(),
            self.visited.subset_of(self.count_files(files).visited),
            self.count_files(files).skipped == self.skipped,
        decreases files.len(),
    {
        if files.len() > 0 {
            self.lemma_count_files_wf(files.drop_last());
            let before = self.count_files(files.drop_last());
            let file = files.last();
            before.double_count.lemma_insert_wf(file.node.path, file_record(file.size));
            before.result.lemma_insert_wf(file.node.path, file_record(file.size));
        }
    }

    /// Every directory that joins the queue brings an identity that is new.
    pub proof fn lemma_mark_dirs(self, dirs: Seq<NodeView>)
        requires
            self.wf(),
        ensures
            self.mark_dirs(dirs).wf(),
            self.mark_dirs(dirs).result == self.result,
            self.mark_dirs(dirs).double_count == self.double_count,
            self.mark_dirs(dirs).skipped == self.skipped,
            self.visited.subset_of(self.mark_dirs(dirs).visited),
            self.mark_dirs(dirs).visited.len() == self.visited.len() + self.discover(dirs).len(),
        decreases dirs.len(),
    {
        if dirs.len() > 0 {
            self.lemma_mark_dirs(dirs.drop_last());
        }
    }

    /// A listing keeps the account sound, and brings a new identity for
    /// every directory that it adds to the queue.
    pub proof fn lemma_settle_wf(
        self,
        root: Seq<char>,
        dir: Seq<char>,
        outcome: Result<Listing, ListError>,
    )
        requires
            self.wf(),
        ensures
            self.settle(root, dir, outcome).wf(),
            self.settle(root, dir, outcome).visited.len() >= self.visited.len() + self.found(
                outcome,
            ).len(),
    {
        match outcome {
            Err(_) => {},
            Ok(listing) => {
                self.lemma_count_files_wf(listing.files);
                let counted = self.count_files(listing.files);
                vstd::set_lib::lemma_len_subset(self.visited, counted.visited);
                counted.lemma_mark_dirs(listing.directories);
                counted.result.lemma_credit_all_wf(
                    ancestors(dir, root),
                    clamp(self.counted(listing.files)),
                );
            },
        }
    }
}

} // verus!
