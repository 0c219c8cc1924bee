//! The traversal as a state machine: directories are handed out, their
//! listings handed back, and the account kept in between.

use crate::paths::parent_of;
use crate::tally::{ancestors, Tally};
use crate::types::{
    clamp, directory_views, file_views, outcome_view, DirectoryInfo, DirectoryResult, FileInfo,
    ListError, Listing, NodeId, NodeResult, NodeType, ScanResult, SkippedDirectory, SkippedView,
};
use crate::records::PathMap;
use std::collections::HashSet;
use std::collections::VecDeque;
use vstd::prelude::*;

verus! {

broadcast use vstd::std_specs::hash::group_hash_axioms;

/// The state of a traversal as plain values.
#[verifier::ext_equal]
pub struct WalkState {
    /// The directory that the traversal started from.
    pub root: Seq<char>,
    /// The directories that wait for their listing, the oldest first.
    pub queue: Seq<Seq<char>>,
    /// The directories that were handed out and not handed back yet.
    pub in_flight: Seq<Seq<char>>,
    /// What has been accounted for.
    pub tally: Tally,
}

impl WalkState {
    /// Nothing accounted for, and the root waiting.
    pub open spec fn initial(root: Seq<char>) -> WalkState {
        WalkState { root, queue: seq![root], in_flight: Seq::empty(), tally: Tally::empty() }
    }

    /// No directory waits and none is being listed: the traversal is over.
    pub open spec fn idle(self) -> bool {
        self.queue.len() == 0 && self.in_flight.len() == 0
    }

    /// Hands out the directory that has waited longest.
    pub open spec fn take(self) -> WalkState {
        if self.queue.len() == 0 {
            self
        } else {
            WalkState {
                queue: self.queue.drop_first(),
                in_flight: self.in_flight.push(self.queue[0]),
                ..self
            }
        }
    }

    /// Takes back `dir` with the outcome of its listing. A directory that is
    /// not in flight changes nothing.
    pub open spec fn commit(self, dir: Seq<char>, outcome: Result<Listing, ListError>) -> WalkState {
        match self.in_flight.index_of_first(dir) {
            None => self,
            Some(slot) => WalkState {
                root: self.root,
                queue: self.queue + self.tally.found(outcome),
                in_flight: self.in_flight.remove(slot),
                tally: self.tally.settle(self.root, dir, outcome),
            },
        }
    }
}

/// What a worker does next.
pub enum WorkerAction {
    /// List this directory and hand the outcome to [`Walker::commit`].
    Process(String),
    /// Nothing waits, but a listing in flight may still add to the queue: ask again.
    Wait,
    /// Nothing waits and nothing is in flight: the traversal is over.
    Exit,
}

/// The number under which an identity is kept: device and number side by
/// side. The set of identities is a hash set of such numbers, since what a
/// hash set holds is known for keys that are integers.
pub open spec fn id_key(id: NodeId) -> u128 {
    (id.0 * 0x1_0000_0000_0000_0000 + id.1) as u128
}

/// Two identities are kept under one number only if they are the same.
pub proof fn lemma_id_key_injective(a: NodeId, b: NodeId)
    ensures
        id_key(a) == id_key(b) <==> a == b,
{
}

fn node_key(id: NodeId) -> (key: u128)
    ensures
        key == id_key(id),
{
    (id.0 as u128) * 0x1_0000_0000_0000_0000u128 + (id.1 as u128)
}

/// A traversal in progress.
pub struct Walker {
    root: String,
    queue: VecDeque<String>,
    in_flight: Vec<String>,
    visited: HashSet<u128>,
    scan: ScanResult,
}

impl View for Walker {
    type V = WalkState;

    closed spec fn view(&self) -> WalkState {
        WalkState {
            root: self.root@,
            queue: self.queue@.map_values(|path: String| path@),
            in_flight: self.in_flight@.map_values(|path: String| path@),
            tally: Tally {
                visited: Set::new(|id: NodeId| self.visited@.contains(id_key(id))),
                result: self.scan.result@,
                double_count: self.scan.double_count@,
                skipped: self.scan@.skipped,
            },
        }
    }
}

impl Walker {
    /// The account is sound: see [`Tally::wf`].
    pub open spec fn wf(&self) -> bool {
        self@.tally.wf()
    }

    /// A traversal of the tree under `root`, with the root waiting to be listed.
    pub fn new(root: String) -> (walker: Walker)
        ensures
            walker.wf(),
            walker@ == WalkState::initial(root@),
    {
        let mut queue: VecDeque<String> = VecDeque::new();
        queue.push_back(root.clone());
        let walker = Walker {
            root,
            queue,
            in_flight: Vec::new(),
            visited: HashSet::new(),
            scan: ScanResult {
                result: PathMap::new(),
                double_count: PathMap::new(),
                skipped: Vec::new(),
            },
        };
        assert(walker@.queue =~= seq![root@]);
        assert(walker@.in_flight =~= Seq::<Seq<char>>::empty());
        assert(walker@.tally.visited =~= Set::<NodeId>::empty());
        assert(walker@.tally.skipped =~= Seq::<SkippedView>::empty());
        walker
    }

    /// Decides what a worker does next, and hands out the directory that has
    /// waited longest where there is one.
    pub fn next_action(&mut self) -> (action: WorkerAction)
        requires
            old(self).wf(),
        ensures
            final(self).wf(),
            match action {
                WorkerAction::Process(dir) => {
                    &&& old(self)@.queue.len() > 0
                    &&& dir@ == old(self)@.queue[0]
                    &&& final(self)@ == old(self)@.take()
                },
                WorkerAction::Wait => {
                    &&& old(self)@.queue.len() == 0
                    &&& old(self)@.in_flight.len() > 0
                    &&& final(self)@ == old(self)@
                },
                WorkerAction::Exit => old(self)@.idle() && final(self)@ == old(self)@,
            },
    {
        match self.queue.pop_front() {
            Some(dir) => {
                self.in_flight.push(dir.clone());
                assert(self@.queue =~= old(self)@.queue.drop_first());
                assert(self@.in_flight =~= old(self)@.in_flight.push(dir@));
                WorkerAction::Process(dir)
            },
            None => {
                if self.in_flight.len() > 0 {
                    WorkerAction::Wait
                } else {
                    WorkerAction::Exit
                }
            },
        }
    }

    /// Whether the traversal is over: no directory waits and none is in flight.
    pub fn is_done(&self) -> (done: bool)
        ensures
            done == self@.idle(),
    {
        self.queue.len() == 0 && self.in_flight.len() == 0
    }

    /// The account as it stands. It is final once [`Self::is_done`] holds.
    pub fn finish(self) -> (scan: ScanResult)
        ensures
            scan@ == self@.tally.scan(),
            self.wf() ==> scan.result.wf() && scan.double_count.wf(),
    {
        self.scan
    }

    fn slot_of(&self, dir: &String) -> (slot: Option<usize>)
        ensures
            match slot {
                Some(at) => self@.in_flight.index_of_first(dir@) == Some(at as int) && at
                    < self.in_flight@.len(),
                None => self@.in_flight.index_of_first(dir@) is None,
            },
    {
        let mut i: usize = 0;
        while i < self.in_flight.len()
            invariant
                i <= self.in_flight.len(),
                forall|j: int| 0 <= j < i ==> self@.in_flight[j] != dir@,
            decreases self.in_flight.len() - i,
        {
            if self.in_flight[i] == *dir {
                proof {
                    assert(self@.in_flight[i as int] == dir@);
                    self@.in_flight.index_of_first_ensures(dir@);
                }
                return Some(i);
            }
            i = i + 1;
        }
        proof {
            self@.in_flight.index_of_first_ensures(dir@);
        }
        None
    }

    fn count_files(&mut self, files: &Vec<FileInfo>) -> (added: u128)
        requires
            old(self).wf(),
        ensures
            final(self).wf(),
            final(self)@ == (WalkState {
                tally: old(self)@.tally.count_files(file_views(files@)),
                ..old(self)@
            }),
            added == clamp(old(self)@.tally.counted(file_views(files@))),
    {
        let ghost start = self@;
        let ghost views = file_views(files@);
        let mut added: u128 = 0;
        let mut i: usize = 0;
        while i < files.len()
            invariant
                self.wf(),
                start.tally.wf(),
                i <= files.len(),
                views == file_views(files@),
                self@ == (WalkState {
                    tally: start.tally.count_files(views.take(i as int)),
                    ..start
                }),
                added == clamp(start.tally.counted(views.take(i as int))),
            decreases files.len() - i,
        {
            let file = &files[i];
            let key = node_key(file.node.id);
            let record = NodeResult { size: file.size, node_type: NodeType::File };
            let ghost before = self@;
            proof {
                assert(views.take(i + 1).drop_last() =~= views.take(i as int));
                assert(views.take(i + 1).last() == file@);
                start.tally.lemma_count_files_wf(views.take(i + 1));
                assert forall|id: NodeId| id_key(id) == key implies id == file.node.id by {
                    lemma_id_key_injective(id, file.node.id);
                }
            }
            if self.visited.contains(&key) {
                self.scan.double_count.insert(file.node.path.clone(), record);
                assert(self@.tally.visited =~= before.tally.visited);
            } else {
                self.visited.insert(key);
                self.scan.result.insert(file.node.path.clone(), record);
                added = added.saturating_add(file.size);
                assert(self@.tally.visited =~= before.tally.visited.insert(file.node.id));
            }
            assert(self@.tally == before.tally.count_file(file@));
            i = i + 1;
        }
        proof {
            assert(views.take(files.len() as int) =~= views);
        }
        added
    }

    fn enqueue(&mut self, dirs: &Vec<DirectoryInfo>)
        requires
            old(self).wf(),
        ensures
            final(self).wf(),
            final(self)@ == (WalkState {
                tally: old(self)@.tally.mark_dirs(directory_views(dirs@)),
                queue: old(self)@.queue + old(self)@.tally.discover(directory_views(dirs@)),
                ..old(self)@
            }),
    {
        let ghost start = self@;
        let ghost views = directory_views(dirs@);
        let mut i: usize = 0;
        assert(start.queue + Seq::<Seq<char>>::empty() =~= start.queue);
        while i < dirs.len()
            invariant
                self.wf(),
                start.tally.wf(),
                i <= dirs.len(),
                views == directory_views(dirs@),
                self@ == (WalkState {
                    tally: start.tally.mark_dirs(views.take(i as int)),
                    queue: start.queue + start.tally.discover(views.take(i as int)),
                    ..start
                }),
            decreases dirs.len() - i,
        {
            let dir = &dirs[i];
            let key = node_key(dir.node.id);
            let ghost before = self@;
            proof {
                assert(views.take(i + 1).drop_last() =~= views.take(i as int));
                assert(views.take(i + 1).last() == dir@);
                start.tally.lemma_mark_dirs(views.take(i + 1));
                assert forall|id: NodeId| id_key(id) == key implies id == dir.node.id by {
                    lemma_id_key_injective(id, dir.node.id);
                }
            }
            if !self.visited.contains(&key) {
                self.visited.insert(key);
                self.queue.push_back(dir.node.path.clone());
                assert(self@.queue =~= before.queue.push(dir.node.path@));
            }
            assert(self@.tally.visited =~= before.tally.visited.insert(dir.node.id));
            assert(self@.queue =~= start.queue + start.tally.discover(views.take(i + 1)));
            i = i + 1;
        }
        proof {
            assert(views.take(dirs.len() as int) =~= views);
        }
    }

    fn credit_ancestors(&mut self, dir: String, amount: u128)
        requires
            old(self).wf(),
        ensures
            final(self).wf(),
            final(self)@ == (WalkState {
                tally: Tally {
                    result: old(self)@.tally.result.credit_all(
                        ancestors(dir@, old(self)@.root),
                        amount,
                    ),
                    ..old(self)@.tally
                },
                ..old(self)@
            }),
    {
        let ghost start = self@;
        let ghost goal = start.tally.result.credit_all(ancestors(dir@, start.root), amount);
        let mut current = dir;
        loop
            invariant_except_break
                self.wf(),
                self@ == (WalkState {
                    tally: Tally { result: self@.tally.result, ..start.tally },
                    ..start
                }),
                self@.tally.result.credit_all(ancestors(current@, start.root), amount) == goal,
            ensures
                self.wf(),
                self@ == (WalkState { tally: Tally { result: goal, ..start.tally }, ..start }),
            decreases current@.len(),
        {
            let ghost here = current@;
            let ghost before = self@.tally.result;
            let up = if current == self.root {
                None
            } else {
                parent_of(current.as_str())
            };
            proof {
                crate::paths::lemma_parent_shorter(here);
                before.lemma_credit_wf(here, amount);
                let chain = ancestors(here, start.root);
                assert(chain[0] == here);
                if up is Some {
                    assert(chain.drop_first() =~= ancestors(up->0@, start.root));
                } else {
                    assert(chain.drop_first() =~= Seq::<Seq<char>>::empty());
                }
            }
            self.scan.result.credit(current, amount);
            proof {
                let credited = before.credit(here, amount);
                assert(self@.tally.result == credited);
                if up is None {
                    assert(credited.credit_all(Seq::<Seq<char>>::empty(), amount) == credited);
                    assert(credited == goal);
                }
            }
            match up {
                None => {
                    break ;
                },
                Some(next) => {
                    current = next;
                },
            }
        }
    }

    /// Takes back a directory that [`Self::next_action`] handed out, with
    /// the outcome of its listing, and accounts for it. Returns whether the
    /// directory was in flight; one that was not changes nothing.
    pub fn commit(&mut self, dir: String, listing: Result<DirectoryResult, ListError>) -> (accepted:
        bool)
        requires
            old(self).wf(),
        ensures
            final(self).wf(),
            accepted == old(self)@.in_flight.contains(dir@),
            final(self)@ == old(self)@.commit(dir@, outcome_view(listing)),
    {
        proof {
            self@.in_flight.index_of_first_ensures(dir@);
            self@.tally.lemma_settle_wf(self@.root, dir@, outcome_view(listing));
        }
        let ghost before = self@;
        let ghost outcome = outcome_view(listing);
        match self.slot_of(&dir) {
            None => false,
            Some(slot) => {
                self.in_flight.remove(slot);
                assert(self@.in_flight =~= before.in_flight.remove(slot as int));
                match listing {
                    Err(error) => {
                        self.scan.skipped.push(SkippedDirectory { path: dir, error });
                        assert(self@.tally.skipped =~= before.tally.skipped.push(
                            SkippedView { path: dir@, error },
                        ));
                        assert(self@.queue =~= before.queue + before.tally.found(outcome));
                        assert(self@.tally == before.tally.settle(before.root, dir@, outcome));
                    },
                    Ok(found) => {
                        assert(outcome == Ok::<Listing, ListError>(found@));
                        let added = self.count_files(&found.files);
                        self.enqueue(&found.directories);
                        self.credit_ancestors(dir, added);
                        assert(self@.queue =~= before.queue + before.tally.found(outcome));
                        assert(self@.tally == before.tally.settle(before.root, dir@, outcome));
                    },
                }
                true
            },
        }
    }
}

} // verus!
