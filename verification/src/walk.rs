//! The traversal on one thread: directories are listed in the order of their
//! discovery until none is left.

use crate::history::{account, Visit};
use crate::reach::{
    confined_tree, faithful, files_apart_tree, lemma_schedules_agree, look, tidy_tree, Tree,
};
use crate::totals::{
    is_directory_key, lemma_schedules_agree_on_totals, one_size_tree, rooted_tree,
};
use crate::schedule::{committed, run, Operation};
use crate::types::{outcome_view, DirectoryResult, ListError, NodeId, ScanResult};
use crate::walker::{id_key, lemma_id_key_injective, WalkState, Walker, WorkerAction};
use vstd::prelude::*;

verus! {

/// One step of a traversal: a directory and what its lister answered.
pub struct WalkEvent {
    pub dir: String,
    pub listing: Result<DirectoryResult, ListError>,
}

impl View for WalkEvent {
    type V = Visit;

    open spec fn view(&self) -> Visit {
        Visit { dir: self.dir@, outcome: outcome_view(self.listing) }
    }
}

/// The steps as plain values.
pub open spec fn visits(events: Seq<WalkEvent>) -> Seq<Visit> {
    events.map_values(|event: WalkEvent| event@)
}

/// The state after each of `steps`, in turn, took the directory that had
/// waited longest and handed it back with its outcome.
pub open spec fn replay(root: Seq<char>, steps: Seq<Visit>) -> WalkState
    decreases steps.len(),
{
    if steps.len() == 0 {
        WalkState::initial(root)
    } else {
        replay(root, steps.drop_last()).take().commit(steps.last().dir, steps.last().outcome)
    }
}

/// Each step lists the directory that had waited longest when its turn came.
pub open spec fn in_order(root: Seq<char>, steps: Seq<Visit>) -> bool {
    forall|i: int|
        0 <= i < steps.len() ==> {
            let state = #[trigger] replay(root, steps.take(i));
            state.queue.len() > 0 && state.queue[0] == steps[i].dir
        }
}

/// `steps` is a whole traversal on one thread: in order, and with nothing
/// left to list at its end.
pub open spec fn complete_walk(root: Seq<char>, steps: Seq<Visit>) -> bool {
    in_order(root, steps) && replay(root, steps).idle()
}

/// The number of identities that there are.
pub open spec fn identity_count() -> int {
    0x1_0000_0000_0000_0000_0000_0000_0000_0000int
}

/// No set of identities holds more than there are.
pub proof fn lemma_visited_bound(visited: Set<NodeId>)
    requires
        visited.finite(),
    ensures
        visited.len() <= identity_count(),
{
    let number = |id: NodeId| id_key(id) as int;
    let keys = visited.map(number);
    let all = vstd::set_lib::set_int_range(0, identity_count());
    vstd::set_lib::lemma_int_range(0, identity_count());
    assert(vstd::relations::injective_on(number, visited)) by {
        assert forall|a: NodeId, b: NodeId|
            visited.contains(a) && visited.contains(b) && number(a) == number(b) implies a
            == b by {
            lemma_id_key_injective(a, b);
        }
    }
    vstd::set_lib::lemma_map_size(visited, keys, number);
    assert(keys.subset_of(all));
    vstd::set_lib::lemma_len_subset(keys, all);
}

/// In order, a directory that is taken is handed back at once, so none stays in flight.
pub proof fn lemma_replay(root: Seq<char>, steps: Seq<Visit>)
    requires
        in_order(root, steps),
    ensures
        replay(root, steps).tally.wf(),
        replay(root, steps).in_flight.len() == 0,
        replay(root, steps).root == root,
        replay(root, steps).tally == account(root, steps),
    decreases steps.len(),
{
    if steps.len() > 0 {
        let before = steps.drop_last();
        assert(steps.take(steps.len() - 1) =~= before);
        lemma_in_order_prefix(root, steps, steps.len() - 1);
        lemma_replay(root, before);
        let state = replay(root, before);
        let taken = state.take();
        taken.in_flight.index_of_first_ensures(steps.last().dir);
        assert(taken.in_flight =~= seq![steps.last().dir]);
        assert(taken.in_flight.remove(0) =~= Seq::<Seq<char>>::empty());
        state.tally.lemma_settle_wf(root, steps.last().dir, steps.last().outcome);
    }
}

/// Every listing of `steps` is what `tree` holds for its directory.
pub open spec fn follows(tree: Tree, steps: Seq<Visit>) -> bool {
    forall|i: int| 0 <= i < steps.len() ==> (#[trigger] steps[i]).outcome == tree(steps[i].dir)
}

proof fn lemma_in_order_prefix(root: Seq<char>, steps: Seq<Visit>, n: int)
    requires
        in_order(root, steps),
        0 <= n <= steps.len(),
    ensures
        in_order(root, steps.take(n)),
{
    let shorter = steps.take(n);
    assert forall|i: int| 0 <= i < shorter.len() implies {
        let state = #[trigger] replay(root, shorter.take(i));
        state.queue.len() > 0 && state.queue[0] == shorter[i].dir
    } by {
        assert(shorter.take(i) =~= steps.take(i));
    }
}

proof fn lemma_same_prefix(
    root: Seq<char>,
    tree: Tree,
    first: Seq<Visit>,
    second: Seq<Visit>,
    n: int,
)
    requires
        in_order(root, first),
        in_order(root, second),
        follows(tree, first),
        follows(tree, second),
        0 <= n <= first.len(),
        n <= second.len(),
    ensures
        first.take(n) == second.take(n),
    decreases n,
{
    if n == 0 {
        assert(first.take(0) =~= second.take(0));
    } else {
        lemma_same_prefix(root, tree, first, second, n - 1);
        let state = replay(root, first.take(n - 1));
        assert(state == replay(root, second.take(n - 1)));
        assert(first[n - 1].dir == state.queue[0]);
        assert(second[n - 1].dir == state.queue[0]);
        assert(first[n - 1].outcome == tree(first[n - 1].dir));
        assert(second[n - 1].outcome == tree(second[n - 1].dir));
        assert(first[n - 1] == second[n - 1]);
        assert(first.take(n) =~= first.take(n - 1).push(first[n - 1]));
        assert(second.take(n) =~= second.take(n - 1).push(second[n - 1]));
    }
}

/// Walking an unchanged tree twice gives the same account.
///
/// Two whole traversals on one thread that both find what `tree` holds take
/// the same steps, so that they end in the same state.
pub proof fn lemma_walk_unique(
    root: Seq<char>,
    tree: Tree,
    first: Seq<Visit>,
    second: Seq<Visit>,
)
    requires
        complete_walk(root, first),
        complete_walk(root, second),
        follows(tree, first),
        follows(tree, second),
    ensures
        first == second,
        replay(root, first).tally.scan() == replay(root, second).tally.scan(),
{
    let n = if first.len() <= second.len() {
        first.len() as int
    } else {
        second.len() as int
    };
    lemma_same_prefix(root, tree, first, second, n);
    assert(first.take(first.len() as int) =~= first);
    assert(second.take(second.len() as int) =~= second);
    if first.len() < second.len() {
        assert(replay(root, second.take(n)).queue.len() > 0);
    } else if second.len() < first.len() {
        assert(replay(root, first.take(n)).queue.len() > 0);
    }
}

/// The steps of one thread as operations on the traversal: each directory
/// is taken and handed back before the next is taken.
pub open spec fn alternate(steps: Seq<Visit>) -> Seq<Operation>
    decreases steps.len(),
{
    if steps.len() == 0 {
        Seq::empty()
    } else {
        alternate(steps.drop_last()).push(Operation::Take).push(Operation::Commit(steps.last()))
    }
}

/// A traversal on one thread is one of the traversals that workers can make.
pub proof fn lemma_walk_is_run(root: Seq<char>, steps: Seq<Visit>)
    requires
        in_order(root, steps),
    ensures
        run(root, alternate(steps)) == replay(root, steps),
        committed(root, alternate(steps)) == steps,
    decreases steps.len(),
{
    if steps.len() > 0 {
        let before = steps.drop_last();
        let last = steps.last();
        assert(steps.take(steps.len() - 1) =~= before);
        lemma_in_order_prefix(root, steps, steps.len() - 1);
        lemma_walk_is_run(root, before);
        lemma_replay(root, before);
        let taken = alternate(before).push(Operation::Take);
        let all = alternate(steps);
        assert(all.drop_last() =~= taken);
        assert(taken.drop_last() =~= alternate(before));
        let state = replay(root, before);
        assert(run(root, taken) == state.take());
        assert(state.queue[0] == last.dir);
        assert(state.take().in_flight =~= seq![last.dir]);
        assert(state.take().in_flight[0] == last.dir);
        assert(committed(root, taken) == before);
        assert(before.push(last) =~= steps);
    }
}

proof fn lemma_alternate_faithful(tree: Tree, steps: Seq<Visit>)
    requires
        follows(tree, steps),
    ensures
        faithful(tree, alternate(steps)),
    decreases steps.len(),
{
    if steps.len() > 0 {
        let before = steps.drop_last();
        assert forall|i: int| 0 <= i < before.len() implies (#[trigger] before[i]).outcome == tree(
            before[i].dir,
        ) by {
            assert(before[i] == steps[i]);
        }
        lemma_alternate_faithful(tree, before);
        let earlier = alternate(before);
        let all = alternate(steps);
        assert(steps[steps.len() - 1] == steps.last());
        assert forall|i: int| 0 <= i < all.len() implies match #[trigger] all[i] {
            Operation::Take => true,
            Operation::Commit(visit) => visit == look(tree, visit.dir),
        } by {
            if i < earlier.len() {
                assert(all[i] == earlier[i]);
            }
        }
    }
}

/// One thread and any number of workers give the same account of a tree
/// whose hardlinks stay within one directory.
///
/// A whole traversal on one thread, and any traversal by workers that has
/// run to its end, end with the same records and the same duplicates.
pub proof fn lemma_workers_agree_with_walk(
    tree: Tree,
    root: Seq<char>,
    steps: Seq<Visit>,
    operations: Seq<Operation>,
)
    requires
        confined_tree(tree, root),
        complete_walk(root, steps),
        follows(tree, steps),
        faithful(tree, operations),
        run(root, operations).idle(),
    ensures
        replay(root, steps).tally.result.map == run(root, operations).tally.result.map,
        replay(root, steps).tally.double_count.map == run(
            root,
            operations,
        ).tally.double_count.map,
{
    lemma_walk_is_run(root, steps);
    lemma_alternate_faithful(tree, steps);
    lemma_schedules_agree(tree, root, alternate(steps), operations);
}

/// One thread and any number of workers agree on the directories that
/// have a record and on the size of the root, however the files are linked.
pub proof fn lemma_totals_agree_with_walk(
    tree: Tree,
    root: Seq<char>,
    steps: Seq<Visit>,
    operations: Seq<Operation>,
    path: Seq<char>,
)
    requires
        tidy_tree(tree, root),
        files_apart_tree(tree, root),
        rooted_tree(tree, root),
        one_size_tree(tree),
        complete_walk(root, steps),
        follows(tree, steps),
        faithful(tree, operations),
        run(root, operations).idle(),
    ensures
        is_directory_key(replay(root, steps).tally.result, path) == is_directory_key(
            run(root, operations).tally.result,
            path,
        ),
        replay(root, steps).tally.result.map.contains_key(root) == run(
            root,
            operations,
        ).tally.result.map.contains_key(root),
        replay(root, steps).tally.result.map.contains_key(root) ==> replay(
            root,
            steps,
        ).tally.result.map[root] == run(root, operations).tally.result.map[root],
{
    lemma_walk_is_run(root, steps);
    lemma_alternate_faithful(tree, steps);
    lemma_schedules_agree_on_totals(tree, root, alternate(steps), operations, path);
}

/// Walks the tree under `root_path_str` on one thread and returns the size
/// of every file and directory found, each file object counted once.
///
/// `list` is asked for the children of each directory, first of the root and
/// then of every subdirectory in the order of discovery. The result is the
/// account of exactly those listings: a listing that failed is noted as
/// skipped and the walk goes on.
pub fn process_dir<F: Fn(&String) -> Result<DirectoryResult, ListError>>(
    root_path_str: String,
    list: F,
) -> (scan: ScanResult)
    requires
        forall|dir: &String| call_requires(list, (dir,)),
    ensures
        scan.result.wf(),
        scan.double_count.wf(),
        exists|events: Seq<WalkEvent>|
            {
                &&& #[trigger] complete_walk(root_path_str@, visits(events))
                &&& forall|i: int|
                    0 <= i < events.len() ==> call_ensures(
                        list,
                        (&(#[trigger] events[i]).dir,),
                        events[i].listing,
                    )
                &&& scan@ == replay(root_path_str@, visits(events)).tally.scan()
                &&& scan@ == account(root_path_str@, visits(events)).scan()
            },
{
    let ghost root = root_path_str@;
    let mut walker = Walker::new(root_path_str);
    let ghost mut events: Seq<WalkEvent> = Seq::empty();
    proof {
        assert(visits(events) =~= Seq::<Visit>::empty());
        lemma_visited_bound(walker@.tally.visited);
    }
    loop
        invariant_except_break
            walker.wf(),
            walker@ == replay(root, visits(events)),
            in_order(root, visits(events)),
            forall|dir: &String| call_requires(list, (dir,)),
            forall|i: int|
                0 <= i < events.len() ==> call_ensures(
                    list,
                    (&(#[trigger] events[i]).dir,),
                    events[i].listing,
                ),
        ensures
            walker.wf(),
            walker@ == replay(root, visits(events)),
            complete_walk(root, visits(events)),
            forall|i: int|
                0 <= i < events.len() ==> call_ensures(
                    list,
                    (&(#[trigger] events[i]).dir,),
                    events[i].listing,
                ),
        decreases identity_count() - walker@.tally.visited.len() + walker@.queue.len(),
    {
        let ghost before = walker@;
        let ghost steps = visits(events);
        proof {
            lemma_replay(root, steps);
            lemma_visited_bound(before.tally.visited);
        }
        match walker.next_action() {
            WorkerAction::Process(dir) => {
                let listing = list(&dir);
                let ghost event = WalkEvent { dir, listing };
                proof {
                    let taken = before.take();
                    taken.in_flight.index_of_first_ensures(dir@);
                    assert(taken.in_flight =~= seq![dir@]);
                    before.tally.lemma_settle_wf(root, dir@, outcome_view(listing));
                    events = events.push(event);
                    let longer = visits(events);
                    assert(longer =~= steps.push(event@));
                    assert(longer.drop_last() =~= steps);
                    assert forall|i: int| 0 <= i < longer.len() implies {
                        let state = #[trigger] replay(root, longer.take(i));
                        state.queue.len() > 0 && state.queue[0] == longer[i].dir
                    } by {
                        if i < steps.len() {
                            assert(longer.take(i) =~= steps.take(i));
                        } else {
                            assert(longer.take(i) =~= steps);
                        }
                    }
                }
                walker.commit(dir, listing);
                proof {
                    lemma_visited_bound(walker@.tally.visited);
                }
            },
            WorkerAction::Wait => {
                break ;
            },
            WorkerAction::Exit => {
                break ;
            },
        }
    }
    proof {
        lemma_replay(root, visits(events));
    }
    walker.finish()
}

} // verus!
