//! Traversals by any number of workers: whatever the order in which
//! directories are taken and handed back, the account is that of the
//! listings in the order of their return.

use crate::history::{account, Visit};
use crate::walker::WalkState;
use vstd::prelude::*;

verus! {

/// What a worker does to a traversal.
pub enum Operation {
    /// Takes the directory that has waited longest, if one waits.
    Take,
    /// Hands back a directory with the outcome of its listing.
    Commit(Visit),
}

/// The state after `operations`, from a traversal that starts at `root`.
pub open spec fn run(root: Seq<char>, operations: Seq<Operation>) -> WalkState
    decreases operations.len(),
{
    if operations.len() == 0 {
        WalkState::initial(root)
    } else {
        let before = run(root, operations.drop_last());
        match operations.last() {
            Operation::Take => before.take(),
            Operation::Commit(visit) => before.commit(visit.dir, visit.outcome),
        }
    }
}

/// The listings that `operations` handed back and that were accepted
/// because their directory was in flight, in the order of their return.
pub open spec fn committed(root: Seq<char>, operations: Seq<Operation>) -> Seq<Visit>
    decreases operations.len(),
{
    if operations.len() == 0 {
        Seq::empty()
    } else {
        let before = committed(root, operations.drop_last());
        match operations.last() {
            Operation::Take => before,
            Operation::Commit(visit) => if run(root, operations.drop_last()).in_flight.contains(
                visit.dir,
            ) {
                before.push(visit)
            } else {
                before
            },
        }
    }
}

/// However takes and returns are interleaved, the account is that of the
/// listings that were accepted, in the order of their return.
pub proof fn lemma_run_account(root: Seq<char>, operations: Seq<Operation>)
    ensures
        run(root, operations).root == root,
        run(root, operations).tally == account(root, committed(root, operations)),
    decreases operations.len(),
{
    if operations.len() > 0 {
        let earlier = operations.drop_last();
        lemma_run_account(root, earlier);
        match operations.last() {
            Operation::Take => {},
            Operation::Commit(visit) => {
                let state = run(root, earlier);
                state.in_flight.index_of_first_ensures(visit.dir);
                if state.in_flight.contains(visit.dir) {
                    let accepted = committed(root, operations);
                    assert(accepted.drop_last() =~= committed(root, earlier));
                    assert(accepted.last() == visit);
                }
            },
        }
    }
}

/// Once no directory waits and none is in flight, nothing that a worker
/// does brings work back: a worker that was told to stop has missed nothing.
pub proof fn lemma_idle_is_final(state: WalkState, operation: Operation)
    requires
        state.idle(),
    ensures
        match operation {
            Operation::Take => state.take() == state,
            Operation::Commit(visit) => state.commit(visit.dir, visit.outcome) == state,
        },
{
    match operation {
        Operation::Take => {},
        Operation::Commit(visit) => {
            state.in_flight.index_of_first_ensures(visit.dir);
        },
    }
}

} // verus!
