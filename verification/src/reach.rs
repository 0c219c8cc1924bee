//! Every traversal that runs to its end lists the same directories: those
//! that can be reached from the root. So traversals of one tree agree,
//! however many workers take part and however their steps are interleaved:
//! in everything where hardlinks stay within one directory, and in the
//! directories that have a record and the size of the root wherever files
//! alone are linked.

use crate::history::{account, Visit};
use crate::order::{
    confined, holds_identity, lemma_order_independent, lemma_visited_ids, visit_holds,
};
use crate::schedule::{committed, lemma_run_account, run, Operation};
use crate::tally::{ancestors, Tally};
use crate::types::{ListError, Listing, NodeView};
use crate::walker::WalkState;
use vstd::prelude::*;
use vstd::seq_lib::{to_multiset_build, to_multiset_contains, to_multiset_remove};

verus! {

/// What every directory of a tree holds.
pub type Tree = spec_fn(Seq<char>) -> Result<Listing, ListError>;

/// The listing of `dir` as `tree` holds it.
pub open spec fn look(tree: Tree, dir: Seq<char>) -> Visit {
    Visit { dir, outcome: tree(dir) }
}

/// Every listing that `operations` hand back is what `tree` holds.
pub open spec fn faithful(tree: Tree, operations: Seq<Operation>) -> bool {
    forall|i: int|
        0 <= i < operations.len() ==> match #[trigger] operations[i] {
            Operation::Take => true,
            Operation::Commit(visit) => visit == look(tree, visit.dir),
        }
}

/// `path` is a subdirectory in the listing of `parent`.
pub open spec fn child(tree: Tree, parent: Seq<char>, path: Seq<char>) -> bool {
    exists|j: int|
        0 <= j < look(tree, parent).directories().len() && (#[trigger] look(
            tree,
            parent,
        ).directories()[j]).path == path
}

/// `chain` leads from `root` to `path`, each step to a subdirectory.
pub open spec fn is_route(tree: Tree, root: Seq<char>, chain: Seq<Seq<char>>, path: Seq<char>) -> bool {
    &&& chain.len() >= 1
    &&& chain[0] == root
    &&& chain.last() == path
    &&& forall|k: int| 0 <= k < chain.len() - 1 ==> child(tree, #[trigger] chain[k], chain[k + 1])
}

/// `path` can be reached from `root` through listings that succeed.
pub open spec fn reachable(tree: Tree, root: Seq<char>, path: Seq<char>) -> bool {
    exists|chain: Seq<Seq<char>>| is_route(tree, root, chain, path)
}

/// The directories of the tree form a tree: every subdirectory has an
/// identity and a path of its own, no file has the identity of a
/// subdirectory, and no subdirectory has the path of the root.
pub open spec fn tidy_tree(tree: Tree, root: Seq<char>) -> bool {
    &&& forall|a: Seq<char>, b: Seq<char>, j: int, l: int|
        #![trigger look(tree, a).directories()[j], look(tree, b).directories()[l]]
        0 <= j < look(tree, a).directories().len() && 0 <= l < look(tree, b).directories().len()
            && (a != b || j != l) ==> look(tree, a).directories()[j].id != look(
            tree,
            b,
        ).directories()[l].id && look(tree, a).directories()[j].path != look(
            tree,
            b,
        ).directories()[l].path
    &&& forall|a: Seq<char>, b: Seq<char>, j: int, l: int|
        #![trigger look(tree, a).files()[j], look(tree, b).directories()[l]]
        0 <= j < look(tree, a).files().len() && 0 <= l < look(tree, b).directories().len()
            ==> look(tree, a).files()[j].node.id != look(tree, b).directories()[l].id
    &&& forall|a: Seq<char>, j: int|
        0 <= j < look(tree, a).directories().len() ==> (#[trigger] look(
            tree,
            a,
        ).directories()[j]).path != root
}

/// No file of the tree has the path of a directory that a listing is
/// credited to.
pub open spec fn files_apart_tree(tree: Tree, root: Seq<char>) -> bool {
    forall|a: Seq<char>, b: Seq<char>, j: int|
        #![trigger look(tree, a).files()[j], look(tree, b).listed()]
        0 <= j < look(tree, a).files().len() && look(tree, b).listed() ==> !ancestors(
            b,
            root,
        ).contains(look(tree, a).files()[j].node.path)
}

/// The hardlinks of the tree stay within one directory: its directories
/// form a tree, files of different directories have different identities,
/// every file has a path of its own, and that is the path of no directory
/// that a listing is credited to.
pub open spec fn confined_tree(tree: Tree, root: Seq<char>) -> bool {
    &&& tidy_tree(tree, root)
    &&& files_apart_tree(tree, root)
    &&& forall|a: Seq<char>, b: Seq<char>, j: int, l: int|
        #![trigger look(tree, a).files()[j], look(tree, b).files()[l]]
        0 <= j < look(tree, a).files().len() && 0 <= l < look(tree, b).files().len() ==> (a != b
            ==> look(tree, a).files()[j].node.id != look(tree, b).files()[l].node.id) && (a != b
            || j != l ==> look(tree, a).files()[j].node.path != look(
            tree,
            b,
        ).files()[l].node.path)
}

proof fn lemma_count_push<A>(s: Seq<A>, x: A, y: A)
    ensures
        s.push(x).to_multiset().count(y) == s.to_multiset().count(y) + if x == y {
            1nat
        } else {
            0nat
        },
{
    broadcast use vstd::multiset::group_multiset_axioms;

    to_multiset_build(s, x);
}

proof fn lemma_count_remove<A>(s: Seq<A>, at: int, y: A)
    requires
        0 <= at < s.len(),
    ensures
        s.to_multiset().count(s[at]) >= 1,
        s.remove(at).to_multiset().count(y) == s.to_multiset().count(y) - if s[at] == y {
            1int
        } else {
            0int
        },
{
    broadcast use vstd::multiset::group_multiset_axioms;

    to_multiset_remove(s, at);
    to_multiset_contains(s, s[at]);
    assert(s.contains(s[at]));
}

proof fn lemma_count_concat<A>(a: Seq<A>, b: Seq<A>, y: A)
    ensures
        (a + b).to_multiset().count(y) == a.to_multiset().count(y) + b.to_multiset().count(y),
{
    broadcast use vstd::multiset::group_multiset_axioms;

    vstd::seq_lib::lemma_multiset_commutative(a, b);
}

proof fn lemma_count_distinct<A>(s: Seq<A>, y: A)
    requires
        s.no_duplicates(),
    ensures
        s.to_multiset().count(y) == if s.contains(y) {
            1nat
        } else {
            0nat
        },
{
    broadcast use vstd::multiset::group_multiset_axioms;

    s.lemma_multiset_has_no_duplicates();
    to_multiset_contains(s, y);
}

proof fn lemma_count_empty<A>(s: Seq<A>, y: A)
    requires
        s.len() == 0,
    ensures
        s.to_multiset().count(y) == 0,
{
    to_multiset_contains(s, y);
}

/// The paths of `dirs`, in their order.
pub open spec fn paths_of(dirs: Seq<NodeView>) -> Seq<Seq<char>> {
    dirs.map_values(|dir: NodeView| dir.path)
}

/// Where every subdirectory is the first sighting of its identity, all
/// join the queue.
proof fn lemma_discover_all(tally: Tally, dirs: Seq<NodeView>)
    requires
        forall|j: int|
            0 <= j < dirs.len() ==> !(#[trigger] tally.mark_dirs(dirs.take(j))).visited.contains(
                dirs[j].id,
            ),
    ensures
        tally.discover(dirs) == paths_of(dirs),
    decreases dirs.len(),
{
    if dirs.len() == 0 {
        assert(tally.discover(dirs) =~= paths_of(dirs));
    } else {
        let before = dirs.drop_last();
        assert forall|j: int| 0 <= j < before.len() implies !(#[trigger] tally.mark_dirs(
            before.take(j),
        )).visited.contains(before[j].id) by {
            assert(before.take(j) =~= dirs.take(j));
            assert(before[j] == dirs[j]);
        }
        lemma_discover_all(tally, before);
        assert(dirs.take(dirs.len() - 1) =~= before);
        assert(dirs.last() == dirs[dirs.len() - 1]);
        assert(paths_of(before).push(dirs.last().path) =~= paths_of(dirs));
    }
}

/// How often `path` stands in the queue, in flight, or among the listings
/// that were handed back.
pub open spec fn occurrences(tree: Tree, state: WalkState, visits: Seq<Visit>, path: Seq<char>) -> nat {
    state.queue.to_multiset().count(path) + state.in_flight.to_multiset().count(path)
        + visits.to_multiset().count(look(tree, path))
}

/// What holds of a traversal at every moment, where the directories form a tree:
/// each directory that was found stands in exactly one place, it can be
/// reached from the root, the subdirectories of every directory that was
/// handed back were found, and nothing was found but through a directory
/// that was handed back.
pub open spec fn sound(tree: Tree, root: Seq<char>, state: WalkState, visits: Seq<Visit>) -> bool {
    &&& state.root == root
    &&& state.tally == account(root, visits)
    &&& forall|i: int| 0 <= i < visits.len() ==> (#[trigger] visits[i]) == look(tree, visits[i].dir)
    &&& forall|path: Seq<char>| #[trigger] occurrences(tree, state, visits, path) <= 1
    &&& forall|path: Seq<char>|
        #[trigger] occurrences(tree, state, visits, path) >= 1 ==> reachable(tree, root, path)
    &&& occurrences(tree, state, visits, root) >= 1
    &&& forall|parent: Seq<char>, path: Seq<char>|
        visits.contains(look(tree, parent)) && #[trigger] child(tree, parent, path)
            ==> occurrences(tree, state, visits, path) >= 1
    &&& forall|path: Seq<char>|
        #[trigger] occurrences(tree, state, visits, path) >= 1 && path != root ==> exists|
            parent: Seq<char>,
        |
            visits.contains(look(tree, parent)) && #[trigger] child(tree, parent, path)
}

proof fn lemma_sound_initial(tree: Tree, root: Seq<char>)
    ensures
        sound(tree, root, WalkState::initial(root), Seq::<Visit>::empty()),
{
    let state = WalkState::initial(root);
    let visits = Seq::<Visit>::empty();
    assert forall|path: Seq<char>|
        #[trigger] occurrences(tree, state, visits, path) == if path == root {
            1nat
        } else {
            0nat
        } by {
        lemma_count_empty(visits, look(tree, path));
        lemma_count_empty(state.in_flight, path);
        let none = Seq::<Seq<char>>::empty();
        assert(state.queue =~= none.push(root));
        lemma_count_push(none, root, path);
        lemma_count_empty(none, path);
    }
    assert(is_route(tree, root, seq![root], root));
}

proof fn lemma_sound_take(tree: Tree, root: Seq<char>, state: WalkState, visits: Seq<Visit>)
    requires
        sound(tree, root, state, visits),
    ensures
        sound(tree, root, state.take(), visits),
{
    if state.queue.len() > 0 {
        let next = state.take();
        let first = state.queue[0];
        assert(state.queue.drop_first() =~= state.queue.remove(0));
        assert forall|path: Seq<char>|
            #[trigger] occurrences(tree, next, visits, path) == occurrences(
                tree,
                state,
                visits,
                path,
            ) by {
            lemma_count_remove(state.queue, 0, path);
            lemma_count_push(state.in_flight, first, path);
        }
        assert forall|path: Seq<char>| #[trigger]
            occurrences(tree, next, visits, path) <= 1 by {
            assert(occurrences(tree, state, visits, path) <= 1);
        }
        assert forall|path: Seq<char>| #[trigger]
            occurrences(tree, next, visits, path) >= 1 implies reachable(tree, root, path) by {
            assert(occurrences(tree, state, visits, path) >= 1);
        }
        assert(occurrences(tree, next, visits, root) == occurrences(tree, state, visits, root));
        assert forall|parent: Seq<char>, path: Seq<char>|
            visits.contains(look(tree, parent)) && #[trigger] child(
                tree,
                parent,
                path,
            ) implies occurrences(tree, next, visits, path) >= 1 by {
            assert(occurrences(tree, state, visits, path) >= 1);
        }
        assert forall|path: Seq<char>| #[trigger]
            occurrences(tree, next, visits, path) >= 1 && path != root implies exists|
            parent: Seq<char>,
        |
            visits.contains(look(tree, parent)) && #[trigger] child(tree, parent, path) by {
            assert(occurrences(tree, state, visits, path) >= 1);
        }
    }
}

/// A route to a directory and one step more is a route to its subdirectory.
proof fn lemma_route_extend(tree: Tree, root: Seq<char>, parent: Seq<char>, path: Seq<char>)
    requires
        reachable(tree, root, parent),
        child(tree, parent, path),
    ensures
        reachable(tree, root, path),
{
    let chain = choose|chain: Seq<Seq<char>>| is_route(tree, root, chain, parent);
    let longer = chain.push(path);
    assert forall|k: int| 0 <= k < longer.len() - 1 implies child(
        tree,
        #[trigger] longer[k],
        longer[k + 1],
    ) by {
        if k < chain.len() - 1 {
            assert(longer[k] == chain[k]);
            assert(longer[k + 1] == chain[k + 1]);
            assert(child(tree, chain[k], chain[k + 1]));
        } else {
            assert(longer[k] == parent);
        }
    }
    assert(is_route(tree, root, longer, path));
}

/// Where the directories form a tree, a directory that is handed back for
/// the first time brings all its subdirectories into the queue, each once.
proof fn lemma_found(tree: Tree, root: Seq<char>, visits: Seq<Visit>, dir: Seq<char>)
    requires
        tidy_tree(tree, root),
        forall|i: int| 0 <= i < visits.len() ==> (#[trigger] visits[i]) == look(tree, visits[i].dir),
        !visits.contains(look(tree, dir)),
    ensures
        account(root, visits).found(tree(dir)) == paths_of(look(tree, dir).directories()),
        paths_of(look(tree, dir).directories()).no_duplicates(),
        forall|path: Seq<char>|
            paths_of(look(tree, dir).directories()).contains(path) <==> #[trigger] child(
                tree,
                dir,
                path,
            ),
{
    let visit = look(tree, dir);
    let dirs = visit.directories();
    let files = visit.files();
    let paths = paths_of(dirs);
    let tally = account(root, visits);
    assert forall|i: int, j: int| 0 <= i < paths.len() && 0 <= j < paths.len() && i != j implies paths[i]
        != paths[j] by {
        assert(look(tree, dir).directories()[i].path != look(tree, dir).directories()[j].path);
    }
    assert forall|path: Seq<char>| paths.contains(path) <==> #[trigger] child(tree, dir, path) by {
        if paths.contains(path) {
            let j = choose|j: int| 0 <= j < paths.len() && paths[j] == path;
            assert(look(tree, dir).directories()[j].path == path);
        }
        if child(tree, dir, path) {
            let j = choose|j: int|
                0 <= j < look(tree, dir).directories().len() && (#[trigger] look(
                    tree,
                    dir,
                ).directories()[j]).path == path;
            assert(paths[j] == path);
        }
    }
    match tree(dir) {
        Err(_) => {
            assert(tally.found(tree(dir)) =~= paths);
        },
        Ok(listing) => {
            let counted = tally.count_files(listing.files);
            assert forall|j: int| 0 <= j < dirs.len() implies !(#[trigger] counted.mark_dirs(
                dirs.take(j),
            )).visited.contains(dirs[j].id) by {
                let id = dirs[j].id;
                let mine = look(tree, dir).directories()[j];
                counted.lemma_mark_dirs_visited(dirs.take(j), id);
                tally.lemma_count_files_visited(listing.files, id);
                lemma_visited_ids(root, visits, id);
                if holds_identity(visits, id) {
                    let i = choose|i: int|
                        0 <= i < visits.len() && visit_holds(#[trigger] visits[i], id);
                    let other = visits[i].dir;
                    assert(visits[i] == look(tree, other));
                    assert(visits.contains(visits[i]));
                    assert(other != dir);
                    if exists|l: int|
                        0 <= l < visits[i].files().len() && (#[trigger] visits[i].files()[l]).node.id
                            == id {
                        let l = choose|l: int|
                            0 <= l < visits[i].files().len() && (
                            #[trigger] visits[i].files()[l]).node.id == id;
                        assert(look(tree, other).files()[l].node.id != look(
                            tree,
                            dir,
                        ).directories()[j].id);
                    } else {
                        let l = choose|l: int|
                            0 <= l < visits[i].directories().len() && (
                            #[trigger] visits[i].directories()[l]).id == id;
                        assert(look(tree, other).directories()[l].id != look(
                            tree,
                            dir,
                        ).directories()[j].id);
                    }
                }
                if exists|l: int|
                    0 <= l < listing.files.len() && (#[trigger] listing.files[l]).node.id == id {
                    let l = choose|l: int|
                        0 <= l < listing.files.len() && (#[trigger] listing.files[l]).node.id == id;
                    assert(look(tree, dir).files()[l].node.id != look(tree, dir).directories()[j].id);
                }
                if exists|l: int|
                    0 <= l < dirs.take(j).len() && (#[trigger] dirs.take(j)[l]).id == id {
                    let l = choose|l: int|
                        0 <= l < dirs.take(j).len() && (#[trigger] dirs.take(j)[l]).id == id;
                    assert(dirs.take(j)[l] == look(tree, dir).directories()[l]);
                    assert(look(tree, dir).directories()[l].id != look(
                        tree,
                        dir,
                    ).directories()[j].id);
                }
            }
            lemma_discover_all(counted, dirs);
        },
    }
}

proof fn lemma_sound_commit(
    tree: Tree,
    root: Seq<char>,
    state: WalkState,
    visits: Seq<Visit>,
    dir: Seq<char>,
)
    requires
        tidy_tree(tree, root),
        sound(tree, root, state, visits),
        state.in_flight.contains(dir),
    ensures
        sound(tree, root, state.commit(dir, tree(dir)), visits.push(look(tree, dir))),
{
    let visit = look(tree, dir);
    let next = state.commit(dir, tree(dir));
    let longer = visits.push(visit);
    let found = state.tally.found(tree(dir));
    state.in_flight.index_of_first_ensures(dir);
    let slot = state.in_flight.index_of_first(dir)->0;
    // the directory has not been handed back before
    lemma_count_remove(state.in_flight, slot, dir);
    assert(occurrences(tree, state, visits, dir) <= 1);
    to_multiset_contains(visits, visit);
    assert(!visits.contains(visit));
    lemma_found(tree, root, visits, dir);
    let paths = paths_of(visit.directories());
    assert(found == paths);
    // what the return does to the places of each path
    assert forall|path: Seq<char>|
        #[trigger] occurrences(tree, next, longer, path) == occurrences(
            tree,
            state,
            visits,
            path,
        ) + if child(tree, dir, path) {
            1nat
        } else {
            0nat
        } by {
        lemma_count_concat(state.queue, found, path);
        lemma_count_distinct(paths, path);
        lemma_count_remove(state.in_flight, slot, path);
        lemma_count_push(visits, visit, look(tree, path));
        assert(look(tree, path) == visit <==> path == dir);
    }
    // a subdirectory of the directory stood nowhere before
    assert forall|path: Seq<char>| child(tree, dir, path) implies #[trigger] occurrences(
        tree,
        state,
        visits,
        path,
    ) == 0 by {
        let j = choose|j: int|
            0 <= j < look(tree, dir).directories().len() && (#[trigger] look(
                tree,
                dir,
            ).directories()[j]).path == path;
        assert(path != root);
        if occurrences(tree, state, visits, path) >= 1 {
            let parent = choose|parent: Seq<char>|
                visits.contains(look(tree, parent)) && #[trigger] child(tree, parent, path);
            let l = choose|l: int|
                0 <= l < look(tree, parent).directories().len() && (#[trigger] look(
                    tree,
                    parent,
                ).directories()[l]).path == path;
            assert(parent != dir);
            assert(look(tree, parent).directories()[l].path != look(tree, dir).directories()[j].path);
        }
    }
    assert(longer.drop_last() =~= visits);
    assert(longer.last() == visit);
    assert(next.tally == account(root, longer));
    assert forall|i: int| 0 <= i < longer.len() implies (#[trigger] longer[i]) == look(
        tree,
        longer[i].dir,
    ) by {
        if i < visits.len() {
            assert(longer[i] == visits[i]);
        }
    }
    assert forall|path: Seq<char>| #[trigger] occurrences(tree, next, longer, path) <= 1 by {
        assert(occurrences(tree, state, visits, path) <= 1);
    }
    assert forall|path: Seq<char>| #[trigger]
        occurrences(tree, next, longer, path) >= 1 implies reachable(tree, root, path) by {
        if child(tree, dir, path) {
            assert(occurrences(tree, state, visits, dir) >= 1);
            lemma_route_extend(tree, root, dir, path);
        } else {
            assert(occurrences(tree, state, visits, path) >= 1);
        }
    }
    assert(occurrences(tree, next, longer, root) >= 1) by {
        assert(occurrences(tree, state, visits, root) >= 1);
    }
    assert forall|parent: Seq<char>, path: Seq<char>|
        longer.contains(look(tree, parent)) && #[trigger] child(
            tree,
            parent,
            path,
        ) implies occurrences(tree, next, longer, path) >= 1 by {
        let at = choose|at: int| 0 <= at < longer.len() && longer[at] == look(tree, parent);
        if at < visits.len() {
            assert(visits[at] == look(tree, parent));
            assert(visits.contains(look(tree, parent)));
            assert(occurrences(tree, state, visits, path) >= 1);
        } else {
            assert(parent == dir);
        }
    }
    assert forall|path: Seq<char>| #[trigger]
        occurrences(tree, next, longer, path) >= 1 && path != root implies exists|
        parent: Seq<char>,
    |
        longer.contains(look(tree, parent)) && #[trigger] child(tree, parent, path) by {
        if child(tree, dir, path) {
            assert(longer[visits.len() as int] == look(tree, dir));
            assert(longer.contains(look(tree, dir)));
        } else {
            assert(occurrences(tree, state, visits, path) >= 1);
            let parent = choose|parent: Seq<char>|
                visits.contains(look(tree, parent)) && #[trigger] child(tree, parent, path);
            let at = choose|at: int| 0 <= at < visits.len() && visits[at] == look(tree, parent);
            assert(longer[at] == look(tree, parent));
            assert(longer.contains(look(tree, parent)));
        }
    }
}

/// The invariant holds after any operations that hand back what the tree holds.
pub proof fn lemma_sound_run(tree: Tree, root: Seq<char>, operations: Seq<Operation>)
    requires
        tidy_tree(tree, root),
        faithful(tree, operations),
    ensures
        sound(tree, root, run(root, operations), committed(root, operations)),
    decreases operations.len(),
{
    if operations.len() == 0 {
        lemma_sound_initial(tree, root);
    } else {
        let earlier = operations.drop_last();
        assert forall|i: int| 0 <= i < earlier.len() implies match #[trigger] earlier[i] {
            Operation::Take => true,
            Operation::Commit(visit) => visit == look(tree, visit.dir),
        } by {
            assert(earlier[i] == operations[i]);
        }
        lemma_sound_run(tree, root, earlier);
        let state = run(root, earlier);
        let visits = committed(root, earlier);
        assert(operations[operations.len() - 1] == operations.last());
        match operations.last() {
            Operation::Take => {
                lemma_sound_take(tree, root, state, visits);
            },
            Operation::Commit(visit) => {
                state.in_flight.index_of_first_ensures(visit.dir);
                if state.in_flight.contains(visit.dir) {
                    lemma_sound_commit(tree, root, state, visits, visit.dir);
                }
            },
        }
    }
}

/// At the end of a traversal every directory on a route from the root has
/// been handed back.
proof fn lemma_idle_reaches(
    tree: Tree,
    root: Seq<char>,
    state: WalkState,
    visits: Seq<Visit>,
    chain: Seq<Seq<char>>,
    k: int,
)
    requires
        sound(tree, root, state, visits),
        state.idle(),
        is_route(tree, root, chain, chain.last()),
        0 <= k < chain.len(),
    ensures
        visits.contains(look(tree, chain[k])),
    decreases k,
{
    let path = chain[k];
    lemma_count_empty(state.queue, path);
    lemma_count_empty(state.in_flight, path);
    to_multiset_contains(visits, look(tree, path));
    if k == 0 {
        assert(occurrences(tree, state, visits, root) >= 1);
    } else {
        lemma_idle_reaches(tree, root, state, visits, chain, k - 1);
        assert(child(tree, chain[k - 1], chain[k - 1 + 1]));
        assert(occurrences(tree, state, visits, path) >= 1);
    }
}

/// A traversal that has run to its end has listed the directories that
/// can be reached from the root, each once, and nothing else.
pub proof fn lemma_idle_members(tree: Tree, root: Seq<char>, operations: Seq<Operation>)
    requires
        tidy_tree(tree, root),
        faithful(tree, operations),
        run(root, operations).idle(),
    ensures
        forall|visit: Visit|
            #[trigger] committed(root, operations).to_multiset().count(visit) == if visit == look(
                tree,
                visit.dir,
            ) && reachable(tree, root, visit.dir) {
                1nat
            } else {
                0nat
            },
{
    let state = run(root, operations);
    let visits = committed(root, operations);
    lemma_sound_run(tree, root, operations);
    assert forall|visit: Visit|
        #[trigger] visits.to_multiset().count(visit) == if visit == look(tree, visit.dir)
            && reachable(tree, root, visit.dir) {
            1nat
        } else {
            0nat
        } by {
        to_multiset_contains(visits, visit);
        if visit != look(tree, visit.dir) {
            if visits.contains(visit) {
                let i = choose|i: int| 0 <= i < visits.len() && visits[i] == visit;
                assert(visits[i] == look(tree, visits[i].dir));
            }
        } else {
            let path = visit.dir;
            lemma_count_empty(state.queue, path);
            lemma_count_empty(state.in_flight, path);
            assert(occurrences(tree, state, visits, path) <= 1);
            if reachable(tree, root, path) {
                let chain = choose|chain: Seq<Seq<char>>| is_route(tree, root, chain, path);
                lemma_idle_reaches(tree, root, state, visits, chain, chain.len() - 1);
            } else if visits.contains(visit) {
                assert(occurrences(tree, state, visits, path) >= 1);
            }
        }
    }
}

/// Two traversals of one tree that both run to their end have taken in the
/// same listings, each once: those of the directories that can be reached
/// from the root.
pub proof fn lemma_same_listings(
    tree: Tree,
    root: Seq<char>,
    first: Seq<Operation>,
    second: Seq<Operation>,
)
    requires
        tidy_tree(tree, root),
        faithful(tree, first),
        faithful(tree, second),
        run(root, first).idle(),
        run(root, second).idle(),
    ensures
        committed(root, first).to_multiset() == committed(root, second).to_multiset(),
        committed(root, first).no_duplicates(),
        forall|i: int|
            0 <= i < committed(root, first).len() ==> (#[trigger] committed(root, first)[i])
                == look(tree, committed(root, first)[i].dir),
{
    broadcast use vstd::multiset::group_multiset_axioms;

    let one = committed(root, first);
    let two = committed(root, second);
    lemma_idle_members(tree, root, first);
    lemma_idle_members(tree, root, second);
    assert forall|visit: Visit| one.to_multiset().count(visit) == two.to_multiset().count(
        visit,
    ) by {
        assert(one.to_multiset().count(visit) == if visit == look(tree, visit.dir) && reachable(
            tree,
            root,
            visit.dir,
        ) {
            1nat
        } else {
            0nat
        });
        assert(two.to_multiset().count(visit) == if visit == look(tree, visit.dir) && reachable(
            tree,
            root,
            visit.dir,
        ) {
            1nat
        } else {
            0nat
        });
    }
    assert(one.to_multiset() =~= two.to_multiset());
    lemma_sound_run(tree, root, first);
    assert forall|visit: Visit| one.to_multiset().contains(visit) implies one.to_multiset().count(
        visit,
    ) == 1 by {
        assert(one.to_multiset().count(visit) == if visit == look(tree, visit.dir) && reachable(
            tree,
            root,
            visit.dir,
        ) {
            1nat
        } else {
            0nat
        });
    }
    one.lemma_multiset_has_no_duplicates_conv();
}

/// The listings of a traversal of a tree whose hardlinks stay within one
/// directory are those of such a tree.
proof fn lemma_confined_visits(tree: Tree, root: Seq<char>, visits: Seq<Visit>)
    requires
        confined_tree(tree, root),
        visits.no_duplicates(),
        forall|i: int| 0 <= i < visits.len() ==> (#[trigger] visits[i]) == look(tree, visits[i].dir),
    ensures
        confined(root, visits),
{
    assert forall|a: Visit| visits.contains(a) implies a == look(tree, a.dir) by {
        let i = choose|i: int| 0 <= i < visits.len() && visits[i] == a;
        assert(visits[i] == look(tree, visits[i].dir));
    }
    assert forall|a: Visit, b: Visit, j: int, l: int|
        #![trigger a.files()[j], b.files()[l]]
        visits.contains(a) && visits.contains(b) && 0 <= j < a.files().len() && 0 <= l
            < b.files().len() implies (a != b ==> a.files()[j].node.id != b.files()[l].node.id)
        && (a != b || j != l ==> a.files()[j].node.path != b.files()[l].node.path) by {
        assert(a == look(tree, a.dir) && b == look(tree, b.dir));
        let x = look(tree, a.dir).files()[j];
        let y = look(tree, b.dir).files()[l];
        assert(a != b ==> a.dir != b.dir);
    }
    assert forall|a: Visit, b: Visit, j: int, l: int|
        #![trigger a.directories()[j], b.directories()[l]]
        visits.contains(a) && visits.contains(b) && 0 <= j < a.directories().len() && 0 <= l
            < b.directories().len() && (a != b || j != l) implies a.directories()[j].id
        != b.directories()[l].id by {
        assert(a == look(tree, a.dir) && b == look(tree, b.dir));
        assert(look(tree, a.dir).directories()[j].id != look(tree, b.dir).directories()[l].id);
    }
    assert forall|a: Visit, b: Visit, j: int, l: int|
        #![trigger a.files()[j], b.directories()[l]]
        visits.contains(a) && visits.contains(b) && 0 <= j < a.files().len() && 0 <= l
            < b.directories().len() implies a.files()[j].node.id != b.directories()[l].id by {
        assert(a == look(tree, a.dir) && b == look(tree, b.dir));
        assert(look(tree, a.dir).files()[j].node.id != look(tree, b.dir).directories()[l].id);
    }
    assert forall|a: Visit, b: Visit, j: int|
        #![trigger a.files()[j], b.listed()]
        visits.contains(a) && visits.contains(b) && 0 <= j < a.files().len()
            && b.listed() implies !ancestors(b.dir, root).contains(a.files()[j].node.path) by {
        assert(a == look(tree, a.dir) && b == look(tree, b.dir));
        assert(look(tree, b.dir).listed());
        assert(!ancestors(b.dir, root).contains(look(tree, a.dir).files()[j].node.path));
    }
}

/// Traversals of a tree whose hardlinks stay within one directory give the
/// same account, however many workers take part and in whatever order their
/// steps fall.
///
/// Two traversals of one tree that both run to their end finish with the
/// same records, the same duplicates and the same identities seen.
pub proof fn lemma_schedules_agree(
    tree: Tree,
    root: Seq<char>,
    first: Seq<Operation>,
    second: Seq<Operation>,
)
    requires
        confined_tree(tree, root),
        faithful(tree, first),
        faithful(tree, second),
        run(root, first).idle(),
        run(root, second).idle(),
    ensures
        run(root, first).tally.result.map == run(root, second).tally.result.map,
        run(root, first).tally.double_count.map == run(root, second).tally.double_count.map,
        run(root, first).tally.visited == run(root, second).tally.visited,
{
    lemma_same_listings(tree, root, first, second);
    lemma_confined_visits(tree, root, committed(root, first));
    lemma_order_independent(root, committed(root, first), committed(root, second));
    lemma_run_account(root, first);
    lemma_run_account(root, second);
}

} // verus!
