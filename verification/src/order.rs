//! Where the references to a file object all lie in one directory, the
//! account does not depend on the order in which the directories are listed.

use crate::aggregation::{credited, lemma_directory_total};
use crate::dedup::{
    distinct_file_paths, file_at, fresh, is_entry, lemma_file_record, lemma_ledger_keys,
};
use crate::history::{account, charged, names_file, Visit};
use crate::tally::{ancestors, Tally};
use crate::types::{clamp, directory_record, file_record, FileView, NodeId};
use vstd::prelude::*;

verus! {

/// File `j` is the first of `files` with its identity.
pub open spec fn first_here(files: Seq<FileView>, j: int) -> bool {
    forall|l: int| 0 <= l < j ==> (#[trigger] files[l]).node.id != files[j].node.id
}

/// What a listing gains by its own files: the sizes of those that are the
/// first of the listing with their identity.
pub open spec fn own_gain(files: Seq<FileView>) -> nat {
    Tally::empty().counted(files)
}

/// What `visit` holds beneath `path`: what it gains by its own files where
/// its listing is credited to `path`, and nothing where it is not.
pub open spec fn part(root: Seq<char>, visit: Visit, path: Seq<char>) -> nat {
    if visit.listed() && ancestors(visit.dir, root).contains(path) {
        own_gain(visit.files())
    } else {
        0
    }
}

/// What the listings of `visits` at or beneath `path` gain by their own files.
pub open spec fn weight_beneath(root: Seq<char>, visits: Seq<Visit>, path: Seq<char>) -> nat
    decreases visits.len(),
{
    if visits.len() == 0 {
        0
    } else {
        weight_beneath(root, visits.drop_last(), path) + part(root, visits.last(), path)
    }
}

/// Some file or subdirectory of `visit` has the identity `id`.
pub open spec fn visit_holds(visit: Visit, id: NodeId) -> bool {
    ||| exists|j: int| 0 <= j < visit.files().len() && (#[trigger] visit.files()[j]).node.id == id
    ||| exists|j: int|
        0 <= j < visit.directories().len() && (#[trigger] visit.directories()[j]).id == id
}

/// Some file or subdirectory of a listing of `visits` has the identity `id`.
pub open spec fn holds_identity(visits: Seq<Visit>, id: NodeId) -> bool {
    exists|i: int| 0 <= i < visits.len() && visit_holds(#[trigger] visits[i], id)
}

/// The listings are those of a tree whose hardlinks stay within one
/// directory: no directory is listed twice, files of different listings have
/// different identities, every subdirectory has an identity of its own that
/// no file has, every file has a path of its own, and no file has the path
/// of a directory that a listing is credited to.
pub open spec fn confined(root: Seq<char>, visits: Seq<Visit>) -> bool {
    &&& visits.no_duplicates()
    &&& forall|a: Visit, b: Visit, j: int, l: int|
        #![trigger a.files()[j], b.files()[l]]
        visits.contains(a) && visits.contains(b) && 0 <= j < a.files().len() && 0 <= l
            < b.files().len() ==> (a != b ==> a.files()[j].node.id != b.files()[l].node.id) && (a
            != b || j != l ==> a.files()[j].node.path != b.files()[l].node.path)
    &&& forall|a: Visit, b: Visit, j: int, l: int|
        #![trigger a.directories()[j], b.directories()[l]]
        visits.contains(a) && visits.contains(b) && 0 <= j < a.directories().len() && 0 <= l
            < b.directories().len() && (a != b || j != l) ==> a.directories()[j].id
            != b.directories()[l].id
    &&& forall|a: Visit, b: Visit, j: int, l: int|
        #![trigger a.files()[j], b.directories()[l]]
        visits.contains(a) && visits.contains(b) && 0 <= j < a.files().len() && 0 <= l
            < b.directories().len() ==> a.files()[j].node.id != b.directories()[l].id
    &&& forall|a: Visit, b: Visit, j: int|
        #![trigger a.files()[j], b.listed()]
        visits.contains(a) && visits.contains(b) && 0 <= j < a.files().len() && b.listed()
            ==> !ancestors(b.dir, root).contains(a.files()[j].node.path)
}

proof fn lemma_holds_identity_step(visits: Seq<Visit>, id: NodeId)
    requires
        visits.len() > 0,
    ensures
        holds_identity(visits, id) <==> holds_identity(visits.drop_last(), id) || visit_holds(
            visits.last(),
            id,
        ),
{
    let before = visits.drop_last();
    assert(visits[visits.len() - 1] == visits.last());
    if holds_identity(visits, id) {
        let i = choose|i: int| 0 <= i < visits.len() && visit_holds(#[trigger] visits[i], id);
        if i < before.len() {
            assert(before[i] == visits[i]);
        }
    }
    if holds_identity(before, id) {
        let i = choose|i: int| 0 <= i < before.len() && visit_holds(#[trigger] before[i], id);
        assert(visits[i] == before[i]);
    }
}

/// The identities that a traversal has seen are those of the files and
/// subdirectories of its listings.
pub proof fn lemma_visited_ids(root: Seq<char>, visits: Seq<Visit>, id: NodeId)
    ensures
        account(root, visits).visited.contains(id) <==> holds_identity(visits, id),
    decreases visits.len(),
{
    if visits.len() > 0 {
        let before = visits.drop_last();
        let last = visits.last();
        lemma_visited_ids(root, before, id);
        lemma_holds_identity_step(visits, id);
        let earlier = account(root, before);
        match last.outcome {
            Err(_) => {},
            Ok(listing) => {
                assert(last.files() == listing.files);
                assert(last.directories() == listing.directories);
                earlier.lemma_count_files_visited(listing.files, id);
                earlier.count_files(listing.files).lemma_mark_dirs_visited(listing.directories, id);
            },
        }
    }
}

/// Two accounts that have seen the same of the identities of `files` gain
/// the same by them.
pub proof fn lemma_counted_alike(one: Tally, two: Tally, files: Seq<FileView>)
    requires
        forall|j: int|
            0 <= j < files.len() ==> one.visited.contains((#[trigger] files[j]).node.id)
                == two.visited.contains(files[j].node.id),
    ensures
        one.counted(files) == two.counted(files),
    decreases files.len(),
{
    if files.len() > 0 {
        let before = files.drop_last();
        let id = files.last().node.id;
        assert forall|j: int| 0 <= j < before.len() implies one.visited.contains(
            (#[trigger] before[j]).node.id,
        ) == two.visited.contains(before[j].node.id) by {
            assert(before[j] == files[j]);
        }
        lemma_counted_alike(one, two, before);
        assert(files.last() == files[files.len() - 1]);
        one.lemma_count_files_visited(before, id);
        two.lemma_count_files_visited(before, id);
    }
}

proof fn lemma_credited_weight(root: Seq<char>, visits: Seq<Visit>, path: Seq<char>)
    requires
        forall|i: int, j: int|
            is_entry(visits, i, j) ==> !account(root, visits.take(i)).visited.contains(
                (#[trigger] file_at(visits, i, j)).node.id,
            ),
    ensures
        credited(root, visits, path) == weight_beneath(root, visits, path),
    decreases visits.len(),
{
    if visits.len() > 0 {
        let before = visits.drop_last();
        let last = visits.last();
        let n = visits.len() - 1;
        assert(visits[n] == last);
        assert forall|i: int, j: int| is_entry(before, i, j) implies !account(
            root,
            before.take(i),
        ).visited.contains((#[trigger] file_at(before, i, j)).node.id) by {
            assert(before[i] == visits[i]);
            assert(before.take(i) =~= visits.take(i));
            assert(is_entry(visits, i, j));
            assert(file_at(visits, i, j) == file_at(before, i, j));
        }
        lemma_credited_weight(root, before, path);
        let earlier = account(root, before);
        assert(visits.take(n) =~= before);
        assert forall|j: int| 0 <= j < last.files().len() implies earlier.visited.contains(
            (#[trigger] last.files()[j]).node.id,
        ) == Tally::empty().visited.contains(last.files()[j].node.id) by {
            assert(is_entry(visits, n, j));
            assert(file_at(visits, n, j) == last.files()[j]);
        }
        lemma_counted_alike(earlier, Tally::empty(), last.files());
    }
}

/// Where hardlinks stay within one directory, every file has a path of its
/// own that no listing is credited to, no listing before its own has seen its
/// identity, and it is counted exactly if it is the first of its listing with
/// that identity.
pub proof fn lemma_confined_positions(root: Seq<char>, visits: Seq<Visit>)
    requires
        confined(root, visits),
    ensures
        distinct_file_paths(visits),
        forall|i: int, j: int|
            is_entry(visits, i, j) ==> !charged(
                root,
                visits,
                (#[trigger] file_at(visits, i, j)).node.path,
            ) && !account(root, visits.take(i)).visited.contains(file_at(visits, i, j).node.id),
        forall|i: int, j: int|
            is_entry(visits, i, j) ==> (#[trigger] fresh(root, visits, i, j) <==> first_here(
                visits[i].files(),
                j,
            )),
{
    assert forall|i: int, j: int, k: int, l: int|
        is_entry(visits, i, j) && is_entry(visits, k, l) && (i != k || j != l) implies (
    #[trigger] file_at(visits, i, j)).node.path != (#[trigger] file_at(
        visits,
        k,
        l,
    )).node.path by {
        let a = visits[i];
        let b = visits[k];
        assert(visits.contains(a) && visits.contains(b));
        assert(a.files()[j].node.path != b.files()[l].node.path);
    }
    assert forall|i: int, j: int| is_entry(visits, i, j) implies !charged(
        root,
        visits,
        (#[trigger] file_at(visits, i, j)).node.path,
    ) && !account(root, visits.take(i)).visited.contains(file_at(visits, i, j).node.id) by {
        let a = visits[i];
        let path = a.files()[j].node.path;
        let id = a.files()[j].node.id;
        assert(visits.contains(a));
        if charged(root, visits, path) {
            let k = choose|k: int|
                0 <= k < visits.len() && (#[trigger] visits[k]).listed() && ancestors(
                    visits[k].dir,
                    root,
                ).contains(path);
            let b = visits[k];
            assert(visits.contains(b));
            assert(b.listed());
            assert(!ancestors(b.dir, root).contains(a.files()[j].node.path));
        }
        let early = visits.take(i);
        lemma_visited_ids(root, early, id);
        if holds_identity(early, id) {
            let k = choose|k: int| 0 <= k < early.len() && visit_holds(#[trigger] early[k], id);
            let b = visits[k];
            assert(early[k] == b);
            assert(visits.contains(b));
            assert(a != b);
            if exists|l: int| 0 <= l < b.files().len() && (#[trigger] b.files()[l]).node.id == id {
                let l = choose|l: int|
                    0 <= l < b.files().len() && (#[trigger] b.files()[l]).node.id == id;
                assert(a.files()[j].node.id != b.files()[l].node.id);
            } else {
                let l = choose|l: int|
                    0 <= l < b.directories().len() && (#[trigger] b.directories()[l]).id == id;
                assert(a.files()[j].node.id != b.directories()[l].id);
            }
        }
    }
    assert forall|i: int, j: int| is_entry(visits, i, j) implies (#[trigger] fresh(
        root,
        visits,
        i,
        j,
    ) <==> first_here(visits[i].files(), j)) by {
        let files = visits[i].files();
        let id = files[j].node.id;
        let earlier = account(root, visits.take(i));
        assert(!earlier.visited.contains(file_at(visits, i, j).node.id));
        earlier.lemma_count_files_visited(files.take(j), id);
        if exists|l: int| 0 <= l < files.take(j).len() && (#[trigger] files.take(j)[l]).node.id == id {
            let l = choose|l: int|
                0 <= l < files.take(j).len() && (#[trigger] files.take(j)[l]).node.id == id;
            assert(files.take(j)[l] == files[l]);
        }
        if !first_here(files, j) {
            let l = choose|l: int| 0 <= l < j && (#[trigger] files[l]).node.id == files[j].node.id;
            assert(files.take(j)[l].node.id == id);
        }
    }
}

/// Where hardlinks stay within one directory the account holds, whatever
/// the order of the listings: for the first file of a listing with its
/// identity a record with its size, for every other file a place among the
/// duplicates, and for every directory that a listing is credited to what the
/// listings at or beneath it gain by their own files.
pub proof fn lemma_confined_record(root: Seq<char>, visits: Seq<Visit>, path: Seq<char>)
    requires
        confined(root, visits),
    ensures
        forall|i: int, j: int|
            is_entry(visits, i, j) && (#[trigger] file_at(visits, i, j)).node.path == path
                && first_here(visits[i].files(), j) ==> {
                &&& account(root, visits).result.map.contains_key(path)
                &&& account(root, visits).result.map[path] == file_record(
                    file_at(visits, i, j).size,
                )
                &&& !account(root, visits).double_count.map.contains_key(path)
            },
        forall|i: int, j: int|
            is_entry(visits, i, j) && (#[trigger] file_at(visits, i, j)).node.path == path
                && !first_here(visits[i].files(), j) ==> {
                &&& account(root, visits).double_count.map.contains_key(path)
                &&& account(root, visits).double_count.map[path] == file_record(
                    file_at(visits, i, j).size,
                )
                &&& !account(root, visits).result.map.contains_key(path)
            },
        !names_file(visits, path) ==> !account(root, visits).double_count.map.contains_key(path),
        !names_file(visits, path) ==> (account(root, visits).result.map.contains_key(path)
            <==> charged(root, visits, path)),
        !names_file(visits, path) && charged(root, visits, path) ==> account(
            root,
            visits,
        ).result.map[path] == directory_record(clamp(weight_beneath(root, visits, path))),
{
    lemma_confined_positions(root, visits);
    assert forall|i: int, j: int|
        is_entry(visits, i, j) && (#[trigger] file_at(visits, i, j)).node.path
            == path implies if first_here(visits[i].files(), j) {
        &&& account(root, visits).result.map.contains_key(path)
        &&& account(root, visits).result.map[path] == file_record(file_at(visits, i, j).size)
        &&& !account(root, visits).double_count.map.contains_key(path)
    } else {
        &&& account(root, visits).double_count.map.contains_key(path)
        &&& account(root, visits).double_count.map[path] == file_record(file_at(visits, i, j).size)
        &&& !account(root, visits).result.map.contains_key(path)
    } by {
        assert(fresh(root, visits, i, j) <==> first_here(visits[i].files(), j));
        lemma_file_record(root, visits, i, j);
    }
    if !names_file(visits, path) {
        lemma_ledger_keys(root, visits, path);
        lemma_directory_total(root, visits, path);
        lemma_credited_weight(root, visits, path);
    }
}

proof fn lemma_weight_beneath_remove(
    root: Seq<char>,
    visits: Seq<Visit>,
    at: int,
    path: Seq<char>,
)
    requires
        0 <= at < visits.len(),
    ensures
        weight_beneath(root, visits, path) == weight_beneath(root, visits.remove(at), path) + part(
            root,
            visits[at],
            path,
        ),
    decreases visits.len(),
{
    let shorter = visits.remove(at);
    if at == visits.len() - 1 {
        assert(shorter =~= visits.drop_last());
    } else {
        assert(shorter.drop_last() =~= visits.drop_last().remove(at));
        assert(shorter.last() == visits.last());
        lemma_weight_beneath_remove(root, visits.drop_last(), at, path);
    }
}

/// A sum over listings does not depend on their order.
proof fn lemma_weight_beneath_permutation(
    root: Seq<char>,
    first: Seq<Visit>,
    second: Seq<Visit>,
    path: Seq<char>,
)
    requires
        first.to_multiset() == second.to_multiset(),
    ensures
        weight_beneath(root, first, path) == weight_beneath(root, second, path),
    decreases first.len(),
{
    broadcast use vstd::seq_lib::group_to_multiset_ensures;
    broadcast use vstd::multiset::group_multiset_axioms;

    if first.len() == 0 {
        vstd::seq_lib::to_multiset_len(first);
        vstd::seq_lib::to_multiset_len(second);
        assert(second.len() == 0);
    } else {
        let last = first.last();
        let before = first.drop_last();
        assert(first =~= before.push(last));
        assert(first.to_multiset().count(last) > 0);
        assert(second.contains(last));
        let at = choose|at: int| 0 <= at < second.len() && second[at] == last;
        let rest = second.remove(at);
        assert(before.to_multiset() =~= first.to_multiset().remove(last));
        assert(rest.to_multiset() =~= second.to_multiset().remove(last));
        lemma_weight_beneath_permutation(root, before, rest, path);
        lemma_weight_beneath_remove(root, second, at, path);
    }
}

/// Two sequences with the same members have the same listings.
pub proof fn lemma_same_members(first: Seq<Visit>, second: Seq<Visit>)
    requires
        first.to_multiset() == second.to_multiset(),
    ensures
        forall|visit: Visit| first.contains(visit) <==> second.contains(visit),
{
    broadcast use vstd::seq_lib::group_to_multiset_ensures;

    assert forall|visit: Visit| first.contains(visit) <==> second.contains(visit) by {
        assert(first.contains(visit) <==> first.to_multiset().count(visit) > 0);
        assert(second.contains(visit) <==> second.to_multiset().count(visit) > 0);
    }
}

proof fn lemma_confined_transfer(root: Seq<char>, first: Seq<Visit>, second: Seq<Visit>)
    requires
        confined(root, first),
        first.to_multiset() == second.to_multiset(),
    ensures
        confined(root, second),
{
    lemma_same_members(first, second);
    first.lemma_multiset_has_no_duplicates();
    second.lemma_multiset_has_no_duplicates_conv();
}

/// What a listing of one run names, it names in every run that holds the listing.
pub proof fn lemma_members_name(
    root: Seq<char>,
    first: Seq<Visit>,
    second: Seq<Visit>,
    path: Seq<char>,
    id: NodeId,
)
    requires
        forall|visit: Visit| first.contains(visit) ==> second.contains(visit),
    ensures
        names_file(first, path) ==> names_file(second, path),
        charged(root, first, path) ==> charged(root, second, path),
        holds_identity(first, id) ==> holds_identity(second, id),
{
    if names_file(first, path) {
        let (i, j) = choose|i: int, j: int|
            0 <= i < first.len() && 0 <= j < first[i].files().len() && (
            #[trigger] first[i].files()[j]).node.path == path;
        assert(first.contains(first[i]));
        let k = choose|k: int| 0 <= k < second.len() && second[k] == first[i];
        assert(second[k].files()[j].node.path == path);
    }
    if charged(root, first, path) {
        let i = choose|i: int|
            0 <= i < first.len() && (#[trigger] first[i]).listed() && ancestors(
                first[i].dir,
                root,
            ).contains(path);
        assert(first.contains(first[i]));
        let k = choose|k: int| 0 <= k < second.len() && second[k] == first[i];
        assert(second[k].listed());
    }
    if holds_identity(first, id) {
        let i = choose|i: int| 0 <= i < first.len() && visit_holds(#[trigger] first[i], id);
        assert(first.contains(first[i]));
        let k = choose|k: int| 0 <= k < second.len() && second[k] == first[i];
        assert(visit_holds(second[k], id));
    }
}

/// Where hardlinks stay within one directory, the account does not depend
/// on the order in which the directories are listed.
///
/// Two runs that take in the same listings, in whatever order, end with the
/// same records, the same duplicates, and the same identities seen.
pub proof fn lemma_order_independent(root: Seq<char>, first: Seq<Visit>, second: Seq<Visit>)
    requires
        confined(root, first),
        first.to_multiset() == second.to_multiset(),
    ensures
        account(root, first).result.map == account(root, second).result.map,
        account(root, first).double_count.map == account(root, second).double_count.map,
        account(root, first).visited == account(root, second).visited,
{
    lemma_confined_transfer(root, first, second);
    lemma_same_members(first, second);
    let one = account(root, first);
    let two = account(root, second);
    assert forall|path: Seq<char>|
        #![trigger one.result.map.contains_key(path)]
        #![trigger two.result.map.contains_key(path)]
        #![trigger one.double_count.map.contains_key(path)]
        #![trigger two.double_count.map.contains_key(path)]
        {
            &&& one.result.map.contains_key(path) == two.result.map.contains_key(path)
            &&& one.result.map.contains_key(path) ==> one.result.map[path] == two.result.map[path]
            &&& one.double_count.map.contains_key(path) == two.double_count.map.contains_key(path)
            &&& one.double_count.map.contains_key(path) ==> one.double_count.map[path]
                == two.double_count.map[path]
        } by {
        let id = (0u64, 0u64);
        lemma_members_name(root, first, second, path, id);
        lemma_members_name(root, second, first, path, id);
        lemma_confined_record(root, first, path);
        lemma_confined_record(root, second, path);
        if names_file(first, path) {
            let (i, j) = choose|i: int, j: int|
                0 <= i < first.len() && 0 <= j < first[i].files().len() && (
                #[trigger] first[i].files()[j]).node.path == path;
            assert(first.contains(first[i]));
            let k = choose|k: int| 0 <= k < second.len() && second[k] == first[i];
            assert(is_entry(first, i, j));
            assert(is_entry(second, k, j));
            assert(file_at(first, i, j).node.path == path);
            assert(file_at(second, k, j).node.path == path);
            assert(file_at(second, k, j) == file_at(first, i, j));
            assert(first_here(first[i].files(), j) == first_here(second[k].files(), j));
        } else {
            lemma_weight_beneath_permutation(root, first, second, path);
        }
    }
    assert(one.result.map =~= two.result.map);
    assert(one.double_count.map =~= two.double_count.map);
    assert forall|id: NodeId| one.visited.contains(id) == two.visited.contains(id) by {
        let path = Seq::<char>::empty();
        lemma_members_name(root, first, second, path, id);
        lemma_members_name(root, second, first, path, id);
        lemma_visited_ids(root, first, id);
        lemma_visited_ids(root, second, id);
    }
    assert(one.visited =~= two.visited);
}

} // verus!
