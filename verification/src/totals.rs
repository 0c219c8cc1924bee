//! What all traversals of a tree agree on even where files are linked
//! across directories: which directories have a record, and the size of the
//! root.

use crate::aggregation::{credited, lemma_directory_total};
use crate::dedup::{lemma_shares_agree, names_directory, same_size, share_in};
use crate::history::{
    account, charged, lemma_account_wf, lemma_ancestors, lemma_charged_step, names_file, Visit,
};
use crate::order::{
    holds_identity, lemma_members_name, lemma_same_members, lemma_visited_ids, visit_holds,
};
use crate::reach::{faithful, files_apart_tree, lemma_same_listings, look, tidy_tree, Tree};
use crate::records::Records;
use crate::schedule::{committed, lemma_run_account, run, Operation};
use crate::tally::{ancestors, Tally};
use crate::types::{clamp, FileView, NodeId, NodeType};
use vstd::prelude::*;
use vstd::seq_lib::{lemma_multiset_commutative, to_multiset_contains, to_multiset_len};

verus! {

/// No file of the listings has the path of a directory that a listing is
/// credited to.
pub open spec fn files_apart(root: Seq<char>, visits: Seq<Visit>) -> bool {
    forall|a: Visit, b: Visit, j: int|
        #![trigger a.files()[j], b.listed()]
        visits.contains(a) && visits.contains(b) && 0 <= j < a.files().len() && b.listed()
            ==> !ancestors(b.dir, root).contains(a.files()[j].node.path)
}

/// No file of the listings has the identity of a subdirectory.
pub open spec fn kinds_apart(visits: Seq<Visit>) -> bool {
    forall|a: Visit, b: Visit, j: int, l: int|
        #![trigger a.files()[j], b.directories()[l]]
        visits.contains(a) && visits.contains(b) && 0 <= j < a.files().len() && 0 <= l
            < b.directories().len() ==> a.files()[j].node.id != b.directories()[l].id
}

/// Every listing that succeeded is credited to the root: its directory
/// is the root or lies beneath it.
pub open spec fn rooted(root: Seq<char>, visits: Seq<Visit>) -> bool {
    forall|a: Visit|
        visits.contains(a) && #[trigger] a.listed() ==> ancestors(a.dir, root).contains(root)
}

/// Files with one identity have one size.
pub open spec fn one_size(files: Seq<FileView>) -> bool {
    forall|j: int, l: int|
        0 <= j < files.len() && 0 <= l < files.len() && (#[trigger] files[j]).node.id == (
        #[trigger] files[l]).node.id ==> files[j].size == files[l].size
}

/// The files of all listings, one listing after the other.
pub open spec fn all_files(visits: Seq<Visit>) -> Seq<FileView>
    decreases visits.len(),
{
    if visits.len() == 0 {
        Seq::empty()
    } else {
        all_files(visits.drop_last()) + visits.last().files()
    }
}

/// Some file among `files` has the identity `id`.
pub open spec fn seen(files: Seq<FileView>, id: NodeId) -> bool {
    exists|j: int| 0 <= j < files.len() && (#[trigger] files[j]).node.id == id
}

/// The bytes of the file objects among `files`: for each identity the size
/// of the first file that has it.
pub open spec fn distinct_bytes(files: Seq<FileView>) -> nat
    decreases files.len(),
{
    if files.len() == 0 {
        0
    } else if seen(files.drop_last(), files.last().node.id) {
        distinct_bytes(files.drop_last())
    } else {
        distinct_bytes(files.drop_last()) + files.last().size as nat
    }
}

/// `path` has the record of a directory.
pub open spec fn is_directory_key(records: Records, path: Seq<char>) -> bool {
    records.map.contains_key(path) && records.map[path].node_type == NodeType::Directory
}

proof fn lemma_seen_last(files: Seq<FileView>, id: NodeId)
    requires
        files.len() > 0,
    ensures
        seen(files, id) <==> seen(files.drop_last(), id) || files.last().node.id == id,
{
    let before = files.drop_last();
    assert(files[files.len() - 1] == files.last());
    if seen(files, id) {
        let j = choose|j: int| 0 <= j < files.len() && (#[trigger] files[j]).node.id == id;
        if j < before.len() {
            assert(before[j] == files[j]);
        }
    }
    if seen(before, id) {
        let j = choose|j: int| 0 <= j < before.len() && (#[trigger] before[j]).node.id == id;
        assert(files[j] == before[j]);
    }
}

proof fn lemma_seen_concat(a: Seq<FileView>, b: Seq<FileView>, id: NodeId)
    ensures
        seen(a + b, id) <==> seen(a, id) || seen(b, id),
{
    let all = a + b;
    if seen(all, id) {
        let j = choose|j: int| 0 <= j < all.len() && (#[trigger] all[j]).node.id == id;
        if j < a.len() {
            assert(a[j] == all[j]);
        } else {
            assert(b[j - a.len()] == all[j]);
        }
    }
    if seen(a, id) {
        let j = choose|j: int| 0 <= j < a.len() && (#[trigger] a[j]).node.id == id;
        assert(all[j] == a[j]);
    }
    if seen(b, id) {
        let j = choose|j: int| 0 <= j < b.len() && (#[trigger] b[j]).node.id == id;
        assert(all[j + a.len()] == b[j]);
    }
}

proof fn lemma_seen_remove(files: Seq<FileView>, at: int, id: NodeId)
    requires
        0 <= at < files.len(),
    ensures
        seen(files, id) <==> seen(files.remove(at), id) || files[at].node.id == id,
{
    let rest = files.remove(at);
    if seen(files, id) {
        let j = choose|j: int| 0 <= j < files.len() && (#[trigger] files[j]).node.id == id;
        if j < at {
            assert(rest[j] == files[j]);
        } else if j > at {
            assert(rest[j - 1] == files[j]);
        }
    }
    if seen(rest, id) {
        let j = choose|j: int| 0 <= j < rest.len() && (#[trigger] rest[j]).node.id == id;
        if j < at {
            assert(files[j] == rest[j]);
        } else {
            assert(files[j + 1] == rest[j]);
        }
    }
}

proof fn lemma_seen_members(a: Seq<FileView>, b: Seq<FileView>, id: NodeId)
    requires
        a.to_multiset() == b.to_multiset(),
    ensures
        seen(a, id) == seen(b, id),
{
    if seen(a, id) {
        let j = choose|j: int| 0 <= j < a.len() && (#[trigger] a[j]).node.id == id;
        assert(a.contains(a[j]));
        to_multiset_contains(a, a[j]);
        to_multiset_contains(b, a[j]);
        let l = choose|l: int| 0 <= l < b.len() && b[l] == a[j];
        assert(b[l].node.id == id);
    }
    if seen(b, id) {
        let j = choose|j: int| 0 <= j < b.len() && (#[trigger] b[j]).node.id == id;
        assert(b.contains(b[j]));
        to_multiset_contains(b, b[j]);
        to_multiset_contains(a, b[j]);
        let l = choose|l: int| 0 <= l < a.len() && a[l] == b[j];
        assert(a[l].node.id == id);
    }
}

/// Taking one file away takes its bytes away exactly if no other file has
/// its identity.
proof fn lemma_distinct_bytes_remove(files: Seq<FileView>, at: int)
    requires
        0 <= at < files.len(),
        one_size(files),
    ensures
        distinct_bytes(files) == distinct_bytes(files.remove(at)) + if seen(
            files.remove(at),
            files[at].node.id,
        ) {
            0nat
        } else {
            files[at].size as nat
        },
    decreases files.len(),
{
    let n = files.len() - 1;
    let before = files.drop_last();
    let last = files.last();
    let rest = files.remove(at);
    let id = files[at].node.id;
    assert(files[n] == last);
    if at == n {
        assert(rest =~= before);
    } else {
        assert(rest.drop_last() =~= before.remove(at));
        assert(rest.last() == last);
        assert(before[at] == files[at]);
        assert forall|j: int, l: int|
            0 <= j < before.len() && 0 <= l < before.len() && (#[trigger] before[j]).node.id == (
            #[trigger] before[l]).node.id implies before[j].size == before[l].size by {
            assert(before[j] == files[j] && before[l] == files[l]);
        }
        lemma_distinct_bytes_remove(before, at);
        lemma_seen_last(rest, id);
        lemma_seen_remove(before, at, last.node.id);
        if last.node.id == id {
            assert(files[n].size == files[at].size);
            assert(seen(before, id)) by {
                assert(before[at].node.id == id);
            }
        }
    }
}

/// The bytes of the file objects do not depend on the order of the files.
proof fn lemma_distinct_bytes_permutation(a: Seq<FileView>, b: Seq<FileView>)
    requires
        a.to_multiset() == b.to_multiset(),
        one_size(b),
    ensures
        distinct_bytes(a) == distinct_bytes(b),
    decreases a.len(),
{
    broadcast use vstd::seq_lib::group_to_multiset_ensures;
    broadcast use vstd::multiset::group_multiset_axioms;

    if a.len() == 0 {
        to_multiset_len(a);
        to_multiset_len(b);
        assert(b.len() == 0);
    } else {
        let last = a.last();
        let before = a.drop_last();
        assert(a =~= before.push(last));
        assert(a.to_multiset().count(last) > 0);
        assert(b.contains(last));
        let at = choose|at: int| 0 <= at < b.len() && b[at] == last;
        let rest = b.remove(at);
        assert(before.to_multiset() =~= a.to_multiset().remove(last));
        assert(rest.to_multiset() =~= b.to_multiset().remove(last));
        assert forall|j: int, l: int|
            0 <= j < rest.len() && 0 <= l < rest.len() && (#[trigger] rest[j]).node.id == (
            #[trigger] rest[l]).node.id implies rest[j].size == rest[l].size by {
            let x = if j < at { j } else { j + 1 };
            let y = if l < at { l } else { l + 1 };
            assert(rest[j] == b[x] && rest[l] == b[y]);
        }
        lemma_distinct_bytes_permutation(before, rest);
        lemma_distinct_bytes_remove(b, at);
        lemma_seen_members(before, rest, last.node.id);
    }
}

proof fn lemma_all_files_remove(visits: Seq<Visit>, at: int)
    requires
        0 <= at < visits.len(),
    ensures
        all_files(visits).to_multiset() == all_files(visits.remove(at)).to_multiset().add(
            visits[at].files().to_multiset(),
        ),
    decreases visits.len(),
{
    broadcast use vstd::multiset::group_multiset_axioms;

    let before = visits.drop_last();
    let last = visits.last();
    let rest = visits.remove(at);
    lemma_multiset_commutative(all_files(before), last.files());
    if at == visits.len() - 1 {
        assert(rest =~= before);
        assert(visits[at] == last);
    } else {
        assert(rest.drop_last() =~= before.remove(at));
        assert(rest.last() == last);
        assert(before[at] == visits[at]);
        lemma_all_files_remove(before, at);
        lemma_multiset_commutative(all_files(before.remove(at)), last.files());
        assert(all_files(visits).to_multiset() =~= all_files(rest).to_multiset().add(
            visits[at].files().to_multiset(),
        ));
    }
}

/// The files of the same listings are the same files, whatever the order
/// of the listings.
proof fn lemma_all_files_permutation(a: Seq<Visit>, b: Seq<Visit>)
    requires
        a.to_multiset() == b.to_multiset(),
    ensures
        all_files(a).to_multiset() == all_files(b).to_multiset(),
    decreases a.len(),
{
    broadcast use vstd::seq_lib::group_to_multiset_ensures;
    broadcast use vstd::multiset::group_multiset_axioms;

    if a.len() == 0 {
        to_multiset_len(a);
        to_multiset_len(b);
        assert(b.len() == 0);
    } else {
        let last = a.last();
        let before = a.drop_last();
        assert(a =~= before.push(last));
        assert(a.to_multiset().count(last) > 0);
        assert(b.contains(last));
        let at = choose|at: int| 0 <= at < b.len() && b[at] == last;
        let rest = b.remove(at);
        assert(before.to_multiset() =~= a.to_multiset().remove(last));
        assert(rest.to_multiset() =~= b.to_multiset().remove(last));
        lemma_all_files_permutation(before, rest);
        lemma_all_files_remove(b, at);
        lemma_multiset_commutative(all_files(before), last.files());
        assert(all_files(a).to_multiset() =~= all_files(b).to_multiset());
    }
}

/// An account that has seen of the identities of `files` what `earlier`
/// holds gains by `files` the bytes of the file objects that they add.
proof fn lemma_counted_joined(tally: Tally, earlier: Seq<FileView>, files: Seq<FileView>)
    requires
        forall|j: int|
            0 <= j < files.len() ==> (tally.visited.contains((#[trigger] files[j]).node.id)
                <==> seen(earlier, files[j].node.id)),
    ensures
        tally.counted(files) + distinct_bytes(earlier) == distinct_bytes(earlier + files),
    decreases files.len(),
{
    if files.len() == 0 {
        assert(earlier + files =~= earlier);
    } else {
        let before = files.drop_last();
        let last = files.last();
        let id = last.node.id;
        assert(files[files.len() - 1] == last);
        assert forall|j: int| 0 <= j < before.len() implies (tally.visited.contains(
            (#[trigger] before[j]).node.id,
        ) <==> seen(earlier, before[j].node.id)) by {
            assert(before[j] == files[j]);
        }
        lemma_counted_joined(tally, earlier, before);
        let all = earlier + files;
        assert(all.drop_last() =~= earlier + before);
        assert(all.last() == last);
        tally.lemma_count_files_visited(before, id);
        lemma_seen_concat(earlier, before, id);
        assert(seen(before, id) <==> exists|j: int|
            0 <= j < before.len() && (#[trigger] before[j]).node.id == id);
    }
}

proof fn lemma_seen_all_files(visits: Seq<Visit>, id: NodeId)
    ensures
        seen(all_files(visits), id) <==> exists|i: int|
            0 <= i < visits.len() && seen((#[trigger] visits[i]).files(), id),
    decreases visits.len(),
{
    if visits.len() > 0 {
        let before = visits.drop_last();
        let last = visits.last();
        lemma_seen_all_files(before, id);
        lemma_seen_concat(all_files(before), last.files(), id);
        assert(visits[visits.len() - 1] == last);
        if exists|i: int| 0 <= i < before.len() && seen((#[trigger] before[i]).files(), id) {
            let i = choose|i: int| 0 <= i < before.len() && seen((#[trigger] before[i]).files(), id);
            assert(visits[i] == before[i]);
        }
        if exists|i: int| 0 <= i < visits.len() && seen((#[trigger] visits[i]).files(), id) {
            let i = choose|i: int| 0 <= i < visits.len() && seen((#[trigger] visits[i]).files(), id);
            if i < before.len() {
                assert(before[i] == visits[i]);
            }
        }
    }
}

/// Where every listing is credited to the root and no file has the
/// identity of a directory, the root is credited with the bytes of the file
/// objects of all listings.
pub proof fn lemma_root_credit(root: Seq<char>, visits: Seq<Visit>)
    requires
        rooted(root, visits),
        kinds_apart(visits),
    ensures
        credited(root, visits, root) == distinct_bytes(all_files(visits)),
    decreases visits.len(),
{
    if visits.len() > 0 {
        let before = visits.drop_last();
        let last = visits.last();
        assert(visits[visits.len() - 1] == last);
        assert(visits.contains(last));
        assert forall|a: Visit| before.contains(a) implies visits.contains(a) by {
            let i = choose|i: int| 0 <= i < before.len() && before[i] == a;
            assert(visits[i] == a);
        }
        lemma_root_credit(root, before);
        let earlier = account(root, before);
        let files = last.files();
        if last.listed() {
            assert(ancestors(last.dir, root).contains(root));
            assert forall|j: int| 0 <= j < files.len() implies (earlier.visited.contains(
                (#[trigger] files[j]).node.id,
            ) <==> seen(all_files(before), files[j].node.id)) by {
                let id = files[j].node.id;
                lemma_visited_ids(root, before, id);
                lemma_seen_all_files(before, id);
                if holds_identity(before, id) {
                    let i = choose|i: int|
                        0 <= i < before.len() && visit_holds(#[trigger] before[i], id);
                    assert(before.contains(before[i]));
                    if exists|l: int|
                        0 <= l < before[i].directories().len() && (
                        #[trigger] before[i].directories()[l]).id == id {
                        let l = choose|l: int|
                            0 <= l < before[i].directories().len() && (
                            #[trigger] before[i].directories()[l]).id == id;
                        assert(last.files()[j].node.id != before[i].directories()[l].id);
                    }
                    assert(seen(before[i].files(), id));
                }
                if exists|i: int| 0 <= i < before.len() && seen((#[trigger] before[i]).files(), id) {
                    let i = choose|i: int|
                        0 <= i < before.len() && seen((#[trigger] before[i]).files(), id);
                    assert(visit_holds(before[i], id));
                }
            }
            lemma_counted_joined(earlier, all_files(before), files);
        } else {
            assert(all_files(before) + files =~= all_files(before));
        }
    }
}

proof fn lemma_count_files_kind(tally: Tally, files: Seq<FileView>, path: Seq<char>)
    ensures
        tally.count_files(files).result.map.contains_key(path) ==> (
        tally.result.map.contains_key(path) && tally.count_files(files).result.map[path]
            == tally.result.map[path]) || tally.count_files(files).result.map[path].node_type
            == NodeType::File,
    decreases files.len(),
{
    if files.len() > 0 {
        lemma_count_files_kind(tally, files.drop_last(), path);
    }
}

/// A path that no listing is credited to has the record of a file, if it
/// has one at all.
pub proof fn lemma_file_keys(root: Seq<char>, visits: Seq<Visit>, path: Seq<char>)
    requires
        !charged(root, visits, path),
    ensures
        account(root, visits).result.map.contains_key(path) ==> account(
            root,
            visits,
        ).result.map[path].node_type == NodeType::File,
    decreases visits.len(),
{
    if visits.len() > 0 {
        let before = visits.drop_last();
        let last = visits.last();
        lemma_charged_step(root, visits, path);
        lemma_file_keys(root, before, path);
        let earlier = account(root, before);
        lemma_account_wf(root, before);
        match last.outcome {
            Err(_) => {},
            Ok(listing) => {
                lemma_count_files_kind(earlier, listing.files, path);
                earlier.lemma_count_files_wf(listing.files);
                let counted = earlier.count_files(listing.files);
                counted.lemma_mark_dirs(listing.directories);
                lemma_ancestors(last.dir, root);
                counted.mark_dirs(listing.directories).result.lemma_credit_all_map(
                    ancestors(last.dir, root),
                    clamp(earlier.counted(listing.files)),
                    path,
                );
            },
        }
    }
}

proof fn lemma_charged_names_no_file(root: Seq<char>, visits: Seq<Visit>, path: Seq<char>)
    requires
        files_apart(root, visits),
        charged(root, visits, path),
    ensures
        !names_file(visits, path),
{
    if names_file(visits, path) {
        let (i, j) = choose|i: int, j: int|
            0 <= i < visits.len() && 0 <= j < visits[i].files().len() && (
            #[trigger] visits[i].files()[j]).node.path == path;
        let k = choose|k: int|
            0 <= k < visits.len() && (#[trigger] visits[k]).listed() && ancestors(
                visits[k].dir,
                root,
            ).contains(path);
        let a = visits[i];
        let b = visits[k];
        assert(visits.contains(a) && visits.contains(b));
        assert(b.listed());
        assert(!ancestors(b.dir, root).contains(a.files()[j].node.path));
    }
}

/// The directories that have a record are those that a listing is
/// credited to.
pub proof fn lemma_directory_keys(root: Seq<char>, visits: Seq<Visit>, path: Seq<char>)
    requires
        files_apart(root, visits),
    ensures
        is_directory_key(account(root, visits).result, path) <==> charged(root, visits, path),
{
    if charged(root, visits, path) {
        lemma_charged_names_no_file(root, visits, path);
        lemma_directory_total(root, visits, path);
    } else {
        lemma_file_keys(root, visits, path);
    }
}

proof fn lemma_apart_transfer(root: Seq<char>, first: Seq<Visit>, second: Seq<Visit>)
    requires
        first.to_multiset() == second.to_multiset(),
    ensures
        files_apart(root, first) ==> files_apart(root, second),
        kinds_apart(first) ==> kinds_apart(second),
        rooted(root, first) ==> rooted(root, second),
{
    lemma_same_members(first, second);
}

/// Which directories have a record does not depend on the order of the
/// listings, however the files are linked.
pub proof fn lemma_directory_keys_agree(
    root: Seq<char>,
    first: Seq<Visit>,
    second: Seq<Visit>,
    path: Seq<char>,
)
    requires
        first.to_multiset() == second.to_multiset(),
        files_apart(root, first),
    ensures
        is_directory_key(account(root, first).result, path) == is_directory_key(
            account(root, second).result,
            path,
        ),
{
    lemma_apart_transfer(root, first, second);
    lemma_same_members(first, second);
    lemma_directory_keys(root, first, path);
    lemma_directory_keys(root, second, path);
    let id = (0u64, 0u64);
    lemma_members_name(root, first, second, path, id);
    lemma_members_name(root, second, first, path, id);
}

proof fn lemma_unlisted_names_no_file(root: Seq<char>, visits: Seq<Visit>)
    requires
        rooted(root, visits),
        !charged(root, visits, root),
    ensures
        !names_file(visits, root),
{
    if names_file(visits, root) {
        let (i, j) = choose|i: int, j: int|
            0 <= i < visits.len() && 0 <= j < visits[i].files().len() && (
            #[trigger] visits[i].files()[j]).node.path == root;
        assert(visits.contains(visits[i]));
        assert(visits[i].listed());
        assert(ancestors(visits[i].dir, root).contains(root));
    }
}

/// The size of the root is the bytes of the file objects of all listings,
/// each object counted once, cut off at the largest size.
pub proof fn lemma_root_total(root: Seq<char>, visits: Seq<Visit>)
    requires
        files_apart(root, visits),
        kinds_apart(visits),
        rooted(root, visits),
        charged(root, visits, root),
    ensures
        account(root, visits).result.map.contains_key(root),
        account(root, visits).result.map[root] == crate::types::directory_record(
            clamp(distinct_bytes(all_files(visits))),
        ),
{
    lemma_charged_names_no_file(root, visits, root);
    lemma_directory_total(root, visits, root);
    lemma_root_credit(root, visits);
}

/// The size of the root does not depend on the order of the listings,
/// however the files are linked: it is the bytes of the file objects of all
/// listings, cut off at the largest size.
pub proof fn lemma_root_total_agrees(root: Seq<char>, first: Seq<Visit>, second: Seq<Visit>)
    requires
        first.to_multiset() == second.to_multiset(),
        files_apart(root, first),
        kinds_apart(first),
        rooted(root, first),
        one_size(all_files(first)),
    ensures
        account(root, first).result.map.contains_key(root) == account(
            root,
            second,
        ).result.map.contains_key(root),
        account(root, first).result.map.contains_key(root) ==> account(
            root,
            first,
        ).result.map[root] == account(root, second).result.map[root],
{
    lemma_apart_transfer(root, first, second);
    lemma_same_members(first, second);
    let id = (0u64, 0u64);
    lemma_members_name(root, first, second, root, id);
    lemma_members_name(root, second, first, root, id);
    lemma_directory_keys(root, first, root);
    lemma_directory_keys(root, second, root);
    if charged(root, first, root) {
        lemma_charged_names_no_file(root, first, root);
        lemma_charged_names_no_file(root, second, root);
        lemma_directory_total(root, first, root);
        lemma_directory_total(root, second, root);
        lemma_root_credit(root, first);
        lemma_root_credit(root, second);
        lemma_all_files_permutation(second, first);
        lemma_distinct_bytes_permutation(all_files(second), all_files(first));
    } else {
        lemma_unlisted_names_no_file(root, first);
        lemma_unlisted_names_no_file(root, second);
        lemma_directory_total(root, first, root);
        lemma_directory_total(root, second, root);
    }
}

/// Every directory of the tree that can be listed is the root or lies
/// beneath it.
pub open spec fn rooted_tree(tree: Tree, root: Seq<char>) -> bool {
    forall|a: Seq<char>| #[trigger] look(tree, a).listed() ==> ancestors(a, root).contains(root)
}

/// Files of the tree with one identity have one size.
pub open spec fn one_size_tree(tree: Tree) -> bool {
    forall|a: Seq<char>, b: Seq<char>, j: int, l: int|
        #![trigger look(tree, a).files()[j], look(tree, b).files()[l]]
        0 <= j < look(tree, a).files().len() && 0 <= l < look(tree, b).files().len() && look(
            tree,
            a,
        ).files()[j].node.id == look(tree, b).files()[l].node.id ==> look(tree, a).files()[j].size
            == look(tree, b).files()[l].size
}

proof fn lemma_all_files_entry(visits: Seq<Visit>, at: int)
    requires
        0 <= at < all_files(visits).len(),
    ensures
        exists|i: int, l: int|
            0 <= i < visits.len() && 0 <= l < visits[i].files().len() && all_files(visits)[at] == (
            #[trigger] visits[i].files()[l]),
    decreases visits.len(),
{
    let before = visits.drop_last();
    let last = visits.last();
    let n = visits.len() - 1;
    assert(visits[n] == last);
    if at < all_files(before).len() {
        lemma_all_files_entry(before, at);
        let (i, l) = choose|i: int, l: int|
            0 <= i < before.len() && 0 <= l < before[i].files().len() && all_files(before)[at] == (
            #[trigger] before[i].files()[l]);
        assert(visits[i] == before[i]);
        assert(all_files(visits)[at] == visits[i].files()[l]);
    } else {
        let l = at - all_files(before).len();
        assert(all_files(visits)[at] == visits[n].files()[l]);
    }
}

/// The listings of a traversal have what the tree has.
proof fn lemma_tree_visits(tree: Tree, root: Seq<char>, visits: Seq<Visit>)
    requires
        forall|i: int| 0 <= i < visits.len() ==> (#[trigger] visits[i]) == look(tree, visits[i].dir),
    ensures
        files_apart_tree(tree, root) ==> files_apart(root, visits),
        tidy_tree(tree, root) ==> kinds_apart(visits),
        rooted_tree(tree, root) ==> rooted(root, visits),
        one_size_tree(tree) ==> one_size(all_files(visits)),
{
    assert forall|a: Visit| visits.contains(a) implies a == look(tree, a.dir) by {
        let i = choose|i: int| 0 <= i < visits.len() && visits[i] == a;
        assert(visits[i] == look(tree, visits[i].dir));
    }
    if files_apart_tree(tree, root) {
        assert forall|a: Visit, b: Visit, j: int|
            #![trigger a.files()[j], b.listed()]
            visits.contains(a) && visits.contains(b) && 0 <= j < a.files().len()
                && b.listed() implies !ancestors(b.dir, root).contains(a.files()[j].node.path) by {
            assert(a == look(tree, a.dir) && b == look(tree, b.dir));
            assert(look(tree, b.dir).listed());
            assert(!ancestors(b.dir, root).contains(look(tree, a.dir).files()[j].node.path));
        }
    }
    if tidy_tree(tree, root) {
        assert forall|a: Visit, b: Visit, j: int, l: int|
            #![trigger a.files()[j], b.directories()[l]]
            visits.contains(a) && visits.contains(b) && 0 <= j < a.files().len() && 0 <= l
                < b.directories().len() implies a.files()[j].node.id != b.directories()[l].id by {
            assert(a == look(tree, a.dir) && b == look(tree, b.dir));
            assert(look(tree, a.dir).files()[j].node.id != look(tree, b.dir).directories()[l].id);
        }
    }
    if rooted_tree(tree, root) {
        assert forall|a: Visit| visits.contains(a) && #[trigger] a.listed() implies ancestors(
            a.dir,
            root,
        ).contains(root) by {
            assert(a == look(tree, a.dir));
            assert(look(tree, a.dir).listed());
        }
    }
    if one_size_tree(tree) {
        let files = all_files(visits);
        assert forall|j: int, l: int|
            0 <= j < files.len() && 0 <= l < files.len() && (#[trigger] files[j]).node.id == (
            #[trigger] files[l]).node.id implies files[j].size == files[l].size by {
            lemma_all_files_entry(visits, j);
            lemma_all_files_entry(visits, l);
            let (i, x) = choose|i: int, x: int|
                0 <= i < visits.len() && 0 <= x < visits[i].files().len() && files[j] == (
                #[trigger] visits[i].files()[x]);
            let (k, y) = choose|k: int, y: int|
                0 <= k < visits.len() && 0 <= y < visits[k].files().len() && files[l] == (
                #[trigger] visits[k].files()[y]);
            assert(visits[i] == look(tree, visits[i].dir));
            assert(visits[k] == look(tree, visits[k].dir));
            assert(look(tree, visits[i].dir).files()[x].size == look(
                tree,
                visits[k].dir,
            ).files()[y].size);
        }
    }
}

/// Traversals of one tree agree on the directories that have a record and
/// on the size of the root, however the files are linked, however many
/// workers take part and in whatever order their steps fall.
///
/// The directories of the tree form a tree beneath the root, no file has the
/// path of a directory, and files with one identity have one size. Two
/// traversals that both run to their end give the record of a directory to
/// the same paths, and the same record to the root.
pub proof fn lemma_schedules_agree_on_totals(
    tree: Tree,
    root: Seq<char>,
    first: Seq<Operation>,
    second: Seq<Operation>,
    path: Seq<char>,
)
    requires
        tidy_tree(tree, root),
        files_apart_tree(tree, root),
        rooted_tree(tree, root),
        one_size_tree(tree),
        faithful(tree, first),
        faithful(tree, second),
        run(root, first).idle(),
        run(root, second).idle(),
    ensures
        is_directory_key(run(root, first).tally.result, path) == is_directory_key(
            run(root, second).tally.result,
            path,
        ),
        run(root, first).tally.result.map.contains_key(root) == run(
            root,
            second,
        ).tally.result.map.contains_key(root),
        run(root, first).tally.result.map.contains_key(root) ==> run(
            root,
            first,
        ).tally.result.map[root] == run(root, second).tally.result.map[root],
{
    let one = committed(root, first);
    let two = committed(root, second);
    lemma_same_listings(tree, root, first, second);
    lemma_tree_visits(tree, root, one);
    lemma_run_account(root, first);
    lemma_run_account(root, second);
    lemma_directory_keys_agree(root, one, two, path);
    lemma_root_total_agrees(root, one, two);
}

/// Traversals of one tree agree on how the references to a file object
/// fare, however the files are linked, however many workers take part and in
/// whatever order their steps fall: one reference is counted, and the same
/// number go to the duplicates with the same bytes between them.
pub proof fn lemma_schedules_agree_on_shares(
    tree: Tree,
    root: Seq<char>,
    first: Seq<Operation>,
    second: Seq<Operation>,
    id: NodeId,
    size: nat,
)
    requires
        tidy_tree(tree, root),
        faithful(tree, first),
        faithful(tree, second),
        run(root, first).idle(),
        run(root, second).idle(),
        !names_directory(committed(root, first), id),
        same_size(committed(root, first), id, size),
    ensures
        share_in(root, committed(root, first), id) == share_in(root, committed(root, second), id),
{
    lemma_same_listings(tree, root, first, second);
    lemma_shares_agree(root, committed(root, first), committed(root, second), id, size);
}

} // verus!
