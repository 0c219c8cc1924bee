//! Every file object is counted once, however many paths lead to it.

use crate::aggregation::lemma_directory_total;
use crate::history::{
    account, charged, lemma_account_wf, lemma_ancestors, lemma_names_file_step, names_file, Visit,
};
use crate::order::{holds_identity, lemma_same_members, lemma_visited_ids, visit_holds};
use crate::tally::{ancestors, Tally};
use crate::types::{clamp, file_record, FileView, NodeId};
use vstd::prelude::*;

verus! {

/// How the references to one file object fared.
pub struct Share {
    /// The references that were counted.
    pub counted: nat,
    /// The references that went to the duplicates.
    pub duplicates: nat,
    /// The sizes of the references that were counted, summed up.
    pub counted_bytes: nat,
    /// The sizes of the references that went to the duplicates, summed up.
    pub duplicate_bytes: nat,
}

impl Share {
    /// No reference at all.
    pub open spec fn zero() -> Share {
        Share { counted: 0, duplicates: 0, counted_bytes: 0, duplicate_bytes: 0 }
    }

    /// The references of both, taken together.
    pub open spec fn plus(self, other: Share) -> Share {
        Share {
            counted: self.counted + other.counted,
            duplicates: self.duplicates + other.duplicates,
            counted_bytes: self.counted_bytes + other.counted_bytes,
            duplicate_bytes: self.duplicate_bytes + other.duplicate_bytes,
        }
    }
}

/// The number of files among `files` with the identity `id`.
pub open spec fn references(files: Seq<FileView>, id: NodeId) -> nat
    decreases files.len(),
{
    if files.len() == 0 {
        0
    } else if files.last().node.id == id {
        references(files.drop_last(), id) + 1
    } else {
        references(files.drop_last(), id)
    }
}

/// The number of files in the listings of `visits` with the identity `id`.
pub open spec fn references_in(visits: Seq<Visit>, id: NodeId) -> nat
    decreases visits.len(),
{
    if visits.len() == 0 {
        0
    } else {
        references_in(visits.drop_last(), id) + references(visits.last().files(), id)
    }
}

/// How the files among `files` with the identity `id` fare when `tally`
/// counts the files.
pub open spec fn share_of(tally: Tally, files: Seq<FileView>, id: NodeId) -> Share
    decreases files.len(),
{
    if files.len() == 0 {
        Share::zero()
    } else {
        let before = share_of(tally, files.drop_last(), id);
        let file = files.last();
        if file.node.id != id {
            before
        } else if tally.count_files(files.drop_last()).visited.contains(id) {
            Share {
                duplicates: before.duplicates + 1,
                duplicate_bytes: before.duplicate_bytes + file.size as nat,
                ..before
            }
        } else {
            Share {
                counted: before.counted + 1,
                counted_bytes: before.counted_bytes + file.size as nat,
                ..before
            }
        }
    }
}

/// How the files with the identity `id` fare over the listings of `visits`.
pub open spec fn share_in(root: Seq<char>, visits: Seq<Visit>, id: NodeId) -> Share
    decreases visits.len(),
{
    if visits.len() == 0 {
        Share::zero()
    } else {
        share_in(root, visits.drop_last(), id).plus(
            share_of(account(root, visits.drop_last()), visits.last().files(), id),
        )
    }
}

/// Some subdirectory of a listing of `visits` has the identity `id`.
pub open spec fn names_directory(visits: Seq<Visit>, id: NodeId) -> bool {
    exists|i: int, j: int|
        0 <= i < visits.len() && 0 <= j < visits[i].directories().len() && (
        #[trigger] visits[i].directories()[j]).id == id
}

/// Every file with the identity `id` in the listings of `visits` has the size `size`.
pub open spec fn same_size(visits: Seq<Visit>, id: NodeId, size: nat) -> bool {
    forall|i: int, j: int|
        0 <= i < visits.len() && 0 <= j < visits[i].files().len() && (
        #[trigger] visits[i].files()[j]).node.id == id ==> visits[i].files()[j].size == size
}

proof fn lemma_share_of(tally: Tally, files: Seq<FileView>, id: NodeId)
    ensures
        share_of(tally, files, id).counted + share_of(tally, files, id).duplicates == references(
            files,
            id,
        ),
        tally.visited.contains(id) ==> share_of(tally, files, id).counted == 0,
        !tally.visited.contains(id) && references(files, id) >= 1 ==> share_of(
            tally,
            files,
            id,
        ).counted == 1,
        references(files, id) == 0 ==> share_of(tally, files, id) == Share::zero(),
        tally.count_files(files).visited.contains(id) <==> tally.visited.contains(id)
            || references(files, id) >= 1,
    decreases files.len(),
{
    if files.len() > 0 {
        lemma_share_of(tally, files.drop_last(), id);
    }
}

proof fn lemma_share_bytes(tally: Tally, files: Seq<FileView>, id: NodeId, size: nat)
    requires
        forall|j: int| 0 <= j < files.len() && (#[trigger] files[j]).node.id == id ==> files[j].size
            == size,
    ensures
        share_of(tally, files, id).counted_bytes == share_of(tally, files, id).counted * size,
        share_of(tally, files, id).duplicate_bytes == share_of(tally, files, id).duplicates * size,
    decreases files.len(),
{
    if files.len() > 0 {
        let before = files.drop_last();
        assert forall|j: int| 0 <= j < before.len() && (#[trigger] before[j]).node.id
            == id implies before[j].size == size by {
            assert(before[j] == files[j]);
        }
        lemma_share_bytes(tally, before, id, size);
        let share = share_of(tally, before, id);
        assert(files.last() == files[files.len() - 1]);
        assert((share.counted + 1) * size == share.counted * size + size) by (nonlinear_arith);
        assert((share.duplicates + 1) * size == share.duplicates * size + size)
            by (nonlinear_arith);
    }
}

proof fn lemma_names_directory_step(visits: Seq<Visit>, id: NodeId)
    requires
        visits.len() > 0,
        !names_directory(visits, id),
    ensures
        !names_directory(visits.drop_last(), id),
        forall|j: int|
            0 <= j < visits.last().directories().len() ==> (
            #[trigger] visits.last().directories()[j]).id != id,
{
    let before = visits.drop_last();
    let last = visits.last();
    assert(visits[visits.len() - 1] == last);
    if names_directory(before, id) {
        let (i, j) = choose|i: int, j: int|
            0 <= i < before.len() && 0 <= j < before[i].directories().len() && (
            #[trigger] before[i].directories()[j]).id == id;
        assert(visits[i] == before[i]);
        assert(visits[i].directories()[j].id == id);
    }
    assert forall|j: int| 0 <= j < last.directories().len() implies (
    #[trigger] last.directories()[j]).id != id by {
        if last.directories()[j].id == id {
            assert(visits[visits.len() - 1].directories()[j].id == id);
        }
    }
}

/// An identity that names no directory has been seen exactly if a file with
/// it was listed, and of its references one was counted.
pub proof fn lemma_counted_once(root: Seq<char>, visits: Seq<Visit>, id: NodeId)
    requires
        !names_directory(visits, id),
    ensures
        share_in(root, visits, id).counted + share_in(root, visits, id).duplicates
            == references_in(visits, id),
        references_in(visits, id) >= 1 ==> share_in(root, visits, id).counted == 1,
        references_in(visits, id) == 0 ==> share_in(root, visits, id) == Share::zero(),
        account(root, visits).visited.contains(id) <==> references_in(visits, id) >= 1,
    decreases visits.len(),
{
    if visits.len() > 0 {
        let before = visits.drop_last();
        let last = visits.last();
        let earlier = account(root, before);
        lemma_names_directory_step(visits, id);
        lemma_counted_once(root, before, id);
        lemma_share_of(earlier, last.files(), id);
        match last.outcome {
            Err(_) => {},
            Ok(listing) => {
                earlier.count_files(listing.files).lemma_mark_dirs_visited(listing.directories, id);
                assert(last.directories() == listing.directories);
            },
        }
    }
}

/// Where the references to an identity all have one size, the bytes that
/// were counted and those that were not are that size times their number.
pub proof fn lemma_same_size_bytes(root: Seq<char>, visits: Seq<Visit>, id: NodeId, size: nat)
    requires
        same_size(visits, id, size),
    ensures
        share_in(root, visits, id).counted_bytes == share_in(root, visits, id).counted * size,
        share_in(root, visits, id).duplicate_bytes == share_in(root, visits, id).duplicates * size,
    decreases visits.len(),
{
    if visits.len() > 0 {
        let before = visits.drop_last();
        let last = visits.last();
        assert(visits[visits.len() - 1] == last);
        assert forall|i: int, j: int|
            0 <= i < before.len() && 0 <= j < before[i].files().len() && (
            #[trigger] before[i].files()[j]).node.id == id implies before[i].files()[j].size
            == size by {
            assert(visits[i] == before[i]);
            assert(visits[i].files()[j].node.id == id);
        }
        lemma_same_size_bytes(root, before, id, size);
        assert forall|j: int| 0 <= j < last.files().len() && (#[trigger] last.files()[j]).node.id
            == id implies last.files()[j].size == size by {
            assert(visits[visits.len() - 1].files()[j].node.id == id);
        }
        lemma_share_bytes(account(root, before), last.files(), id, size);
        let a = share_in(root, before, id);
        let b = share_of(account(root, before), last.files(), id);
        assert((a.counted + b.counted) * size == a.counted * size + b.counted * size)
            by (nonlinear_arith);
        assert((a.duplicates + b.duplicates) * size == a.duplicates * size + b.duplicates * size)
            by (nonlinear_arith);
    }
}

/// Of the files that share one identity, one adds to the sizes and the
/// others do not.
///
/// Where `count` files of the size `size` share the identity `id`, and no
/// directory has it, one of them is counted and `count - 1` go to the
/// duplicates, with `(count - 1) * size` bytes between them.
pub proof fn lemma_dedup(root: Seq<char>, visits: Seq<Visit>, id: NodeId, size: nat)
    requires
        !names_directory(visits, id),
        same_size(visits, id, size),
        references_in(visits, id) >= 1,
    ensures
        share_in(root, visits, id).counted == 1,
        share_in(root, visits, id).duplicates == references_in(visits, id) - 1,
        share_in(root, visits, id).counted_bytes == size,
        share_in(root, visits, id).duplicate_bytes == (references_in(visits, id) - 1) * size,
{
    lemma_counted_once(root, visits, id);
    lemma_same_size_bytes(root, visits, id, size);
    let share = share_in(root, visits, id);
    assert(share.counted * size == size) by (nonlinear_arith)
        requires
            share.counted == 1,
    ;
}

/// File `j` of listing `i` exists.
pub open spec fn is_entry(visits: Seq<Visit>, i: int, j: int) -> bool {
    0 <= i < visits.len() && 0 <= j < visits[i].files().len()
}

/// File `j` of listing `i`.
pub open spec fn file_at(visits: Seq<Visit>, i: int, j: int) -> FileView {
    visits[i].files()[j]
}

/// No two files of the listings of `visits` have the same path.
pub open spec fn distinct_file_paths(visits: Seq<Visit>) -> bool {
    forall|i: int, j: int, k: int, l: int|
        is_entry(visits, i, j) && is_entry(visits, k, l) && (i != k || j != l) ==> (
        #[trigger] file_at(visits, i, j)).node.path != (#[trigger] file_at(visits, k, l)).node.path
}

/// File `j` of listing `i` is the first sighting of its identity: when its
/// turn comes, the identity has not been seen.
pub open spec fn fresh(root: Seq<char>, visits: Seq<Visit>, i: int, j: int) -> bool {
    !account(root, visits.take(i)).count_files(visits[i].files().take(j)).visited.contains(
        file_at(visits, i, j).node.id,
    )
}

/// The duplicates hold no path but that of a file.
pub proof fn lemma_ledger_keys(root: Seq<char>, visits: Seq<Visit>, path: Seq<char>)
    requires
        !names_file(visits, path),
    ensures
        !account(root, visits).double_count.map.contains_key(path),
    decreases visits.len(),
{
    if visits.len() > 0 {
        let before = visits.drop_last();
        let last = visits.last();
        let earlier = account(root, before);
        lemma_names_file_step(visits, path);
        lemma_ledger_keys(root, before, path);
        match last.outcome {
            Err(_) => {},
            Ok(listing) => {
                assert forall|j: int| 0 <= j < listing.files.len() implies (
                #[trigger] listing.files[j]).node.path != path by {
                    assert(last.files()[j].node.path == listing.files[j].node.path);
                }
                earlier.lemma_count_files_frame(listing.files, path);
                lemma_account_wf(root, before);
                earlier.lemma_count_files_wf(listing.files);
                earlier.count_files(listing.files).lemma_mark_dirs(listing.directories);
            },
        }
    }
}

impl Tally {
    /// The one file of a listing with a given path gets its record where
    /// its identity is new, and a place among the duplicates where it is not.
    pub proof fn lemma_count_files_entry(self, files: Seq<FileView>, j: int)
        requires
            0 <= j < files.len(),
            forall|k: int| 0 <= k < files.len() && k != j ==> (#[trigger] files[k]).node.path
                != files[j].node.path,
            !self.result.map.contains_key(files[j].node.path),
            !self.double_count.map.contains_key(files[j].node.path),
        ensures
            !self.count_files(files.take(j)).visited.contains(files[j].node.id) ==> {
                &&& self.count_files(files).result.map.contains_key(files[j].node.path)
                &&& self.count_files(files).result.map[files[j].node.path] == file_record(
                    files[j].size,
                )
                &&& !self.count_files(files).double_count.map.contains_key(files[j].node.path)
            },
            self.count_files(files.take(j)).visited.contains(files[j].node.id) ==> {
                &&& self.count_files(files).double_count.map.contains_key(files[j].node.path)
                &&& self.count_files(files).double_count.map[files[j].node.path] == file_record(
                    files[j].size,
                )
                &&& !self.count_files(files).result.map.contains_key(files[j].node.path)
            },
        decreases files.len(),
    {
        let before = files.drop_last();
        let path = files[j].node.path;
        assert(files.last() == files[files.len() - 1]);
        if j == files.len() - 1 {
            assert(files.take(j) =~= before);
            assert forall|k: int| 0 <= k < before.len() implies (#[trigger] before[k]).node.path
                != path by {
                assert(before[k] == files[k]);
            }
            self.lemma_count_files_frame(before, path);
        } else {
            assert(before[j] == files[j]);
            assert(before.take(j) =~= files.take(j));
            assert forall|k: int| 0 <= k < before.len() && k != j implies (
            #[trigger] before[k]).node.path != before[j].node.path by {
                assert(before[k] == files[k]);
            }
            self.lemma_count_files_entry(before, j);
        }
    }

    /// A listing leaves a path alone that none of its files has and that it
    /// is not credited to.
    pub proof fn lemma_settle_frame(self, root: Seq<char>, visit: Visit, path: Seq<char>)
        requires
            self.wf(),
            forall|j: int|
                0 <= j < visit.files().len() ==> (#[trigger] visit.files()[j]).node.path != path,
            !(visit.listed() && ancestors(visit.dir, root).contains(path)),
        ensures
            self.settle(root, visit.dir, visit.outcome).result.map.contains_key(path)
                == self.result.map.contains_key(path),
            self.result.map.contains_key(path) ==> self.settle(
                root,
                visit.dir,
                visit.outcome,
            ).result.map[path] == self.result.map[path],
            self.settle(root, visit.dir, visit.outcome).double_count.map.contains_key(path)
                == self.double_count.map.contains_key(path),
            self.double_count.map.contains_key(path) ==> self.settle(
                root,
                visit.dir,
                visit.outcome,
            ).double_count.map[path] == self.double_count.map[path],
    {
        match visit.outcome {
            Err(_) => {},
            Ok(listing) => {
                assert(visit.files() == listing.files);
                self.lemma_count_files_frame(listing.files, path);
                self.lemma_count_files_wf(listing.files);
                let counted = self.count_files(listing.files);
                counted.lemma_mark_dirs(listing.directories);
                lemma_ancestors(visit.dir, root);
                counted.mark_dirs(listing.directories).result.lemma_credit_all_map(
                    ancestors(visit.dir, root),
                    clamp(self.counted(listing.files)),
                    path,
                );
            },
        }
    }
}

/// The listings from `from` up to `to` leave a path alone that none of
/// their files has and that none of them is credited to.
proof fn lemma_account_frame(
    root: Seq<char>,
    visits: Seq<Visit>,
    from: int,
    to: int,
    path: Seq<char>,
)
    requires
        0 <= from <= to <= visits.len(),
        forall|i: int, j: int|
            from <= i < to && 0 <= j < visits[i].files().len() ==> (#[trigger] file_at(
                visits,
                i,
                j,
            )).node.path != path,
        forall|i: int|
            from <= i < to ==> !((#[trigger] visits[i]).listed() && ancestors(
                visits[i].dir,
                root,
            ).contains(path)),
    ensures
        account(root, visits.take(to)).result.map.contains_key(path) == account(
            root,
            visits.take(from),
        ).result.map.contains_key(path),
        account(root, visits.take(from)).result.map.contains_key(path) ==> account(
            root,
            visits.take(to),
        ).result.map[path] == account(root, visits.take(from)).result.map[path],
        account(root, visits.take(to)).double_count.map.contains_key(path) == account(
            root,
            visits.take(from),
        ).double_count.map.contains_key(path),
        account(root, visits.take(from)).double_count.map.contains_key(path) ==> account(
            root,
            visits.take(to),
        ).double_count.map[path] == account(root, visits.take(from)).double_count.map[path],
    decreases to - from,
{
    if to > from {
        lemma_account_frame(root, visits, from, to - 1, path);
        let upto = visits.take(to);
        assert(upto.drop_last() =~= visits.take(to - 1));
        assert(upto.last() == visits[to - 1]);
        let visit = visits[to - 1];
        assert forall|j: int| 0 <= j < visit.files().len() implies (
        #[trigger] visit.files()[j]).node.path != path by {
            assert(file_at(visits, to - 1, j).node.path != path);
        }
        lemma_account_wf(root, visits.take(to - 1));
        account(root, visits.take(to - 1)).lemma_settle_frame(root, visit, path);
    }
}

/// Where every file has a path of its own, to which no listing is
/// credited, a file that is the first sighting of its identity has its record
/// with its own size and no place among the duplicates; any other has its
/// place among the duplicates, with its own size, and no record.
pub proof fn lemma_file_record(root: Seq<char>, visits: Seq<Visit>, i: int, j: int)
    requires
        is_entry(visits, i, j),
        distinct_file_paths(visits),
        !charged(root, visits, file_at(visits, i, j).node.path),
    ensures
        fresh(root, visits, i, j) ==> {
            &&& account(root, visits).result.map.contains_key(file_at(visits, i, j).node.path)
            &&& account(root, visits).result.map[file_at(visits, i, j).node.path] == file_record(
                file_at(visits, i, j).size,
            )
            &&& !account(root, visits).double_count.map.contains_key(
                file_at(visits, i, j).node.path,
            )
        },
        !fresh(root, visits, i, j) ==> {
            &&& account(root, visits).double_count.map.contains_key(
                file_at(visits, i, j).node.path,
            )
            &&& account(root, visits).double_count.map[file_at(visits, i, j).node.path]
                == file_record(file_at(visits, i, j).size)
            &&& !account(root, visits).result.map.contains_key(file_at(visits, i, j).node.path)
        },
{
    let file = file_at(visits, i, j);
    let path = file.node.path;
    let visit = visits[i];
    let files = visit.files();
    let early = visits.take(i);
    let earlier = account(root, early);
    // what came before knows nothing of the path
    assert(!names_file(early, path)) by {
        if names_file(early, path) {
            let (k, l) = choose|k: int, l: int|
                0 <= k < early.len() && 0 <= l < early[k].files().len() && (
                #[trigger] early[k].files()[l]).node.path == path;
            assert(early[k] == visits[k]);
            assert(is_entry(visits, k, l));
            assert(file_at(visits, k, l).node.path == path);
        }
    }
    assert(!charged(root, early, path)) by {
        if charged(root, early, path) {
            let k = choose|k: int|
                0 <= k < early.len() && (#[trigger] early[k]).listed() && ancestors(
                    early[k].dir,
                    root,
                ).contains(path);
            assert(visits[k] == early[k]);
        }
    }
    lemma_directory_total(root, early, path);
    lemma_ledger_keys(root, early, path);
    lemma_account_wf(root, early);
    // its own listing records it
    assert(visit.listed());
    let listing = visit.outcome->Ok_0;
    assert(files == listing.files);
    assert forall|k: int| 0 <= k < files.len() && k != j implies (#[trigger] files[k]).node.path
        != files[j].node.path by {
        assert(is_entry(visits, i, k));
        assert(file_at(visits, i, k).node.path != file_at(visits, i, j).node.path);
    }
    earlier.lemma_count_files_entry(files, j);
    earlier.lemma_count_files_wf(files);
    let counted = earlier.count_files(files);
    counted.lemma_mark_dirs(listing.directories);
    lemma_ancestors(visit.dir, root);
    assert(!ancestors(visit.dir, root).contains(path));
    counted.mark_dirs(listing.directories).result.lemma_credit_all_map(
        ancestors(visit.dir, root),
        clamp(earlier.counted(files)),
        path,
    );
    let upto = visits.take(i + 1);
    assert(upto.drop_last() =~= early);
    assert(upto.last() == visit);
    // what comes after leaves it alone
    assert forall|k: int, l: int|
        i + 1 <= k < visits.len() && 0 <= l < visits[k].files().len() implies (#[trigger] file_at(
        visits,
        k,
        l,
    )).node.path != path by {
        assert(is_entry(visits, k, l));
        assert(file_at(visits, k, l).node.path != file_at(visits, i, j).node.path);
    }
    lemma_account_frame(root, visits, i + 1, visits.len() as int, path);
    assert(visits.take(visits.len() as int) =~= visits);
}

/// No file has the path of a directory that a listing is credited to.
pub open spec fn unclaimed(root: Seq<char>, visits: Seq<Visit>) -> bool {
    forall|i: int, j: int|
        is_entry(visits, i, j) ==> !charged(
            root,
            visits,
            (#[trigger] file_at(visits, i, j)).node.path,
        )
}

/// File `l` of listing `k` comes before file `j` of listing `i`.
pub open spec fn comes_before(k: int, l: int, i: int, j: int) -> bool {
    k < i || (k == i && l < j)
}

/// A file whose identity no directory has is the first sighting of its
/// identity exactly if no file before it has that identity.
pub proof fn lemma_first_sighting(root: Seq<char>, visits: Seq<Visit>, i: int, j: int)
    requires
        is_entry(visits, i, j),
        !names_directory(visits, file_at(visits, i, j).node.id),
    ensures
        fresh(root, visits, i, j) <==> forall|k: int, l: int|
            is_entry(visits, k, l) && comes_before(k, l, i, j) ==> (#[trigger] file_at(
                visits,
                k,
                l,
            )).node.id != file_at(visits, i, j).node.id,
{
    let files = visits[i].files();
    let id = files[j].node.id;
    let early = visits.take(i);
    let earlier = account(root, early);
    earlier.lemma_count_files_visited(files.take(j), id);
    lemma_visited_ids(root, early, id);
    if fresh(root, visits, i, j) {
        assert forall|k: int, l: int|
            is_entry(visits, k, l) && comes_before(k, l, i, j) implies (#[trigger] file_at(
            visits,
            k,
            l,
        )).node.id != id by {
            if file_at(visits, k, l).node.id == id {
                if k < i {
                    assert(early[k] == visits[k]);
                    assert(early[k].files()[l].node.id == id);
                    assert(visit_holds(early[k], id));
                    assert(holds_identity(early, id));
                } else {
                    assert(files.take(j)[l].node.id == id);
                }
            }
        }
    } else {
        if earlier.visited.contains(id) {
            let k = choose|k: int| 0 <= k < early.len() && visit_holds(#[trigger] early[k], id);
            assert(early[k] == visits[k]);
            if exists|l: int|
                0 <= l < visits[k].directories().len() && (
                #[trigger] visits[k].directories()[l]).id == id {
                let l = choose|l: int|
                    0 <= l < visits[k].directories().len() && (
                    #[trigger] visits[k].directories()[l]).id == id;
                assert(names_directory(visits, id));
            }
            let l = choose|l: int|
                0 <= l < visits[k].files().len() && (#[trigger] visits[k].files()[l]).node.id == id;
            assert(is_entry(visits, k, l) && comes_before(k, l, i, j));
            assert(file_at(visits, k, l).node.id == id);
        } else {
            let l = choose|l: int|
                0 <= l < files.take(j).len() && (#[trigger] files.take(j)[l]).node.id == id;
            assert(files.take(j)[l] == files[l]);
            assert(is_entry(visits, i, l) && comes_before(i, l, i, j));
            assert(file_at(visits, i, l).node.id == id);
        }
    }
}

proof fn lemma_first_in_listing(tally: Tally, files: Seq<FileView>, id: NodeId)
    requires
        !tally.visited.contains(id),
        references(files, id) >= 1,
    ensures
        exists|j: int|
            0 <= j < files.len() && (#[trigger] files[j]).node.id == id && !tally.count_files(
                files.take(j),
            ).visited.contains(id),
    decreases files.len(),
{
    let before = files.drop_last();
    if references(before, id) >= 1 {
        lemma_first_in_listing(tally, before, id);
        let j = choose|j: int|
            0 <= j < before.len() && (#[trigger] before[j]).node.id == id && !tally.count_files(
                before.take(j),
            ).visited.contains(id);
        assert(before.take(j) =~= files.take(j));
        assert(files[j] == before[j]);
    } else {
        lemma_share_of(tally, before, id);
        let j = files.len() - 1;
        assert(files.take(j) =~= before);
        assert(files[j] == files.last());
    }
}

proof fn lemma_some_fresh(root: Seq<char>, visits: Seq<Visit>, id: NodeId)
    requires
        !names_directory(visits, id),
        references_in(visits, id) >= 1,
    ensures
        exists|i: int, j: int|
            is_entry(visits, i, j) && (#[trigger] file_at(visits, i, j)).node.id == id && fresh(
                root,
                visits,
                i,
                j,
            ),
    decreases visits.len(),
{
    let before = visits.drop_last();
    let last = visits.last();
    lemma_names_directory_step(visits, id);
    if references_in(before, id) >= 1 {
        lemma_some_fresh(root, before, id);
        let (i, j) = choose|i: int, j: int|
            is_entry(before, i, j) && (#[trigger] file_at(before, i, j)).node.id == id && fresh(
                root,
                before,
                i,
                j,
            );
        assert(before[i] == visits[i]);
        assert(before.take(i) =~= visits.take(i));
        assert(is_entry(visits, i, j));
        assert(file_at(visits, i, j).node.id == id);
        assert(fresh(root, visits, i, j));
    } else {
        lemma_counted_once(root, before, id);
        let earlier = account(root, before);
        lemma_first_in_listing(earlier, last.files(), id);
        let j = choose|j: int|
            0 <= j < last.files().len() && (#[trigger] last.files()[j]).node.id == id
                && !earlier.count_files(last.files().take(j)).visited.contains(id);
        let i = visits.len() - 1;
        assert(visits[i] == last);
        assert(visits.take(i) =~= before);
        assert(is_entry(visits, i, j));
        assert(file_at(visits, i, j).node.id == id);
        assert(fresh(root, visits, i, j));
    }
}

/// File `j` of listing `i` has the record of the identity `id`, and every
/// other file with that identity has its place among the duplicates.
pub open spec fn sole_record(
    root: Seq<char>,
    visits: Seq<Visit>,
    id: NodeId,
    i: int,
    j: int,
) -> bool {
    let tally = account(root, visits);
    let file = file_at(visits, i, j);
    &&& is_entry(visits, i, j)
    &&& file.node.id == id
    &&& tally.result.map.contains_key(file.node.path)
    &&& tally.result.map[file.node.path] == file_record(file.size)
    &&& !tally.double_count.map.contains_key(file.node.path)
    &&& forall|k: int, l: int|
        is_entry(visits, k, l) && (#[trigger] file_at(visits, k, l)).node.id == id && (k != i || l
            != j) ==> {
            &&& tally.double_count.map.contains_key(file_at(visits, k, l).node.path)
            &&& tally.double_count.map[file_at(visits, k, l).node.path] == file_record(
                file_at(visits, k, l).size,
            )
            &&& !tally.result.map.contains_key(file_at(visits, k, l).node.path)
        }
}

/// Of the paths that lead to one file object, one is a key of the records
/// and all others are keys of the duplicates.
///
/// The files have paths of their own that no listing is credited to, and no
/// directory has the identity. Then one of the files with the identity has a
/// record, that of a file of its size, and no place among the duplicates;
/// every other has its place among the duplicates, with its own size, and no
/// record.
pub proof fn lemma_dedup_keys(root: Seq<char>, visits: Seq<Visit>, id: NodeId)
    requires
        distinct_file_paths(visits),
        unclaimed(root, visits),
        !names_directory(visits, id),
        references_in(visits, id) >= 1,
    ensures
        exists|i: int, j: int| #[trigger] sole_record(root, visits, id, i, j),
{
    lemma_some_fresh(root, visits, id);
    let (i, j) = choose|i: int, j: int|
        is_entry(visits, i, j) && (#[trigger] file_at(visits, i, j)).node.id == id && fresh(
            root,
            visits,
            i,
            j,
        );
    lemma_file_record(root, visits, i, j);
    lemma_first_sighting(root, visits, i, j);
    let tally = account(root, visits);
    assert forall|k: int, l: int|
        is_entry(visits, k, l) && (#[trigger] file_at(visits, k, l)).node.id == id && (k != i || l
            != j) implies {
        &&& tally.double_count.map.contains_key(file_at(visits, k, l).node.path)
        &&& tally.double_count.map[file_at(visits, k, l).node.path] == file_record(
            file_at(visits, k, l).size,
        )
        &&& !tally.result.map.contains_key(file_at(visits, k, l).node.path)
    } by {
        lemma_file_record(root, visits, k, l);
        lemma_first_sighting(root, visits, k, l);
        if fresh(root, visits, k, l) {
            if comes_before(i, j, k, l) {
                assert(file_at(visits, i, j).node.id != file_at(visits, k, l).node.id);
            } else {
                assert(comes_before(k, l, i, j));
                assert(file_at(visits, k, l).node.id != file_at(visits, i, j).node.id);
            }
        }
    }
    assert(sole_record(root, visits, id, i, j));
}

proof fn lemma_references_remove(visits: Seq<Visit>, at: int, id: NodeId)
    requires
        0 <= at < visits.len(),
    ensures
        references_in(visits, id) == references_in(visits.remove(at), id) + references(
            visits[at].files(),
            id,
        ),
    decreases visits.len(),
{
    let rest = visits.remove(at);
    if at == visits.len() - 1 {
        assert(rest =~= visits.drop_last());
    } else {
        assert(rest.drop_last() =~= visits.drop_last().remove(at));
        assert(rest.last() == visits.last());
        lemma_references_remove(visits.drop_last(), at, id);
    }
}

proof fn lemma_references_permutation(first: Seq<Visit>, second: Seq<Visit>, id: NodeId)
    requires
        first.to_multiset() == second.to_multiset(),
    ensures
        references_in(first, id) == references_in(second, id),
    decreases first.len(),
{
    broadcast use vstd::seq_lib::group_to_multiset_ensures;
    broadcast use vstd::multiset::group_multiset_axioms;

    if first.len() == 0 {
        vstd::seq_lib::to_multiset_len(first);
        vstd::seq_lib::to_multiset_len(second);
        assert(second.len() == 0);
    } else {
        let last = first.last();
        let before = first.drop_last();
        assert(first =~= before.push(last));
        assert(first.to_multiset().count(last) > 0);
        assert(second.contains(last));
        let at = choose|at: int| 0 <= at < second.len() && second[at] == last;
        let rest = second.remove(at);
        assert(before.to_multiset() =~= first.to_multiset().remove(last));
        assert(rest.to_multiset() =~= second.to_multiset().remove(last));
        lemma_references_permutation(before, rest, id);
        lemma_references_remove(second, at, id);
    }
}

/// However the directories are ordered, the references to one file
/// object fare the same: one is counted, and the others go to the duplicates
/// with the same bytes between them.
pub proof fn lemma_shares_agree(
    root: Seq<char>,
    first: Seq<Visit>,
    second: Seq<Visit>,
    id: NodeId,
    size: nat,
)
    requires
        first.to_multiset() == second.to_multiset(),
        !names_directory(first, id),
        same_size(first, id, size),
    ensures
        share_in(root, first, id) == share_in(root, second, id),
{
    lemma_same_members(first, second);
    assert(!names_directory(second, id)) by {
        if names_directory(second, id) {
            let (i, j) = choose|i: int, j: int|
                0 <= i < second.len() && 0 <= j < second[i].directories().len() && (
                #[trigger] second[i].directories()[j]).id == id;
            assert(second.contains(second[i]));
            let k = choose|k: int| 0 <= k < first.len() && first[k] == second[i];
            assert(first[k].directories()[j].id == id);
        }
    }
    assert(same_size(second, id, size)) by {
        assert forall|i: int, j: int|
            0 <= i < second.len() && 0 <= j < second[i].files().len() && (
            #[trigger] second[i].files()[j]).node.id == id implies second[i].files()[j].size
            == size by {
            assert(second.contains(second[i]));
            let k = choose|k: int| 0 <= k < first.len() && first[k] == second[i];
            assert(first[k].files()[j].node.id == id);
        }
    }
    lemma_references_permutation(first, second, id);
    lemma_counted_once(root, first, id);
    lemma_counted_once(root, second, id);
    lemma_same_size_bytes(root, first, id, size);
    lemma_same_size_bytes(root, second, id, size);
}

} // verus!
