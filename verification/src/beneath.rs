//! The size of a directory as the sum of the records of the files beneath it.

use crate::aggregation::{credited, lemma_directory_total};
use crate::dedup::{distinct_file_paths, fresh, is_entry, lemma_file_record, unclaimed};
use crate::history::{account, charged, names_file, Visit};
use crate::tally::ancestors;
use crate::types::{clamp, directory_record, FileView, NodeResult};
use vstd::prelude::*;

verus! {

/// The sizes that `records` hold for the paths of `files`, summed up. A
/// file without a record adds nothing.
pub open spec fn record_sum(records: Map<Seq<char>, NodeResult>, files: Seq<FileView>) -> nat
    decreases files.len(),
{
    if files.len() == 0 {
        0
    } else if records.contains_key(files.last().node.path) {
        record_sum(records, files.drop_last()) + records[files.last().node.path].size as nat
    } else {
        record_sum(records, files.drop_last())
    }
}

/// The sizes that `records` hold for the files that `visits` list at or
/// beneath `path`, summed up.
pub open spec fn recorded(
    root: Seq<char>,
    visits: Seq<Visit>,
    path: Seq<char>,
    records: Map<Seq<char>, NodeResult>,
) -> nat
    decreases visits.len(),
{
    if visits.len() == 0 {
        0
    } else {
        let last = visits.last();
        if last.listed() && ancestors(last.dir, root).contains(path) {
            recorded(root, visits.drop_last(), path, records) + record_sum(records, last.files())
        } else {
            recorded(root, visits.drop_last(), path, records)
        }
    }
}

/// What a listing counted is what the records hold for its files.
proof fn lemma_listing_recorded(root: Seq<char>, visits: Seq<Visit>, i: int, n: int)
    requires
        0 <= i < visits.len(),
        0 <= n <= visits[i].files().len(),
        distinct_file_paths(visits),
        unclaimed(root, visits),
    ensures
        account(root, visits.take(i)).counted(visits[i].files().take(n)) == record_sum(
            account(root, visits).result.map,
            visits[i].files().take(n),
        ),
    decreases n,
{
    if n > 0 {
        let files = visits[i].files();
        lemma_listing_recorded(root, visits, i, n - 1);
        assert(files.take(n).drop_last() =~= files.take(n - 1));
        assert(files.take(n).last() == files[n - 1]);
        assert(is_entry(visits, i, n - 1));
        lemma_file_record(root, visits, i, n - 1);
        assert(fresh(root, visits, i, n - 1) <==> !account(root, visits.take(i)).count_files(
            files.take(n - 1),
        ).visited.contains(files[n - 1].node.id));
    }
}

proof fn lemma_recorded_prefix(root: Seq<char>, visits: Seq<Visit>, path: Seq<char>, n: int)
    requires
        0 <= n <= visits.len(),
        distinct_file_paths(visits),
        unclaimed(root, visits),
    ensures
        credited(root, visits.take(n), path) == recorded(
            root,
            visits.take(n),
            path,
            account(root, visits).result.map,
        ),
    decreases n,
{
    if n > 0 {
        lemma_recorded_prefix(root, visits, path, n - 1);
        let upto = visits.take(n);
        assert(upto.drop_last() =~= visits.take(n - 1));
        assert(upto.last() == visits[n - 1]);
        let files = visits[n - 1].files();
        lemma_listing_recorded(root, visits, n - 1, files.len() as int);
        assert(files.take(files.len() as int) =~= files);
    }
}

/// The size of a directory is the sum of the sizes in the records of the
/// files listed in it and in the directories beneath it.
///
/// Every file has a path of its own that no listing is credited to. A path
/// that a listing is credited to then has the record of a directory whose
/// size is the sum, cut off at the largest size, of what the records hold
/// for the files of all listings credited to it. A file that went to the
/// duplicates has no record and adds nothing.
pub proof fn lemma_directory_sum(root: Seq<char>, visits: Seq<Visit>, path: Seq<char>)
    requires
        distinct_file_paths(visits),
        unclaimed(root, visits),
        charged(root, visits, path),
    ensures
        account(root, visits).result.map.contains_key(path),
        account(root, visits).result.map[path] == directory_record(
            clamp(recorded(root, visits, path, account(root, visits).result.map)),
        ),
{
    assert(!names_file(visits, path)) by {
        if names_file(visits, path) {
            let (i, j) = choose|i: int, j: int|
                0 <= i < visits.len() && 0 <= j < visits[i].files().len() && (
                #[trigger] visits[i].files()[j]).node.path == path;
            assert(is_entry(visits, i, j));
            assert(!charged(root, visits, crate::dedup::file_at(visits, i, j).node.path));
        }
    }
    lemma_directory_total(root, visits, path);
    lemma_recorded_prefix(root, visits, path, visits.len() as int);
    assert(visits.take(visits.len() as int) =~= visits);
}

} // verus!
