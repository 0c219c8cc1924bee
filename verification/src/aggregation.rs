//! What the record of a directory amounts to at the end of a traversal.

use crate::history::{
    account, charged, lemma_account_wf, lemma_ancestors, lemma_charged_step,
    lemma_names_file_step, names_file, Visit,
};
use crate::tally::ancestors;
use crate::types::{clamp, directory_record};
use vstd::prelude::*;

verus! {

/// The bytes that the listings of `visits` added beneath `path`: for each
/// listing that is credited to `path`, the sizes of the files that it counted.
pub open spec fn credited(root: Seq<char>, visits: Seq<Visit>, path: Seq<char>) -> nat
    decreases visits.len(),
{
    if visits.len() == 0 {
        0
    } else {
        let before = visits.drop_last();
        let last = visits.last();
        if last.listed() && ancestors(last.dir, root).contains(path) {
            credited(root, before, path) + account(root, before).counted(last.files())
        } else {
            credited(root, before, path)
        }
    }
}

/// The size of a directory is the sum of the sizes of the files that were
/// counted in it and in the directories beneath it.
///
/// A path that names no file has a record exactly if a listing that
/// succeeded is credited to it; the record is that of a directory, and its
/// size is the sum, cut off at the largest size, of what those listings
/// counted. A file that went to the duplicates adds to no directory.
pub proof fn lemma_directory_total(root: Seq<char>, visits: Seq<Visit>, path: Seq<char>)
    requires
        !names_file(visits, path),
    ensures
        account(root, visits).result.map.contains_key(path) <==> charged(root, visits, path),
        !charged(root, visits, path) ==> credited(root, visits, path) == 0,
        charged(root, visits, path) ==> account(root, visits).result.map[path] == directory_record(
            clamp(credited(root, visits, path)),
        ),
    decreases visits.len(),
{
    if visits.len() == 0 {
    } else {
        let before = visits.drop_last();
        let last = visits.last();
        let earlier = account(root, before);
        lemma_names_file_step(visits, path);
        lemma_charged_step(root, visits, path);
        lemma_directory_total(root, before, path);
        lemma_account_wf(root, before);
        match last.outcome {
            Err(_) => {},
            Ok(listing) => {
                let counted = earlier.count_files(listing.files);
                let marked = counted.mark_dirs(listing.directories);
                let chain = ancestors(last.dir, root);
                let amount = clamp(earlier.counted(listing.files));
                assert forall|j: int| 0 <= j < listing.files.len() implies (
                #[trigger] listing.files[j]).node.path != path by {
                    assert(last.files()[j].node.path == listing.files[j].node.path);
                }
                earlier.lemma_count_files_frame(listing.files, path);
                earlier.lemma_count_files_wf(listing.files);
                counted.lemma_mark_dirs(listing.directories);
                lemma_ancestors(last.dir, root);
                marked.result.lemma_credit_all_map(chain, amount, path);
            },
        }
    }
}

/// The size of a directory never shrinks: a further listing leaves the
/// record of a path that names no file as it was or adds to it.
pub proof fn lemma_directory_grows(root: Seq<char>, visits: Seq<Visit>, path: Seq<char>)
    requires
        visits.len() > 0,
        !names_file(visits, path),
        account(root, visits.drop_last()).result.map.contains_key(path),
    ensures
        account(root, visits).result.map.contains_key(path),
        account(root, visits).result.map[path].size >= account(
            root,
            visits.drop_last(),
        ).result.map[path].size,
{
    lemma_names_file_step(visits, path);
    lemma_charged_step(root, visits, path);
    lemma_directory_total(root, visits, path);
    lemma_directory_total(root, visits.drop_last(), path);
}

} // verus!
