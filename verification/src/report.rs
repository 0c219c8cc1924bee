//! What there is to show of a scan: its largest files, and the sum of a
//! set of records.

use crate::types::{clamp, NodeResult, NodeType};
use vstd::prelude::*;

verus! {

/// The records of `entries`, without their paths.
pub open spec fn records_of(entries: Seq<(String, NodeResult)>) -> Seq<NodeResult> {
    entries.map_values(|entry: (String, NodeResult)| entry.1)
}

/// The sizes of `records`, summed up.
pub open spec fn total(records: Seq<NodeResult>) -> nat
    decreases records.len(),
{
    if records.len() == 0 {
        0
    } else {
        total(records.drop_last()) + records.last().size as nat
    }
}

/// Record `i` is that of a file.
pub open spec fn is_file(records: Seq<NodeResult>, i: int) -> bool {
    0 <= i < records.len() && records[i].node_type == NodeType::File
}

/// Record `i` is shown before record `j`: the larger comes first, and of two
/// of one size the one that stands first.
pub open spec fn outranks(records: Seq<NodeResult>, i: int, j: int) -> bool {
    records[i].size > records[j].size || (records[i].size == records[j].size && i < j)
}

/// `picks` are the first files in the order of showing, with none left out:
/// each is a file, each is outranked by the one before it, and every file
/// that outranks one of them stands before it among them.
pub open spec fn is_ranking(records: Seq<NodeResult>, picks: Seq<usize>) -> bool {
    &&& forall|r: int| 0 <= r < picks.len() ==> is_file(records, #[trigger] picks[r] as int)
    &&& forall|r: int|
        0 < r < picks.len() ==> outranks(records, picks[r - 1] as int, #[trigger] picks[r] as int)
    &&& forall|r: int, k: int|
        0 <= r < picks.len() && is_file(records, k) && #[trigger] outranks(
            records,
            k,
            picks[r] as int,
        ) ==> exists|q: int| 0 <= q < r && #[trigger] picks[q] == k
}

/// Every file is among `picks`.
pub open spec fn holds_all_files(records: Seq<NodeResult>, picks: Seq<usize>) -> bool {
    forall|k: int| #[trigger] is_file(records, k) ==> exists|q: int| 0 <= q < picks.len() && #[trigger] picks[q] == k
}

/// The sum of the sizes of `entries`, which saturates.
pub fn total_size(entries: &Vec<(String, NodeResult)>) -> (sum: u128)
    ensures
        sum == clamp(total(records_of(entries@))),
{
    let ghost records = records_of(entries@);
    let mut sum: u128 = 0;
    let mut i: usize = 0;
    while i < entries.len()
        invariant
            i <= entries.len(),
            records == records_of(entries@),
            sum == clamp(total(records.take(i as int))),
        decreases entries.len() - i,
    {
        proof {
            assert(records.take(i + 1).drop_last() =~= records.take(i as int));
            assert(records.take(i + 1).last() == entries@[i as int].1);
        }
        sum = sum.saturating_add(entries[i].1.size);
        i = i + 1;
    }
    proof {
        assert(records.take(entries.len() as int) =~= records);
    }
    sum
}

/// The places in `entries` of its `top` largest files, the largest first;
/// of all files where there are fewer. Of two files of one size the one that
/// stands first in `entries` comes first. Directories are passed over.
pub fn largest_files(entries: &Vec<(String, NodeResult)>, top: usize) -> (picks: Vec<usize>)
    ensures
        is_ranking(records_of(entries@), picks@),
        picks@.len() <= top,
        picks@.len() == top || holds_all_files(records_of(entries@), picks@),
{
    let ghost records = records_of(entries@);
    let mut picks: Vec<usize> = Vec::new();
    let mut complete = false;
    while picks.len() < top && !complete
        invariant
            records == records_of(entries@),
            is_ranking(records, picks@),
            picks@.len() <= top,
            complete ==> holds_all_files(records, picks@),
        decreases top - picks.len() + if complete { 0int } else { 1int },
    {
        let mut best: usize = 0;
        let mut found = false;
        let mut k: usize = 0;
        let ghost last: int = if picks@.len() > 0 {
            picks@[picks@.len() - 1] as int
        } else {
            0
        };
        while k < entries.len()
            invariant
                k <= entries.len(),
                records == records_of(entries@),
                is_ranking(records, picks@),
                picks@.len() > 0 ==> last == picks@[picks@.len() - 1] as int,
                found ==> is_file(records, best as int) && (picks@.len() > 0 ==> outranks(
                    records,
                    last,
                    best as int,
                )),
                found ==> forall|j: int|
                    0 <= j < k && is_file(records, j) && (picks@.len() > 0 ==> outranks(
                        records,
                        last,
                        j,
                    )) ==> j == best || #[trigger] outranks(records, best as int, j),
                !found ==> forall|j: int|
                    0 <= j < k && #[trigger] is_file(records, j) ==> picks@.len() > 0 && !outranks(
                        records,
                        last,
                        j,
                    ),
            decreases entries.len() - k,
        {
            let record = &entries[k].1;
            assert(records[k as int] == *record);
            let is_a_file = record.node_type == NodeType::File;
            let eligible = if picks.len() == 0 {
                true
            } else {
                let before = &entries[picks[picks.len() - 1]].1;
                assert(records[last] == *before);
                before.size > record.size || (before.size == record.size && picks[picks.len() - 1]
                    < k)
            };
            if is_a_file && eligible {
                let better = if !found {
                    true
                } else {
                    let champion = &entries[best].1;
                    assert(records[best as int] == *champion);
                    record.size > champion.size || (record.size == champion.size && k < best)
                };
                let ghost champion = best as int;
                let ghost had = found;
                if better {
                    best = k;
                    found = true;
                }
                proof {
                    assert forall|j: int|
                        0 <= j < k + 1 && is_file(records, j) && (picks@.len() > 0 ==> outranks(
                            records,
                            last,
                            j,
                        )) implies j == best || #[trigger] outranks(records, best as int, j) by {
                        if j < k && had {
                            assert(j == champion || outranks(records, champion, j));
                        }
                    }
                }
            }
            k = k + 1;
        }
        if found {
            let ghost longer = picks@.push(best);
            proof {
                assert forall|r: int| 0 <= r < longer.len() implies is_file(
                    records,
                    #[trigger] longer[r] as int,
                ) by {
                    if r < picks@.len() {
                        assert(longer[r] == picks@[r]);
                    }
                }
                assert forall|r: int| 0 < r < longer.len() implies outranks(
                    records,
                    longer[r - 1] as int,
                    #[trigger] longer[r] as int,
                ) by {
                    if r < picks@.len() {
                        assert(longer[r] == picks@[r]);
                        assert(longer[r - 1] == picks@[r - 1]);
                    }
                }
                assert forall|r: int, j: int|
                    0 <= r < longer.len() && is_file(records, j) && #[trigger] outranks(
                        records,
                        j,
                        longer[r] as int,
                    ) implies exists|q: int| 0 <= q < r && #[trigger] longer[q] == j by {
                    if r < picks@.len() {
                        assert(longer[r] == picks@[r]);
                        let q = choose|q: int| 0 <= q < r && #[trigger] picks@[q] == j;
                        assert(longer[q] == j);
                    } else {
                        // a file that outranks the new pick was picked before
                        assert(picks@.len() > 0 && !outranks(records, last, j)) by {
                            if picks@.len() == 0 || outranks(records, last, j) {
                                assert(j == best as int || outranks(records, best as int, j));
                            }
                        }
                        if j == last {
                            assert(longer[picks@.len() - 1] == j);
                        } else {
                            assert(outranks(records, j, picks@[picks@.len() - 1] as int));
                            let q = choose|q: int|
                                0 <= q < picks@.len() - 1 && #[trigger] picks@[q] == j;
                            assert(longer[q] == j);
                        }
                    }
                }
            }
            picks.push(best);
        } else {
            proof {
                assert forall|j: int| #[trigger] is_file(records, j) implies exists|q: int|
                    0 <= q < picks@.len() && #[trigger] picks@[q] == j by {
                    assert(picks@.len() > 0 && !outranks(records, last, j));
                    if j == last {
                        assert(picks@[picks@.len() - 1] == j);
                    } else {
                        assert(outranks(records, j, picks@[picks@.len() - 1] as int));
                        let q = choose|q: int|
                            0 <= q < picks@.len() - 1 && #[trigger] picks@[q] == j;
                    }
                }
            }
            complete = true;
        }
    }
    picks
}

} // verus!
