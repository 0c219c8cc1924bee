//! A map from paths to records that remembers the order of first insertion.

use crate::types::{clamp, directory_record, NodeResult, NodeType};
use vstd::hash_map::StringHashMap;
use vstd::prelude::*;

verus! {

/// The mathematical content of a [`PathMap`].
#[verifier::ext_equal]
pub struct Records {
    /// The record of each path.
    pub map: Map<Seq<char>, NodeResult>,
    /// The paths, in the order in which they were first inserted.
    pub order: Seq<Seq<char>>,
}

impl Records {
    /// No path has a record.
    pub open spec fn empty() -> Records {
        Records { map: Map::empty(), order: Seq::empty() }
    }

    /// Every path of the map stands exactly once in the order.
    pub open spec fn wf(self) -> bool {
        &&& self.order.no_duplicates()
        &&& forall|path: Seq<char>| self.map.contains_key(path) <==> self.order.contains(path)
    }

    /// Sets the record of `path`, replacing an earlier one.
    pub open spec fn insert(self, path: Seq<char>, record: NodeResult) -> Records {
        Records {
            map: self.map.insert(path, record),
            order: if self.map.contains_key(path) {
                self.order
            } else {
                self.order.push(path)
            },
        }
    }

    /// Adds `amount` to the size of `path`, which saturates; a path without a
    /// record becomes a directory of that size.
    pub open spec fn credit(self, path: Seq<char>, amount: u128) -> Records {
        if self.map.contains_key(path) {
            let before = self.map[path];
            self.insert(
                path,
                NodeResult {
                    size: clamp((before.size + amount) as nat),
                    node_type: before.node_type,
                },
            )
        } else {
            self.insert(path, directory_record(amount))
        }
    }

    /// An insertion keeps the order in step with the map.
    pub proof fn lemma_insert_wf(self, path: Seq<char>, record: NodeResult)
        requires
            self.wf(),
        ensures
            self.insert(path, record).wf(),
    {
        let after = self.insert(path, record);
        assert forall|p: Seq<char>| after.map.contains_key(p) <==> after.order.contains(p) by {
            if self.map.contains_key(path) {
                assert(self.map.contains_key(p) <==> self.order.contains(p));
            } else if p == path {
                assert(after.order[self.order.len() as int] == p);
            } else {
                assert(self.map.contains_key(p) <==> self.order.contains(p));
                if self.order.contains(p) {
                    let i = choose|i: int| 0 <= i < self.order.len() && self.order[i] == p;
                    assert(after.order[i] == p);
                }
                if after.order.contains(p) {
                    let i = choose|i: int| 0 <= i < after.order.len() && after.order[i] == p;
                    assert(self.order[i] == p);
                }
            }
        }
        if !self.map.contains_key(path) {
            assert(!self.order.contains(path));
            assert forall|i: int, j: int|
                0 <= i < after.order.len() && 0 <= j < after.order.len() && i != j implies after.order[i]
                != after.order[j] by {
                if i < self.order.len() {
                    assert(self.order.contains(self.order[i]));
                }
                if j < self.order.len() {
                    assert(self.order.contains(self.order[j]));
                }
            }
        }
    }

    /// A credit keeps the order in step with the map.
    pub proof fn lemma_credit_wf(self, path: Seq<char>, amount: u128)
        requires
            self.wf(),
        ensures
            self.credit(path, amount).wf(),
    {
        if self.map.contains_key(path) {
            let before = self.map[path];
            self.lemma_insert_wf(
                path,
                NodeResult {
                    size: clamp((before.size + amount) as nat),
                    node_type: before.node_type,
                },
            );
        } else {
            self.lemma_insert_wf(path, directory_record(amount));
        }
    }

    /// The order lists the paths of the map, so both have the same length.
    pub proof fn lemma_len(self)
        requires
            self.wf(),
        ensures
            self.map.dom().finite(),
            self.map.dom().len() == self.order.len(),
    {
        self.order.unique_seq_to_set();
        assert(self.order.to_set() =~= self.map.dom());
    }
}

/// A map from paths to records that can list its entries.
///
/// The records are held in a hash map of strings, whose contents are known
/// as a map of character sequences. A hash map tells nothing of the order of
/// its keys, so the paths are kept beside it in the order of their first
/// insertion.
pub struct PathMap {
    index: StringHashMap<NodeResult>,
    paths: Vec<String>,
}

impl View for PathMap {
    type V = Records;

    closed spec fn view(&self) -> Records {
        Records { map: self.index@, order: self.paths@.map_values(|path: String| path@) }
    }
}

impl PathMap {
    /// The order of the paths is in step with the map; see [`Records::wf`].
    pub open spec fn wf(&self) -> bool {
        self@.wf()
    }

    /// A map without records.
    pub fn new() -> (records: PathMap)
        ensures
            records@ == Records::empty(),
            records.wf(),
    {
        let records = PathMap { index: StringHashMap::new(), paths: Vec::new() };
        assert(records@.order =~= Seq::<Seq<char>>::empty());
        records
    }

    /// The number of paths that have a record.
    pub fn len(&self) -> (count: usize)
        ensures
            count == self@.order.len(),
            self.wf() ==> count == self@.map.dom().len(),
    {
        proof {
            if self.wf() {
                self@.lemma_len();
            }
        }
        self.paths.len()
    }

    /// Whether no path has a record.
    pub fn is_empty(&self) -> (none: bool)
        ensures
            none <==> self@.order.len() == 0,
    {
        self.paths.len() == 0
    }

    /// Whether `path` has a record.
    pub fn contains_key(&self, path: &str) -> (present: bool)
        ensures
            present == self@.map.contains_key(path@),
    {
        self.index.contains_key(path)
    }

    /// The record of `path`, if it has one.
    pub fn get(&self, path: &str) -> (found: Option<&NodeResult>)
        ensures
            found is Some <==> self@.map.contains_key(path@),
            found is Some ==> *found->0 == self@.map[path@],
    {
        self.index.get(path)
    }

    /// Sets the record of `path`; see [`Records::insert`].
    pub fn insert(&mut self, path: String, record: NodeResult)
        requires
            old(self).wf(),
        ensures
            final(self).wf(),
            final(self)@ == old(self)@.insert(path@, record),
    {
        proof {
            old(self)@.lemma_insert_wf(path@, record);
        }
        let known = self.index.contains_key(path.as_str());
        if known {
            self.index.insert(path, record);
        } else {
            self.index.insert(path.clone(), record);
            self.paths.push(path);
            assert(self@.order =~= old(self)@.order.push(path@));
        }
    }

    /// Adds `amount` to the size of `path`; see [`Records::credit`].
    pub fn credit(&mut self, path: String, amount: u128)
        requires
            old(self).wf(),
        ensures
            final(self).wf(),
            final(self)@ == old(self)@.credit(path@, amount),
    {
        let record = match self.index.get(path.as_str()) {
            Some(before) => NodeResult {
                size: before.size.saturating_add(amount),
                node_type: before.node_type,
            },
            None => NodeResult { size: amount, node_type: NodeType::Directory },
        };
        self.insert(path, record);
    }

    /// Every path with its record, in the order of first insertion.
    pub fn entries(&self) -> (all: Vec<(String, NodeResult)>)
        requires
            self.wf(),
        ensures
            all@.len() == self@.order.len(),
            forall|i: int|
                0 <= i < all@.len() ==> (#[trigger] all@[i]).0@ == self@.order[i] && all@[i].1
                    == self@.map[self@.order[i]],
    {
        let mut all: Vec<(String, NodeResult)> = Vec::new();
        let mut i: usize = 0;
        while i < self.paths.len()
            invariant
                self.wf(),
                i <= self.paths.len(),
                all@.len() == i,
                forall|j: int|
                    0 <= j < i ==> (#[trigger] all@[j]).0@ == self@.order[j] && all@[j].1
                        == self@.map[self@.order[j]],
            decreases self.paths.len() - i,
        {
            let path = self.paths[i].clone();
            assert(self@.order[i as int] == path@);
            assert(self@.order.contains(path@));
            let record = match self.index.get(path.as_str()) {
                Some(record) => *record,
                None => NodeResult { size: 0, node_type: NodeType::File },
            };
            all.push((path, record));
            i = i + 1;
        }
        all
    }
}

} // verus!
