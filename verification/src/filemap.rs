//! The files of one directory tree: relative path to size and digest.

use crate::order::{
    chars_lt, lemma_lt_asymmetric, lemma_lt_irreflexive, lemma_lt_transitive, order_of, Rank,
};
use crate::text::chars_of;
use vstd::prelude::*;

verus! {

/// What a comparison knows of a file.
#[derive(Clone, Copy, Debug, PartialEq, Eq, Structural)]
pub struct FileInfo {
    /// Length of the file in bytes.
    pub size: u64,
    /// Digest of the content, where the file could be read.
    pub digest: Option<u64>,
}

/// One file of a map.
pub struct FileRecord {
    pub path: Vec<char>,
    pub info: FileInfo,
}

/// A map from relative path to [`FileInfo`], kept in ascending order of the
/// paths.
pub struct FileMap {
    pub(crate) records: Vec<FileRecord>,
}

/// The paths ascend strictly, so that none occurs twice.
pub open spec fn strictly_ascending(records: Seq<FileRecord>) -> bool {
    forall|i: int, j: int|
        0 <= i < j < records.len() ==> chars_lt(
            (#[trigger] records[i]).path@,
            (#[trigger] records[j]).path@,
        )
}

/// Whether a record holds `path`.
pub open spec fn holds_path(records: Seq<FileRecord>, path: Seq<char>) -> bool {
    exists|i: int| 0 <= i < records.len() && (#[trigger] records[i]).path@ == path
}

/// The index of a record that holds `path`.
pub open spec fn index_of(records: Seq<FileRecord>, path: Seq<char>) -> int {
    choose|i: int| 0 <= i < records.len() && (#[trigger] records[i]).path@ == path
}

/// The map that the records stand for.
pub open spec fn records_map(records: Seq<FileRecord>) -> Map<Seq<char>, FileInfo> {
    Map::new(|p: Seq<char>| holds_path(records, p), |p: Seq<char>| records[index_of(records, p)].info)
}

/// The record at `i` is the entry of its path.
pub proof fn lemma_record_in_map(records: Seq<FileRecord>, i: int)
    requires
        strictly_ascending(records),
        0 <= i < records.len(),
    ensures
        records_map(records).dom().contains(records[i].path@),
        records_map(records)[records[i].path@] == records[i].info,
{
    let p = records[i].path@;
    let k = index_of(records, p);
    if k < i {
        lemma_lt_asymmetric(records[k].path@, records[i].path@);
    } else if i < k {
        lemma_lt_asymmetric(records[i].path@, records[k].path@);
    }
}

/// The paths of the records, in their order.
pub open spec fn record_paths(records: Seq<FileRecord>) -> Seq<Seq<char>> {
    Seq::new(records.len(), |i: int| records[i].path@)
}

/// The map of ascending records has as many entries as there are records.
pub proof fn lemma_records_count(records: Seq<FileRecord>)
    requires
        strictly_ascending(records),
    ensures
        records_map(records).dom().finite(),
        records_map(records).dom().len() == records.len(),
{
    let paths = record_paths(records);
    assert forall|i: int, j: int| 0 <= i < paths.len() && 0 <= j < paths.len() && i != j implies paths[i]
        != paths[j] by {
        if i < j {
            lemma_lt_asymmetric(records[i].path@, records[j].path@);
        } else {
            lemma_lt_asymmetric(records[j].path@, records[i].path@);
        }
    }
    paths.unique_seq_to_set();
    assert(paths.to_set() =~= records_map(records).dom()) by {
        assert forall|p: Seq<char>| paths.to_set().contains(p) == records_map(
            records,
        ).dom().contains(p) by {
            if paths.contains(p) {
                let i = choose|i: int| 0 <= i < paths.len() && paths[i] == p;
            }
            if holds_path(records, p) {
                let i = index_of(records, p);
                assert(paths[i] == p);
            }
        }
    }
}

impl View for FileMap {
    type V = Map<Seq<char>, FileInfo>;

    closed spec fn view(&self) -> Map<Seq<char>, FileInfo> {
        records_map(self.records@)
    }
}

impl FileMap {
    #[verifier::type_invariant]
    pub closed spec fn ascending(&self) -> bool {
        strictly_ascending(self.records@)
    }

    /// The records behind the map: ascending, and the map is theirs.
    pub(crate) proof fn lemma_records(&self)
        requires
            self.ascending(),
        ensures
            strictly_ascending(self.records@),
            self@ == records_map(self.records@),
    {
    }

    /// An empty map.
    pub fn new() -> (map: FileMap)
        ensures
            map@ == Map::<Seq<char>, FileInfo>::empty(),
    {
        let map = FileMap { records: Vec::new() };
        map
    }

    /// Number of files in the map.
    pub fn len(&self) -> (n: usize)
        ensures
            self@.dom().finite(),
            n == self@.dom().len(),
    {
        proof {
            use_type_invariant(self);
            lemma_records_count(self.records@);
        }
        self.records.len()
    }

    /// Where `path` stands or would stand among the records, and whether
    /// it is there.
    fn search(&self, path: &Vec<char>) -> (r: (usize, bool))
        ensures
            r.0 <= self.records.len(),
            forall|i: int| 0 <= i < r.0 ==> chars_lt((#[trigger] self.records[i]).path@, path@),
            r.1 ==> r.0 < self.records.len() && self.records[r.0 as int].path@ == path@,
            !r.1 ==> forall|i: int|
                r.0 <= i < self.records.len() ==> chars_lt(
                    path@,
                    (#[trigger] self.records[i]).path@,
                ),
    {
        proof {
            use_type_invariant(self);
        }
        let mut lo: usize = 0;
        let mut hi: usize = self.records.len();
        while lo < hi
            invariant
                lo <= hi <= self.records.len(),
                strictly_ascending(self.records@),
                forall|i: int| 0 <= i < lo ==> chars_lt((#[trigger] self.records[i]).path@, path@),
                forall|i: int|
                    hi <= i < self.records.len() ==> chars_lt(
                        path@,
                        (#[trigger] self.records[i]).path@,
                    ),
            decreases hi - lo,
        {
            let mid: usize = lo + (hi - lo) / 2;
            match order_of(&self.records[mid].path, path) {
                Rank::Same => {
                    return (mid, true);
                },
                Rank::Before => {
                    proof {
                        assert forall|i: int| 0 <= i < mid + 1 implies chars_lt(
                            (#[trigger] self.records[i]).path@,
                            path@,
                        ) by {
                            if i < mid {
                                lemma_lt_transitive(
                                    self.records[i].path@,
                                    self.records[mid as int].path@,
                                    path@,
                                );
                            }
                        }
                    }
                    lo = mid + 1;
                },
                Rank::After => {
                    proof {
                        assert forall|i: int| mid <= i < self.records.len() implies chars_lt(
                            path@,
                            (#[trigger] self.records[i]).path@,
                        ) by {
                            if mid < i {
                                lemma_lt_transitive(
                                    path@,
                                    self.records[mid as int].path@,
                                    self.records[i].path@,
                                );
                            }
                        }
                    }
                    hi = mid;
                },
            }
        }
        (lo, false)
    }

    /// What the map holds for `path`.
    pub fn get(&self, path: &str) -> (found: Option<FileInfo>)
        ensures
            found == if self@.dom().contains(path@) {
                Some(self@[path@])
            } else {
                None
            },
    {
        proof {
            use_type_invariant(self);
        }
        let chars = chars_of(path);
        let (at, present) = self.search(&chars);
        if present {
            proof {
                lemma_record_in_map(self.records@, at as int);
            }
            Some(self.records[at].info)
        } else {
            proof {
                if holds_path(self.records@, path@) {
                    lemma_lt_irreflexive(path@);
                }
            }
            None
        }
    }

    /// Records the size and digest of the file at `path`, in place of what
    /// the map held for that path.
    pub fn insert(&mut self, path: &str, size: u64, digest: Option<u64>)
        ensures
            final(self)@ == old(self)@.insert(path@, FileInfo { size, digest }),
    {
        proof {
            use_type_invariant(&*self);
        }
        let chars = chars_of(path);
        let (at, present) = self.search(&chars);
        let ghost before = self.records@;
        let record = FileRecord { path: chars, info: FileInfo { size, digest } };
        let mut records: Vec<FileRecord> = Vec::new();
        core::mem::swap(&mut self.records, &mut records);
        if present {
            records.set(at, record);
            proof {
                let after = records@;
                assert forall|i: int, j: int| 0 <= i < j < after.len() implies chars_lt(
                    (#[trigger] after[i]).path@,
                    (#[trigger] after[j]).path@,
                ) by {}
                assert forall|p: Seq<char>| holds_path(after, p) == holds_path(before, p) by {
                    if holds_path(after, p) {
                        let k = choose|k: int| 0 <= k < after.len() && (#[trigger] after[k]).path@ == p;
                        assert(before[k].path@ == p);
                    }
                    if holds_path(before, p) {
                        let k = choose|k: int|
                            0 <= k < before.len() && (#[trigger] before[k]).path@ == p;
                        assert(after[k].path@ == p);
                    }
                }
                assert forall|p: Seq<char>| holds_path(after, p) implies #[trigger] records_map(
                    after,
                )[p] == records_map(before).insert(path@, FileInfo { size, digest })[p] by {
                    let k = choose|k: int| 0 <= k < after.len() && (#[trigger] after[k]).path@ == p;
                    lemma_record_in_map(after, k);
                    if p != path@ {
                        lemma_record_in_map(before, k);
                        assert(after[k] == before[k]);
                    } else {
                        lemma_record_in_map(after, at as int);
                    }
                }
            }
        } else {
            records.insert(at, record);
            proof {
                let after = records@;
                assert forall|p: Seq<char>| holds_path(after, p) == (p == path@ || holds_path(
                    before,
                    p,
                )) by {
                    if holds_path(after, p) {
                        let k = choose|k: int| 0 <= k < after.len() && (#[trigger] after[k]).path@ == p;
                    }
                    if holds_path(before, p) {
                        let k = choose|k: int|
                            0 <= k < before.len() && (#[trigger] before[k]).path@ == p;
                        if k < at {
                            assert(after[k].path@ == p);
                        } else {
                            assert(after[k + 1].path@ == p);
                        }
                    }
                    if p == path@ {
                        assert(after[at as int].path@ == p);
                    }
                }
                assert forall|p: Seq<char>| holds_path(after, p) implies #[trigger] records_map(
                    after,
                )[p] == records_map(before).insert(path@, FileInfo { size, digest })[p] by {
                    let k = choose|k: int| 0 <= k < after.len() && (#[trigger] after[k]).path@ == p;
                    lemma_record_in_map(after, k);
                    if k < at {
                        lemma_record_in_map(before, k);
                        lemma_lt_asymmetric(before[k].path@, path@);
                    } else if k > at {
                        lemma_record_in_map(before, k - 1);
                        lemma_lt_asymmetric(path@, before[k - 1].path@);
                    }
                }
            }
        }
        core::mem::swap(&mut self.records, &mut records);
    }
}

} // verus!
