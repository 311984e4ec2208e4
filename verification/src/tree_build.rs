//! Folding the classified files of two maps into a comparison tree.

use crate::compare::{
    compute_dir_status, dir_status, lookup, node_key, node_key_fn, node_ok, paths_with, size_in,
    stats_count_paths, status_count, status_of, tree_has_file, tree_ok, CompareEntry, CompareStats,
    FileStatus,
};
use crate::filemap::{
    lemma_record_in_map, records_map, strictly_ascending, FileInfo, FileMap,
};
use crate::order::{
    agree, agrees, chars_lt, lemma_agree_block, lemma_lt_asymmetric, lemma_lt_transitive,
    order_of, Rank,
};
use crate::sorting::{
    distinct_keys, lemma_distinct_keys_permuted, lemma_permuted_items, lemma_total_permuted,
    make_key, sort_by_key, sorted_by, total, SortKey,
};
use crate::text::string_of;
use vstd::prelude::*;

verus! {

/// A file of the union of two maps, with what the comparison found of it.
pub struct Classified {
    pub path: Vec<char>,
    pub status: FileStatus,
    pub left_size: Option<u64>,
    pub right_size: Option<u64>,
}

/// `c` is a file that one of the maps holds, with the status and the sizes
/// that the maps give it.
pub open spec fn classified_ok(
    c: Classified,
    left: Map<Seq<char>, FileInfo>,
    right: Map<Seq<char>, FileInfo>,
) -> bool {
    let p = c.path@;
    &&& left.dom().contains(p) || right.dom().contains(p)
    &&& c.status == status_of(lookup(left, p), lookup(right, p))
    &&& c.left_size == size_in(left, p)
    &&& c.right_size == size_in(right, p)
}

/// The paths of the files ascend strictly.
pub open spec fn files_ascending(files: Seq<Classified>) -> bool {
    forall|i: int, j: int|
        0 <= i < j < files.len() ==> chars_lt(
            (#[trigger] files[i]).path@,
            (#[trigger] files[j]).path@,
        )
}

/// Whether a file of the list has the path `path`.
pub open spec fn lists_path(files: Seq<Classified>, path: Seq<char>) -> bool {
    exists|k: int| 0 <= k < files.len() && (#[trigger] files[k]).path@ == path
}

/// Number of files of the list that have the status `status`.
pub open spec fn seq_count(files: Seq<Classified>, status: FileStatus) -> nat
    decreases files.len(),
{
    if files.len() == 0 {
        0
    } else {
        seq_count(files.drop_last(), status) + if files.last().status == status {
            1nat
        } else {
            0nat
        }
    }
}

/// Copies a text.
fn copy_chars(text: &Vec<char>) -> (copy: Vec<char>)
    ensures
        copy@ == text@,
{
    let mut copy: Vec<char> = Vec::new();
    let mut i: usize = 0;
    while i < text.len()
        invariant
            i <= text.len(),
            copy@ == text@.take(i as int),
        decreases text.len() - i,
    {
        copy.push(text[i]);
        i += 1;
    }
    copy
}

/// Whether a file of the status `status` is wanted: any file where none is
/// asked for, else the files of the status asked for.
pub open spec fn wanted(status: FileStatus, want: Option<FileStatus>) -> bool {
    want is None || want == Some(status)
}

/// The paths of the wanted files of the list.
pub open spec fn listed_paths(files: Seq<Classified>, want: Option<FileStatus>) -> Set<Seq<char>> {
    Set::new(
        |p: Seq<char>|
            exists|k: int|
                0 <= k < files.len() && (#[trigger] files[k]).path@ == p && wanted(
                    files[k].status,
                    want,
                ),
    )
}

/// Number of wanted files of the list.
pub open spec fn count_wanted(files: Seq<Classified>, want: Option<FileStatus>) -> nat
    decreases files.len(),
{
    if files.len() == 0 {
        0
    } else {
        count_wanted(files.drop_last(), want) + if wanted(files.last().status, want) {
            1nat
        } else {
            0nat
        }
    }
}

/// The wanted files of an ascending list are as many as their paths.
proof fn lemma_listed_paths_count(files: Seq<Classified>, want: Option<FileStatus>)
    requires
        files_ascending(files),
    ensures
        listed_paths(files, want).finite(),
        listed_paths(files, want).len() == count_wanted(files, want),
        want matches Some(status) ==> count_wanted(files, want) == seq_count(files, status),
        want is None ==> count_wanted(files, want) == files.len(),
    decreases files.len(),
{
    broadcast use vstd::set::group_set_axioms;

    if files.len() == 0 {
        assert(listed_paths(files, want) =~= Set::<Seq<char>>::empty());
    } else {
        let rest = files.drop_last();
        let last = files.last();
        assert forall|a: int, b: int| 0 <= a < b < rest.len() implies chars_lt(
            (#[trigger] rest[a]).path@,
            (#[trigger] rest[b]).path@,
        ) by {
            assert(rest[a] == files[a] && rest[b] == files[b]);
        }
        lemma_listed_paths_count(rest, want);
        let grown = if wanted(last.status, want) {
            listed_paths(rest, want).insert(last.path@)
        } else {
            listed_paths(rest, want)
        };
        assert forall|p: Seq<char>| listed_paths(files, want).contains(p) == grown.contains(p) by {
            if listed_paths(files, want).contains(p) {
                let k = choose|k: int|
                    0 <= k < files.len() && (#[trigger] files[k]).path@ == p && wanted(
                        files[k].status,
                        want,
                    );
                if k < rest.len() {
                    assert(rest[k] == files[k]);
                }
            }
            if listed_paths(rest, want).contains(p) {
                let k = choose|k: int|
                    0 <= k < rest.len() && (#[trigger] rest[k]).path@ == p && wanted(
                        rest[k].status,
                        want,
                    );
                assert(files[k] == rest[k]);
            }
            if wanted(last.status, want) && p == last.path@ {
                assert(files[files.len() - 1].path@ == p);
            }
        }
        assert(listed_paths(files, want) =~= grown);
        if listed_paths(rest, want).contains(last.path@) {
            let k = choose|k: int|
                0 <= k < rest.len() && (#[trigger] rest[k]).path@ == last.path@ && wanted(
                    rest[k].status,
                    want,
                );
            assert(rest[k] == files[k]);
            lemma_lt_asymmetric(files[k].path@, files[files.len() - 1].path@);
        }
    }
}

/// The classified files of two maps are as many as the paths of the maps,
/// in all and of each status.
proof fn lemma_counts_are_paths(
    files: Seq<Classified>,
    left: Map<Seq<char>, FileInfo>,
    right: Map<Seq<char>, FileInfo>,
    status: FileStatus,
)
    requires
        files_ascending(files),
        forall|k: int| 0 <= k < files.len() ==> classified_ok(#[trigger] files[k], left, right),
        forall|p: Seq<char>| left.dom().contains(p) || right.dom().contains(p) ==> lists_path(files, p),
    ensures
        left.dom().union(right.dom()).finite(),
        left.dom().union(right.dom()).len() == files.len(),
        paths_with(left, right, status).finite(),
        paths_with(left, right, status).len() == seq_count(files, status),
{
    lemma_listed_paths_count(files, None);
    lemma_listed_paths_count(files, Some(status));
    assert forall|p: Seq<char>| left.dom().union(right.dom()).contains(p) == listed_paths(
        files,
        None,
    ).contains(p) by {
        if left.dom().contains(p) || right.dom().contains(p) {
            assert(lists_path(files, p));
        }
        if listed_paths(files, None).contains(p) {
            let k = choose|k: int|
                0 <= k < files.len() && (#[trigger] files[k]).path@ == p && wanted(
                    files[k].status,
                    None,
                );
            assert(classified_ok(files[k], left, right));
        }
    }
    assert(left.dom().union(right.dom()) =~= listed_paths(files, None));
    assert forall|p: Seq<char>| paths_with(left, right, status).contains(p) == listed_paths(
        files,
        Some(status),
    ).contains(p) by {
        if paths_with(left, right, status).contains(p) {
            assert(lists_path(files, p));
            let k = choose|k: int| 0 <= k < files.len() && (#[trigger] files[k]).path@ == p;
            assert(classified_ok(files[k], left, right));
        }
        if listed_paths(files, Some(status)).contains(p) {
            let k = choose|k: int|
                0 <= k < files.len() && (#[trigger] files[k]).path@ == p && wanted(
                    files[k].status,
                    Some(status),
                );
            assert(classified_ok(files[k], left, right));
        }
    }
    assert(paths_with(left, right, status) =~= listed_paths(files, Some(status)));
}

/// Classifies every file of the union of two maps, in ascending order of
/// the paths, and counts the files of each status.
pub fn classify(left: &FileMap, right: &FileMap) -> (r: (Vec<Classified>, CompareStats))
    ensures
        files_ascending(r.0@),
        forall|k: int| 0 <= k < r.0.len() ==> classified_ok(#[trigger] r.0[k], left@, right@),
        forall|p: Seq<char>|
            left@.dom().contains(p) || right@.dom().contains(p) ==> lists_path(r.0@, p),
        r.1.identical == seq_count(r.0@, FileStatus::Identical),
        r.1.modified == seq_count(r.0@, FileStatus::Modified),
        r.1.left_only == seq_count(r.0@, FileStatus::LeftOnly),
        r.1.right_only == seq_count(r.0@, FileStatus::RightOnly),
        r.1.total_files == r.0.len(),
        r.1.total_files == r.1.identical + r.1.modified + r.1.left_only + r.1.right_only,
        stats_count_paths(r.1, left@, right@),
{
    proof {
        use_type_invariant(left);
        use_type_invariant(right);
        left.lemma_records();
        right.lemma_records();
    }
    let lrec = &left.records;
    let rrec = &right.records;
    let ln = lrec.len();
    let rn = rrec.len();
    let mut out: Vec<Classified> = Vec::new();
    let mut identical: usize = 0;
    let mut modified: usize = 0;
    let mut left_only: usize = 0;
    let mut right_only: usize = 0;
    let mut total_files: usize = 0;
    let mut i: usize = 0;
    let mut j: usize = 0;
    while i < ln || j < rn
        invariant
            i <= ln == lrec.len(),
            j <= rn == rrec.len(),
            strictly_ascending(lrec@),
            strictly_ascending(rrec@),
            left@ == records_map(lrec@),
            right@ == records_map(rrec@),
            files_ascending(out@),
            forall|k: int, a: int|
                0 <= k < out.len() && i <= a < ln ==> chars_lt(
                    (#[trigger] out[k]).path@,
                    (#[trigger] lrec[a]).path@,
                ),
            forall|k: int, b: int|
                0 <= k < out.len() && j <= b < rn ==> chars_lt(
                    (#[trigger] out[k]).path@,
                    (#[trigger] rrec[b]).path@,
                ),
            forall|a: int| 0 <= a < i ==> lists_path(out@, (#[trigger] lrec[a]).path@),
            forall|b: int| 0 <= b < j ==> lists_path(out@, (#[trigger] rrec[b]).path@),
            forall|k: int| 0 <= k < out.len() ==> classified_ok(#[trigger] out[k], left@, right@),
            identical == seq_count(out@, FileStatus::Identical),
            modified == seq_count(out@, FileStatus::Modified),
            left_only == seq_count(out@, FileStatus::LeftOnly),
            right_only == seq_count(out@, FileStatus::RightOnly),
            total_files == out.len(),
            total_files == identical + modified + left_only + right_only,
        decreases (ln - i) + (rn - j),
    {
        let rank = if j >= rn {
            Rank::Before
        } else if i >= ln {
            Rank::After
        } else {
            order_of(&lrec[i].path, &rrec[j].path)
        };
        let ghost before = out@;
        let ghost i0 = i as int;
        let ghost j0 = j as int;
        let file = match rank {
            Rank::Before => {
                let record = &lrec[i];
                proof {
                    let p = record.path@;
                    lemma_record_in_map(lrec@, i0);
                    assert forall|b: int| 0 <= b < rn implies (#[trigger] rrec[b]).path@ != p by {
                        if b < j {
                            let k = choose|k: int|
                                0 <= k < before.len() && (#[trigger] before[k]).path@
                                    == rrec[b].path@;
                            lemma_lt_asymmetric(before[k].path@, lrec[i0].path@);
                        } else {
                            if b > j {
                                lemma_lt_transitive(p, rrec[j0].path@, rrec[b].path@);
                            }
                            lemma_lt_asymmetric(p, rrec[b].path@);
                        }
                    }
                }
                i += 1;
                Classified {
                    path: copy_chars(&record.path),
                    status: FileStatus::LeftOnly,
                    left_size: Some(record.info.size),
                    right_size: None,
                }
            },
            Rank::After => {
                let record = &rrec[j];
                proof {
                    let p = record.path@;
                    lemma_record_in_map(rrec@, j0);
                    assert forall|a: int| 0 <= a < ln implies (#[trigger] lrec[a]).path@ != p by {
                        if a < i {
                            let k = choose|k: int|
                                0 <= k < before.len() && (#[trigger] before[k]).path@
                                    == lrec[a].path@;
                            lemma_lt_asymmetric(before[k].path@, rrec[j0].path@);
                        } else {
                            if a > i {
                                lemma_lt_transitive(p, lrec[i0].path@, lrec[a].path@);
                            }
                            lemma_lt_asymmetric(p, lrec[a].path@);
                        }
                    }
                }
                j += 1;
                Classified {
                    path: copy_chars(&record.path),
                    status: FileStatus::RightOnly,
                    left_size: None,
                    right_size: Some(record.info.size),
                }
            },
            Rank::Same => {
                let l = &lrec[i];
                let r = &rrec[j];
                i += 1;
                j += 1;
                let same = match (l.info.digest, r.info.digest) {
                    (Some(a), Some(b)) => a == b,
                    (None, None) => true,
                    _ => false,
                };
                let status = if same {
                    FileStatus::Identical
                } else {
                    FileStatus::Modified
                };
                Classified {
                    path: copy_chars(&l.path),
                    status,
                    left_size: Some(l.info.size),
                    right_size: Some(r.info.size),
                }
            },
        };
        let status = file.status;
        out.push(file);
        total_files = out.len();
        proof {
            assert(out@.drop_last() =~= before);
            assert(out@.last() == file);
        }
        match status {
            FileStatus::Identical => {
                identical += 1;
            },
            FileStatus::Modified => {
                modified += 1;
            },
            FileStatus::LeftOnly => {
                left_only += 1;
            },
            FileStatus::RightOnly => {
                right_only += 1;
            },
        }
        proof {
            let after = out@;
            let p = file.path@;
            assert forall|k: int, a: int| 0 <= k < after.len() && i <= a < ln implies chars_lt(
                (#[trigger] after[k]).path@,
                (#[trigger] lrec[a]).path@,
            ) by {
                if k < before.len() {
                    assert(after[k] == before[k]);
                } else if rank == Rank::After {
                    if a > i0 {
                        lemma_lt_transitive(p, lrec[i0].path@, lrec[a].path@);
                    }
                }
            }
            assert forall|k: int, b: int| 0 <= k < after.len() && j <= b < rn implies chars_lt(
                (#[trigger] after[k]).path@,
                (#[trigger] rrec[b]).path@,
            ) by {
                if k < before.len() {
                    assert(after[k] == before[k]);
                } else if rank == Rank::Before {
                    if b > j0 {
                        lemma_lt_transitive(p, rrec[j0].path@, rrec[b].path@);
                    }
                }
            }
        }
    }
    proof {
        lemma_counts_are_paths(out@, left@, right@, FileStatus::Identical);
        lemma_counts_are_paths(out@, left@, right@, FileStatus::Modified);
        lemma_counts_are_paths(out@, left@, right@, FileStatus::LeftOnly);
        lemma_counts_are_paths(out@, left@, right@, FileStatus::RightOnly);
    }
    (out, CompareStats { identical, modified, left_only, right_only, total_files })
}

/// `path` lies below the directory `dir`.
pub open spec fn dir_holds(dir: Seq<char>, path: Seq<char>) -> bool {
    &&& dir.len() < path.len()
    &&& path[dir.len() as int] == '/'
    &&& forall|t: int| 0 <= t < dir.len() ==> path[t] == dir[t]
}

/// What a node adds to the count of the files of one status.
pub open spec fn node_weight(status: FileStatus) -> spec_fn(CompareEntry) -> nat {
    |e: CompareEntry|
        if e.is_dir {
            status_count(e.children@, status)
        } else if e.status == status {
            1nat
        } else {
            0nat
        }
}

/// The count of a status is the sum of what the nodes add to it.
proof fn lemma_status_count_is_total(entries: Seq<CompareEntry>, status: FileStatus)
    ensures
        status_count(entries, status) == total(entries, node_weight(status)),
    decreases entries.len(),
{
    if entries.len() > 0 {
        lemma_status_count_is_total(entries.drop_last(), status);
    }
}

/// The count of a status does not depend on the order of a level.
proof fn lemma_status_count_permuted(
    a: Seq<CompareEntry>,
    b: Seq<CompareEntry>,
    status: FileStatus,
)
    requires
        a.to_multiset() == b.to_multiset(),
    ensures
        status_count(a, status) == status_count(b, status),
{
    lemma_status_count_is_total(a, status);
    lemma_status_count_is_total(b, status);
    lemma_total_permuted(a, b, node_weight(status));
}

/// The count of a status in two lists in a row is the sum of the counts.
proof fn lemma_seq_count_concat(a: Seq<Classified>, b: Seq<Classified>, status: FileStatus)
    ensures
        seq_count(a + b, status) == seq_count(a, status) + seq_count(b, status),
    decreases b.len(),
{
    if b.len() > 0 {
        assert((a + b).drop_last() =~= a + b.drop_last());
        lemma_seq_count_concat(a, b.drop_last(), status);
    }
}

/// A node at `at` that holds the file, or holds it itself, puts it in the
/// tree.
proof fn lemma_has_file_at(entries: Seq<CompareEntry>, at: int, path: Seq<char>)
    requires
        0 <= at < entries.len(),
        if entries[at].is_dir {
            tree_has_file(entries[at].children@, path)
        } else {
            entries[at].rel_path@ == path
        },
    ensures
        tree_has_file(entries, path),
{
}

/// A file of a level is a file of the same level in another order.
proof fn lemma_has_file_permuted(a: Seq<CompareEntry>, b: Seq<CompareEntry>, path: Seq<char>)
    requires
        forall|x: int| 0 <= x < a.len() ==> b.contains(#[trigger] a[x]),
        tree_has_file(a, path),
    ensures
        tree_has_file(b, path),
{
}

/// The requirements of one level: the files from `lo` to `hi` ascend, are
/// classified, and begin alike up to `depth`, where a component begins.
pub open spec fn level_input(
    files: Seq<Classified>,
    lo: int,
    hi: int,
    depth: int,
    left: Map<Seq<char>, FileInfo>,
    right: Map<Seq<char>, FileInfo>,
) -> bool {
    &&& 0 <= lo < hi <= files.len()
    &&& files_ascending(files)
    &&& forall|k: int| lo <= k < hi ==> classified_ok(#[trigger] files[k], left, right)
    &&& 0 <= depth
    &&& forall|k: int| lo <= k < hi ==> agree((#[trigger] files[k]).path@, files[lo].path@, depth)
    &&& depth > 0 ==> files[lo].path@[depth - 1] == '/'
}

/// The counts of the four statuses in a level are those of the files.
pub open spec fn counts_agree(entries: Seq<CompareEntry>, files: Seq<Classified>) -> bool {
    &&& status_count(entries, FileStatus::Identical) == seq_count(files, FileStatus::Identical)
    &&& status_count(entries, FileStatus::Modified) == seq_count(files, FileStatus::Modified)
    &&& status_count(entries, FileStatus::LeftOnly) == seq_count(files, FileStatus::LeftOnly)
    &&& status_count(entries, FileStatus::RightOnly) == seq_count(files, FileStatus::RightOnly)
}

/// The counts still agree when a file and its node are added.
proof fn lemma_counts_after_file(
    level: Seq<CompareEntry>,
    e: CompareEntry,
    files: Seq<Classified>,
    lo: int,
    i: int,
)
    requires
        0 <= lo <= i < files.len(),
        counts_agree(level, files.subrange(lo, i)),
        !e.is_dir,
        e.status == files[i].status,
    ensures
        counts_agree(level.push(e), files.subrange(lo, i + 1)),
{
    assert(level.push(e).drop_last() =~= level);
    assert(files.subrange(lo, i + 1).drop_last() =~= files.subrange(lo, i));
}

/// The counts still agree when a run of files and the directory of their
/// nodes are added.
proof fn lemma_counts_after_dir(
    level: Seq<CompareEntry>,
    e: CompareEntry,
    files: Seq<Classified>,
    lo: int,
    i: int,
    j: int,
)
    requires
        0 <= lo <= i <= j <= files.len(),
        counts_agree(level, files.subrange(lo, i)),
        e.is_dir,
        counts_agree(e.children@, files.subrange(i, j)),
    ensures
        counts_agree(level.push(e), files.subrange(lo, j)),
{
    assert(level.push(e).drop_last() =~= level);
    assert(files.subrange(lo, j) =~= files.subrange(lo, i) + files.subrange(i, j));
    lemma_seq_count_concat(files.subrange(lo, i), files.subrange(i, j), FileStatus::Identical);
    lemma_seq_count_concat(files.subrange(lo, i), files.subrange(i, j), FileStatus::Modified);
    lemma_seq_count_concat(files.subrange(lo, i), files.subrange(i, j), FileStatus::LeftOnly);
    lemma_seq_count_concat(files.subrange(lo, i), files.subrange(i, j), FileStatus::RightOnly);
}

/// What holds of a level while it is built from the files `lo` to `i`.
pub open spec fn level_built(
    level: Seq<CompareEntry>,
    files: Seq<Classified>,
    lo: int,
    i: int,
    hi: int,
    depth: int,
    left: Map<Seq<char>, FileInfo>,
    right: Map<Seq<char>, FileInfo>,
) -> bool {
    let base = files[lo].path@.take(depth);
    &&& forall|x: int| 0 <= x < level.len() ==> node_ok(#[trigger] level[x], base, left, right)
    &&& forall|k: int| lo <= k < i ==> tree_has_file(level, (#[trigger] files[k]).path@)
    &&& counts_agree(level, files.subrange(lo, i))
    &&& forall|x: int|
        0 <= x < level.len() && !(#[trigger] level[x]).is_dir ==> exists|k: int|
            lo <= k < i && (#[trigger] files[k]).path@ == level[x].rel_path@
    &&& forall|x: int, k: int|
        0 <= x < level.len() && (#[trigger] level[x]).is_dir && i <= k < hi ==> !dir_holds(
            level[x].rel_path@,
            (#[trigger] files[k]).path@,
        )
    &&& distinct_keys(level, node_key_fn())
}

/// Two nodes of a level that share a key share their path.
proof fn lemma_same_key_same_path(a: CompareEntry, b: CompareEntry, base: Seq<char>)
    requires
        a.rel_path@ == base + a.name@,
        b.rel_path@ == base + b.name@,
        node_key(a) == node_key(b),
    ensures
        a.rel_path@ == b.rel_path@,
        a.is_dir == b.is_dir,
{
}

/// The level stays well built when the file at `i` is added to it.
proof fn lemma_add_file(
    level: Seq<CompareEntry>,
    e: CompareEntry,
    files: Seq<Classified>,
    lo: int,
    i: int,
    hi: int,
    depth: int,
    left: Map<Seq<char>, FileInfo>,
    right: Map<Seq<char>, FileInfo>,
)
    requires
        level_input(files, lo, hi, depth, left, right),
        lo <= i < hi,
        level_built(level, files, lo, i, hi, depth, left, right),
        forall|t: int| depth <= t < files[i].path@.len() ==> files[i].path@[t] != '/',
        !e.is_dir,
        e.children@.len() == 0,
        e.rel_path@ == files[i].path@,
        e.name@ == files[i].path@.subrange(depth, files[i].path@.len() as int),
        e.status == files[i].status,
        e.left_size == files[i].left_size,
        e.right_size == files[i].right_size,
    ensures
        level_built(level.push(e), files, lo, i + 1, hi, depth, left, right),
{
    let path = files[i].path@;
    let base_path = files[lo].path@;
    let base = base_path.take(depth);
    let grown = level.push(e);
    assert(path =~= base + e.name@);
    assert(node_ok(e, base, left, right));
    assert forall|x: int| 0 <= x < grown.len() implies node_ok(
        #[trigger] grown[x],
        base,
        left,
        right,
    ) by {
        if x < level.len() {
            assert(grown[x] == level[x]);
        }
    }
    assert forall|k: int| lo <= k < i + 1 implies tree_has_file(
        grown,
        (#[trigger] files[k]).path@,
    ) by {
        if k < i {
            assert forall|x: int| 0 <= x < level.len() implies grown.contains(
                #[trigger] level[x],
            ) by {
                assert(grown[x] == level[x]);
            }
            lemma_has_file_permuted(level, grown, files[k].path@);
        } else {
            lemma_has_file_at(grown, level.len() as int, path);
        }
    }
    lemma_counts_after_file(level, e, files, lo, i);
    assert forall|a: int, b: int| 0 <= a < b < grown.len() implies node_key_fn()(
        #[trigger] grown[a],
    ) != node_key_fn()(#[trigger] grown[b]) by {
        assert(grown[a] == level[a]);
        if b < level.len() {
            assert(grown[b] == level[b]);
        } else if node_key(level[a]) == node_key(e) {
            lemma_same_key_same_path(level[a], e, base);
            let k = choose|k: int| lo <= k < i && (#[trigger] files[k]).path@ == level[a].rel_path@;
            lemma_lt_asymmetric(files[k].path@, files[i].path@);
        }
    }
}

/// The level stays well built when the directory of the files `i` to `j`
/// is added to it.
proof fn lemma_add_dir(
    level: Seq<CompareEntry>,
    e: CompareEntry,
    files: Seq<Classified>,
    lo: int,
    i: int,
    j: int,
    hi: int,
    depth: int,
    s: int,
    left: Map<Seq<char>, FileInfo>,
    right: Map<Seq<char>, FileInfo>,
)
    requires
        level_input(files, lo, hi, depth, left, right),
        lo <= i < j <= hi,
        level_built(level, files, lo, i, hi, depth, left, right),
        depth <= s < files[i].path@.len(),
        files[i].path@[s] == '/',
        forall|t: int| depth <= t < s ==> files[i].path@[t] != '/',
        forall|k: int| i <= k < j ==> agree((#[trigger] files[k]).path@, files[i].path@, s + 1),
        j < hi ==> !agree(files[j].path@, files[i].path@, s + 1),
        e.is_dir,
        e.rel_path@ == files[i].path@.take(s),
        e.name@ == files[i].path@.subrange(depth, s),
        e.left_size is None,
        e.right_size is None,
        e.children@.len() > 0,
        e.status == dir_status(e.children@),
        tree_ok(e.children@, files[i].path@.take(s + 1), left, right),
        forall|k: int| i <= k < j ==> tree_has_file(e.children@, (#[trigger] files[k]).path@),
        counts_agree(e.children@, files.subrange(i, j)),
    ensures
        level_built(level.push(e), files, lo, j, hi, depth, left, right),
{
    let path = files[i].path@;
    let base_path = files[lo].path@;
    let base = base_path.take(depth);
    let grown = level.push(e);
    assert(path.take(s) =~= base + e.name@);
    assert(e.rel_path@ + seq!['/'] =~= path.take(s + 1));
    assert(node_ok(e, base, left, right));
    assert forall|x: int| 0 <= x < grown.len() implies node_ok(
        #[trigger] grown[x],
        base,
        left,
        right,
    ) by {
        if x < level.len() {
            assert(grown[x] == level[x]);
        }
    }
    assert forall|k: int| lo <= k < j implies tree_has_file(grown, (#[trigger] files[k]).path@) by {
        if k < i {
            assert forall|x: int| 0 <= x < level.len() implies grown.contains(
                #[trigger] level[x],
            ) by {
                assert(grown[x] == level[x]);
            }
            lemma_has_file_permuted(level, grown, files[k].path@);
        } else {
            lemma_has_file_at(grown, level.len() as int, files[k].path@);
        }
    }
    lemma_counts_after_dir(level, e, files, lo, i, j);
    assert forall|x: int, k: int|
        0 <= x < grown.len() && (#[trigger] grown[x]).is_dir && j <= k < hi implies !dir_holds(
        grown[x].rel_path@,
        (#[trigger] files[k]).path@,
    ) by {
        if x < level.len() {
            assert(grown[x] == level[x]);
        } else {
            if k > j {
                lemma_agree_block(path, files[j].path@, files[k].path@, s + 1);
            }
        }
    }
}

/// A well-built level, once sorted, is a well-formed level of the tree.
proof fn lemma_level_sorted(
    level: Seq<CompareEntry>,
    sorted: Seq<CompareEntry>,
    files: Seq<Classified>,
    lo: int,
    hi: int,
    depth: int,
    left: Map<Seq<char>, FileInfo>,
    right: Map<Seq<char>, FileInfo>,
)
    requires
        level_input(files, lo, hi, depth, left, right),
        level_built(level, files, lo, hi, hi, depth, left, right),
        sorted.to_multiset() == level.to_multiset(),
        sorted_by(sorted, node_key_fn()),
    ensures
        tree_ok(sorted, files[lo].path@.take(depth), left, right),
        forall|k: int| lo <= k < hi ==> tree_has_file(sorted, (#[trigger] files[k]).path@),
        counts_agree(sorted, files.subrange(lo, hi)),
        sorted.len() == level.len(),
{
    lemma_permuted_items(level, sorted);
    lemma_distinct_keys_permuted(level, sorted, node_key_fn());
    lemma_status_count_permuted(level, sorted, FileStatus::Identical);
    lemma_status_count_permuted(level, sorted, FileStatus::Modified);
    lemma_status_count_permuted(level, sorted, FileStatus::LeftOnly);
    lemma_status_count_permuted(level, sorted, FileStatus::RightOnly);
}

/// Builds the level of the tree that holds the files `lo` to `hi`, whose
/// paths begin alike up to `depth`: a node for each file that has no
/// further `/`, a directory node for each run of files that share their next
/// component, with the level below it, and the whole sorted.
pub(crate) fn build_level(
    files: &Vec<Classified>,
    lo: usize,
    hi: usize,
    depth: usize,
    Ghost(left): Ghost<Map<Seq<char>, FileInfo>>,
    Ghost(right): Ghost<Map<Seq<char>, FileInfo>>,
) -> (level: Vec<CompareEntry>)
    requires
        level_input(files@, lo as int, hi as int, depth as int, left, right),
    ensures
        tree_ok(level@, files[lo as int].path@.take(depth as int), left, right),
        forall|k: int| lo <= k < hi ==> tree_has_file(level@, (#[trigger] files[k]).path@),
        counts_agree(level@, files@.subrange(lo as int, hi as int)),
        level.len() > 0,
    decreases hi - lo, files[lo as int].path.len() - depth,
{
    let mut level: Vec<CompareEntry> = Vec::new();
    let mut keys: Vec<SortKey> = Vec::new();
    let mut i: usize = lo;
    while i < hi
        invariant
            lo <= i <= hi,
            level_input(files@, lo as int, hi as int, depth as int, left, right),
            level_built(level@, files@, lo as int, i as int, hi as int, depth as int, left, right),
            keys.len() == level.len(),
            forall|x: int| 0 <= x < level.len() ==> (#[trigger] keys[x])@ == node_key(level[x]),
            i > lo ==> level.len() > 0,
        decreases hi - i,
    {
        let file = &files[i];
        let path = &file.path;
        let mut s: usize = depth;
        while s < path.len() && path[s] != '/'
            invariant
                depth <= s <= path.len(),
                forall|t: int| depth <= t < s ==> path@[t] != '/',
            decreases path.len() - s,
        {
            s += 1;
        }
        let name = string_of(path, depth, s);
        let rel_path = string_of(path, 0, s);
        let ghost before = level@;
        if s == path.len() {
            let key = make_key(false, name.as_str());
            let entry = CompareEntry {
                name,
                rel_path,
                is_dir: false,
                status: file.status,
                left_size: file.left_size,
                right_size: file.right_size,
                children: Vec::new(),
            };
            proof {
                assert(path@.subrange(0, s as int) =~= path@);
                lemma_add_file(
                    before,
                    entry,
                    files@,
                    lo as int,
                    i as int,
                    hi as int,
                    depth as int,
                    left,
                    right,
                );
            }
            level.push(entry);
            keys.push(key);
            i += 1;
        } else {
            let mut j: usize = i + 1;
            while j < hi && agrees(&files[j].path, path, s + 1)
                invariant
                    i < j <= hi <= files.len(),
                    s < path.len(),
                    path@ == files[i as int].path@,
                    forall|k: int|
                        i <= k < j ==> agree((#[trigger] files[k]).path@, path@, s + 1),
                decreases hi - j,
            {
                j += 1;
            }
            let children = build_level(files, i, j, s + 1, Ghost(left), Ghost(right));
            let status = compute_dir_status(children.as_slice());
            let key = make_key(true, name.as_str());
            let entry = CompareEntry {
                name,
                rel_path,
                is_dir: true,
                status,
                left_size: None,
                right_size: None,
                children,
            };
            proof {
                lemma_add_dir(
                    before,
                    entry,
                    files@,
                    lo as int,
                    i as int,
                    j as int,
                    hi as int,
                    depth as int,
                    s as int,
                    left,
                    right,
                );
            }
            level.push(entry);
            keys.push(key);
            i = j;
        }
    }
    let ghost built = level@;
    let sorted = sort_by_key(level, keys, Ghost(node_key_fn()));
    proof {
        lemma_level_sorted(built, sorted@, files@, lo as int, hi as int, depth as int, left, right);
    }
    sorted
}

} // verus!
