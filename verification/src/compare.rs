//! Directory comparison: every file of two trees classified, and the
//! classified files folded into one tree.

use crate::error::TreeError;
use crate::filemap::{FileInfo, FileMap};
use crate::paths::{
    file_name, has_hidden_segment, is_hidden_path, lemma_last_slash_is, parent_path,
};
use crate::sorting::{distinct_keys, entry_key, sorted_by, KeyView};
use crate::tree_build::{build_level, classify};
use vstd::prelude::*;

verus! {

/// How an entry of one tree stands to the other tree.
#[derive(Clone, Copy, Debug, PartialEq, Eq, Structural)]
pub enum FileStatus {
    Identical,
    Modified,
    LeftOnly,
    RightOnly,
}

/// A node of a comparison tree.
#[derive(Debug)]
pub struct CompareEntry {
    pub name: String,
    /// Path from the compared roots, components separated by `/`.
    pub rel_path: String,
    pub is_dir: bool,
    pub status: FileStatus,
    /// Size on the left, for a file that stands there.
    pub left_size: Option<u64>,
    /// Size on the right, for a file that stands there.
    pub right_size: Option<u64>,
    pub children: Vec<CompareEntry>,
}

/// How many files a comparison found of each status.
#[derive(Clone, Copy, Debug, PartialEq, Eq, Structural)]
pub struct CompareStats {
    pub identical: usize,
    pub modified: usize,
    pub left_only: usize,
    pub right_only: usize,
    pub total_files: usize,
}

/// The outcome of a comparison of two directories.
#[derive(Debug)]
pub struct DirectoryCompareResult {
    pub left_path: String,
    pub right_path: String,
    pub entries: Vec<CompareEntry>,
    pub stats: CompareStats,
}

/// Some child has the status `status`.
pub open spec fn has_status(children: Seq<CompareEntry>, status: FileStatus) -> bool {
    exists|i: int| 0 <= i < children.len() && (#[trigger] children[i]).status == status
}

/// The status of a directory, from those of its children: modified where a
/// child is modified or where some children stand on the left only and
/// others on the right only; one-sided where children are one-sided on one
/// side only; identical otherwise.
pub open spec fn dir_status(children: Seq<CompareEntry>) -> FileStatus {
    let left = has_status(children, FileStatus::LeftOnly);
    let right = has_status(children, FileStatus::RightOnly);
    if has_status(children, FileStatus::Modified) {
        FileStatus::Modified
    } else if left && !right {
        FileStatus::LeftOnly
    } else if right && !left {
        FileStatus::RightOnly
    } else if left || right {
        FileStatus::Modified
    } else {
        FileStatus::Identical
    }
}

/// Derives the status of a directory from its children.
pub fn compute_dir_status(children: &[CompareEntry]) -> (status: FileStatus)
    ensures
        status == dir_status(children@),
{
    let mut has_modified = false;
    let mut has_left_only = false;
    let mut has_right_only = false;
    let mut i: usize = 0;
    while i < children.len()
        invariant
            i <= children.len(),
            has_modified == has_status(children@.take(i as int), FileStatus::Modified),
            has_left_only == has_status(children@.take(i as int), FileStatus::LeftOnly),
            has_right_only == has_status(children@.take(i as int), FileStatus::RightOnly),
        decreases children.len() - i,
    {
        let ghost before = children@.take(i as int);
        let ghost after = children@.take(i + 1);
        proof {
            assert forall|s: FileStatus|
                has_status(after, s) == (has_status(before, s) || children@[i as int].status
                    == s) by {
                if children@[i as int].status == s {
                    assert(after[i as int].status == s);
                }
            }
        }
        match children[i].status {
            FileStatus::Modified => {
                has_modified = true;
            },
            FileStatus::LeftOnly => {
                has_left_only = true;
            },
            FileStatus::RightOnly => {
                has_right_only = true;
            },
            FileStatus::Identical => {},
        }
        i += 1;
    }
    assert(children@.take(children.len() as int) == children@);
    if has_modified {
        FileStatus::Modified
    } else if has_left_only && !has_right_only {
        FileStatus::LeftOnly
    } else if has_right_only && !has_left_only {
        FileStatus::RightOnly
    } else if has_left_only || has_right_only {
        FileStatus::Modified
    } else {
        FileStatus::Identical
    }
}

/// What a map holds for a path.
pub open spec fn lookup(map: Map<Seq<char>, FileInfo>, path: Seq<char>) -> Option<FileInfo> {
    if map.dom().contains(path) {
        Some(map[path])
    } else {
        None
    }
}

/// The size that a map holds for a path.
pub open spec fn size_in(map: Map<Seq<char>, FileInfo>, path: Seq<char>) -> Option<u64> {
    if map.dom().contains(path) {
        Some(map[path].size)
    } else {
        None
    }
}

/// The status of a file from what the two sides hold for its path: one-sided
/// where one side lacks it, identical where the digests agree, modified
/// where they differ.
pub open spec fn status_of(left: Option<FileInfo>, right: Option<FileInfo>) -> FileStatus {
    match (left, right) {
        (Some(l), Some(r)) => if l.digest == r.digest {
            FileStatus::Identical
        } else {
            FileStatus::Modified
        },
        (Some(_), None) => FileStatus::LeftOnly,
        (None, _) => FileStatus::RightOnly,
    }
}

/// The paths of either map to which the two maps give the status
/// `status`.
pub open spec fn paths_with(
    left: Map<Seq<char>, FileInfo>,
    right: Map<Seq<char>, FileInfo>,
    status: FileStatus,
) -> Set<Seq<char>> {
    Set::new(
        |p: Seq<char>|
            (left.dom().contains(p) || right.dom().contains(p)) && status_of(
                lookup(left, p),
                lookup(right, p),
            ) == status,
    )
}

/// The counts are those of the paths of the two maps: the total is the
/// number of paths that either map holds, and each status counts the paths
/// to which the maps give it.
pub open spec fn stats_count_paths(
    stats: CompareStats,
    left: Map<Seq<char>, FileInfo>,
    right: Map<Seq<char>, FileInfo>,
) -> bool {
    &&& left.dom().union(right.dom()).finite()
    &&& stats.total_files == left.dom().union(right.dom()).len()
    &&& stats.identical == paths_with(left, right, FileStatus::Identical).len()
    &&& stats.modified == paths_with(left, right, FileStatus::Modified).len()
    &&& stats.left_only == paths_with(left, right, FileStatus::LeftOnly).len()
    &&& stats.right_only == paths_with(left, right, FileStatus::RightOnly).len()
}

/// The key by which a node is listed among its siblings.
pub open spec fn node_key(e: CompareEntry) -> KeyView {
    entry_key(e.is_dir, e.name@)
}

/// [`node_key`] as a function value.
pub open spec fn node_key_fn() -> spec_fn(CompareEntry) -> KeyView {
    |e: CompareEntry| node_key(e)
}

/// `e` is the node of a file that one of the maps holds, with the status
/// and the sizes that the maps give it.
pub open spec fn file_node_ok(
    e: CompareEntry,
    left: Map<Seq<char>, FileInfo>,
    right: Map<Seq<char>, FileInfo>,
) -> bool {
    let p = e.rel_path@;
    &&& !e.is_dir
    &&& e.children@.len() == 0
    &&& left.dom().contains(p) || right.dom().contains(p)
    &&& e.status == status_of(lookup(left, p), lookup(right, p))
    &&& e.left_size == size_in(left, p)
    &&& e.right_size == size_in(right, p)
}

/// No character of `name` is a `/`.
pub open spec fn no_slash(name: Seq<char>) -> bool {
    forall|i: int| 0 <= i < name.len() ==> name[i] != '/'
}

/// `e` is a well-formed node of the level whose paths begin with `base`,
/// the path of the directory that holds the level with its `/`, or nothing
/// at the root. The path of the node is `base` and its name, and the name
/// holds no `/`. A file is one of the maps' files; a directory has no
/// sizes, at least one child, the status that its children give it, and
/// below it a well-formed level whose paths begin with the path of the
/// directory and a `/`.
pub open spec fn node_ok(
    e: CompareEntry,
    base: Seq<char>,
    left: Map<Seq<char>, FileInfo>,
    right: Map<Seq<char>, FileInfo>,
) -> bool
    decreases e,
{
    &&& e.rel_path@ == base + e.name@
    &&& no_slash(e.name@)
    &&& if e.is_dir {
        &&& e.left_size is None
        &&& e.right_size is None
        &&& e.children@.len() > 0
        &&& e.status == dir_status(e.children@)
        &&& tree_ok(e.children@, e.rel_path@ + seq!['/'], left, right)
    } else {
        file_node_ok(e, left, right)
    }
}

/// `entries` is a level of a well-formed comparison tree whose paths begin
/// with `base`: each node is well formed, the level is sorted, and no two
/// nodes share a key.
pub open spec fn tree_ok(
    entries: Seq<CompareEntry>,
    base: Seq<char>,
    left: Map<Seq<char>, FileInfo>,
    right: Map<Seq<char>, FileInfo>,
) -> bool
    decreases entries,
{
    &&& forall|i: int|
        0 <= i < entries.len() ==> node_ok(#[trigger] entries[i], base, left, right)
    &&& sorted_by(entries, node_key_fn())
    &&& distinct_keys(entries, node_key_fn())
}

/// A node of a level is named by the last component of its path, and what
/// stands before that component and its `/` is the path of its directory.
pub proof fn lemma_node_path_parts(
    e: CompareEntry,
    base: Seq<char>,
    left: Map<Seq<char>, FileInfo>,
    right: Map<Seq<char>, FileInfo>,
)
    requires
        node_ok(e, base, left, right),
        base.len() == 0 || base.last() == '/',
    ensures
        e.name@ == file_name(e.rel_path@),
        parent_path(e.rel_path@) == if base.len() == 0 {
            base
        } else {
            base.drop_last()
        },
{
    lemma_last_slash_is(e.rel_path@, base.len() - 1);
    assert(e.rel_path@.skip(base.len() as int) =~= e.name@);
    if base.len() > 0 {
        assert(e.rel_path@.take(base.len() - 1) =~= base.drop_last());
    }
}

/// The tree holds a file node for `path`.
pub open spec fn tree_has_file(entries: Seq<CompareEntry>, path: Seq<char>) -> bool
    decreases entries,
{
    exists|i: int|
        0 <= i < entries.len() && {
            let e = #[trigger] entries[i];
            if e.is_dir {
                tree_has_file(e.children@, path)
            } else {
                e.rel_path@ == path
            }
        }
}

/// Number of file nodes of the tree that have the status `status`.
pub open spec fn status_count(entries: Seq<CompareEntry>, status: FileStatus) -> nat
    decreases entries,
{
    if entries.len() == 0 {
        0
    } else {
        let e = entries.last();
        status_count(entries.drop_last(), status) + if e.is_dir {
            status_count(e.children@, status)
        } else if e.status == status {
            1nat
        } else {
            0nat
        }
    }
}

/// Number of file nodes of the tree.
pub open spec fn file_total(entries: Seq<CompareEntry>) -> nat {
    status_count(entries, FileStatus::Identical) + status_count(entries, FileStatus::Modified)
        + status_count(entries, FileStatus::LeftOnly) + status_count(
        entries,
        FileStatus::RightOnly,
    )
}

/// The path of every file node of a level, at any depth, begins with the
/// prefix of the level.
pub proof fn lemma_files_begin_with_base(
    entries: Seq<CompareEntry>,
    base: Seq<char>,
    left: Map<Seq<char>, FileInfo>,
    right: Map<Seq<char>, FileInfo>,
    path: Seq<char>,
)
    requires
        tree_ok(entries, base, left, right),
        tree_has_file(entries, path),
    ensures
        base.is_prefix_of(path),
    decreases entries,
{
    let i = choose|i: int|
        0 <= i < entries.len() && {
            let e = #[trigger] entries[i];
            if e.is_dir {
                tree_has_file(e.children@, path)
            } else {
                e.rel_path@ == path
            }
        };
    let e = entries[i];
    assert(node_ok(e, base, left, right));
    if e.is_dir {
        lemma_files_begin_with_base(e.children@, e.rel_path@ + seq!['/'], left, right, path);
        assert(base =~= path.subrange(0, base.len() as int));
    } else {
        assert(base =~= path.subrange(0, base.len() as int));
    }
}

/// Every node of a level holds a file node or is one, so that a level has
/// no more nodes than the tree below it has file nodes.
pub proof fn lemma_every_node_holds_a_file(
    entries: Seq<CompareEntry>,
    base: Seq<char>,
    left: Map<Seq<char>, FileInfo>,
    right: Map<Seq<char>, FileInfo>,
)
    requires
        forall|i: int| 0 <= i < entries.len() ==> node_ok(#[trigger] entries[i], base, left, right),
    ensures
        file_total(entries) >= entries.len(),
    decreases entries, entries.len(),
{
    if entries.len() > 0 {
        let rest = entries.drop_last();
        let e = entries.last();
        assert forall|i: int| 0 <= i < rest.len() implies node_ok(
            #[trigger] rest[i],
            base,
            left,
            right,
        ) by {
            assert(rest[i] == entries[i]);
        }
        lemma_every_node_holds_a_file(rest, base, left, right);
        assert(node_ok(e, base, left, right));
        if e.is_dir {
            lemma_every_node_holds_a_file(e.children@, e.rel_path@ + seq!['/'], left, right);
        }
    }
}

/// Classifies the files of two maps and folds them into a tree.
///
/// Every path of either map gets one file node, under the directories that
/// its path names; a directory node exists exactly where a file lies below
/// it, and the path of a node is the path of its directory, a `/`, and
/// its name. Each level is sorted: directories first, then by name without
/// regard to case. The counts are those of the paths of the two maps, in
/// all and of each status, and those of the file nodes of the tree.
pub fn build_compare_tree(left: &FileMap, right: &FileMap) -> (r: (Vec<CompareEntry>, CompareStats))
    ensures
        tree_ok(r.0@, Seq::empty(), left@, right@),
        forall|p: Seq<char>|
            left@.dom().contains(p) || right@.dom().contains(p) ==> tree_has_file(r.0@, p),
        r.1.identical == status_count(r.0@, FileStatus::Identical),
        r.1.modified == status_count(r.0@, FileStatus::Modified),
        r.1.left_only == status_count(r.0@, FileStatus::LeftOnly),
        r.1.right_only == status_count(r.0@, FileStatus::RightOnly),
        r.1.total_files == r.1.identical + r.1.modified + r.1.left_only + r.1.right_only,
        stats_count_paths(r.1, left@, right@),
{
    let (files, stats) = classify(left, right);
    if files.len() == 0 {
        let tree: Vec<CompareEntry> = Vec::new();
        return (tree, stats);
    }
    assert(files@.subrange(0, files.len() as int) =~= files@);
    let tree = build_level(&files, 0, files.len(), 0, Ghost(left@), Ghost(right@));
    (tree, stats)
}

/// The 64-bit XXH3 hash of a byte string, with the default secret and no
/// seed.
pub uninterp spec fn xxh3_64_of(bytes: Seq<u8>) -> u64;

/// Calls `xxhash_rust::xxh3::xxh3_64`.
///
/// Trusted: the hash depends on the bytes alone.
#[verifier::external_body]
fn xxh3_64(bytes: &[u8]) -> (hash: u64)
    ensures
        hash == xxh3_64_of(bytes@),
{
    xxhash_rust::xxh3::xxh3_64(bytes)
}

/// Number of leading bytes of a file that its digest covers.
pub const DIGEST_PREFIX: usize = 65536;

/// The part of a content that its digest covers: the first 64 KiB.
pub open spec fn digest_prefix(content: Seq<u8>) -> Seq<u8> {
    if content.len() <= DIGEST_PREFIX {
        content
    } else {
        content.take(DIGEST_PREFIX as int)
    }
}

/// The digest of a file's content: the XXH3 hash of its first 64 KiB. Two
/// contents that agree on that prefix have the same digest.
pub fn file_hash(content: &[u8]) -> (digest: u64)
    ensures
        digest == xxh3_64_of(digest_prefix(content@)),
{
    let len = if content.len() <= DIGEST_PREFIX {
        content.len()
    } else {
        DIGEST_PREFIX
    };
    let prefix = vstd::slice::slice_subrange(content, 0, len);
    assert(content@.subrange(0, len as int) =~= digest_prefix(content@));
    xxh3_64(prefix)
}

/// A file that a walk of a directory tree found.
#[derive(Clone, Debug)]
pub struct FoundFile {
    /// Path from the root of the walk, components separated by `/`.
    pub rel_path: String,
    /// Length of the file in bytes.
    pub size: u64,
    /// Digest of the content, where the file could be read.
    pub digest: Option<u64>,
}

/// The map of the files that a walk found: those without a hidden
/// component in their path. Of two files with one path the later counts.
pub open spec fn found_map(found: Seq<FoundFile>) -> Map<Seq<char>, FileInfo>
    decreases found.len(),
{
    if found.len() == 0 {
        Map::empty()
    } else {
        let rest = found_map(found.drop_last());
        let file = found.last();
        if has_hidden_segment(file.rel_path@) {
            rest
        } else {
            rest.insert(file.rel_path@, FileInfo { size: file.size, digest: file.digest })
        }
    }
}

/// Builds the map of the files of one root, leaving out every path with a
/// component that begins with a dot.
pub fn scan_dir_entries(found: &Vec<FoundFile>) -> (map: FileMap)
    ensures
        map@ == found_map(found@),
{
    let mut map = FileMap::new();
    let mut i: usize = 0;
    while i < found.len()
        invariant
            i <= found.len(),
            map@ == found_map(found@.take(i as int)),
        decreases found.len() - i,
    {
        let file = &found[i];
        assert(found@.take(i + 1).drop_last() =~= found@.take(i as int));
        if !is_hidden_path(file.rel_path.as_str()) {
            map.insert(file.rel_path.as_str(), file.size, file.digest);
        }
        i += 1;
    }
    assert(found@.take(found.len() as int) =~= found@);
    map
}

/// What was found at a root that is to be compared.
#[derive(Debug)]
pub enum RootScan {
    /// The root is no directory.
    NotADirectory,
    /// The walk failed; the message says how.
    Unreadable(String),
    /// The files below the root.
    Listed(Vec<FoundFile>),
}

/// `e` is the error that a comparison of these roots owes: a root that is
/// no directory is named, the left one first; else the message of the walk
/// that failed is handed on, that of the left one first.
pub open spec fn refused_as(
    left_path: Seq<char>,
    right_path: Seq<char>,
    left: RootScan,
    right: RootScan,
    e: TreeError,
) -> bool {
    if left is NotADirectory {
        e matches TreeError::NotADirectory(path) && path@ == left_path
    } else if right is NotADirectory {
        e matches TreeError::NotADirectory(path) && path@ == right_path
    } else if left is Unreadable {
        e matches TreeError::Io(message) && message@ == left->Unreadable_0@
    } else {
        right is Unreadable && (e matches TreeError::Io(message) && message@
            == right->Unreadable_0@)
    }
}

/// Compares two directories from what was found at their roots.
///
/// A root that is no directory is refused, the left one first; then a root
/// that could not be read. Otherwise the files of the two roots, hidden
/// ones left out, are classified and folded into a tree as
/// [`build_compare_tree`] does.
pub fn compare_directories(
    left_path: &str,
    right_path: &str,
    left: &RootScan,
    right: &RootScan,
) -> (r: Result<DirectoryCompareResult, TreeError>)
    ensures
        r is Ok <==> left is Listed && right is Listed,
        r matches Err(e) ==> refused_as(left_path@, right_path@, *left, *right, e),
        r matches Ok(found) ==> {
            let l = found_map(left->Listed_0@);
            let r = found_map(right->Listed_0@);
            &&& found.left_path@ == left_path@
            &&& found.right_path@ == right_path@
            &&& tree_ok(found.entries@, Seq::empty(), l, r)
            &&& forall|p: Seq<char>|
                l.dom().contains(p) || r.dom().contains(p) ==> tree_has_file(found.entries@, p)
            &&& found.stats.identical == status_count(found.entries@, FileStatus::Identical)
            &&& found.stats.modified == status_count(found.entries@, FileStatus::Modified)
            &&& found.stats.left_only == status_count(found.entries@, FileStatus::LeftOnly)
            &&& found.stats.right_only == status_count(found.entries@, FileStatus::RightOnly)
            &&& found.stats.total_files == found.stats.identical + found.stats.modified
                + found.stats.left_only + found.stats.right_only
            &&& stats_count_paths(found.stats, l, r)
        },
{
    match left {
        RootScan::NotADirectory => {
            return Err(TreeError::NotADirectory(left_path.to_owned()));
        },
        _ => {},
    }
    match right {
        RootScan::NotADirectory => {
            return Err(TreeError::NotADirectory(right_path.to_owned()));
        },
        _ => {},
    }
    let left_files = match left {
        RootScan::Listed(files) => files,
        RootScan::Unreadable(message) => {
            return Err(TreeError::Io(message.clone()));
        },
        RootScan::NotADirectory => {
            return Err(TreeError::NotADirectory(left_path.to_owned()));
        },
    };
    let right_files = match right {
        RootScan::Listed(files) => files,
        RootScan::Unreadable(message) => {
            return Err(TreeError::Io(message.clone()));
        },
        RootScan::NotADirectory => {
            return Err(TreeError::NotADirectory(right_path.to_owned()));
        },
    };
    let left_map = scan_dir_entries(left_files);
    let right_map = scan_dir_entries(right_files);
    let (entries, stats) = build_compare_tree(&left_map, &right_map);
    Ok(
        DirectoryCompareResult {
            left_path: left_path.to_owned(),
            right_path: right_path.to_owned(),
            entries,
            stats,
        },
    )
}

/// `a` and `b` are the same tree: the same nodes with the same children
/// in the same order.
pub open spec fn same_entries(a: Seq<CompareEntry>, b: Seq<CompareEntry>) -> bool
    decreases a,
{
    &&& a.len() == b.len()
    &&& forall|i: int|
        0 <= i < a.len() ==> {
            let x = #[trigger] a[i];
            let y = b[i];
            &&& x.name@ == y.name@
            &&& x.rel_path@ == y.rel_path@
            &&& x.is_dir == y.is_dir
            &&& x.status == y.status
            &&& x.left_size == y.left_size
            &&& x.right_size == y.right_size
            &&& same_entries(x.children@, y.children@)
        }
}

impl Clone for CompareEntry {
    /// A copy of the node and of everything below it.
    fn clone(&self) -> (copy: Self)
        ensures
            copy.name@ == self.name@,
            copy.rel_path@ == self.rel_path@,
            copy.is_dir == self.is_dir,
            copy.status == self.status,
            copy.left_size == self.left_size,
            copy.right_size == self.right_size,
            same_entries(self.children@, copy.children@),
        decreases self,
    {
        let mut children: Vec<CompareEntry> = Vec::new();
        let mut i: usize = 0;
        while i < self.children.len()
            invariant
                i <= self.children.len(),
                same_entries(self.children@.take(i as int), children@),
            decreases self.children.len() - i,
        {
            let child = self.children[i].clone();
            children.push(child);
            i += 1;
        }
        assert(self.children@.take(self.children.len() as int) =~= self.children@);
        CompareEntry {
            name: self.name.clone(),
            rel_path: self.rel_path.clone(),
            is_dir: self.is_dir,
            status: self.status,
            left_size: self.left_size,
            right_size: self.right_size,
            children,
        }
    }
}

} // verus!
