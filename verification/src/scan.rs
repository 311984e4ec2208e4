//! Directory scan: a listing filtered by ignore patterns and hidden names,
//! and sorted level by level.

use crate::error::TreeError;
use crate::ignore::{ignored, matches_ignore_pattern};
use crate::paths::has_prefix;
use crate::sorting::{
    entry_key, lemma_sort_spec_pointwise, lemma_sort_spec_props, make_key,
    pointwise, sort_by_key, sort_spec, sorted_by, KeyView, SortKey,
};
use crate::text::chars_of;
use vstd::prelude::*;

verus! {

/// A node of a scanned tree.
#[derive(Debug)]
pub struct DirEntry {
    pub name: String,
    /// Path from the scanned root, components separated by `/`.
    pub rel_path: String,
    pub is_dir: bool,
    /// Length in bytes; 0 for a directory.
    pub size: u64,
    pub children: Vec<DirEntry>,
}

/// The outcome of a scan.
#[derive(Debug)]
pub struct ScanResult {
    pub root_path: String,
    pub entries: Vec<DirEntry>,
    pub file_count: usize,
}

/// What kind of thing a listed entry is.
#[derive(Clone, Copy, Debug, PartialEq, Eq, Structural)]
pub enum RawKind {
    File,
    Directory,
    /// Neither a file nor a directory.
    Other,
}

/// An entry of a directory as it was listed, before any filter.
#[derive(Debug)]
pub struct RawEntry {
    pub name: String,
    /// Path from the scanned root, components separated by `/`.
    pub rel_path: String,
    pub kind: RawKind,
    /// Length of a file in bytes.
    pub size: u64,
    /// For a directory that could not be listed, the reason.
    pub failure: Option<String>,
    /// For a directory that was listed, its entries.
    pub children: Vec<RawEntry>,
}

/// The name begins with a dot, and the path does not lie below `.git`.
pub open spec fn is_hidden_name(name: Seq<char>, rel_path: Seq<char>) -> bool {
    name.len() > 0 && name[0] == '.' && !".git/"@.is_prefix_of(rel_path)
}

/// A scan shows the entry: no ignore pattern covers its path, and its name
/// is not hidden.
pub open spec fn shown(name: Seq<char>, rel_path: Seq<char>, patterns: Seq<Seq<char>>) -> bool {
    !ignored(rel_path, patterns) && !is_hidden_name(name, rel_path)
}

/// Whether a scan shows an entry with this name and path.
pub fn is_shown(name: &str, rel_path: &str, patterns: &Vec<String>) -> (yes: bool)
    ensures
        yes == shown(name@, rel_path@, patterns.deep_view()),
{
    if matches_ignore_pattern(rel_path, patterns) {
        return false;
    }
    let n = chars_of(name);
    if n.len() > 0 && n[0] == '.' {
        let p = chars_of(rel_path);
        let git = chars_of(".git/");
        has_prefix(&p, &git)
    } else {
        true
    }
}

/// The key by which a listed entry is sorted.
pub open spec fn raw_key(r: RawEntry) -> KeyView {
    entry_key(r.kind is Directory, r.name@)
}

/// [`raw_key`] as a function value.
pub open spec fn raw_key_fn() -> spec_fn(RawEntry) -> KeyView {
    |r: RawEntry| raw_key(r)
}

/// The key by which a node is sorted.
pub open spec fn dir_key(e: DirEntry) -> KeyView {
    entry_key(e.is_dir, e.name@)
}

/// [`dir_key`] as a function value.
pub open spec fn dir_key_fn() -> spec_fn(DirEntry) -> KeyView {
    |e: DirEntry| dir_key(e)
}

/// Whether a full scan keeps the entry: it is shown, and it is a file or a
/// directory of which the scan keeps something.
pub open spec fn eager_keeps(r: RawEntry, patterns: Seq<Seq<char>>) -> bool
    decreases r,
{
    shown(r.name@, r.rel_path@, patterns) && match r.kind {
        RawKind::File => true,
        RawKind::Directory => eager_kept(r.children@, patterns).len() > 0,
        RawKind::Other => false,
    }
}

/// The entries of a listing that a full scan keeps, in the order of the
/// listing.
pub open spec fn eager_kept(raw: Seq<RawEntry>, patterns: Seq<Seq<char>>) -> Seq<RawEntry>
    decreases raw,
{
    if raw.len() == 0 {
        Seq::empty()
    } else if eager_keeps(raw.last(), patterns) {
        eager_kept(raw.drop_last(), patterns).push(raw.last())
    } else {
        eager_kept(raw.drop_last(), patterns)
    }
}

/// The reason for which a full scan of the entry fails: that of the first
/// directory, in the order of the listing and going down before going on,
/// that is shown and could not be listed.
pub open spec fn entry_failure(r: RawEntry, patterns: Seq<Seq<char>>) -> Option<Seq<char>>
    decreases r,
{
    if shown(r.name@, r.rel_path@, patterns) && r.kind is Directory {
        match r.failure {
            Some(message) => Some(message@),
            None => first_failure(r.children@, patterns),
        }
    } else {
        None
    }
}

/// The reason for which a full scan of the listing fails, if it does.
pub open spec fn first_failure(raw: Seq<RawEntry>, patterns: Seq<Seq<char>>) -> Option<Seq<char>>
    decreases raw,
{
    if raw.len() == 0 {
        None
    } else {
        match entry_failure(raw[0], patterns) {
            Some(message) => Some(message),
            None => first_failure(raw.drop_first(), patterns),
        }
    }
}

/// `e` is the node that a full scan makes of the listed entry `r`.
pub open spec fn eager_node(e: DirEntry, r: RawEntry, patterns: Seq<Seq<char>>) -> bool
    decreases e,
{
    &&& e.name@ == r.name@
    &&& e.rel_path@ == r.rel_path@
    &&& e.is_dir == (r.kind is Directory)
    &&& if e.is_dir {
        e.size == 0 && eager_level(e.children@, r.children@, patterns)
    } else {
        e.size == r.size && e.children@.len() == 0
    }
}

/// `entries` is the level that a full scan makes of the listing `raw`: a
/// node for each entry that the scan keeps, in sorted order.
pub open spec fn eager_level(
    entries: Seq<DirEntry>,
    raw: Seq<RawEntry>,
    patterns: Seq<Seq<char>>,
) -> bool
    decreases entries,
{
    let want = sort_spec(eager_kept(raw, patterns), raw_key_fn());
    &&& entries.len() == want.len()
    &&& forall|i: int|
        0 <= i < entries.len() ==> eager_node(#[trigger] entries[i], want[i], patterns)
}

/// [`eager_node`] as a function value.
pub open spec fn eager_node_fn(patterns: Seq<Seq<char>>) -> spec_fn(DirEntry, RawEntry) -> bool {
    |e: DirEntry, r: RawEntry| eager_node(e, r, patterns)
}

/// The failure of a listing from an entry on is that of the entry or, where
/// it has none, that of the entries after it.
proof fn lemma_first_failure_skip(raw: Seq<RawEntry>, patterns: Seq<Seq<char>>, i: int)
    requires
        0 <= i < raw.len(),
    ensures
        first_failure(raw.skip(i), patterns) == match entry_failure(raw[i], patterns) {
            Some(message) => Some(message),
            None => first_failure(raw.skip(i + 1), patterns),
        },
{
    assert(raw.skip(i).drop_first() =~= raw.skip(i + 1));
}

/// Scans a listing in full: every entry that is shown, at every depth,
/// sorted level by level; a directory of which nothing is kept is left out.
/// The scan fails on the first directory that is shown and could not be
/// listed, with the reason of that directory.
pub fn build_dir_tree(raw: &Vec<RawEntry>, ignore_patterns: &Vec<String>) -> (r: Result<
    Vec<DirEntry>,
    String,
>)
    ensures
        match r {
            Ok(entries) => {
                &&& first_failure(raw@, ignore_patterns.deep_view()) is None
                &&& eager_level(entries@, raw@, ignore_patterns.deep_view())
                &&& tree_shown(entries@, ignore_patterns.deep_view())
                &&& tree_sorted(entries@)
            },
            Err(message) => first_failure(raw@, ignore_patterns.deep_view()) == Some(message@),
        },
    decreases raw,
{
    let ghost patterns = ignore_patterns.deep_view();
    let mut level: Vec<DirEntry> = Vec::new();
    let mut keys: Vec<SortKey> = Vec::new();
    let mut i: usize = 0;
    assert(raw@.skip(0) =~= raw@);
    while i < raw.len()
        invariant
            i <= raw.len(),
            patterns == ignore_patterns.deep_view(),
            first_failure(raw@, patterns) == first_failure(raw@.skip(i as int), patterns),
            pointwise(level@, eager_kept(raw@.take(i as int), patterns), eager_node_fn(patterns)),
            keys.len() == level.len(),
            forall|x: int| 0 <= x < level.len() ==> (#[trigger] keys[x])@ == dir_key(level[x]),
        decreases raw.len() - i,
    {
        let entry = &raw[i];
        proof {
            lemma_first_failure_skip(raw@, patterns, i as int);
            assert(raw@.take(i + 1).drop_last() =~= raw@.take(i as int));
        }
        if is_shown(entry.name.as_str(), entry.rel_path.as_str(), ignore_patterns) {
            match entry.kind {
                RawKind::File => {
                    let key = make_key(false, entry.name.as_str());
                    let node = DirEntry {
                        name: entry.name.clone(),
                        rel_path: entry.rel_path.clone(),
                        is_dir: false,
                        size: entry.size,
                        children: Vec::new(),
                    };
                    level.push(node);
                    keys.push(key);
                    assert(eager_keeps(*entry, patterns));
                },
                RawKind::Directory => {
                    match &entry.failure {
                        Some(message) => {
                            return Err(message.clone());
                        },
                        None => {},
                    }
                    let children = match build_dir_tree(&entry.children, ignore_patterns) {
                        Ok(children) => children,
                        Err(message) => {
                            return Err(message);
                        },
                    };
                    if children.len() > 0 {
                        let key = make_key(true, entry.name.as_str());
                        let node = DirEntry {
                            name: entry.name.clone(),
                            rel_path: entry.rel_path.clone(),
                            is_dir: true,
                            size: 0,
                            children,
                        };
                        level.push(node);
                        keys.push(key);
                        assert(eager_keeps(*entry, patterns));
                    } else {
                        assert(!eager_keeps(*entry, patterns));
                    }
                },
                RawKind::Other => {
                    assert(!eager_keeps(*entry, patterns));
                },
            }
        } else {
            assert(!eager_keeps(*entry, patterns));
        }
        i += 1;
    }
    let ghost built = level@;
    let ghost kept = eager_kept(raw@, patterns);
    let sorted = sort_by_key(level, keys, Ghost(dir_key_fn()));
    proof {
        assert(raw@.take(raw.len() as int) =~= raw@);
        assert forall|x: int| 0 <= x < built.len() implies dir_key_fn()(#[trigger] built[x])
            == raw_key_fn()(kept[x]) by {}
        lemma_sort_spec_pointwise(built, kept, eager_node_fn(patterns), dir_key_fn(), raw_key_fn());
        assert(eager_level(sorted@, raw@, patterns));
        lemma_eager_level_laws(sorted@, raw@, patterns);
    }
    Ok(sorted)
}

/// Whether a bounded scan keeps the entry: it is shown, and it is a file or
/// a directory.
pub open spec fn lazy_keeps(r: RawEntry, patterns: Seq<Seq<char>>) -> bool {
    shown(r.name@, r.rel_path@, patterns) && r.kind !is Other
}

/// The entries of a listing that a bounded scan keeps, in the order of the
/// listing.
pub open spec fn lazy_kept(raw: Seq<RawEntry>, patterns: Seq<Seq<char>>) -> Seq<RawEntry>
    decreases raw.len(),
{
    if raw.len() == 0 {
        Seq::empty()
    } else if lazy_keeps(raw.last(), patterns) {
        lazy_kept(raw.drop_last(), patterns).push(raw.last())
    } else {
        lazy_kept(raw.drop_last(), patterns)
    }
}

/// `e` is the node that a bounded scan makes of the listed entry `r` when
/// `levels` levels are still to be shown, that of `e` included. A
/// directory on the last level, or one that could not be listed, is shown
/// without children.
pub open spec fn lazy_node(e: DirEntry, r: RawEntry, patterns: Seq<Seq<char>>, levels: nat) -> bool
    decreases e,
{
    &&& e.name@ == r.name@
    &&& e.rel_path@ == r.rel_path@
    &&& e.is_dir == (r.kind is Directory)
    &&& if e.is_dir {
        e.size == 0 && if levels > 1 && r.failure is None {
            lazy_level(e.children@, r.children@, patterns, (levels - 1) as nat)
        } else {
            e.children@.len() == 0
        }
    } else {
        e.size == r.size && e.children@.len() == 0
    }
}

/// `entries` is the level that a bounded scan makes of the listing `raw`
/// when `levels` levels are still to be shown: nothing where none is left,
/// else a node for each entry that the scan keeps, in sorted order.
pub open spec fn lazy_level(
    entries: Seq<DirEntry>,
    raw: Seq<RawEntry>,
    patterns: Seq<Seq<char>>,
    levels: nat,
) -> bool
    decreases entries,
{
    if levels == 0 {
        entries.len() == 0
    } else {
        let want = sort_spec(lazy_kept(raw, patterns), raw_key_fn());
        &&& entries.len() == want.len()
        &&& forall|i: int|
            0 <= i < entries.len() ==> lazy_node(#[trigger] entries[i], want[i], patterns, levels)
    }
}

/// [`lazy_node`] as a function value.
pub open spec fn lazy_node_fn(patterns: Seq<Seq<char>>, levels: nat) -> spec_fn(
    DirEntry,
    RawEntry,
) -> bool {
    |e: DirEntry, r: RawEntry| lazy_node(e, r, patterns, levels)
}

/// Number of levels that a bounded scan still shows at `current_depth`.
pub open spec fn levels_left(current_depth: usize, max_depth: usize) -> nat {
    if current_depth < max_depth {
        (max_depth - current_depth) as nat
    } else {
        0
    }
}

/// Scans a listing down to `max_depth` levels below the root of the scan,
/// where the listing itself stands at `current_depth`. Every entry that is
/// shown gets a node, sorted level by level; a directory on the last level,
/// or one that could not be listed, is shown without children.
pub fn build_dir_tree_lazy(
    raw: &Vec<RawEntry>,
    ignore_patterns: &Vec<String>,
    current_depth: usize,
    max_depth: usize,
) -> (entries: Vec<DirEntry>)
    ensures
        lazy_level(
            entries@,
            raw@,
            ignore_patterns.deep_view(),
            levels_left(current_depth, max_depth),
        ),
        tree_shown(entries@, ignore_patterns.deep_view()),
        tree_sorted(entries@),
    decreases raw,
{
    if current_depth >= max_depth {
        return Vec::new();
    }
    let ghost patterns = ignore_patterns.deep_view();
    let ghost levels = levels_left(current_depth, max_depth);
    let mut level: Vec<DirEntry> = Vec::new();
    let mut keys: Vec<SortKey> = Vec::new();
    let mut i: usize = 0;
    while i < raw.len()
        invariant
            i <= raw.len(),
            current_depth < max_depth,
            patterns == ignore_patterns.deep_view(),
            levels == levels_left(current_depth, max_depth),
            pointwise(
                level@,
                lazy_kept(raw@.take(i as int), patterns),
                lazy_node_fn(patterns, levels),
            ),
            keys.len() == level.len(),
            forall|x: int| 0 <= x < level.len() ==> (#[trigger] keys[x])@ == dir_key(level[x]),
        decreases raw.len() - i,
    {
        let entry = &raw[i];
        assert(raw@.take(i + 1).drop_last() =~= raw@.take(i as int));
        let keep = match entry.kind {
            RawKind::Other => false,
            _ => is_shown(entry.name.as_str(), entry.rel_path.as_str(), ignore_patterns),
        };
        if keep {
            let is_dir = match entry.kind {
                RawKind::Directory => true,
                _ => false,
            };
            let children = if is_dir && current_depth + 1 < max_depth && entry.failure.is_none() {
                build_dir_tree_lazy(&entry.children, ignore_patterns, current_depth + 1, max_depth)
            } else {
                Vec::new()
            };
            let key = make_key(is_dir, entry.name.as_str());
            let node = DirEntry {
                name: entry.name.clone(),
                rel_path: entry.rel_path.clone(),
                is_dir,
                size: if is_dir {
                    0
                } else {
                    entry.size
                },
                children,
            };
            level.push(node);
            keys.push(key);
        }
        i += 1;
    }
    let ghost built = level@;
    let ghost kept = lazy_kept(raw@, patterns);
    let sorted = sort_by_key(level, keys, Ghost(dir_key_fn()));
    proof {
        assert(raw@.take(raw.len() as int) =~= raw@);
        lemma_sort_spec_pointwise(
            built,
            kept,
            lazy_node_fn(patterns, levels),
            dir_key_fn(),
            raw_key_fn(),
        );
        lemma_lazy_level_laws(sorted@, raw@, patterns, levels);
    }
    sorted
}

/// Every node of the tree, at every level, is one that a scan shows.
pub open spec fn tree_shown(entries: Seq<DirEntry>, patterns: Seq<Seq<char>>) -> bool
    decreases entries,
{
    forall|i: int|
        0 <= i < entries.len() ==> {
            let e = #[trigger] entries[i];
            shown(e.name@, e.rel_path@, patterns) && tree_shown(e.children@, patterns)
        }
}

/// Every level of the tree is sorted: directories first, then by name
/// without regard to case.
pub open spec fn tree_sorted(entries: Seq<DirEntry>) -> bool
    decreases entries,
{
    &&& sorted_by(entries, dir_key_fn())
    &&& forall|i: int| 0 <= i < entries.len() ==> tree_sorted((#[trigger] entries[i]).children@)
}

/// Every entry that a full scan is said to keep is one that it keeps.
proof fn lemma_eager_kept_keeps(raw: Seq<RawEntry>, patterns: Seq<Seq<char>>)
    ensures
        forall|x: int|
            0 <= x < eager_kept(raw, patterns).len() ==> eager_keeps(
                #[trigger] eager_kept(raw, patterns)[x],
                patterns,
            ),
    decreases raw.len(),
{
    if raw.len() > 0 {
        lemma_eager_kept_keeps(raw.drop_last(), patterns);
        assert(eager_kept(raw, patterns).len() >= eager_kept(raw.drop_last(), patterns).len());
    }
}

/// Every entry that a bounded scan is said to keep is one that it keeps.
proof fn lemma_lazy_kept_keeps(raw: Seq<RawEntry>, patterns: Seq<Seq<char>>)
    ensures
        forall|x: int|
            0 <= x < lazy_kept(raw, patterns).len() ==> lazy_keeps(
                #[trigger] lazy_kept(raw, patterns)[x],
                patterns,
            ),
    decreases raw.len(),
{
    if raw.len() > 0 {
        lemma_lazy_kept_keeps(raw.drop_last(), patterns);
        assert(lazy_kept(raw, patterns).len() >= lazy_kept(raw.drop_last(), patterns).len());
    }
}

/// A full scan shows no entry that an ignore pattern covers or whose name
/// is hidden, and sorts every level.
pub proof fn lemma_eager_level_laws(
    entries: Seq<DirEntry>,
    raw: Seq<RawEntry>,
    patterns: Seq<Seq<char>>,
)
    requires
        eager_level(entries, raw, patterns),
    ensures
        tree_shown(entries, patterns),
        tree_sorted(entries),
    decreases entries,
{
    let kept = eager_kept(raw, patterns);
    let want = sort_spec(kept, raw_key_fn());
    lemma_sort_spec_props(kept, raw_key_fn());
    lemma_eager_kept_keeps(raw, patterns);
    assert forall|i: int| 0 <= i < entries.len() implies {
        let e = #[trigger] entries[i];
        &&& shown(e.name@, e.rel_path@, patterns)
        &&& tree_shown(e.children@, patterns)
        &&& tree_sorted(e.children@)
        &&& dir_key(e) == raw_key(want[i])
    } by {
        let e = entries[i];
        if e.is_dir {
            lemma_eager_level_laws(e.children@, want[i].children@, patterns);
        }
    }
}

/// A bounded scan shows no entry that an ignore pattern covers or whose
/// name is hidden, and sorts every level.
pub proof fn lemma_lazy_level_laws(
    entries: Seq<DirEntry>,
    raw: Seq<RawEntry>,
    patterns: Seq<Seq<char>>,
    levels: nat,
)
    requires
        lazy_level(entries, raw, patterns, levels),
    ensures
        tree_shown(entries, patterns),
        tree_sorted(entries),
    decreases entries,
{
    if levels > 0 {
        let kept = lazy_kept(raw, patterns);
        let want = sort_spec(kept, raw_key_fn());
        lemma_sort_spec_props(kept, raw_key_fn());
        lemma_lazy_kept_keeps(raw, patterns);
        assert forall|i: int| 0 <= i < entries.len() implies {
            let e = #[trigger] entries[i];
            &&& shown(e.name@, e.rel_path@, patterns)
            &&& tree_shown(e.children@, patterns)
            &&& tree_sorted(e.children@)
            &&& dir_key(e) == raw_key(want[i])
        } by {
            let e = entries[i];
            if e.is_dir && levels > 1 && want[i].failure is None {
                lemma_lazy_level_laws(
                    e.children@,
                    want[i].children@,
                    patterns,
                    (levels - 1) as nat,
                );
            }
        }
    }
}

/// No node of the tree, at any level, has a path that begins with
/// `prefix`.
pub open spec fn none_below(entries: Seq<DirEntry>, prefix: Seq<char>) -> bool
    decreases entries,
{
    forall|i: int|
        0 <= i < entries.len() ==> {
            let e = #[trigger] entries[i];
            !prefix.is_prefix_of(e.rel_path@) && none_below(e.children@, prefix)
        }
}

/// An ignore pattern that names a directory keeps every path that begins
/// with it out of a scan.
pub proof fn lemma_dir_pattern_hides(entries: Seq<DirEntry>, patterns: Seq<Seq<char>>, at: int)
    requires
        tree_shown(entries, patterns),
        0 <= at < patterns.len(),
        patterns[at].len() > 0,
        patterns[at].last() == '/',
    ensures
        none_below(entries, patterns[at]),
    decreases entries,
{
    assert forall|i: int| 0 <= i < entries.len() implies {
        let e = #[trigger] entries[i];
        !patterns[at].is_prefix_of(e.rel_path@) && none_below(e.children@, patterns[at])
    } by {
        let e = entries[i];
        lemma_dir_pattern_hides(e.children@, patterns, at);
    }
}

/// Number of files in a tree; directories do not count.
pub open spec fn file_count(entries: Seq<DirEntry>) -> nat
    decreases entries,
{
    if entries.len() == 0 {
        0
    } else {
        let e = entries.last();
        file_count(entries.drop_last()) + if e.is_dir {
            file_count(e.children@)
        } else {
            1nat
        }
    }
}

/// A count as far as `usize` holds it.
pub open spec fn capped(n: nat) -> usize {
    if n <= usize::MAX {
        n as usize
    } else {
        usize::MAX
    }
}

/// Counts the files of a tree. A count beyond `usize::MAX` is given as
/// `usize::MAX`.
pub fn count_files(entries: &[DirEntry]) -> (count: usize)
    ensures
        count == capped(file_count(entries@)),
    decreases entries@,
{
    let mut count: usize = 0;
    let mut i: usize = 0;
    while i < entries.len()
        invariant
            i <= entries.len(),
            count == capped(file_count(entries@.take(i as int))),
        decreases entries.len() - i,
    {
        let e = &entries[i];
        assert(entries@.take(i + 1).drop_last() =~= entries@.take(i as int));
        let inner: usize = if e.is_dir {
            count_files(e.children.as_slice())
        } else {
            1
        };
        count = count.saturating_add(inner);
        i += 1;
    }
    assert(entries@.take(entries.len() as int) =~= entries@);
    count
}

/// What was found at the root of a scan.
#[derive(Debug)]
pub enum RootListing {
    /// The root is no directory.
    NotADirectory,
    /// The root could not be listed; the message says how.
    Unreadable(String),
    /// The entries of the root.
    Entries(Vec<RawEntry>),
}

/// `e` is the error that a scan of this root owes, where it owes one.
pub open spec fn scan_refused_as(path: Seq<char>, root: RootListing, e: TreeError) -> bool {
    match root {
        RootListing::NotADirectory => e matches TreeError::NotADirectory(p) && p@ == path,
        RootListing::Unreadable(message) => e matches TreeError::Io(m) && m@ == message@,
        RootListing::Entries(raw) => false,
    }
}

/// Scans the directory at `path` in full, from what was found there.
///
/// A root that is no directory, or that could not be listed, is refused,
/// and so is a tree with a shown directory that could not be listed.
/// Otherwise the result holds the tree of [`build_dir_tree`] and the number
/// of its files.
pub fn scan_directory(path: &str, root: &RootListing, ignore_patterns: &Vec<String>) -> (r: Result<
    ScanResult,
    TreeError,
>)
    ensures
        r is Ok <==> root is Entries && first_failure(
            root->Entries_0@,
            ignore_patterns.deep_view(),
        ) is None,
        r matches Err(e) ==> if root is Entries {
            e matches TreeError::Io(m) && Some(m@) == first_failure(
                root->Entries_0@,
                ignore_patterns.deep_view(),
            )
        } else {
            scan_refused_as(path@, *root, e)
        },
        r matches Ok(found) ==> {
            &&& found.root_path@ == path@
            &&& eager_level(found.entries@, root->Entries_0@, ignore_patterns.deep_view())
            &&& tree_shown(found.entries@, ignore_patterns.deep_view())
            &&& tree_sorted(found.entries@)
            &&& found.file_count == capped(file_count(found.entries@))
        },
{
    match root {
        RootListing::NotADirectory => Err(TreeError::NotADirectory(path.to_owned())),
        RootListing::Unreadable(message) => Err(TreeError::Io(message.clone())),
        RootListing::Entries(raw) => {
            match build_dir_tree(raw, ignore_patterns) {
                Ok(entries) => {
                    let file_count = count_files(entries.as_slice());
                    Ok(ScanResult { root_path: path.to_owned(), entries, file_count })
                },
                Err(message) => Err(TreeError::Io(message)),
            }
        },
    }
}

/// Scans the directory at `path` down to `max_depth` levels, from what was
/// found there.
///
/// A root that is no directory, or that could not be listed, is refused.
/// Otherwise the result holds the tree of [`build_dir_tree_lazy`] and the
/// number of its files.
pub fn scan_directory_lazy(
    path: &str,
    root: &RootListing,
    ignore_patterns: &Vec<String>,
    max_depth: usize,
) -> (r: Result<ScanResult, TreeError>)
    ensures
        r is Ok <==> root is Entries,
        r matches Err(e) ==> scan_refused_as(path@, *root, e),
        r matches Ok(found) ==> {
            &&& found.root_path@ == path@
            &&& lazy_level(
                found.entries@,
                root->Entries_0@,
                ignore_patterns.deep_view(),
                max_depth as nat,
            )
            &&& tree_shown(found.entries@, ignore_patterns.deep_view())
            &&& tree_sorted(found.entries@)
            &&& found.file_count == capped(file_count(found.entries@))
        },
{
    match root {
        RootListing::NotADirectory => Err(TreeError::NotADirectory(path.to_owned())),
        RootListing::Unreadable(message) => Err(TreeError::Io(message.clone())),
        RootListing::Entries(raw) => {
            let entries = build_dir_tree_lazy(raw, ignore_patterns, 0, max_depth);
            let file_count = count_files(entries.as_slice());
            Ok(ScanResult { root_path: path.to_owned(), entries, file_count })
        },
    }
}

/// Lists one directory of a scanned tree, one level deep, from what was
/// found at `target`, the path of that directory.
///
/// A target that is no directory, or that could not be listed, is refused.
pub fn expand_directory(target: &str, found: &RootListing, ignore_patterns: &Vec<String>) -> (r:
    Result<Vec<DirEntry>, TreeError>)
    ensures
        r is Ok <==> found is Entries,
        r matches Err(e) ==> scan_refused_as(target@, *found, e),
        r matches Ok(entries) ==> {
            &&& lazy_level(entries@, found->Entries_0@, ignore_patterns.deep_view(), 1)
            &&& tree_shown(entries@, ignore_patterns.deep_view())
            &&& tree_sorted(entries@)
        },
{
    match found {
        RootListing::NotADirectory => Err(TreeError::NotADirectory(target.to_owned())),
        RootListing::Unreadable(message) => Err(TreeError::Io(message.clone())),
        RootListing::Entries(raw) => Ok(build_dir_tree_lazy(raw, ignore_patterns, 0, 1)),
    }
}

/// `a` and `b` are the same tree: the same nodes with the same children
/// in the same order.
pub open spec fn same_entries(a: Seq<DirEntry>, b: Seq<DirEntry>) -> bool
    decreases a,
{
    &&& a.len() == b.len()
    &&& forall|i: int|
        0 <= i < a.len() ==> {
            let x = #[trigger] a[i];
            let y = b[i];
            &&& x.name@ == y.name@
            &&& x.rel_path@ == y.rel_path@
            &&& x.is_dir == y.is_dir
            &&& x.size == y.size
            &&& same_entries(x.children@, y.children@)
        }
}

impl Clone for DirEntry {
    /// A copy of the node and of everything below it.
    fn clone(&self) -> (copy: Self)
        ensures
            copy.name@ == self.name@,
            copy.rel_path@ == self.rel_path@,
            copy.is_dir == self.is_dir,
            copy.size == self.size,
            same_entries(self.children@, copy.children@),
        decreases self,
    {
        let mut children: Vec<DirEntry> = Vec::new();
        let mut i: usize = 0;
        while i < self.children.len()
            invariant
                i <= self.children.len(),
                same_entries(self.children@.take(i as int), children@),
            decreases self.children.len() - i,
        {
            let child = self.children[i].clone();
            children.push(child);
            i += 1;
        }
        assert(self.children@.take(self.children.len() as int) =~= self.children@);
        DirEntry {
            name: self.name.clone(),
            rel_path: self.rel_path.clone(),
            is_dir: self.is_dir,
            size: self.size,
            children,
        }
    }
}

} // verus!
