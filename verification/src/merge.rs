//! Three-way merge: two edit scripts against a common base, reconciled into
//! one text with conflict markers.

use crate::chunks::{
    add_chunk, base_chunk, conflict_chunks, covered, insertion_chunk, lemma_add_chunk,
    lemma_add_chunk_tiled, render_all, tiled, ChunkType, ChunkView, MergeChunk,
};
use crate::diff::{
    all_equal, can_diff, diffable, is_edit_script, line_changes, new_side, old_side,
    similar_line_changes, ChangeView, LineChange, LineTag,
};
use crate::text::{
    is_line_joined, join_lines, join_with_newlines, lemma_lines_are_stripped_tokens,
    lemma_lines_le_tokens, lemma_trim_ignores_ending, line_tokens, lines_trimmed, no_bare_cr,
    split_lines, strip_all, strip_line_ending, text_lines, trim_all, trim_end, trim_end_of,
};
use std::collections::{HashMap, HashSet};
use vstd::prelude::*;

verus! {

/// The outcome of a three-way merge.
#[derive(Debug)]
pub struct MergeResult {
    pub chunks: Vec<MergeChunk>,
    /// Number of positions where both sides inserted different lines.
    pub conflict_count: usize,
    /// The merged text, with markers round each conflict.
    pub merged_content: String,
}

/// Number of base lines that the changes walk over: the equal and the
/// deleted ones.
pub open spec fn base_passed(changes: Seq<ChangeView>) -> nat
    decreases changes.len(),
{
    if changes.len() == 0 {
        0
    } else {
        base_passed(changes.drop_last()) + if changes.last().tag == LineTag::Insert {
            0nat
        } else {
            1nat
        }
    }
}

/// The lines that the changes insert right before base line `pos`, in
/// order. Position `base_passed(changes)` stands for the end of the base.
pub open spec fn inserts_at(changes: Seq<ChangeView>, pos: nat) -> Seq<Seq<char>>
    decreases changes.len(),
{
    if changes.len() == 0 {
        Seq::empty()
    } else {
        let rest = changes.drop_last();
        let c = changes.last();
        if c.tag == LineTag::Insert && base_passed(rest) == pos {
            inserts_at(rest, pos).push(c.value)
        } else {
            inserts_at(rest, pos)
        }
    }
}

/// Whether the changes delete base line `pos`.
pub open spec fn deleted_at(changes: Seq<ChangeView>, pos: nat) -> bool
    decreases changes.len(),
{
    if changes.len() == 0 {
        false
    } else {
        let rest = changes.drop_last();
        let c = changes.last();
        deleted_at(rest, pos) || (c.tag == LineTag::Delete && base_passed(rest) == pos)
    }
}

/// Both sides insert at the same position, and not the same lines.
pub open spec fn conflicting(local: Seq<Seq<char>>, remote: Seq<Seq<char>>) -> bool {
    local.len() > 0 && remote.len() > 0 && local != remote
}

/// What the merge emits for the insertions of the two sides at one
/// position: the lines of the one side that inserts, the shared lines once
/// where both insert the same, and a marked block where they differ. Lines
/// are emitted without trailing white space.
pub open spec fn insertion_block(local: Seq<Seq<char>>, remote: Seq<Seq<char>>) -> Seq<Seq<char>> {
    if local.len() == 0 {
        trim_all(remote)
    } else if remote.len() == 0 || local == remote {
        trim_all(local)
    } else {
        seq!["<<<<<<< LOCAL"@] + trim_all(local) + seq!["======="@] + trim_all(remote)
            + seq![">>>>>>> REMOTE"@]
    }
}

/// What the merge emits at position `i`: the insertion block, then base
/// line `i` unless a side deletes it. Position `base.len()` has no line.
pub open spec fn merge_step(
    base: Seq<Seq<char>>,
    local: Seq<ChangeView>,
    remote: Seq<ChangeView>,
    i: nat,
) -> Seq<Seq<char>> {
    insertion_block(inserts_at(local, i), inserts_at(remote, i)) + if i < base.len()
        && !deleted_at(local, i) && !deleted_at(remote, i) {
        seq![base[i as int]]
    } else {
        Seq::empty()
    }
}

/// The lines emitted at the positions below `n`.
pub open spec fn merged_lines_upto(
    base: Seq<Seq<char>>,
    local: Seq<ChangeView>,
    remote: Seq<ChangeView>,
    n: nat,
) -> Seq<Seq<char>>
    decreases n,
{
    if n == 0 {
        Seq::empty()
    } else {
        merged_lines_upto(base, local, remote, (n - 1) as nat) + merge_step(
            base,
            local,
            remote,
            (n - 1) as nat,
        )
    }
}

/// The lines of the merge: every position from 0 to `base.len()` included.
pub open spec fn merged_lines(
    base: Seq<Seq<char>>,
    local: Seq<ChangeView>,
    remote: Seq<ChangeView>,
) -> Seq<Seq<char>> {
    merged_lines_upto(base, local, remote, base.len() + 1)
}

/// Number of conflicting positions below `n`.
pub open spec fn conflicts_upto(local: Seq<ChangeView>, remote: Seq<ChangeView>, n: nat) -> nat
    decreases n,
{
    if n == 0 {
        0
    } else {
        conflicts_upto(local, remote, (n - 1) as nat) + if conflicting(
            inserts_at(local, (n - 1) as nat),
            inserts_at(remote, (n - 1) as nat),
        ) {
            1nat
        } else {
            0nat
        }
    }
}

/// Past the lines they walk over the changes insert nothing, and from the
/// end of them on they delete nothing.
pub proof fn lemma_nothing_beyond(changes: Seq<ChangeView>, pos: nat)
    ensures
        pos > base_passed(changes) ==> inserts_at(changes, pos) == Seq::<Seq<char>>::empty(),
        pos >= base_passed(changes) ==> !deleted_at(changes, pos),
    decreases changes.len(),
{
    if changes.len() > 0 {
        lemma_nothing_beyond(changes.drop_last(), pos);
    }
}

/// Number of insertions that the changes make before base line `n`.
pub open spec fn inserts_below(changes: Seq<ChangeView>, n: nat) -> nat
    decreases changes.len(),
{
    if changes.len() == 0 {
        0
    } else {
        let rest = changes.drop_last();
        inserts_below(rest, n) + if changes.last().tag == LineTag::Insert && base_passed(rest)
            < n {
            1nat
        } else {
            0nat
        }
    }
}

/// The changes make no more insertions than they are many.
proof fn lemma_inserts_below_bound(changes: Seq<ChangeView>, n: nat)
    ensures
        inserts_below(changes, n) <= changes.len(),
    decreases changes.len(),
{
    if changes.len() > 0 {
        lemma_inserts_below_bound(changes.drop_last(), n);
    }
}

/// The insertions before a line and those right before the next position
/// are the insertions before that position.
proof fn lemma_inserts_below_step(changes: Seq<ChangeView>, n: nat)
    ensures
        inserts_below(changes, n + 1) == inserts_below(changes, n) + inserts_at(changes, n).len(),
    decreases changes.len(),
{
    if changes.len() > 0 {
        lemma_inserts_below_step(changes.drop_last(), n);
    }
}

/// There are no more conflicts than the local side has insertions.
pub proof fn lemma_conflicts_bound(local: Seq<ChangeView>, remote: Seq<ChangeView>, n: nat)
    ensures
        conflicts_upto(local, remote, n) <= inserts_below(local, n) <= local.len(),
    decreases n,
{
    lemma_inserts_below_bound(local, n);
    if n > 0 {
        lemma_conflicts_bound(local, remote, (n - 1) as nat);
        lemma_inserts_below_step(local, (n - 1) as nat);
    }
}

/// What one side of a merge does to the base, by position.
pub struct SideEdits {
    /// For each position before which the side inserts lines, those lines.
    pub inserts: HashMap<usize, Vec<String>>,
    /// The base lines that the side deletes.
    pub deletes: HashSet<usize>,
}

impl SideEdits {
    /// The tables hold what `changes` inserts and deletes: a position has
    /// an entry exactly where lines are inserted before it, and a line is
    /// in the set exactly where it is deleted.
    pub open spec fn records(&self, changes: Seq<ChangeView>) -> bool {
        &&& forall|pos: usize|
            self.inserts@.contains_key(pos) <==> #[trigger] inserts_at(changes, pos as nat).len()
                > 0
        &&& forall|pos: usize| #[trigger]
            self.inserts@.contains_key(pos) ==> self.inserts@[pos].deep_view() == inserts_at(
                changes,
                pos as nat,
            )
        &&& forall|pos: usize|
            self.deletes@.contains(pos) <==> #[trigger] deleted_at(changes, pos as nat)
    }
}

/// Walks an edit script with a cursor over the base lines and records the
/// insertions before each line and the deleted lines.
pub fn collect_edits(changes: &Vec<LineChange>) -> (edits: SideEdits)
    ensures
        edits.records(changes.deep_view()),
{
    broadcast use vstd::std_specs::hash::group_hash_axioms;

    let ghost cv = changes.deep_view();
    let mut inserts: HashMap<usize, Vec<String>> = HashMap::new();
    let mut deletes: HashSet<usize> = HashSet::new();
    let mut pending: Vec<String> = Vec::new();
    let mut cursor: usize = 0;
    let mut k: usize = 0;
    while k < changes.len()
        invariant
            k <= changes.len(),
            cv == changes.deep_view(),
            cursor == base_passed(cv.take(k as int)),
            cursor <= k,
            pending.deep_view() == inserts_at(cv.take(k as int), cursor as nat),
            forall|pos: usize|
                inserts@.contains_key(pos) <==> pos < cursor && #[trigger] inserts_at(
                    cv.take(k as int),
                    pos as nat,
                ).len() > 0,
            forall|pos: usize| #[trigger]
                inserts@.contains_key(pos) ==> inserts@[pos].deep_view() == inserts_at(
                    cv.take(k as int),
                    pos as nat,
                ),
            forall|pos: usize|
                deletes@.contains(pos) <==> #[trigger] deleted_at(cv.take(k as int), pos as nat),
        decreases changes.len() - k,
    {
        let change = &changes[k];
        proof {
            assert(cv.take(k + 1).drop_last() == cv.take(k as int));
            assert forall|pos: nat| pos > cursor implies inserts_at(cv.take(k as int), pos)
                == Seq::<Seq<char>>::empty() by {
                lemma_nothing_beyond(cv.take(k as int), pos);
            }
            assert forall|pos: nat| pos >= cursor implies !deleted_at(cv.take(k as int), pos) by {
                lemma_nothing_beyond(cv.take(k as int), pos);
            }
        }
        let ghost before = cv.take(k as int);
        let ghost after = cv.take(k + 1);
        let ghost held = pending.deep_view();
        let ghost at = cursor;
        assert forall|pos: usize| #[trigger]
            deleted_at(after, pos as nat) == (deleted_at(before, pos as nat) || (change.tag
                == LineTag::Delete && pos == at)) by {}
        match change.tag {
            LineTag::Insert => {
                pending.push(change.value.clone());
                assert(pending.deep_view() =~= held.push(change.value@));
                assert forall|pos: usize| pos != cursor implies #[trigger] inserts_at(
                    after,
                    pos as nat,
                ) == inserts_at(before, pos as nat) by {}
            },
            LineTag::Equal => {
                if pending.len() > 0 {
                    inserts.insert(cursor, pending);
                }
                pending = Vec::new();
                assert(pending.deep_view() =~= Seq::<Seq<char>>::empty());
                assert forall|pos: usize| #[trigger]
                    inserts_at(after, pos as nat) == inserts_at(before, pos as nat) by {}
                cursor += 1;
            },
            LineTag::Delete => {
                if pending.len() > 0 {
                    inserts.insert(cursor, pending);
                }
                deletes.insert(cursor);
                pending = Vec::new();
                assert(pending.deep_view() =~= Seq::<Seq<char>>::empty());
                assert forall|pos: usize| #[trigger]
                    inserts_at(after, pos as nat) == inserts_at(before, pos as nat) by {}
                cursor += 1;
            },
        }
        k += 1;
    }
    proof {
        assert(cv.take(changes.len() as int) == cv);
        assert forall|pos: nat| pos > cursor implies inserts_at(cv, pos) == Seq::<
            Seq<char>,
        >::empty() by {
            lemma_nothing_beyond(cv, pos);
        }
    }
    if pending.len() > 0 {
        inserts.insert(cursor, pending);
    }
    SideEdits { inserts, deletes }
}

/// Whether two lists hold the same lines.
pub fn same_lines(a: &Vec<String>, b: &Vec<String>) -> (same: bool)
    ensures
        same == (a.deep_view() == b.deep_view()),
{
    if a.len() != b.len() {
        assert(a.deep_view().len() != b.deep_view().len());
        return false;
    }
    let mut i: usize = 0;
    while i < a.len()
        invariant
            i <= a.len() == b.len(),
            forall|j: int| 0 <= j < i ==> a[j]@ == b[j]@,
        decreases a.len() - i,
    {
        if a[i] != b[i] {
            assert(a.deep_view()[i as int] != b.deep_view()[i as int]);
            return false;
        }
        i += 1;
    }
    assert(a.deep_view() =~= b.deep_view());
    true
}

/// Appends each line without its trailing white space.
pub fn push_trimmed(merged: &mut Vec<String>, lines: &Vec<String>)
    ensures
        final(merged).deep_view() == old(merged).deep_view() + trim_all(lines.deep_view()),
{
    let ghost start = merged.deep_view();
    let mut i: usize = 0;
    while i < lines.len()
        invariant
            i <= lines.len(),
            merged.deep_view() == start + trim_all(lines.deep_view()).take(i as int),
        decreases lines.len() - i,
    {
        let line = trim_end_of(lines[i].as_str());
        let ghost before = merged.deep_view();
        merged.push(line);
        assert(merged.deep_view() =~= before.push(line@));
        i += 1;
    }
}

/// Appends what the merge emits for the insertions of the two sides at one
/// position, and tells whether they conflict.
pub fn push_insertions(merged: &mut Vec<String>, local: &Vec<String>, remote: &Vec<String>) -> (conflict:
    bool)
    ensures
        final(merged).deep_view() == old(merged).deep_view() + insertion_block(
            local.deep_view(),
            remote.deep_view(),
        ),
        conflict == conflicting(local.deep_view(), remote.deep_view()),
{
    if local.len() == 0 {
        push_trimmed(merged, remote);
        false
    } else if remote.len() == 0 || same_lines(local, remote) {
        push_trimmed(merged, local);
        false
    } else {
        merged.push("<<<<<<< LOCAL".to_owned());
        push_trimmed(merged, local);
        let ghost mid = merged.deep_view();
        merged.push("=======".to_owned());
        assert(merged.deep_view() =~= mid + seq!["======="@]);
        push_trimmed(merged, remote);
        let ghost late = merged.deep_view();
        merged.push(">>>>>>> REMOTE".to_owned());
        assert(merged.deep_view() =~= late + seq![">>>>>>> REMOTE"@]);
        true
    }
}

/// Mathematical value of a merge: its regions, the conflict count and the
/// merged text.
pub struct MergeView {
    pub chunks: Seq<ChunkView>,
    pub conflict_count: nat,
    pub merged_content: Seq<char>,
}

impl View for MergeResult {
    type V = MergeView;

    open spec fn view(&self) -> MergeView {
        MergeView {
            chunks: self.chunks.deep_view(),
            conflict_count: self.conflict_count as nat,
            merged_content: self.merged_content@,
        }
    }
}

/// The merge of two edit scripts against the lines of their base.
pub open spec fn merge_of(
    base: Seq<Seq<char>>,
    local: Seq<ChangeView>,
    remote: Seq<ChangeView>,
) -> MergeView {
    MergeView {
        chunks: merge_chunks(base, local, remote),
        conflict_count: conflicts_upto(local, remote, base.len() + 1),
        merged_content: join_lines(merged_lines(base, local, remote)),
    }
}

/// The regions of the positions below `n`: at each position the region of
/// the insertions, where there are any, then that of the base line.
pub open spec fn chunks_upto(
    base: Seq<Seq<char>>,
    local: Seq<ChangeView>,
    remote: Seq<ChangeView>,
    n: nat,
) -> Seq<ChunkView>
    decreases n,
{
    if n == 0 {
        Seq::empty()
    } else {
        let at = (n - 1) as nat;
        let before = chunks_upto(base, local, remote, at);
        let inserted = match insertion_chunk(inserts_at(local, at), inserts_at(remote, at), at) {
            Some(c) => add_chunk(before, c),
            None => before,
        };
        if at < base.len() {
            add_chunk(
                inserted,
                base_chunk(base[at as int], deleted_at(local, at), deleted_at(remote, at), at),
            )
        } else {
            inserted
        }
    }
}

/// The regions of the merge: those of every position from 0 to
/// `base.len()` included, regions of one kind in a row joined into one.
pub open spec fn merge_chunks(
    base: Seq<Seq<char>>,
    local: Seq<ChangeView>,
    remote: Seq<ChangeView>,
) -> Seq<ChunkView> {
    chunks_upto(base, local, remote, base.len() + 1)
}

/// The regions of the positions below `n` give the lines that the merge
/// emits there, hold its conflicts, and tile the base lines below `n`.
pub proof fn lemma_chunks_upto(
    base: Seq<Seq<char>>,
    local: Seq<ChangeView>,
    remote: Seq<ChangeView>,
    n: nat,
)
    requires
        n <= base.len() + 1,
    ensures
        render_all(chunks_upto(base, local, remote, n)) == merged_lines_upto(
            base,
            local,
            remote,
            n,
        ),
        conflict_chunks(chunks_upto(base, local, remote, n)) == conflicts_upto(local, remote, n),
        covered(chunks_upto(base, local, remote, n)) == if n <= base.len() {
            n
        } else {
            base.len()
        },
        tiled(chunks_upto(base, local, remote, n)),
    decreases n,
{
    if n > 0 {
        let at = (n - 1) as nat;
        lemma_chunks_upto(base, local, remote, at);
        let before = chunks_upto(base, local, remote, at);
        let l = inserts_at(local, at);
        let r = inserts_at(remote, at);
        assert(trim_all(Seq::<Seq<char>>::empty()) =~= Seq::<Seq<char>>::empty());
        let inserted = match insertion_chunk(l, r, at) {
            Some(c) => add_chunk(before, c),
            None => before,
        };
        match insertion_chunk(l, r, at) {
            Some(c) => {
                lemma_add_chunk(before, c);
                lemma_add_chunk_tiled(before, c);
            },
            None => {},
        }
        if at < base.len() {
            let c = base_chunk(base[at as int], deleted_at(local, at), deleted_at(remote, at), at);
            lemma_add_chunk(inserted, c);
            lemma_add_chunk_tiled(inserted, c);
        }
    }
}

/// The regions of a merge give its lines, hold its conflicts and tile its
/// base: the merged text is the regions rendered, each conflict is one
/// region, and each base line lies in one region.
pub proof fn lemma_chunks_are_the_merge(
    base: Seq<Seq<char>>,
    local: Seq<ChangeView>,
    remote: Seq<ChangeView>,
)
    ensures
        merge_of(base, local, remote).merged_content == join_lines(
            render_all(merge_of(base, local, remote).chunks),
        ),
        merge_of(base, local, remote).conflict_count == conflict_chunks(
            merge_of(base, local, remote).chunks,
        ),
        covered(merge_of(base, local, remote).chunks) == base.len(),
        tiled(merge_of(base, local, remote).chunks),
{
    lemma_chunks_upto(base, local, remote, base.len() + 1);
}

/// The region of the insertions of the two sides before base line `at`,
/// where a side inserts any.
pub fn make_insertion_chunk(local: &Vec<String>, remote: &Vec<String>, at: usize) -> (chunk: Option<
    MergeChunk,
>)
    ensures
        match chunk {
            Some(c) => Some(c@) == insertion_chunk(
                local.deep_view(),
                remote.deep_view(),
                at as nat,
            ),
            None => insertion_chunk(local.deep_view(), remote.deep_view(), at as nat) is None,
        },
{
    if local.len() == 0 && remote.len() == 0 {
        return None;
    }
    let chunk_type = if local.len() == 0 {
        ChunkType::RemoteOnly
    } else if remote.len() == 0 {
        ChunkType::LocalOnly
    } else if same_lines(local, remote) {
        ChunkType::Equal
    } else {
        ChunkType::Conflict
    };
    let mut local_lines: Vec<String> = Vec::new();
    let mut remote_lines: Vec<String> = Vec::new();
    push_trimmed(&mut local_lines, local);
    push_trimmed(&mut remote_lines, remote);
    Some(MergeChunk { chunk_type, base_start: at, base_count: 0, local_lines, remote_lines })
}

/// The region of base line `at`.
pub fn make_base_chunk(line: &String, local_deleted: bool, remote_deleted: bool, at: usize) -> (chunk:
    MergeChunk)
    ensures
        chunk@ == base_chunk(line@, local_deleted, remote_deleted, at as nat),
{
    let chunk_type = if local_deleted == remote_deleted {
        ChunkType::Equal
    } else if local_deleted {
        ChunkType::LocalOnly
    } else {
        ChunkType::RemoteOnly
    };
    let mut local_lines: Vec<String> = Vec::new();
    let mut remote_lines: Vec<String> = Vec::new();
    if !local_deleted {
        local_lines.push(line.clone());
    }
    if !remote_deleted {
        remote_lines.push(line.clone());
    }
    proof {
        if local_deleted {
            assert(local_lines.deep_view() =~= Seq::<Seq<char>>::empty());
        } else {
            assert(local_lines.deep_view() =~= seq![line@]);
        }
        if remote_deleted {
            assert(remote_lines.deep_view() =~= Seq::<Seq<char>>::empty());
        } else {
            assert(remote_lines.deep_view() =~= seq![line@]);
        }
    }
    MergeChunk { chunk_type, base_start: at, base_count: 1, local_lines, remote_lines }
}

/// Adds a region at the end of the list, joined to the last region where
/// the two join.
pub fn push_chunk(chunks: &mut Vec<MergeChunk>, chunk: MergeChunk)
    requires
        covered(old(chunks).deep_view()) + chunk.base_count <= usize::MAX,
    ensures
        final(chunks).deep_view() == add_chunk(old(chunks).deep_view(), chunk@),
{
    let n = chunks.len();
    let join = n > 0 && chunks[n - 1].chunk_type == chunk.chunk_type && chunk.chunk_type
        != ChunkType::Conflict;
    if join {
        let mut last = chunks.pop().unwrap();
        let mut chunk = chunk;
        let ghost a = last@;
        let ghost b = chunk@;
        last.base_count = last.base_count + chunk.base_count;
        last.local_lines.append(&mut chunk.local_lines);
        last.remote_lines.append(&mut chunk.remote_lines);
        proof {
            assert(last.local_lines.deep_view() =~= a.local_lines + b.local_lines);
            assert(last.remote_lines.deep_view() =~= a.remote_lines + b.remote_lines);
        }
        chunks.push(last);
    } else {
        chunks.push(chunk);
    }
}

/// The insertions recorded before position `pos`, or none.
fn inserts_for<'a>(
    edits: &'a SideEdits,
    pos: usize,
    none: &'a Vec<String>,
    Ghost(changes): Ghost<Seq<ChangeView>>,
) -> (lines: &'a Vec<String>)
    requires
        edits.records(changes),
        none.len() == 0,
    ensures
        lines.deep_view() == inserts_at(changes, pos as nat),
{
    broadcast use vstd::std_specs::hash::group_hash_axioms;

    match edits.inserts.get(&pos) {
        Some(lines) => lines,
        None => {
            assert(inserts_at(changes, pos as nat).len() == 0);
            none
        },
    }
}

/// Whether the side deletes base line `pos`.
fn deletes_line(edits: &SideEdits, pos: usize, Ghost(changes): Ghost<Seq<ChangeView>>) -> (deleted:
    bool)
    requires
        edits.records(changes),
    ensures
        deleted == deleted_at(changes, pos as nat),
{
    broadcast use vstd::std_specs::hash::group_hash_axioms;

    edits.deletes.contains(&pos)
}

/// Merges two edit scripts that start from the same base.
///
/// For each base position, from the first line to the position after the
/// last, the insertions of the two sides come first: those of the only side
/// that inserts there, or the shared ones once, or a conflict block. The
/// base line follows unless a side deletes it. The emitted lines are joined
/// by single line feeds. The regions of the merge are listed beside the
/// text.
pub fn merge_changes(
    base_lines: &Vec<String>,
    local: &Vec<LineChange>,
    remote: &Vec<LineChange>,
) -> (r: MergeResult)
    ensures
        r@ == merge_of(base_lines.deep_view(), local.deep_view(), remote.deep_view()),
        r.merged_content@ == join_lines(render_all(r.chunks.deep_view())),
        r.conflict_count == conflict_chunks(r.chunks.deep_view()),
        covered(r.chunks.deep_view()) == base_lines.len(),
        tiled(r.chunks.deep_view()),
{
    let ghost base = base_lines.deep_view();
    let ghost lc = local.deep_view();
    let ghost rc = remote.deep_view();
    let local_edits = collect_edits(local);
    let remote_edits = collect_edits(remote);
    let none: Vec<String> = Vec::new();
    let mut merged: Vec<String> = Vec::new();
    let mut chunks: Vec<MergeChunk> = Vec::new();
    let mut conflict_count: usize = 0;
    let mut i: usize = 0;
    while i < base_lines.len()
        invariant
            i <= base_lines.len(),
            base == base_lines.deep_view(),
            lc == local.deep_view(),
            rc == remote.deep_view(),
            local_edits.records(lc),
            remote_edits.records(rc),
            none.len() == 0,
            merged.deep_view() == merged_lines_upto(base, lc, rc, i as nat),
            chunks.deep_view() == chunks_upto(base, lc, rc, i as nat),
            conflict_count == conflicts_upto(lc, rc, i as nat),
        decreases base_lines.len() - i,
    {
        let local_ins = inserts_for(&local_edits, i, &none, Ghost(lc));
        let remote_ins = inserts_for(&remote_edits, i, &none, Ghost(rc));
        let conflict = push_insertions(&mut merged, local_ins, remote_ins);
        if conflict {
            proof {
                lemma_conflicts_bound(lc, rc, (i + 1) as nat);
                assert(lc.len() == local.len());
            }
            conflict_count += 1;
        }
        proof {
            lemma_chunks_upto(base, lc, rc, i as nat);
        }
        match make_insertion_chunk(local_ins, remote_ins, i) {
            Some(chunk) => {
                push_chunk(&mut chunks, chunk);
            },
            None => {},
        }
        let local_deleted = deletes_line(&local_edits, i, Ghost(lc));
        let remote_deleted = deletes_line(&remote_edits, i, Ghost(rc));
        if !local_deleted && !remote_deleted {
            let ghost before = merged.deep_view();
            merged.push(base_lines[i].clone());
            assert(merged.deep_view() =~= before + seq![base[i as int]]);
        }
        proof {
            match insertion_chunk(inserts_at(lc, i as nat), inserts_at(rc, i as nat), i as nat) {
                Some(c) => {
                    lemma_add_chunk(chunks_upto(base, lc, rc, i as nat), c);
                },
                None => {},
            }
        }
        push_chunk(&mut chunks, make_base_chunk(&base_lines[i], local_deleted, remote_deleted, i));
        i += 1;
    }
    let local_ins = inserts_for(&local_edits, i, &none, Ghost(lc));
    let remote_ins = inserts_for(&remote_edits, i, &none, Ghost(rc));
    let conflict = push_insertions(&mut merged, local_ins, remote_ins);
    if conflict {
        proof {
            lemma_conflicts_bound(lc, rc, (i + 1) as nat);
            assert(lc.len() == local.len());
        }
        conflict_count += 1;
    }
    proof {
        lemma_chunks_upto(base, lc, rc, i as nat);
    }
    match make_insertion_chunk(local_ins, remote_ins, i) {
        Some(chunk) => {
            push_chunk(&mut chunks, chunk);
        },
        None => {},
    }
    proof {
        lemma_chunks_are_the_merge(base, lc, rc);
    }
    let merged_content = join_with_newlines(&merged);
    MergeResult { chunks, conflict_count, merged_content }
}

/// The changes walk over as many base lines as their old side holds.
pub proof fn lemma_base_passed_is_old_len(changes: Seq<ChangeView>)
    ensures
        old_side(changes).len() == base_passed(changes),
    decreases changes.len(),
{
    if changes.len() > 0 {
        lemma_base_passed_is_old_len(changes.drop_last());
    }
}

/// An edit script of equal lines inserts and deletes nothing.
pub proof fn lemma_all_equal_edits(changes: Seq<ChangeView>, pos: nat)
    requires
        all_equal(changes),
    ensures
        inserts_at(changes, pos) == Seq::<Seq<char>>::empty(),
        !deleted_at(changes, pos),
    decreases changes.len(),
{
    if changes.len() > 0 {
        let rest = changes.drop_last();
        lemma_all_equal_edits(rest, pos);
    }
}

/// Where neither side changes anything, the merge emits the base lines,
/// one at each position, and finds no conflict.
proof fn lemma_unchanged_upto(
    base: Seq<Seq<char>>,
    local: Seq<ChangeView>,
    remote: Seq<ChangeView>,
    n: nat,
)
    requires
        all_equal(local),
        all_equal(remote),
    ensures
        merged_lines_upto(base, local, remote, n) == if n <= base.len() {
            base.take(n as int)
        } else {
            base
        },
        conflicts_upto(local, remote, n) == 0,
    decreases n,
{
    if n > 0 {
        let i = (n - 1) as nat;
        lemma_unchanged_upto(base, local, remote, i);
        lemma_all_equal_edits(local, i);
        lemma_all_equal_edits(remote, i);
    }
}

/// Where neither side changes anything, the merge is the base: its lines
/// joined, and no conflict.
pub proof fn lemma_merge_unchanged(
    base: Seq<Seq<char>>,
    local: Seq<ChangeView>,
    remote: Seq<ChangeView>,
)
    requires
        all_equal(local),
        all_equal(remote),
    ensures
        merge_of(base, local, remote).conflict_count == 0,
        merge_of(base, local, remote).merged_content == join_lines(base),
{
    lemma_unchanged_upto(base, local, remote, base.len() + 1);
}

/// Two sides that make the same changes never conflict.
pub proof fn lemma_same_changes_agree(changes: Seq<ChangeView>, n: nat)
    ensures
        conflicts_upto(changes, changes, n) == 0,
    decreases n,
{
    if n > 0 {
        lemma_same_changes_agree(changes, (n - 1) as nat);
    }
}

/// What a script makes the merge emit below the line that its last change
/// touches does not depend on that change.
proof fn lemma_steps_below(base: Seq<Seq<char>>, changes: Seq<ChangeView>, n: nat)
    requires
        changes.len() > 0,
        n <= base_passed(changes.drop_last()),
    ensures
        merged_lines_upto(base, changes, changes, n) == merged_lines_upto(
            base,
            changes.drop_last(),
            changes.drop_last(),
            n,
        ),
    decreases n,
{
    if n > 0 {
        lemma_steps_below(base, changes, (n - 1) as nat);
    }
}

/// What the merge of a script with itself has emitted once it has passed
/// the lines of the script: every position below the end, and the
/// insertions at the end.
pub open spec fn merged_through(base: Seq<Seq<char>>, changes: Seq<ChangeView>) -> Seq<Seq<char>> {
    let end = base_passed(changes);
    merged_lines_upto(base, changes, changes, end) + trim_all(inserts_at(changes, end))
}

/// Where both sides make the same changes, and every line is emitted as it
/// stands in the new text without its terminator, the merge emits the lines
/// of the new text.
pub proof fn lemma_merge_same_changes(base: Seq<Seq<char>>, changes: Seq<ChangeView>)
    requires
        base.len() >= base_passed(changes),
        forall|j: int|
            0 <= j < old_side(changes).len() ==> #[trigger] base[j] == strip_line_ending(
                old_side(changes)[j],
            ),
        forall|j: int|
            0 <= j < new_side(changes).len() ==> trim_end(#[trigger] new_side(changes)[j])
                == strip_line_ending(new_side(changes)[j]),
    ensures
        merged_through(base, changes) == strip_all(new_side(changes)),
    decreases changes.len(),
{
    if changes.len() > 0 {
        let rest = changes.drop_last();
        let c = changes.last();
        let m = base_passed(rest);
        lemma_base_passed_is_old_len(rest);
        assert forall|j: int| 0 <= j < new_side(rest).len() implies trim_end(
            #[trigger] new_side(rest)[j],
        ) == strip_line_ending(new_side(rest)[j]) by {
            assert(new_side(rest)[j] == new_side(changes)[j]);
        }
        lemma_merge_same_changes(base, rest);
        lemma_steps_below(base, changes, m);
        lemma_nothing_beyond(rest, m);
        lemma_nothing_beyond(rest, m + 1);
        match c.tag {
            LineTag::Insert => {
                assert(strip_all(new_side(changes)) =~= strip_all(new_side(rest)).push(
                    strip_line_ending(c.value),
                ));
            },
            LineTag::Equal => {
                assert(strip_all(new_side(changes)) =~= strip_all(new_side(rest)).push(
                    strip_line_ending(c.value),
                ));
            },
            LineTag::Delete => {},
        }
    }
}

/// An edit script to an empty text deletes every line that it passes and
/// inserts nothing.
proof fn lemma_script_to_nothing(changes: Seq<ChangeView>, pos: nat)
    requires
        new_side(changes).len() == 0,
    ensures
        inserts_at(changes, pos) == Seq::<Seq<char>>::empty(),
        pos < base_passed(changes) ==> deleted_at(changes, pos),
    decreases changes.len(),
{
    if changes.len() > 0 {
        lemma_script_to_nothing(changes.drop_last(), pos);
    }
}

/// An edit script to an empty text makes the merge emit nothing.
proof fn lemma_nothing_upto(base: Seq<Seq<char>>, changes: Seq<ChangeView>, n: nat)
    requires
        new_side(changes).len() == 0,
        base.len() <= base_passed(changes),
    ensures
        merged_lines_upto(base, changes, changes, n) == Seq::<Seq<char>>::empty(),
    decreases n,
{
    if n > 0 {
        let at = (n - 1) as nat;
        lemma_nothing_upto(base, changes, at);
        lemma_script_to_nothing(changes, at);
    }
}

/// Where both sides hold the same text, the merge is that text and nothing
/// conflicts. This is stated for the texts that the merge gives back
/// whatever the edit script: the new text is empty, or the base has no bare
/// carriage return and the new text has none either, is the join of its own
/// lines, and has no line that ends in white space.
pub proof fn lemma_merge_same_text(base: Seq<char>, new: Seq<char>, changes: Seq<ChangeView>)
    requires
        is_edit_script(changes, line_tokens(base), line_tokens(new)),
        new.len() == 0 || no_bare_cr(base),
        no_bare_cr(new),
        lines_trimmed(new),
        is_line_joined(new),
    ensures
        merge_of(text_lines(base), changes, changes).conflict_count == 0,
        merge_of(text_lines(base), changes, changes).merged_content == new,
{
    let lines = text_lines(base);
    lemma_same_changes_agree(changes, lines.len() + 1);
    lemma_base_passed_is_old_len(changes);
    if new.len() == 0 {
        lemma_lines_le_tokens(base, 0, 0);
        lemma_nothing_upto(lines, changes, lines.len() + 1);
    } else {
        lemma_lines_are_stripped_tokens(base, 0);
        lemma_lines_are_stripped_tokens(new, 0);
        assert forall|j: int| 0 <= j < new_side(changes).len() implies trim_end(
            #[trigger] new_side(changes)[j],
        ) == strip_line_ending(new_side(changes)[j]) by {
            let token = new_side(changes)[j];
            lemma_trim_ignores_ending(token);
            assert(text_lines(new)[j] == strip_line_ending(token));
        }
        lemma_merge_same_changes(lines, changes);
    }
}

/// The three-way merge of `local` and `remote`, two edits of `base`.
///
/// The lines of the base are those of [`text_lines`]; the two edit scripts
/// are the line diffs from `base` to each side.
///
/// Three identical texts merge without conflict into the lines of the text
/// joined by line feeds, which is the text itself where it is line-joined.
/// Two identical sides never conflict, and merge into their own text where
/// the merge can give it back: see [`lemma_merge_same_text`].
///
/// The base and each side must be small enough for the diff engine: see
/// [`diffable`].
pub fn compute_three_way_diff(base: &str, local: &str, remote: &str) -> (r: MergeResult)
    requires
        diffable(base@, local@),
        diffable(base@, remote@),
    ensures
        r@ == merge_of(
            text_lines(base@),
            similar_line_changes(base@, local@),
            similar_line_changes(base@, remote@),
        ),
        r.merged_content@ == join_lines(render_all(r.chunks.deep_view())),
        r.conflict_count == conflict_chunks(r.chunks.deep_view()),
        covered(r.chunks.deep_view()) == text_lines(base@).len(),
        tiled(r.chunks.deep_view()),
        is_edit_script(
            similar_line_changes(base@, local@),
            line_tokens(base@),
            line_tokens(local@),
        ),
        is_edit_script(
            similar_line_changes(base@, remote@),
            line_tokens(base@),
            line_tokens(remote@),
        ),
        base@ == local@ && base@ == remote@ ==> r.conflict_count == 0 && r.merged_content@
            == join_lines(text_lines(base@)),
        base@ == local@ && base@ == remote@ && is_line_joined(base@) ==> r.merged_content@
            == base@,
        local@ == remote@ ==> r.conflict_count == 0,
        local@ == remote@ && (local@.len() == 0 || no_bare_cr(base@)) && no_bare_cr(local@)
            && lines_trimmed(local@) && is_line_joined(local@) ==> r.merged_content@ == local@,
{
    let local_changes = line_changes(base, local);
    let remote_changes = line_changes(base, remote);
    let base_lines = split_lines(base);
    proof {
        let lc = local_changes.deep_view();
        let rc = remote_changes.deep_view();
        if base@ == local@ && base@ == remote@ {
            lemma_merge_unchanged(text_lines(base@), lc, rc);
        }
        if local@ == remote@ {
            lemma_same_changes_agree(lc, text_lines(base@).len() + 1);
            if (local@.len() == 0 || no_bare_cr(base@)) && no_bare_cr(local@) && lines_trimmed(
                local@,
            ) && is_line_joined(local@) {
                lemma_merge_same_text(base@, local@, lc);
            }
        }
    }
    merge_changes(&base_lines, &local_changes, &remote_changes)
}

/// The three-way merge of `local` and `remote`, or `None` where the base
/// and a side are too large to be diffed. Whatever the texts, a merge that
/// is given has no conflict where the two sides are the same, and is the
/// text itself where all three are the same line-joined text.
pub fn try_compute_three_way_diff(base: &str, local: &str, remote: &str) -> (r: Option<
    MergeResult,
>)
    ensures
        r is Some <==> diffable(base@, local@) && diffable(base@, remote@),
        r matches Some(merge) ==> {
            &&& merge@ == merge_of(
                text_lines(base@),
                similar_line_changes(base@, local@),
                similar_line_changes(base@, remote@),
            )
            &&& merge.merged_content@ == join_lines(render_all(merge.chunks.deep_view()))
            &&& merge.conflict_count == conflict_chunks(merge.chunks.deep_view())
            &&& base@ == local@ && base@ == remote@ ==> merge.conflict_count == 0
                && merge.merged_content@ == join_lines(text_lines(base@))
            &&& base@ == local@ && base@ == remote@ && is_line_joined(base@)
                ==> merge.merged_content@ == base@
            &&& local@ == remote@ ==> merge.conflict_count == 0
            &&& local@ == remote@ && (local@.len() == 0 || no_bare_cr(base@)) && no_bare_cr(
                local@,
            ) && lines_trimmed(local@) && is_line_joined(local@) ==> merge.merged_content@
                == local@
        },
{
    if can_diff(base, local) && can_diff(base, remote) {
        Some(compute_three_way_diff(base, local, remote))
    } else {
        None
    }
}

} // verus!
