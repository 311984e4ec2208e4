//! The regions of a three-way merge: what both sides agree on, what one
//! side changed, and where they conflict.

use crate::text::trim_all;
use vstd::prelude::*;

verus! {

/// The kind of a region of a merge.
#[derive(Clone, Copy, Debug, PartialEq, Eq, Structural)]
pub enum ChunkType {
    /// Both sides hold the same lines: those of the base, or the same
    /// change of them.
    Equal,
    /// Only the local side changed the base here.
    LocalOnly,
    /// Only the remote side changed the base here.
    RemoteOnly,
    /// Both sides inserted lines here, and not the same ones.
    Conflict,
}

/// A region of a merge: a run of base lines, and what each side holds in
/// their place.
#[derive(Clone, Debug)]
pub struct MergeChunk {
    pub chunk_type: ChunkType,
    /// Ordinal of the first base line of the region.
    pub base_start: usize,
    /// Number of base lines in the region.
    pub base_count: usize,
    /// The lines of the local side, without terminators.
    pub local_lines: Vec<String>,
    /// The lines of the remote side, without terminators.
    pub remote_lines: Vec<String>,
}

/// Mathematical value of a [`MergeChunk`].
pub struct ChunkView {
    pub chunk_type: ChunkType,
    pub base_start: nat,
    pub base_count: nat,
    pub local_lines: Seq<Seq<char>>,
    pub remote_lines: Seq<Seq<char>>,
}

impl View for MergeChunk {
    type V = ChunkView;

    open spec fn view(&self) -> ChunkView {
        ChunkView {
            chunk_type: self.chunk_type,
            base_start: self.base_start as nat,
            base_count: self.base_count as nat,
            local_lines: self.local_lines.deep_view(),
            remote_lines: self.remote_lines.deep_view(),
        }
    }
}

impl DeepView for MergeChunk {
    type V = ChunkView;

    open spec fn deep_view(&self) -> ChunkView {
        self@
    }
}

/// The region of the lines that the two sides insert before base line
/// `at`, where a side inserts any: one-sided where one side inserts, equal
/// where both insert the same lines, a conflict where they differ. The
/// lines stand without trailing white space.
pub open spec fn insertion_chunk(local: Seq<Seq<char>>, remote: Seq<Seq<char>>, at: nat) -> Option<
    ChunkView,
> {
    if local.len() == 0 && remote.len() == 0 {
        None
    } else {
        Some(
            ChunkView {
                chunk_type: if local.len() == 0 {
                    ChunkType::RemoteOnly
                } else if remote.len() == 0 {
                    ChunkType::LocalOnly
                } else if local == remote {
                    ChunkType::Equal
                } else {
                    ChunkType::Conflict
                },
                base_start: at,
                base_count: 0,
                local_lines: trim_all(local),
                remote_lines: trim_all(remote),
            },
        )
    }
}

/// The region of base line `at`: equal where both sides keep it or both
/// delete it, one-sided where one side deletes it. A side that deletes the
/// line holds nothing in its place.
pub open spec fn base_chunk(
    line: Seq<char>,
    local_deleted: bool,
    remote_deleted: bool,
    at: nat,
) -> ChunkView {
    ChunkView {
        chunk_type: if local_deleted == remote_deleted {
            ChunkType::Equal
        } else if local_deleted {
            ChunkType::LocalOnly
        } else {
            ChunkType::RemoteOnly
        },
        base_start: at,
        base_count: 1,
        local_lines: if local_deleted {
            Seq::empty()
        } else {
            seq![line]
        },
        remote_lines: if remote_deleted {
            Seq::empty()
        } else {
            seq![line]
        },
    }
}

/// Two regions in a row that become one: they are of one kind, and no
/// conflicts.
pub open spec fn joins(a: ChunkView, b: ChunkView) -> bool {
    a.chunk_type == b.chunk_type && a.chunk_type != ChunkType::Conflict
}

/// The region that `a` and `b` make together.
pub open spec fn joined(a: ChunkView, b: ChunkView) -> ChunkView {
    ChunkView {
        chunk_type: a.chunk_type,
        base_start: a.base_start,
        base_count: a.base_count + b.base_count,
        local_lines: a.local_lines + b.local_lines,
        remote_lines: a.remote_lines + b.remote_lines,
    }
}

/// The regions with one more at their end, joined to the last where the
/// two join.
pub open spec fn add_chunk(chunks: Seq<ChunkView>, c: ChunkView) -> Seq<ChunkView> {
    if chunks.len() > 0 && joins(chunks.last(), c) {
        chunks.drop_last().push(joined(chunks.last(), c))
    } else {
        chunks.push(c)
    }
}

/// The lines that a region gives to the merged text: those of the side
/// that changed, or of both where they agree; round a conflict, the lines
/// of both sides between markers.
pub open spec fn render_chunk(c: ChunkView) -> Seq<Seq<char>> {
    match c.chunk_type {
        ChunkType::Equal => c.local_lines,
        ChunkType::LocalOnly => c.local_lines,
        ChunkType::RemoteOnly => c.remote_lines,
        ChunkType::Conflict => seq!["<<<<<<< LOCAL"@] + c.local_lines + seq!["======="@]
            + c.remote_lines + seq![">>>>>>> REMOTE"@],
    }
}

/// The lines that the regions give to the merged text.
pub open spec fn render_all(chunks: Seq<ChunkView>) -> Seq<Seq<char>>
    decreases chunks.len(),
{
    if chunks.len() == 0 {
        Seq::empty()
    } else {
        render_all(chunks.drop_last()) + render_chunk(chunks.last())
    }
}

/// Number of conflicts among the regions.
pub open spec fn conflict_chunks(chunks: Seq<ChunkView>) -> nat
    decreases chunks.len(),
{
    if chunks.len() == 0 {
        0
    } else {
        conflict_chunks(chunks.drop_last()) + if chunks.last().chunk_type == ChunkType::Conflict {
            1nat
        } else {
            0nat
        }
    }
}

/// Number of base lines that the regions cover.
pub open spec fn covered(chunks: Seq<ChunkView>) -> nat
    decreases chunks.len(),
{
    if chunks.len() == 0 {
        0
    } else {
        covered(chunks.drop_last()) + chunks.last().base_count
    }
}

/// The regions follow each other without gap from the first base line on:
/// each begins where those before it end.
pub open spec fn tiled(chunks: Seq<ChunkView>) -> bool {
    forall|k: int|
        0 <= k < chunks.len() ==> (#[trigger] chunks[k]).base_start == covered(chunks.take(k))
}

/// A region added at the end adds its lines, its conflict and its base
/// lines to those of the regions, whether it joins the last or not.
pub proof fn lemma_add_chunk(chunks: Seq<ChunkView>, c: ChunkView)
    ensures
        render_all(add_chunk(chunks, c)) == render_all(chunks) + render_chunk(c),
        conflict_chunks(add_chunk(chunks, c)) == conflict_chunks(chunks) + if c.chunk_type
            == ChunkType::Conflict {
            1nat
        } else {
            0nat
        },
        covered(add_chunk(chunks, c)) == covered(chunks) + c.base_count,
        add_chunk(chunks, c).len() > 0,
        add_chunk(chunks, c).last().base_count <= covered(add_chunk(chunks, c)),
{
    let out = add_chunk(chunks, c);
    if chunks.len() > 0 && joins(chunks.last(), c) {
        let rest = chunks.drop_last();
        assert(out.drop_last() =~= rest);
    } else {
        assert(out.drop_last() =~= chunks);
    }
}

/// Regions that tile the base still do once a region is added that begins
/// where they end.
pub proof fn lemma_add_chunk_tiled(chunks: Seq<ChunkView>, c: ChunkView)
    requires
        tiled(chunks),
        c.base_start == covered(chunks),
    ensures
        tiled(add_chunk(chunks, c)),
{
    let out = add_chunk(chunks, c);
    assert forall|k: int| 0 <= k < out.len() implies (#[trigger] out[k]).base_start == covered(
        out.take(k),
    ) by {
        if chunks.len() > 0 && joins(chunks.last(), c) {
            let last = chunks.len() - 1;
            assert(out.take(k) =~= chunks.take(k));
            if k < last {
                assert(out[k] == chunks[k]);
            }
        } else {
            if k < chunks.len() {
                assert(out.take(k) =~= chunks.take(k));
            } else {
                assert(out.take(k) =~= chunks);
            }
        }
    }
}

} // verus!
