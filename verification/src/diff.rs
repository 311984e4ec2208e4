//! Two-way line diff: the edit script between two texts and its counts.

use crate::text::{count_line_tokens, line_tokens};
use vstd::prelude::*;

verus! {

/// What a change does to a line.
#[derive(Clone, Copy, Debug, PartialEq, Eq, Structural)]
pub enum LineTag {
    /// The line stands in both texts.
    Equal,
    /// The line stands in the new text only.
    Insert,
    /// The line stands in the old text only.
    Delete,
}

/// One step of an edit script, as the diff engine reports it.
#[derive(Clone, Debug)]
pub struct LineChange {
    pub tag: LineTag,
    /// Ordinal of the line in the old text, for equal and deleted lines.
    pub old_index: Option<usize>,
    /// Ordinal of the line in the new text, for equal and inserted lines.
    pub new_index: Option<usize>,
    /// The line with its terminator.
    pub value: String,
}

/// Mathematical value of a [`LineChange`].
pub struct ChangeView {
    pub tag: LineTag,
    pub old_index: Option<usize>,
    pub new_index: Option<usize>,
    pub value: Seq<char>,
}

impl View for LineChange {
    type V = ChangeView;

    open spec fn view(&self) -> ChangeView {
        ChangeView {
            tag: self.tag,
            old_index: self.old_index,
            new_index: self.new_index,
            value: self.value@,
        }
    }
}

impl DeepView for LineChange {
    type V = ChangeView;

    open spec fn deep_view(&self) -> ChangeView {
        self@
    }
}

/// One line of a diff.
#[derive(Debug)]
pub struct DiffLine {
    /// `"equal"`, `"insert"` or `"delete"`.
    pub tag: String,
    pub old_index: Option<usize>,
    pub new_index: Option<usize>,
    /// The line with its terminator.
    pub value: String,
}

/// Mathematical value of a [`DiffLine`].
pub struct DiffLineView {
    pub tag: Seq<char>,
    pub old_index: Option<usize>,
    pub new_index: Option<usize>,
    pub value: Seq<char>,
}

impl View for DiffLine {
    type V = DiffLineView;

    open spec fn view(&self) -> DiffLineView {
        DiffLineView {
            tag: self.tag@,
            old_index: self.old_index,
            new_index: self.new_index,
            value: self.value@,
        }
    }
}

impl DeepView for DiffLine {
    type V = DiffLineView;

    open spec fn deep_view(&self) -> DiffLineView {
        self@
    }
}

/// How many lines a diff adds, removes and keeps.
#[derive(Clone, Copy, Debug, PartialEq, Eq, Structural)]
pub struct DiffStats {
    pub additions: usize,
    pub deletions: usize,
    pub unchanged: usize,
}

/// A diff: its lines in unified-diff order, and their counts.
#[derive(Debug)]
pub struct DiffResult {
    pub lines: Vec<DiffLine>,
    pub stats: DiffStats,
}

/// The name a tag carries in a [`DiffLine`].
pub open spec fn tag_name(tag: LineTag) -> Seq<char> {
    match tag {
        LineTag::Equal => "equal"@,
        LineTag::Insert => "insert"@,
        LineTag::Delete => "delete"@,
    }
}

/// The three tag names differ from each other.
pub proof fn lemma_tag_names_differ()
    ensures
        "equal"@ != "insert"@,
        "equal"@ != "delete"@,
        "insert"@ != "delete"@,
{
    reveal_strlit("equal");
    reveal_strlit("insert");
    reveal_strlit("delete");
    assert("equal"@.len() == 5);
    assert("insert"@[0] == 'i');
}

/// Number of changes that carry `tag`.
pub open spec fn count_tag(changes: Seq<ChangeView>, tag: LineTag) -> nat
    decreases changes.len(),
{
    if changes.len() == 0 {
        0
    } else {
        count_tag(changes.drop_last(), tag) + if changes.last().tag == tag {
            1nat
        } else {
            0nat
        }
    }
}

/// The lines of the old text that the changes walk over: the values of the
/// equal and deleted changes, in order.
pub open spec fn old_side(changes: Seq<ChangeView>) -> Seq<Seq<char>>
    decreases changes.len(),
{
    if changes.len() == 0 {
        Seq::empty()
    } else if changes.last().tag == LineTag::Insert {
        old_side(changes.drop_last())
    } else {
        old_side(changes.drop_last()).push(changes.last().value)
    }
}

/// The lines of the new text that the changes walk over: the values of the
/// equal and inserted changes, in order.
pub open spec fn new_side(changes: Seq<ChangeView>) -> Seq<Seq<char>>
    decreases changes.len(),
{
    if changes.len() == 0 {
        Seq::empty()
    } else if changes.last().tag == LineTag::Delete {
        new_side(changes.drop_last())
    } else {
        new_side(changes.drop_last()).push(changes.last().value)
    }
}

/// A change holds an old index exactly when it is no insertion, and a new
/// index exactly when it is no deletion.
pub open spec fn change_wf(c: ChangeView) -> bool {
    &&& c.old_index is Some <==> c.tag != LineTag::Insert
    &&& c.new_index is Some <==> c.tag != LineTag::Delete
}

/// The change at `k` points at the next line of each side that it touches.
pub open spec fn change_in_step(changes: Seq<ChangeView>, k: int) -> bool {
    let c = changes[k];
    &&& c.tag != LineTag::Insert ==> c.old_index == Some(
        old_side(changes.take(k)).len() as usize,
    )
    &&& c.tag != LineTag::Delete ==> c.new_index == Some(
        new_side(changes.take(k)).len() as usize,
    )
}

/// `changes` is an edit script from the lines `old` to the lines `new`: its
/// equal and deleted changes are the old lines in order, its equal and
/// inserted changes are the new lines in order, and each change carries the
/// ordinal of the line it stands for.
pub open spec fn is_edit_script(
    changes: Seq<ChangeView>,
    old: Seq<Seq<char>>,
    new: Seq<Seq<char>>,
) -> bool {
    &&& old_side(changes) == old
    &&& new_side(changes) == new
    &&& forall|k: int| 0 <= k < changes.len() ==> change_wf(#[trigger] changes[k])
    &&& forall|k: int| 0 <= k < changes.len() ==> #[trigger] change_in_step(changes, k)
}

/// Every change is an equal line.
pub open spec fn all_equal(changes: Seq<ChangeView>) -> bool {
    forall|k: int| 0 <= k < changes.len() ==> (#[trigger] changes[k]).tag == LineTag::Equal
}

/// The changes that `similar::TextDiff::from_lines` finds between two texts,
/// in the order of `iter_all_changes`.
pub uninterp spec fn similar_line_changes(old: Seq<char>, new: Seq<char>) -> Seq<ChangeView>;

/// The two texts are small enough for the diff engine, which numbers
/// their distinct lines with 32 bits: together they have at most
/// `u32::MAX` line tokens.
pub open spec fn diffable(old: Seq<char>, new: Seq<char>) -> bool {
    line_tokens(old).len() + line_tokens(new).len() <= u32::MAX
}

/// Whether the two texts are small enough to be diffed.
pub fn can_diff(old: &str, new: &str) -> (yes: bool)
    ensures
        yes == diffable(old@, new@),
{
    let a: u64 = count_line_tokens(old) as u64;
    let b: u64 = count_line_tokens(new) as u64;
    a <= 0xFFFF_FFFF && b <= 0xFFFF_FFFF && a + b <= 0xFFFF_FFFF
}

/// Runs the line diff of the `similar` crate: `TextDiff::from_lines(old, new)`
/// with its default configuration (Myers, no deadline), flattened by
/// `iter_all_changes`.
///
/// Trusted: the result depends on the two texts alone; it is an edit script
/// from the line tokens of `old` to those of `new`; and two identical texts
/// give equal lines only, since the engine strips the common prefix before
/// it searches. The texts are required to have no more lines than the
/// 32-bit numbers that the engine gives to distinct lines can tell apart.
#[verifier::external_body]
pub(crate) fn line_changes(old: &str, new: &str) -> (changes: Vec<LineChange>)
    requires
        diffable(old@, new@),
    ensures
        changes.deep_view() == similar_line_changes(old@, new@),
        is_edit_script(changes.deep_view(), line_tokens(old@), line_tokens(new@)),
        old@ == new@ ==> all_equal(changes.deep_view()),
{
    let diff = similar::TextDiff::from_lines(old, new);
    diff.iter_all_changes().map(|c| LineChange {
        tag: match c.tag() {
            similar::ChangeTag::Equal => LineTag::Equal,
            similar::ChangeTag::Insert => LineTag::Insert,
            similar::ChangeTag::Delete => LineTag::Delete,
        },
        old_index: c.old_index(),
        new_index: c.new_index(),
        value: c.value().to_string(),
    }).collect()
}

/// The diff line that stands for a change.
pub open spec fn diff_line_of(c: ChangeView) -> DiffLineView {
    DiffLineView {
        tag: tag_name(c.tag),
        old_index: if c.tag == LineTag::Insert {
            None
        } else {
            c.old_index
        },
        new_index: if c.tag == LineTag::Delete {
            None
        } else {
            c.new_index
        },
        value: c.value,
    }
}

/// The diff lines that stand for an edit script.
pub open spec fn diff_lines_of(changes: Seq<ChangeView>) -> Seq<DiffLineView> {
    Seq::new(changes.len(), |i: int| diff_line_of(changes[i]))
}

/// Number of diff lines tagged `name`.
pub open spec fn count_named(lines: Seq<DiffLineView>, name: Seq<char>) -> nat
    decreases lines.len(),
{
    if lines.len() == 0 {
        0
    } else {
        count_named(lines.drop_last(), name) + if lines.last().tag == name {
            1nat
        } else {
            0nat
        }
    }
}

impl DiffLineView {
    /// The tag is one of the three names; the old index is present exactly
    /// for equal and deleted lines, the new index exactly for equal and
    /// inserted lines.
    pub open spec fn wf(self) -> bool {
        &&& self.tag == "equal"@ || self.tag == "insert"@ || self.tag == "delete"@
        &&& self.old_index is Some <==> self.tag == "equal"@ || self.tag == "delete"@
        &&& self.new_index is Some <==> self.tag == "equal"@ || self.tag == "insert"@
    }
}

impl DiffResult {
    /// Every line is well formed and the counts are those of the lines.
    pub open spec fn wf(&self) -> bool {
        let lines = self.lines.deep_view();
        &&& forall|i: int| 0 <= i < lines.len() ==> (#[trigger] lines[i]).wf()
        &&& self.stats.additions == count_named(lines, "insert"@)
        &&& self.stats.deletions == count_named(lines, "delete"@)
        &&& self.stats.unchanged == count_named(lines, "equal"@)
    }
}

/// Each side of an edit script is as long as the changes that touch it
/// are many.
pub proof fn lemma_side_lengths(changes: Seq<ChangeView>)
    ensures
        old_side(changes).len() == count_tag(changes, LineTag::Equal) + count_tag(
            changes,
            LineTag::Delete,
        ),
        new_side(changes).len() == count_tag(changes, LineTag::Equal) + count_tag(
            changes,
            LineTag::Insert,
        ),
        changes.len() == count_tag(changes, LineTag::Equal) + count_tag(changes, LineTag::Insert)
            + count_tag(changes, LineTag::Delete),
    decreases changes.len(),
{
    if changes.len() > 0 {
        lemma_side_lengths(changes.drop_last());
    }
}

/// Where every change is an equal line, nothing is inserted or deleted.
pub proof fn lemma_all_equal_counts(changes: Seq<ChangeView>)
    requires
        all_equal(changes),
    ensures
        count_tag(changes, LineTag::Insert) == 0,
        count_tag(changes, LineTag::Delete) == 0,
        count_tag(changes, LineTag::Equal) == changes.len(),
    decreases changes.len(),
{
    if changes.len() > 0 {
        let rest = changes.drop_last();
        lemma_all_equal_counts(rest);
    }
}

/// An edit script inserts and keeps as many lines as the new text has, and
/// deletes and keeps as many as the old text has.
pub proof fn lemma_edit_script_counts(
    changes: Seq<ChangeView>,
    old: Seq<Seq<char>>,
    new: Seq<Seq<char>>,
)
    requires
        is_edit_script(changes, old, new),
    ensures
        count_tag(changes, LineTag::Insert) + count_tag(changes, LineTag::Equal) == new.len(),
        count_tag(changes, LineTag::Delete) + count_tag(changes, LineTag::Equal) == old.len(),
{
    lemma_side_lengths(changes);
}

/// An edit script of equal lines only keeps every line of the text, and
/// inserts and deletes none.
pub proof fn lemma_identical_counts(changes: Seq<ChangeView>, lines: Seq<Seq<char>>)
    requires
        is_edit_script(changes, lines, lines),
        all_equal(changes),
    ensures
        count_tag(changes, LineTag::Insert) == 0,
        count_tag(changes, LineTag::Delete) == 0,
        count_tag(changes, LineTag::Equal) == lines.len(),
{
    lemma_side_lengths(changes);
    lemma_all_equal_counts(changes);
}

/// The diff lines named after a tag are as many as the changes that carry it.
pub proof fn lemma_count_named(changes: Seq<ChangeView>, tag: LineTag)
    ensures
        count_named(diff_lines_of(changes), tag_name(tag)) == count_tag(changes, tag),
    decreases changes.len(),
{
    lemma_tag_names_differ();
    if changes.len() > 0 {
        let lines = diff_lines_of(changes);
        assert(lines.drop_last() =~= diff_lines_of(changes.drop_last()));
        lemma_count_named(changes.drop_last(), tag);
    }
}

/// The diff of an edit script: one line for each change, and the counts of
/// the three tags.
pub fn diff_from_changes(changes: &Vec<LineChange>) -> (r: DiffResult)
    ensures
        r.lines.deep_view() == diff_lines_of(changes.deep_view()),
        r.stats.additions == count_tag(changes.deep_view(), LineTag::Insert),
        r.stats.deletions == count_tag(changes.deep_view(), LineTag::Delete),
        r.stats.unchanged == count_tag(changes.deep_view(), LineTag::Equal),
        (forall|k: int| 0 <= k < changes.len() ==> change_wf(#[trigger] changes.deep_view()[k]))
            ==> r.wf(),
{
    let ghost cv = changes.deep_view();
    let mut lines: Vec<DiffLine> = Vec::new();
    let mut additions: usize = 0;
    let mut deletions: usize = 0;
    let mut unchanged: usize = 0;
    let mut i: usize = 0;
    while i < changes.len()
        invariant
            i <= changes.len(),
            cv == changes.deep_view(),
            lines.deep_view() == diff_lines_of(cv.take(i as int)),
            additions == count_tag(cv.take(i as int), LineTag::Insert),
            deletions == count_tag(cv.take(i as int), LineTag::Delete),
            unchanged == count_tag(cv.take(i as int), LineTag::Equal),
            additions + deletions + unchanged == i,
        decreases changes.len() - i,
    {
        let change = &changes[i];
        assert(cv.take(i + 1).drop_last() == cv.take(i as int));
        let line = match change.tag {
            LineTag::Equal => {
                unchanged += 1;
                DiffLine {
                    tag: "equal".to_owned(),
                    old_index: change.old_index,
                    new_index: change.new_index,
                    value: change.value.clone(),
                }
            },
            LineTag::Insert => {
                additions += 1;
                DiffLine {
                    tag: "insert".to_owned(),
                    old_index: None,
                    new_index: change.new_index,
                    value: change.value.clone(),
                }
            },
            LineTag::Delete => {
                deletions += 1;
                DiffLine {
                    tag: "delete".to_owned(),
                    old_index: change.old_index,
                    new_index: None,
                    value: change.value.clone(),
                }
            },
        };
        let ghost before = lines.deep_view();
        lines.push(line);
        assert(lines.deep_view() =~= before.push(line@));
        i += 1;
    }
    let r = DiffResult { lines, stats: DiffStats { additions, deletions, unchanged } };
    proof {
        assert(cv.take(changes.len() as int) == cv);
        lemma_count_named(cv, LineTag::Insert);
        lemma_count_named(cv, LineTag::Delete);
        lemma_count_named(cv, LineTag::Equal);
        if forall|k: int| 0 <= k < changes.len() ==> change_wf(#[trigger] cv[k]) {
            lemma_tag_names_differ();
        }
    }
    r
}

/// The line diff of two texts.
///
/// Each text is split into lines that keep their terminators, and the
/// result lists one line for each step of the edit script between them.
/// Inserted and kept lines together are the lines of `right`, deleted and
/// kept lines together those of `left`; identical texts give kept lines
/// only, and two empty texts an empty diff.
///
/// The texts must be small enough for the diff engine: see [`diffable`]
/// and [`can_diff`].
pub fn compute_diff(left: &str, right: &str) -> (r: DiffResult)
    requires
        diffable(left@, right@),
    ensures
        r.lines.deep_view() == diff_lines_of(similar_line_changes(left@, right@)),
        is_edit_script(
            similar_line_changes(left@, right@),
            line_tokens(left@),
            line_tokens(right@),
        ),
        r.wf(),
        r.stats.additions == count_tag(similar_line_changes(left@, right@), LineTag::Insert),
        r.stats.deletions == count_tag(similar_line_changes(left@, right@), LineTag::Delete),
        r.stats.unchanged == count_tag(similar_line_changes(left@, right@), LineTag::Equal),
        r.lines.len() == r.stats.additions + r.stats.deletions + r.stats.unchanged,
        r.stats.additions + r.stats.unchanged == line_tokens(right@).len(),
        r.stats.deletions + r.stats.unchanged == line_tokens(left@).len(),
        left@ == right@ ==> {
            &&& r.stats.additions == 0
            &&& r.stats.deletions == 0
            &&& r.stats.unchanged == line_tokens(left@).len()
            &&& forall|i: int| 0 <= i < r.lines.len() ==> (#[trigger] r.lines[i]).tag@ == "equal"@
        },
{
    let changes = line_changes(left, right);
    let r = diff_from_changes(&changes);
    proof {
        let cv = changes.deep_view();
        lemma_side_lengths(cv);
        if left@ == right@ {
            lemma_all_equal_counts(cv);
            assert forall|i: int| 0 <= i < r.lines.len() implies (#[trigger] r.lines[i]).tag@
                == "equal"@ by {
                assert(r.lines.deep_view()[i] == diff_line_of(cv[i]));
            }
        }
    }
    r
}

/// The line diff of two texts, or `None` where they are too large to be
/// diffed. Whatever the texts, a diff that is given inserts and keeps as
/// many lines as `right` has, deletes and keeps as many as `left` has, and
/// holds kept lines only where the texts are the same.
pub fn try_compute_diff(left: &str, right: &str) -> (r: Option<DiffResult>)
    ensures
        r is Some <==> diffable(left@, right@),
        r matches Some(diff) ==> {
            let changes = similar_line_changes(left@, right@);
            &&& diff.wf()
            &&& diff.lines.deep_view() == diff_lines_of(changes)
            &&& is_edit_script(changes, line_tokens(left@), line_tokens(right@))
            &&& diff.stats.additions == count_tag(changes, LineTag::Insert)
            &&& diff.stats.deletions == count_tag(changes, LineTag::Delete)
            &&& diff.stats.unchanged == count_tag(changes, LineTag::Equal)
            &&& diff.lines.len() == diff.stats.additions + diff.stats.deletions
                + diff.stats.unchanged
            &&& diff.stats.additions + diff.stats.unchanged == line_tokens(right@).len()
            &&& diff.stats.deletions + diff.stats.unchanged == line_tokens(left@).len()
            &&& left@ == right@ ==> {
                &&& diff.stats.additions == 0
                &&& diff.stats.deletions == 0
                &&& diff.stats.unchanged == line_tokens(left@).len()
                &&& forall|i: int|
                    0 <= i < diff.lines.len() ==> (#[trigger] diff.lines[i]).tag@ == "equal"@
            }
        },
{
    if can_diff(left, right) {
        Some(compute_diff(left, right))
    } else {
        None
    }
}

} // verus!
