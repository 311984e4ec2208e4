//! Character-level text utilities shared by the diff, merge and tree modules.

use vstd::prelude::*;

verus! {

/// `String::push` appends one character to the end of the string.
pub assume_specification[ String::push ](s: &mut String, ch: char)
    ensures
        final(s)@ == old(s)@.push(ch),
;

/// Collects the characters of a string slice.
pub fn chars_of(s: &str) -> (v: Vec<char>)
    ensures
        v@ == s@,
{
    let mut v: Vec<char> = Vec::new();
    for c in it: s.chars()
        invariant
            it.seq() == s@,
            v@ == s@.take(it.index() as int),
    {
        v.push(c);
    }
    v
}

/// Builds a string from the characters `chars[from..to]`.
pub fn string_of(chars: &Vec<char>, from: usize, to: usize) -> (s: String)
    requires
        from <= to <= chars.len(),
    ensures
        s@ == chars@.subrange(from as int, to as int),
{
    let mut s = String::new();
    let mut i: usize = from;
    while i < to
        invariant
            from <= i <= to <= chars.len(),
            s@ == chars@.subrange(from as int, i as int),
        decreases to - i,
    {
        s.push(chars[i]);
        i += 1;
    }
    s
}

/// Whether `c` carries the Unicode `White_Space` property.
pub open spec fn is_white_space(c: char) -> bool {
    let u = c as u32;
    ||| 0x09 <= u <= 0x0D
    ||| u == 0x20
    ||| u == 0x85
    ||| u == 0xA0
    ||| u == 0x1680
    ||| 0x2000 <= u <= 0x200A
    ||| u == 0x2028
    ||| u == 0x2029
    ||| u == 0x202F
    ||| u == 0x205F
    ||| u == 0x3000
}

/// Tests a character for the Unicode `White_Space` property.
pub fn is_whitespace_char(c: char) -> (b: bool)
    ensures
        b == is_white_space(c),
{
    let u: u32 = c as u32;
    (0x09 <= u && u <= 0x0D) || u == 0x20 || u == 0x85 || u == 0xA0 || u == 0x1680 || (0x2000 <= u
        && u <= 0x200A) || u == 0x2028 || u == 0x2029 || u == 0x202F || u == 0x205F || u == 0x3000
}

/// Length of `s` once its trailing white space is removed.
pub open spec fn trimmed_len(s: Seq<char>) -> nat
    decreases s.len(),
{
    if s.len() == 0 {
        0
    } else if is_white_space(s.last()) {
        trimmed_len(s.drop_last())
    } else {
        s.len()
    }
}

/// `s` without its trailing white space.
pub open spec fn trim_end(s: Seq<char>) -> Seq<char> {
    s.take(trimmed_len(s) as int)
}

/// Each line of `lines` without its trailing white space.
pub open spec fn trim_all(lines: Seq<Seq<char>>) -> Seq<Seq<char>> {
    Seq::new(lines.len(), |i: int| trim_end(lines[i]))
}

/// Trimming does not make a text longer.
pub proof fn lemma_trimmed_len_bound(s: Seq<char>)
    ensures
        trimmed_len(s) <= s.len(),
    decreases s.len(),
{
    if s.len() > 0 && is_white_space(s.last()) {
        lemma_trimmed_len_bound(s.drop_last());
    }
}

/// Removes trailing white space.
pub fn trim_end_of(s: &str) -> (r: String)
    ensures
        r@ == trim_end(s@),
{
    let chars = chars_of(s);
    let mut end: usize = chars.len();
    assert(chars@.take(end as int) == chars@);
    while end > 0 && is_whitespace_char(chars[end - 1])
        invariant
            end <= chars.len(),
            trimmed_len(chars@) == trimmed_len(chars@.take(end as int)),
        decreases end,
    {
        assert(chars@.take(end as int).drop_last() == chars@.take(end - 1));
        end -= 1;
    }
    string_of(&chars, 0, end)
}

/// Index just past the first line feed found at or after `i`, or the length
/// of `s` when there is none.
pub open spec fn line_end(s: Seq<char>, i: int) -> int
    decreases s.len() - i,
{
    if i >= s.len() {
        s.len() as int
    } else if s[i] == '\n' {
        i + 1
    } else {
        line_end(s, i + 1)
    }
}

/// A line that begins inside the text ends after its beginning, and
/// inside the text.
pub proof fn lemma_line_end_bounds(s: Seq<char>, i: int)
    requires
        0 <= i < s.len(),
    ensures
        i < line_end(s, i) <= s.len(),
    decreases s.len() - i,
{
    if s[i] != '\n' {
        if i + 1 < s.len() {
            lemma_line_end_bounds(s, i + 1);
        } else {
            assert(line_end(s, i + 1) == s.len());
        }
    }
}

/// A line without its terminator: a final line feed is removed, and then a
/// carriage return that stood right before it.
pub open spec fn strip_line_ending(l: Seq<char>) -> Seq<char> {
    if l.len() > 0 && l.last() == '\n' {
        let body = l.drop_last();
        if body.len() > 0 && body.last() == '\r' {
            body.drop_last()
        } else {
            body
        }
    } else {
        l
    }
}

/// The lines of `s` that begin at or after `start`, where `start` is the
/// beginning of a line.
pub open spec fn text_lines_from(s: Seq<char>, start: int) -> Seq<Seq<char>>
    decreases s.len() - start,
{
    if start < 0 || start >= s.len() {
        Seq::empty()
    } else {
        let end = line_end(s, start);
        proof {
            lemma_line_end_bounds(s, start);
        }
        seq![strip_line_ending(s.subrange(start, end))] + text_lines_from(s, end)
    }
}

/// The lines of a text. A line ends at a line feed; the line feed, and a
/// carriage return right before it, are not part of the line. The last line
/// needs no terminator, and an empty text has no lines.
pub open spec fn text_lines(s: Seq<char>) -> Seq<Seq<char>> {
    text_lines_from(s, 0)
}

/// Index just past the first line terminator found at or after `i`, or the
/// length of `s` when there is none. A terminator is a line feed, a carriage
/// return, or a carriage return followed by a line feed.
pub open spec fn token_end(s: Seq<char>, i: int) -> int
    decreases s.len() - i,
{
    if i >= s.len() {
        s.len() as int
    } else if s[i] == '\n' {
        i + 1
    } else if s[i] == '\r' {
        if i + 1 < s.len() && s[i + 1] == '\n' {
            i + 2
        } else {
            i + 1
        }
    } else {
        token_end(s, i + 1)
    }
}

/// A line token that begins inside the text ends after its beginning, and
/// inside the text.
pub proof fn lemma_token_end_bounds(s: Seq<char>, i: int)
    requires
        0 <= i < s.len(),
    ensures
        i < token_end(s, i) <= s.len(),
    decreases s.len() - i,
{
    if s[i] != '\n' && s[i] != '\r' {
        if i + 1 < s.len() {
            lemma_token_end_bounds(s, i + 1);
        } else {
            assert(token_end(s, i + 1) == s.len());
        }
    }
}

/// The line tokens of `s` that begin at or after `start`.
pub open spec fn line_tokens_from(s: Seq<char>, start: int) -> Seq<Seq<char>>
    decreases s.len() - start,
{
    if start < 0 || start >= s.len() {
        Seq::empty()
    } else {
        let end = token_end(s, start);
        proof {
            lemma_token_end_bounds(s, start);
        }
        seq![s.subrange(start, end)] + line_tokens_from(s, end)
    }
}

/// The lines of a text as a line diff sees them: each keeps its terminator,
/// so that the tokens concatenated give the text back. Besides a line feed,
/// a carriage return ends a line too, alone or followed by a line feed.
pub open spec fn line_tokens(s: Seq<char>) -> Seq<Seq<char>> {
    line_tokens_from(s, 0)
}

/// Counts the line tokens of a text.
pub fn count_line_tokens(text: &str) -> (count: usize)
    ensures
        count == line_tokens(text@).len(),
{
    let chars = chars_of(text);
    let len = chars.len();
    let mut count: usize = 0;
    let mut start: usize = 0;
    while start < len
        invariant
            start <= len == chars.len(),
            chars@ == text@,
            count <= start,
            count + line_tokens_from(chars@, start as int).len() == line_tokens(chars@).len(),
        decreases len - start,
    {
        let mut end: usize = start;
        while end < len && chars[end] != '\n' && chars[end] != '\r'
            invariant
                start <= end <= len == chars.len(),
                token_end(chars@, end as int) == token_end(chars@, start as int),
            decreases len - end,
        {
            end += 1;
        }
        let stop: usize = if end >= len {
            len
        } else if chars[end] == '\r' && end + 1 < len && chars[end + 1] == '\n' {
            end + 2
        } else {
            end + 1
        };
        assert(stop == token_end(chars@, start as int));
        count += 1;
        start = stop;
    }
    count
}

/// The lines joined by single line feeds, with none after the last.
pub open spec fn join_lines(lines: Seq<Seq<char>>) -> Seq<char>
    decreases lines.len(),
{
    if lines.len() == 0 {
        Seq::empty()
    } else if lines.len() == 1 {
        lines[0]
    } else {
        join_lines(lines.drop_last()) + seq!['\n'] + lines.last()
    }
}

/// Splits a text into its lines.
pub fn split_lines(text: &str) -> (lines: Vec<String>)
    ensures
        lines.deep_view() == text_lines(text@),
{
    let chars = chars_of(text);
    let n = chars.len();
    let mut lines: Vec<String> = Vec::new();
    let mut start: usize = 0;
    while start < n
        invariant
            start <= n == chars.len(),
            chars@ == text@,
            lines.deep_view() + text_lines_from(chars@, start as int) == text_lines(chars@),
        decreases n - start,
    {
        let mut end: usize = start;
        while end < n && chars[end] != '\n'
            invariant
                start <= end <= n == chars.len(),
                line_end(chars@, end as int) == line_end(chars@, start as int),
                forall|k: int| start <= k < end ==> chars@[k] != '\n',
            decreases n - end,
        {
            end += 1;
        }
        let stop: usize = if end < n {
            end + 1
        } else {
            n
        };
        let mut content_end: usize = end;
        if end < n && end > start && chars[end - 1] == '\r' {
            content_end = end - 1;
        }
        let line = string_of(&chars, start, content_end);
        proof {
            let raw = chars@.subrange(start as int, stop as int);
            if end < n {
                assert(raw.drop_last() == chars@.subrange(start as int, end as int));
                if end > start {
                    assert(raw.drop_last().drop_last() == chars@.subrange(
                        start as int,
                        end - 1,
                    ));
                }
            }
        }
        lines.push(line);
        start = stop;
    }
    lines
}

/// Joins lines with single line feeds.
pub fn join_with_newlines(lines: &Vec<String>) -> (s: String)
    ensures
        s@ == join_lines(lines.deep_view()),
{
    let mut s = String::new();
    let mut i: usize = 0;
    while i < lines.len()
        invariant
            i <= lines.len(),
            s@ == join_lines(lines.deep_view().take(i as int)),
        decreases lines.len() - i,
    {
        if i > 0 {
            s.push('\n');
        }
        s.append(lines[i].as_str());
        assert(lines.deep_view().take(i + 1).drop_last() == lines.deep_view().take(i as int));
        i += 1;
    }
    assert(lines.deep_view().take(lines.len() as int) == lines.deep_view());
    s
}

/// Each line without its terminator.
pub open spec fn strip_all(lines: Seq<Seq<char>>) -> Seq<Seq<char>> {
    Seq::new(lines.len(), |i: int| strip_line_ending(lines[i]))
}

/// Every carriage return that is not the last character of `s` stands
/// before a line feed.
pub open spec fn no_bare_cr(s: Seq<char>) -> bool {
    forall|i: int| 0 <= i && i + 1 < s.len() && #[trigger] s[i] == '\r' ==> s[i + 1] == '\n'
}

/// No carriage return of `s` stands before a line feed.
pub open spec fn no_crlf(s: Seq<char>) -> bool {
    forall|i: int| 0 <= i && i + 1 < s.len() && #[trigger] s[i] == '\r' ==> s[i + 1] != '\n'
}

/// The lines of `s`, joined by line feeds, give `s` back.
pub open spec fn is_line_joined(s: Seq<char>) -> bool {
    join_lines(text_lines(s)) == s
}

/// No line of `s` ends in white space.
pub open spec fn lines_trimmed(s: Seq<char>) -> bool {
    forall|i: int|
        0 <= i < text_lines(s).len() ==> trim_end(#[trigger] text_lines(s)[i]) == text_lines(s)[i]
}

/// Joining a first line and the rest.
pub proof fn lemma_join_first(first: Seq<char>, rest: Seq<Seq<char>>)
    ensures
        join_lines(seq![first] + rest) == if rest.len() == 0 {
            first
        } else {
            first + seq!['\n'] + join_lines(rest)
        },
    decreases rest.len(),
{
    if rest.len() > 0 {
        assert((seq![first] + rest).drop_last() =~= seq![first] + rest.drop_last());
        lemma_join_first(first, rest.drop_last());
    }
}

/// A text without a final line feed, and without a carriage return before
/// a line feed, is the join of its lines.
pub proof fn lemma_join_text_lines(s: Seq<char>, start: int)
    requires
        0 <= start <= s.len(),
        s.len() == 0 || s.last() != '\n',
        no_crlf(s),
    ensures
        join_lines(text_lines_from(s, start)) == s.subrange(start, s.len() as int),
    decreases s.len() - start,
{
    if start < s.len() {
        let end = line_end(s, start);
        lemma_line_end_bounds(s, start);
        lemma_line_end_shape(s, start);
        lemma_join_text_lines(s, end);
        lemma_join_first(strip_line_ending(s.subrange(start, end)), text_lines_from(s, end));
    }
}

/// A text without a final line feed, and without a carriage return before
/// a line feed, is line-joined.
pub proof fn lemma_plain_text_is_line_joined(s: Seq<char>)
    requires
        s.len() == 0 || s.last() != '\n',
        no_crlf(s),
    ensures
        is_line_joined(s),
{
    lemma_join_text_lines(s, 0);
    assert(s.subrange(0, s.len() as int) =~= s);
}

/// A line ends right after its line feed, or at the end of the text.
pub proof fn lemma_line_end_shape(s: Seq<char>, i: int)
    requires
        0 <= i < s.len(),
    ensures
        s[line_end(s, i) - 1] == '\n' || line_end(s, i) == s.len(),
    decreases s.len() - i,
{
    if s[i] != '\n' {
        if i + 1 < s.len() {
            lemma_line_end_shape(s, i + 1);
        } else {
            assert(line_end(s, i + 1) == s.len());
        }
    }
}

/// Without a bare carriage return, a line token ends where the line ends.
pub proof fn lemma_token_end_is_line_end(s: Seq<char>, i: int)
    requires
        0 <= i,
        no_bare_cr(s),
    ensures
        token_end(s, i) == line_end(s, i),
    decreases s.len() - i,
{
    if i < s.len() && s[i] != '\n' {
        lemma_token_end_is_line_end(s, i + 1);
    }
}

/// Without a bare carriage return, the lines of a text are its line tokens
/// without their terminators.
pub proof fn lemma_lines_are_stripped_tokens(s: Seq<char>, start: int)
    requires
        0 <= start,
        no_bare_cr(s),
    ensures
        text_lines_from(s, start) == strip_all(line_tokens_from(s, start)),
    decreases s.len() - start,
{
    if start < s.len() {
        lemma_token_end_is_line_end(s, start);
        lemma_line_end_bounds(s, start);
        lemma_lines_are_stripped_tokens(s, line_end(s, start));
    }
}

/// Trailing white space is the same with and without the line terminator.
pub proof fn lemma_trim_ignores_ending(line: Seq<char>)
    ensures
        trim_end(line) == trim_end(strip_line_ending(line)),
{
    if line.len() > 0 && line.last() == '\n' {
        let body = line.drop_last();
        lemma_trimmed_len_bound(body);
        if body.len() > 0 && body.last() == '\r' {
            lemma_trimmed_len_bound(body.drop_last());
        }
    }
}

/// A line token ends no later than the line that begins with it.
pub proof fn lemma_token_end_le_line_end(s: Seq<char>, i: int)
    requires
        0 <= i,
    ensures
        token_end(s, i) <= line_end(s, i),
    decreases s.len() - i,
{
    if i < s.len() && s[i] != '\n' {
        lemma_token_end_le_line_end(s, i + 1);
        if s[i] == '\r' && i + 1 < s.len() {
            lemma_line_end_bounds(s, i + 1);
        }
    }
}

/// A line that begins later ends no earlier.
pub proof fn lemma_line_end_monotone(s: Seq<char>, i: int, j: int)
    requires
        0 <= i <= j,
    ensures
        line_end(s, i) <= line_end(s, j),
    decreases s.len() - i,
{
    if i < j && i < s.len() {
        if s[i] != '\n' {
            lemma_line_end_monotone(s, i + 1, j);
        } else if j < s.len() {
            lemma_line_end_bounds(s, j);
        }
    }
}

/// From any place on, a text has no more lines than line tokens.
pub proof fn lemma_lines_le_tokens(s: Seq<char>, a: int, b: int)
    requires
        0 <= a <= b,
    ensures
        text_lines_from(s, b).len() <= line_tokens_from(s, a).len(),
    decreases s.len() - a,
{
    if b < s.len() {
        lemma_token_end_bounds(s, a);
        lemma_token_end_le_line_end(s, a);
        lemma_line_end_monotone(s, a, b);
        lemma_lines_le_tokens(s, token_end(s, a), line_end(s, b));
    }
}

} // verus!
