//! Ignore patterns: which relative paths a scan leaves out.

use crate::order::{order_of, Rank};
use crate::paths::has_prefix;
use crate::text::chars_of;
use vstd::prelude::*;

verus! {

/// Whether the regular expression `pattern` finds a match in `text`, as
/// the `regex` crate decides it; `None` where the pattern does not compile.
pub uninterp spec fn regex_is_match(pattern: Seq<char>, text: Seq<char>) -> Option<bool>;

/// Compiles `pattern` with `regex::Regex::new` and asks `Regex::is_match`
/// for `text`.
///
/// Trusted: the outcome depends on the two texts alone.
#[verifier::external_body]
fn regex_match(pattern: &str, text: &str) -> (outcome: Option<bool>)
    ensures
        outcome == regex_is_match(pattern@, text@),
{
    match regex::Regex::new(pattern) {
        Ok(regex) => Some(regex.is_match(text)),
        Err(_) => None,
    }
}

/// What a character of a glob becomes in a regular expression: a dot is
/// escaped, a star stands for any text, anything else stands as it is.
pub open spec fn glob_char(c: char) -> Seq<char> {
    if c == '.' {
        seq!['\\', '.']
    } else if c == '*' {
        seq!['.', '*']
    } else {
        seq![c]
    }
}

/// The characters of a glob, each turned by [`glob_char`].
pub open spec fn escape_glob(pattern: Seq<char>) -> Seq<char>
    decreases pattern.len(),
{
    if pattern.len() == 0 {
        Seq::empty()
    } else {
        escape_glob(pattern.drop_last()) + glob_char(pattern.last())
    }
}

/// The regular expression of a glob, anchored at both ends.
pub open spec fn glob_regex(pattern: Seq<char>) -> Seq<char> {
    seq!['^'] + escape_glob(pattern) + seq!['$']
}

/// Turns a glob into an anchored regular expression.
pub fn glob_to_regex(pattern: &str) -> (regex: String)
    ensures
        regex@ == glob_regex(pattern@),
{
    let chars = chars_of(pattern);
    let mut regex = String::new();
    regex.push('^');
    let mut i: usize = 0;
    while i < chars.len()
        invariant
            i <= chars.len(),
            regex@ == seq!['^'] + escape_glob(chars@.take(i as int)),
        decreases chars.len() - i,
    {
        let c = chars[i];
        assert(chars@.take(i + 1).drop_last() =~= chars@.take(i as int));
        if c == '.' {
            regex.push('\\');
            regex.push('.');
        } else if c == '*' {
            regex.push('.');
            regex.push('*');
        } else {
            regex.push(c);
        }
        i += 1;
    }
    assert(chars@.take(chars.len() as int) =~= chars@);
    regex.push('$');
    regex
}

/// Whether the outcome of a regular expression counts as a match: a
/// pattern that does not compile matches nothing.
pub fn glob_verdict(outcome: Option<bool>) -> (matched: bool)
    ensures
        matched == (outcome == Some(true)),
{
    match outcome {
        Some(found) => found,
        None => false,
    }
}

/// Whether `pattern` covers `path`. A pattern that ends in `/` covers the
/// directory it names and every path below it; a pattern with a `*` is a
/// glob for the whole path; any other pattern covers the path equal to it.
pub open spec fn pattern_matches(pattern: Seq<char>, path: Seq<char>) -> bool {
    if pattern.len() > 0 && pattern.last() == '/' {
        pattern.is_prefix_of(path) || path == pattern.drop_last()
    } else if pattern.contains('*') {
        regex_is_match(glob_regex(pattern), path) == Some(true)
    } else {
        path == pattern
    }
}

/// Whether one of the patterns covers `path`.
pub open spec fn ignored(path: Seq<char>, patterns: Seq<Seq<char>>) -> bool {
    exists|i: int| 0 <= i < patterns.len() && pattern_matches(#[trigger] patterns[i], path)
}

/// Whether a text holds a star.
fn has_star(chars: &Vec<char>) -> (found: bool)
    ensures
        found == chars@.contains('*'),
{
    let mut i: usize = 0;
    while i < chars.len()
        invariant
            i <= chars.len(),
            forall|j: int| 0 <= j < i ==> chars@[j] != '*',
        decreases chars.len() - i,
    {
        if chars[i] == '*' {
            return true;
        }
        i += 1;
    }
    false
}

/// Whether the text is `pattern` without its last character.
fn is_all_but_last(text: &Vec<char>, pattern: &Vec<char>) -> (yes: bool)
    requires
        pattern.len() > 0,
    ensures
        yes == (text@ == pattern@.drop_last()),
{
    if text.len() != pattern.len() - 1 {
        return false;
    }
    let yes = has_prefix(pattern, text);
    yes
}

/// Whether `pattern` covers `path`.
pub fn pattern_covers(pattern: &str, path: &str) -> (covered: bool)
    ensures
        covered == pattern_matches(pattern@, path@),
{
    let p = chars_of(pattern);
    let t = chars_of(path);
    if p.len() > 0 && p[p.len() - 1] == '/' {
        has_prefix(&t, &p) || is_all_but_last(&t, &p)
    } else if has_star(&p) {
        let regex = glob_to_regex(pattern);
        glob_verdict(regex_match(regex.as_str(), path))
    } else {
        match order_of(&t, &p) {
            Rank::Same => true,
            _ => false,
        }
    }
}

/// Whether one of the ignore patterns covers the relative path.
pub fn matches_ignore_pattern(rel_path: &str, patterns: &Vec<String>) -> (matched: bool)
    ensures
        matched == ignored(rel_path@, patterns.deep_view()),
{
    let mut i: usize = 0;
    while i < patterns.len()
        invariant
            i <= patterns.len(),
            forall|j: int|
                0 <= j < i ==> !pattern_matches(#[trigger] patterns.deep_view()[j], rel_path@),
        decreases patterns.len() - i,
    {
        if pattern_covers(patterns[i].as_str(), rel_path) {
            assert(pattern_matches(patterns.deep_view()[i as int], rel_path@));
            return true;
        }
        i += 1;
    }
    false
}

/// A pattern that names a directory excludes every path that begins with
/// it.
pub proof fn lemma_dir_pattern_excludes(patterns: Seq<Seq<char>>, at: int, path: Seq<char>)
    requires
        0 <= at < patterns.len(),
        patterns[at].len() > 0,
        patterns[at].last() == '/',
        patterns[at].is_prefix_of(path),
    ensures
        ignored(path, patterns),
{
}

} // verus!
