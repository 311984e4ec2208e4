//! Relative paths as texts whose components are separated by `/`.

use crate::text::{chars_of, string_of};
use vstd::prelude::*;

verus! {

/// Index of the last `/` of `p`, or -1 where it has none.
pub open spec fn last_slash(p: Seq<char>) -> int
    decreases p.len(),
{
    if p.len() == 0 {
        -1
    } else if p.last() == '/' {
        p.len() - 1
    } else {
        last_slash(p.drop_last())
    }
}

/// The path of the directory that holds `p`: what stands before the last
/// `/`, or the empty path for an entry of the root.
pub open spec fn parent_path(p: Seq<char>) -> Seq<char> {
    if last_slash(p) < 0 {
        Seq::empty()
    } else {
        p.take(last_slash(p))
    }
}

/// The last component of `p`: what stands after the last `/`.
pub open spec fn file_name(p: Seq<char>) -> Seq<char> {
    p.skip(last_slash(p) + 1)
}

/// A component of `p` begins with a dot.
pub open spec fn has_hidden_segment(p: Seq<char>) -> bool {
    ||| p.len() > 0 && p[0] == '.'
    ||| exists|i: int| 0 <= i && i + 1 < p.len() && #[trigger] p[i] == '/' && p[i + 1] == '.'
}

/// The last `/` is the one after which no other comes.
pub proof fn lemma_last_slash_is(p: Seq<char>, k: int)
    requires
        -1 <= k < p.len(),
        k >= 0 ==> p[k] == '/',
        forall|i: int| k < i < p.len() ==> p[i] != '/',
    ensures
        last_slash(p) == k,
    decreases p.len(),
{
    if p.len() > 0 && p.last() != '/' {
        lemma_last_slash_is(p.drop_last(), k);
    }
}

/// Finds the last `/`: its index plus one, or zero where there is none.
pub fn name_start(p: &Vec<char>) -> (start: usize)
    ensures
        start == last_slash(p@) + 1,
        start <= p.len(),
{
    let mut i: usize = p.len();
    while i > 0 && p[i - 1] != '/'
        invariant
            i <= p.len(),
            forall|j: int| i <= j < p.len() ==> p@[j] != '/',
        decreases i,
    {
        i -= 1;
    }
    proof {
        lemma_last_slash_is(p@, i - 1);
    }
    i
}

/// The path of the directory that holds `path`.
pub fn parent_of(path: &str) -> (parent: String)
    ensures
        parent@ == parent_path(path@),
{
    let chars = chars_of(path);
    let start = name_start(&chars);
    if start == 0 {
        String::new()
    } else {
        let parent = string_of(&chars, 0, start - 1);
        parent
    }
}

/// The last component of `path`.
pub fn name_of(path: &str) -> (name: String)
    ensures
        name@ == file_name(path@),
{
    let chars = chars_of(path);
    let start = name_start(&chars);
    let name = string_of(&chars, start, chars.len());
    name
}

/// Whether a component of `path` begins with a dot.
pub fn is_hidden_path(path: &str) -> (hidden: bool)
    ensures
        hidden == has_hidden_segment(path@),
{
    let chars = chars_of(path);
    if chars.len() == 0 {
        return false;
    }
    if chars[0] == '.' {
        return true;
    }
    let last: usize = chars.len() - 1;
    let mut i: usize = 0;
    while i < last
        invariant
            i <= last == chars.len() - 1,
            chars@ == path@,
            chars@[0] != '.',
            forall|j: int| 0 <= j < i ==> !(#[trigger] chars@[j] == '/' && chars@[j + 1] == '.'),
        decreases last - i,
    {
        if chars[i] == '/' && chars[i + 1] == '.' {
            return true;
        }
        i += 1;
    }
    false
}

/// Whether `text` begins with `prefix`.
pub fn has_prefix(text: &Vec<char>, prefix: &Vec<char>) -> (yes: bool)
    ensures
        yes == prefix@.is_prefix_of(text@),
{
    if prefix.len() > text.len() {
        return false;
    }
    let mut i: usize = 0;
    while i < prefix.len()
        invariant
            i <= prefix.len() <= text.len(),
            forall|j: int| 0 <= j < i ==> prefix@[j] == text@[j],
        decreases prefix.len() - i,
    {
        if prefix[i] != text[i] {
            return false;
        }
        i += 1;
    }
    true
}

} // verus!
