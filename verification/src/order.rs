//! The order of texts by code point, as `str` orders them.

use vstd::prelude::*;

verus! {

/// `a` comes before `b` in the lexicographic order of their code points.
pub open spec fn chars_lt(a: Seq<char>, b: Seq<char>) -> bool
    decreases a.len(),
{
    if b.len() == 0 {
        false
    } else if a.len() == 0 {
        true
    } else if a[0] != b[0] {
        (a[0] as int) < (b[0] as int)
    } else {
        chars_lt(a.drop_first(), b.drop_first())
    }
}

/// `a` comes before `b` or equals it.
pub open spec fn chars_le(a: Seq<char>, b: Seq<char>) -> bool {
    a == b || chars_lt(a, b)
}

/// How one value stands to another in an order.
#[derive(Clone, Copy, Debug, PartialEq, Eq, Structural)]
pub enum Rank {
    Before,
    Same,
    After,
}

/// No text comes before itself.
pub proof fn lemma_lt_irreflexive(a: Seq<char>)
    ensures
        !chars_lt(a, a),
    decreases a.len(),
{
    if a.len() > 0 {
        lemma_lt_irreflexive(a.drop_first());
    }
}

/// Of two texts at most one comes before the other, and then they differ.
pub proof fn lemma_lt_asymmetric(a: Seq<char>, b: Seq<char>)
    requires
        chars_lt(a, b),
    ensures
        !chars_lt(b, a),
        a != b,
    decreases a.len(),
{
    if a.len() > 0 && b.len() > 0 && a[0] == b[0] {
        lemma_lt_asymmetric(a.drop_first(), b.drop_first());
    }
}

/// Of two texts one comes before the other, or they are the same.
pub proof fn lemma_lt_total(a: Seq<char>, b: Seq<char>)
    ensures
        chars_lt(a, b) || a == b || chars_lt(b, a),
    decreases a.len(),
{
    if a.len() > 0 && b.len() > 0 && a[0] == b[0] {
        lemma_lt_total(a.drop_first(), b.drop_first());
        if a.drop_first() == b.drop_first() {
            assert(a =~= seq![a[0]] + a.drop_first());
        }
    }
}

/// The order of the texts is transitive.
pub proof fn lemma_lt_transitive(a: Seq<char>, b: Seq<char>, c: Seq<char>)
    requires
        chars_lt(a, b),
        chars_lt(b, c),
    ensures
        chars_lt(a, c),
    decreases a.len(),
{
    if a.len() > 0 && a[0] == b[0] && b[0] == c[0] {
        lemma_lt_transitive(a.drop_first(), b.drop_first(), c.drop_first());
    }
}

/// The code point of a character.
pub fn code_point(c: char) -> (u: u32)
    ensures
        u as int == c as int,
{
    c as u32
}

/// Compares two texts by code point.
pub fn order_of(a: &Vec<char>, b: &Vec<char>) -> (r: Rank)
    ensures
        r == Rank::Before <==> chars_lt(a@, b@),
        r == Rank::Same <==> a@ == b@,
        r == Rank::After <==> chars_lt(b@, a@),
{
    let mut i: usize = 0;
    assert(a@.skip(0) =~= a@);
    assert(b@.skip(0) =~= b@);
    while i < a.len() && i < b.len()
        invariant
            i <= a.len(),
            i <= b.len(),
            a@.take(i as int) == b@.take(i as int),
            chars_lt(a@, b@) == chars_lt(a@.skip(i as int), b@.skip(i as int)),
            chars_lt(b@, a@) == chars_lt(b@.skip(i as int), a@.skip(i as int)),
        decreases a.len() - i,
    {
        let x: u32 = code_point(a[i]);
        let y: u32 = code_point(b[i]);
        assert(a@.skip(i as int).drop_first() =~= a@.skip(i + 1));
        assert(b@.skip(i as int).drop_first() =~= b@.skip(i + 1));
        if x < y {
            return Rank::Before;
        }
        if y < x {
            return Rank::After;
        }
        i += 1;
    }
    if i < b.len() {
        Rank::Before
    } else if i < a.len() {
        Rank::After
    } else {
        Rank::Same
    }
}

/// The first `n` characters of `a` and of `b` are the same.
pub open spec fn agree(a: Seq<char>, b: Seq<char>, n: int) -> bool {
    &&& n <= a.len()
    &&& n <= b.len()
    &&& forall|t: int| 0 <= t < n ==> a[t] == b[t]
}

/// Whether the first `n` characters of `a` and of `b` are the same.
pub fn agrees(a: &Vec<char>, b: &Vec<char>, n: usize) -> (yes: bool)
    ensures
        yes == agree(a@, b@, n as int),
{
    if a.len() < n || b.len() < n {
        return false;
    }
    let mut t: usize = 0;
    while t < n
        invariant
            t <= n,
            n <= a.len(),
            n <= b.len(),
            forall|u: int| 0 <= u < t ==> a@[u] == b@[u],
        decreases n - t,
    {
        if a[t] != b[t] {
            return false;
        }
        t += 1;
    }
    true
}

/// The texts that begin like `a` stand together in the order: once a text
/// after `a` begins otherwise, every later one does.
pub proof fn lemma_agree_block(a: Seq<char>, b: Seq<char>, c: Seq<char>, n: int)
    requires
        0 <= n <= a.len(),
        chars_lt(a, b),
        chars_le(b, c),
        !agree(b, a, n),
    ensures
        !agree(c, a, n),
    decreases n,
{
    if b != c && n > 0 && a[0] == b[0] && b[0] == c[0] {
        let a1 = a.drop_first();
        let b1 = b.drop_first();
        let c1 = c.drop_first();
        if agree(b1, a1, n - 1) {
            assert forall|t: int| 0 <= t < n implies b[t] == a[t] by {
                if t > 0 {
                    assert(b1[t - 1] == a1[t - 1]);
                }
            }
        }
        lemma_agree_block(a1, b1, c1, n - 1);
    }
}

} // verus!
