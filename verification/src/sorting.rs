//! The order of the entries of one directory level, and a sort by it.

use crate::order::{
    chars_le, chars_lt, lemma_lt_asymmetric, lemma_lt_total,
    lemma_lt_transitive, order_of, Rank,
};
use crate::text::chars_of;
use vstd::prelude::*;
use vstd::seq_lib::{to_multiset_build, to_multiset_insert};

verus! {

/// What `str::to_lowercase` makes of a text.
pub uninterp spec fn lowercase_of(s: Seq<char>) -> Seq<char>;

/// Calls `str::to_lowercase`, which maps each character to its Unicode
/// lowercase form.
///
/// Trusted: the result depends on the text alone.
#[verifier::external_body]
pub(crate) fn to_lowercase(s: &str) -> (lower: String)
    ensures
        lower@ == lowercase_of(s@),
{
    s.to_lowercase()
}

/// What an entry is listed by: its kind, its name in lower case, its name.
pub struct SortKey {
    pub is_dir: bool,
    pub folded: Vec<char>,
    pub name: Vec<char>,
}

/// Mathematical value of a [`SortKey`].
pub struct KeyView {
    pub is_dir: bool,
    pub folded: Seq<char>,
    pub name: Seq<char>,
}

impl View for SortKey {
    type V = KeyView;

    open spec fn view(&self) -> KeyView {
        KeyView { is_dir: self.is_dir, folded: self.folded@, name: self.name@ }
    }
}

/// The key of an entry with this kind and name.
pub open spec fn entry_key(is_dir: bool, name: Seq<char>) -> KeyView {
    KeyView { is_dir, folded: lowercase_of(name), name }
}

/// `a` is listed before `b`: directories come before files; within a kind
/// the name in lower case decides, by code point; names that differ in case
/// only are listed by the name itself.
pub open spec fn key_lt(a: KeyView, b: KeyView) -> bool {
    if a.is_dir != b.is_dir {
        a.is_dir
    } else if a.folded != b.folded {
        chars_lt(a.folded, b.folded)
    } else {
        chars_lt(a.name, b.name)
    }
}

/// `a` is listed before `b`, or has the same key.
pub open spec fn key_le(a: KeyView, b: KeyView) -> bool {
    a == b || key_lt(a, b)
}

/// Listed by `key_le`, directories stand first and, within a kind, names
/// ascend without regard to case.
pub proof fn lemma_key_le_meaning(a: KeyView, b: KeyView)
    requires
        key_le(a, b),
    ensures
        a.is_dir || !b.is_dir,
        a.is_dir == b.is_dir ==> chars_le(a.folded, b.folded),
{
}

/// Of two keys one is listed before the other, or they are the same.
pub proof fn lemma_key_total(a: KeyView, b: KeyView)
    ensures
        key_lt(a, b) || a == b || key_lt(b, a),
{
    lemma_lt_total(a.folded, b.folded);
    lemma_lt_total(a.name, b.name);
}

/// The order of the keys is transitive.
pub proof fn lemma_key_transitive(a: KeyView, b: KeyView, c: KeyView)
    requires
        key_le(a, b),
        key_le(b, c),
    ensures
        key_le(a, c),
        key_lt(a, b) || key_lt(b, c) ==> key_lt(a, c),
{
    if a != b && b != c {
        if a.is_dir == b.is_dir && b.is_dir == c.is_dir {
            if a.folded != b.folded {
                if b.folded != c.folded {
                    lemma_lt_transitive(a.folded, b.folded, c.folded);
                    lemma_lt_asymmetric(a.folded, c.folded);
                }
            } else if b.folded == c.folded {
                lemma_lt_transitive(a.name, b.name, c.name);
            }
        }
    }
}

/// Builds the key of an entry.
pub fn make_key(is_dir: bool, name: &str) -> (key: SortKey)
    ensures
        key@ == entry_key(is_dir, name@),
{
    let lower = to_lowercase(name);
    SortKey { is_dir, folded: chars_of(lower.as_str()), name: chars_of(name) }
}

/// Whether `a` is listed before `b`.
pub fn key_before(a: &SortKey, b: &SortKey) -> (before: bool)
    ensures
        before == key_lt(a@, b@),
{
    if a.is_dir != b.is_dir {
        return a.is_dir;
    }
    match order_of(&a.folded, &b.folded) {
        Rank::Before => true,
        Rank::After => false,
        Rank::Same => match order_of(&a.name, &b.name) {
            Rank::Before => true,
            _ => false,
        },
    }
}

/// Every two items stand in order.
pub open spec fn sorted_by<T>(items: Seq<T>, key_of: spec_fn(T) -> KeyView) -> bool {
    forall|i: int, j: int|
        0 <= i < j < items.len() ==> key_le(key_of(#[trigger] items[i]), key_of(#[trigger] items[j]))
}

/// `sorted` with `item` put before the first of its items that is not
/// listed before `item`.
pub open spec fn insert_sorted<T>(sorted: Seq<T>, item: T, key_of: spec_fn(T) -> KeyView) -> Seq<T>
    decreases sorted.len(),
{
    if sorted.len() == 0 {
        seq![item]
    } else if key_lt(key_of(sorted[0]), key_of(item)) {
        seq![sorted[0]] + insert_sorted(sorted.drop_first(), item, key_of)
    } else {
        seq![item] + sorted
    }
}

/// The items in the order of their keys; items with the same key keep the
/// order in which they came.
pub open spec fn sort_spec<T>(items: Seq<T>, key_of: spec_fn(T) -> KeyView) -> Seq<T>
    decreases items.len(),
{
    if items.len() == 0 {
        Seq::empty()
    } else {
        insert_sorted(sort_spec(items.drop_first(), key_of), items[0], key_of)
    }
}

/// Putting an item at the first place where no smaller one follows is
/// `insert_sorted`.
pub proof fn lemma_insert_at<T>(sorted: Seq<T>, item: T, key_of: spec_fn(T) -> KeyView, at: int)
    requires
        0 <= at <= sorted.len(),
        forall|i: int| 0 <= i < at ==> key_lt(key_of(#[trigger] sorted[i]), key_of(item)),
        at < sorted.len() ==> !key_lt(key_of(sorted[at]), key_of(item)),
    ensures
        insert_sorted(sorted, item, key_of) == sorted.insert(at, item),
    decreases sorted.len(),
{
    if sorted.len() > 0 && at > 0 {
        lemma_insert_at(sorted.drop_first(), item, key_of, at - 1);
    }
}

/// Putting an item in adds one to the length.
pub proof fn lemma_insert_sorted_len<T>(sorted: Seq<T>, item: T, key_of: spec_fn(T) -> KeyView)
    ensures
        insert_sorted(sorted, item, key_of).len() == sorted.len() + 1,
    decreases sorted.len(),
{
    if sorted.len() > 0 {
        lemma_insert_sorted_len(sorted.drop_first(), item, key_of);
    }
}

/// Sorting keeps the number of items.
pub proof fn lemma_sort_spec_len<T>(items: Seq<T>, key_of: spec_fn(T) -> KeyView)
    ensures
        sort_spec(items, key_of).len() == items.len(),
    decreases items.len(),
{
    if items.len() > 0 {
        lemma_sort_spec_len(items.drop_first(), key_of);
        lemma_insert_sorted_len(sort_spec(items.drop_first(), key_of), items[0], key_of);
    }
}

/// `a` and `b` have the same length and `related` holds of their items in
/// turn.
pub open spec fn pointwise<T, U>(a: Seq<T>, b: Seq<U>, related: spec_fn(T, U) -> bool) -> bool {
    &&& a.len() == b.len()
    &&& forall|i: int| 0 <= i < a.len() ==> related(#[trigger] a[i], b[i])
}

/// Two lists that are related in turn stay so when related items with the
/// same key are put into both.
proof fn lemma_insert_sorted_pointwise<T, U>(
    a: Seq<T>,
    b: Seq<U>,
    x: T,
    y: U,
    related: spec_fn(T, U) -> bool,
    key_a: spec_fn(T) -> KeyView,
    key_b: spec_fn(U) -> KeyView,
)
    requires
        pointwise(a, b, related),
        related(x, y),
        key_a(x) == key_b(y),
        forall|i: int| 0 <= i < a.len() ==> key_a(#[trigger] a[i]) == key_b(b[i]),
    ensures
        pointwise(insert_sorted(a, x, key_a), insert_sorted(b, y, key_b), related),
        forall|i: int|
            0 <= i < insert_sorted(a, x, key_a).len() ==> key_a(
                #[trigger] insert_sorted(a, x, key_a)[i],
            ) == key_b(insert_sorted(b, y, key_b)[i]),
    decreases a.len(),
{
    if a.len() > 0 {
        if key_lt(key_a(a[0]), key_a(x)) {
            let a1 = a.drop_first();
            let b1 = b.drop_first();
            lemma_insert_sorted_pointwise(a1, b1, x, y, related, key_a, key_b);
        }
    }
}

/// Two lists whose items are related in turn, with the same keys, are
/// still related in turn once both are sorted.
pub proof fn lemma_sort_spec_pointwise<T, U>(
    a: Seq<T>,
    b: Seq<U>,
    related: spec_fn(T, U) -> bool,
    key_a: spec_fn(T) -> KeyView,
    key_b: spec_fn(U) -> KeyView,
)
    requires
        pointwise(a, b, related),
        forall|i: int| 0 <= i < a.len() ==> key_a(#[trigger] a[i]) == key_b(b[i]),
    ensures
        pointwise(sort_spec(a, key_a), sort_spec(b, key_b), related),
        forall|i: int|
            0 <= i < sort_spec(a, key_a).len() ==> key_a(#[trigger] sort_spec(a, key_a)[i])
                == key_b(sort_spec(b, key_b)[i]),
    decreases a.len(),
{
    if a.len() > 0 {
        let a1 = a.drop_first();
        let b1 = b.drop_first();
        lemma_sort_spec_pointwise(a1, b1, related, key_a, key_b);
        lemma_insert_sorted_pointwise(
            sort_spec(a1, key_a),
            sort_spec(b1, key_b),
            a[0],
            b[0],
            related,
            key_a,
            key_b,
        );
    }
}

/// Sorts the items by their keys. Items with the same key keep the order
/// in which they came. Each item is put into the sorted rest at the place
/// that a binary search finds.
pub(crate) fn sort_by_key<T>(
    items: Vec<T>,
    keys: Vec<SortKey>,
    Ghost(key_of): Ghost<spec_fn(T) -> KeyView>,
) -> (out: Vec<T>)
    requires
        items.len() == keys.len(),
        forall|i: int| 0 <= i < items.len() ==> (#[trigger] keys[i])@ == key_of(items[i]),
    ensures
        out@ == sort_spec(items@, key_of),
        out@.to_multiset() == items@.to_multiset(),
        sorted_by(out@, key_of),
{
    let ghost all = items@;
    let mut items = items;
    let mut keys = keys;
    let mut out: Vec<T> = Vec::new();
    let mut out_keys: Vec<SortKey> = Vec::new();
    assert(out@.to_multiset().add(items@.to_multiset()) =~= all.to_multiset()) by {
        broadcast use vstd::seq_lib::group_to_multiset_ensures;
    }
    while items.len() > 0
        invariant
            items.len() == keys.len(),
            out.len() == out_keys.len(),
            forall|i: int| 0 <= i < items.len() ==> (#[trigger] keys[i])@ == key_of(items[i]),
            forall|i: int| 0 <= i < out.len() ==> (#[trigger] out_keys[i])@ == key_of(out[i]),
            out@.to_multiset().add(items@.to_multiset()) == all.to_multiset(),
            sorted_by(out@, key_of),
            items.len() <= all.len(),
            items@ == all.take(items.len() as int),
            out@ == sort_spec(all.skip(items.len() as int), key_of),
        decreases items.len(),
    {
        let ghost items_before = items@;
        let ghost out_before = out@;
        let item = items.pop().unwrap();
        let key = keys.pop().unwrap();
        let mut p: usize = 0;
        let mut end: usize = out.len();
        while p < end
            invariant
                p <= end <= out.len() == out_keys.len(),
                sorted_by(out@, key_of),
                forall|i: int| 0 <= i < out.len() ==> (#[trigger] out_keys[i])@ == key_of(out[i]),
                forall|i: int| 0 <= i < p ==> key_lt(key_of(#[trigger] out[i]), key@),
                forall|i: int| end <= i < out.len() ==> !key_lt(key_of(#[trigger] out[i]), key@),
            decreases end - p,
        {
            let mid: usize = p + (end - p) / 2;
            if key_before(&out_keys[mid], &key) {
                proof {
                    assert forall|i: int| 0 <= i < mid + 1 implies key_lt(
                        key_of(#[trigger] out[i]),
                        key@,
                    ) by {
                        if i < mid {
                            lemma_key_transitive(key_of(out[i]), key_of(out[mid as int]), key@);
                        }
                    }
                }
                p = mid + 1;
            } else {
                proof {
                    assert forall|i: int| mid <= i < out.len() implies !key_lt(
                        key_of(#[trigger] out[i]),
                        key@,
                    ) by {
                        if mid < i && key_lt(key_of(out[i]), key@) {
                            lemma_key_transitive(key_of(out[mid as int]), key_of(out[i]), key@);
                        }
                    }
                }
                end = mid;
            }
        }
        proof {
            assert forall|i: int, j: int| 0 <= i < j < out_before.insert(p as int, item).len()
                implies key_le(
                key_of(#[trigger] out_before.insert(p as int, item)[i]),
                key_of(#[trigger] out_before.insert(p as int, item)[j]),
            ) by {
                let grown = out_before.insert(p as int, item);
                if i == p {
                    lemma_key_total(key_of(out_before[p as int]), key@);
                    lemma_key_transitive(key@, key_of(out_before[p as int]), key_of(grown[j]));
                }
            }
            assert(items_before =~= items@.push(item));
            assert(all.skip(items.len() as int).drop_first() =~= all.skip(items_before.len() as int));
            lemma_insert_at(out_before, item, key_of, p as int);
            to_multiset_build(items@, item);
            to_multiset_insert(out_before, p as int, item);
        }
        out.insert(p, item);
        out_keys.insert(p, key);
    }
    proof {
        assert(items@.to_multiset() =~= vstd::multiset::Multiset::<T>::empty()) by {
            broadcast use vstd::seq_lib::group_to_multiset_ensures;
        }
        assert(all.skip(0) =~= all);
    }
    out
}

/// No two items have the same key.
pub open spec fn distinct_keys<T>(items: Seq<T>, key_of: spec_fn(T) -> KeyView) -> bool {
    forall|i: int, j: int|
        0 <= i < j < items.len() ==> key_of(#[trigger] items[i]) != key_of(#[trigger] items[j])
}

/// Items with distinct keys keep them distinct in any order.
pub proof fn lemma_distinct_keys_permuted<T>(a: Seq<T>, b: Seq<T>, key_of: spec_fn(T) -> KeyView)
    requires
        a.to_multiset() == b.to_multiset(),
        distinct_keys(a, key_of),
    ensures
        distinct_keys(b, key_of),
{
    broadcast use vstd::seq_lib::group_to_multiset_ensures;

    a.lemma_multiset_has_no_duplicates();
    b.lemma_multiset_has_no_duplicates_conv();
    a.to_multiset_ensures();
    b.to_multiset_ensures();
    assert forall|i: int, j: int| 0 <= i < j < b.len() implies key_of(#[trigger] b[i]) != key_of(
        #[trigger] b[j],
    ) by {
        assert(b.contains(b[i]));
        assert(b.to_multiset().count(b[i]) > 0);
        assert(b.to_multiset().count(b[j]) > 0);
    }
}

/// The same items in another order: each item of `b` is an item of `a`.
pub proof fn lemma_permuted_items<T>(a: Seq<T>, b: Seq<T>)
    requires
        a.to_multiset() == b.to_multiset(),
    ensures
        a.len() == b.len(),
        forall|i: int| 0 <= i < b.len() ==> a.contains(#[trigger] b[i]),
        forall|i: int| 0 <= i < a.len() ==> b.contains(#[trigger] a[i]),
{
    a.to_multiset_ensures();
    b.to_multiset_ensures();
    assert forall|i: int| 0 <= i < b.len() implies a.contains(#[trigger] b[i]) by {
        assert(b.to_multiset().count(b[i]) > 0);
    }
    assert forall|i: int| 0 <= i < a.len() implies b.contains(#[trigger] a[i]) by {
        assert(a.to_multiset().count(a[i]) > 0);
    }
}

/// The sum of the weights of the items.
pub open spec fn total<T>(items: Seq<T>, weight: spec_fn(T) -> nat) -> nat
    decreases items.len(),
{
    if items.len() == 0 {
        0
    } else {
        total(items.drop_last(), weight) + weight(items.last())
    }
}

/// The sum of the weights is that of the other items and of the item taken
/// out.
pub proof fn lemma_total_remove<T>(items: Seq<T>, at: int, weight: spec_fn(T) -> nat)
    requires
        0 <= at < items.len(),
    ensures
        total(items, weight) == total(items.remove(at), weight) + weight(items[at]),
    decreases items.len(),
{
    if at < items.len() - 1 {
        lemma_total_remove(items.drop_last(), at, weight);
        assert(items.remove(at).drop_last() =~= items.drop_last().remove(at));
    }
}

/// The sum of the weights does not depend on the order of the items.
pub proof fn lemma_total_permuted<T>(a: Seq<T>, b: Seq<T>, weight: spec_fn(T) -> nat)
    requires
        a.to_multiset() == b.to_multiset(),
    ensures
        total(a, weight) == total(b, weight),
    decreases a.len(),
{
    a.to_multiset_ensures();
    b.to_multiset_ensures();
    if a.len() > 0 {
        let last = a.last();
        assert(a.to_multiset().count(last) > 0);
        let at = choose|at: int| 0 <= at < b.len() && b[at] == last;
        assert(a =~= a.drop_last().push(last));
        assert(a.drop_last().to_multiset() =~= a.to_multiset().remove(last)) by {
            to_multiset_build(a.drop_last(), last);
        }
        lemma_total_permuted(a.drop_last(), b.remove(at), weight);
        lemma_total_remove(b, at, weight);
    }
}

/// A sorted list stays sorted when an item is put in, and holds nothing
/// but its items and that one.
proof fn lemma_insert_sorted_props<T>(sorted: Seq<T>, item: T, key_of: spec_fn(T) -> KeyView)
    requires
        sorted_by(sorted, key_of),
    ensures
        sorted_by(insert_sorted(sorted, item, key_of), key_of),
        forall|i: int|
            0 <= i < insert_sorted(sorted, item, key_of).len() ==> {
                let x = #[trigger] insert_sorted(sorted, item, key_of)[i];
                x == item || sorted.contains(x)
            },
    decreases sorted.len(),
{
    let out = insert_sorted(sorted, item, key_of);
    if sorted.len() > 0 && key_lt(key_of(sorted[0]), key_of(item)) {
        let rest = sorted.drop_first();
        lemma_insert_sorted_props(rest, item, key_of);
        let tail = insert_sorted(rest, item, key_of);
        assert forall|i: int| 0 <= i < out.len() implies {
            let x = #[trigger] out[i];
            x == item || sorted.contains(x)
        } by {
            if i > 0 {
                assert(out[i] == tail[i - 1]);
            }
        }
    } else if sorted.len() > 0 {
        assert forall|i: int| 0 <= i < out.len() implies {
            let x = #[trigger] out[i];
            x == item || sorted.contains(x)
        } by {
            if i > 0 {
                assert(out[i] == sorted[i - 1]);
            }
        }
        assert forall|i: int, j: int| 0 <= i < j < out.len() implies key_le(
            key_of(#[trigger] out[i]),
            key_of(#[trigger] out[j]),
        ) by {
            if i == 0 {
                lemma_key_total(key_of(sorted[0]), key_of(item));
                lemma_key_transitive(key_of(item), key_of(sorted[0]), key_of(sorted[j - 1]));
            }
        }
    }
}

/// The sorted items stand in order, and each of them is one of the items.
pub proof fn lemma_sort_spec_props<T>(items: Seq<T>, key_of: spec_fn(T) -> KeyView)
    ensures
        sorted_by(sort_spec(items, key_of), key_of),
        sort_spec(items, key_of).len() == items.len(),
        forall|i: int|
            0 <= i < items.len() ==> items.contains(#[trigger] sort_spec(items, key_of)[i]),
    decreases items.len(),
{
    lemma_sort_spec_len(items, key_of);
    if items.len() > 0 {
        let rest = items.drop_first();
        lemma_sort_spec_props(rest, key_of);
        let inner = sort_spec(rest, key_of);
        lemma_insert_sorted_props(inner, items[0], key_of);
    }
}

} // verus!
