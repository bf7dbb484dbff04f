//! Orders and sorting: text order, and a stable sort proved against a
//! definition by insertion.

use crate::text::{chars_of, texts};
use vstd::prelude::*;

verus! {

/// Whether `a` from index `i` on comes no later than `b` from index `i` on,
/// comparing character by character.
pub open spec fn text_le_from(a: Seq<char>, b: Seq<char>, i: int) -> bool
    decreases a.len() - i,
{
    if i < 0 || i >= a.len() {
        true
    } else if i >= b.len() {
        false
    } else if a[i] == b[i] {
        text_le_from(a, b, i + 1)
    } else {
        a[i] < b[i]
    }
}

/// Text order: by the first character that differs, a prefix first.
pub open spec fn text_le(a: Seq<char>, b: Seq<char>) -> bool {
    text_le_from(a, b, 0)
}

/// Text order is total.
pub proof fn lemma_text_le_total(a: Seq<char>, b: Seq<char>, i: int)
    requires
        0 <= i,
    ensures
        text_le_from(a, b, i) || text_le_from(b, a, i),
    decreases a.len() - i,
{
    if i < a.len() && i < b.len() && a[i] == b[i] {
        lemma_text_le_total(a, b, i + 1);
    }
}

/// Text order is transitive.
pub proof fn lemma_text_le_transitive(a: Seq<char>, b: Seq<char>, c: Seq<char>, i: int)
    requires
        0 <= i,
        text_le_from(a, b, i),
        text_le_from(b, c, i),
    ensures
        text_le_from(a, c, i),
    decreases a.len() - i,
{
    if i < a.len() && i < b.len() && i < c.len() && a[i] == b[i] && b[i] == c[i] {
        lemma_text_le_transitive(a, b, c, i + 1);
    }
}

/// Texts that come no later than each other are equal from `i` on.
pub proof fn lemma_text_le_antisymmetric(a: Seq<char>, b: Seq<char>, i: int)
    requires
        0 <= i <= a.len(),
        i <= b.len(),
        text_le_from(a, b, i),
        text_le_from(b, a, i),
    ensures
        a.skip(i) == b.skip(i),
    decreases a.len() - i,
{
    if i < a.len() && i < b.len() {
        assert(a[i] == b[i]);
        lemma_text_le_antisymmetric(a, b, i + 1);
        assert(a.skip(i) =~= seq![a[i]] + a.skip(i + 1));
        assert(b.skip(i) =~= seq![b[i]] + b.skip(i + 1));
    } else {
        assert(a.skip(i) =~= b.skip(i));
    }
}

/// Whether `a` comes no later than `b` in text order.
pub fn not_after(a: &str, b: &str) -> (r: bool)
    ensures
        r == text_le(a@, b@),
{
    let left: Vec<char> = chars_of(a);
    let right: Vec<char> = chars_of(b);
    let mut i: usize = 0;
    while i < left.len()
        invariant
            left@ == a@,
            right@ == b@,
            i <= left@.len(),
            text_le(a@, b@) == text_le_from(a@, b@, i as int),
        decreases left@.len() - i,
    {
        if i >= right.len() {
            return false;
        }
        if left[i] != right[i] {
            return left[i] < right[i];
        }
        i = i + 1;
    }
    true
}

/// `x` put into `s` behind the last item that may stand before it, seen from
/// the end.
pub open spec fn insert_by<T>(s: Seq<T>, x: T, le: spec_fn(T, T) -> bool) -> Seq<T>
    decreases s.len(),
{
    if s.len() == 0 || le(s.last(), x) {
        s.push(x)
    } else {
        insert_by(s.drop_last(), x, le).push(s.last())
    }
}

/// The items of `s`, each put in turn behind those that may stand before it: a
/// stable sort.
pub open spec fn sort_by<T>(s: Seq<T>, le: spec_fn(T, T) -> bool) -> Seq<T>
    decreases s.len(),
{
    if s.len() == 0 {
        s
    } else {
        insert_by(sort_by(s.drop_last(), le), s.last(), le)
    }
}

/// Whether each item may stand before every later one.
pub open spec fn in_order<T>(s: Seq<T>, le: spec_fn(T, T) -> bool) -> bool {
    forall|i: int, j: int| 0 <= i < j < s.len() ==> le(#[trigger] s[i], #[trigger] s[j])
}

/// Whether of two items one may always stand before the other, and standing
/// before carries over.
pub open spec fn is_order<T>(le: spec_fn(T, T) -> bool) -> bool {
    &&& forall|a: T, b: T| #[trigger] le(a, b) || le(b, a)
    &&& forall|a: T, b: T, c: T| #[trigger] le(a, b) && #[trigger] le(b, c) ==> le(a, c)
}

proof fn lemma_insert_by<T>(s: Seq<T>, x: T, le: spec_fn(T, T) -> bool)
    requires
        is_order(le),
        in_order(s, le),
    ensures
        in_order(insert_by(s, x, le), le),
        forall|k: int|
            0 <= k < insert_by(s, x, le).len() ==> (#[trigger] insert_by(s, x, le)[k]) == x
                || s.contains(insert_by(s, x, le)[k]),
    decreases s.len(),
{
    let r = insert_by(s, x, le);
    if s.len() == 0 {
    } else if le(s.last(), x) {
        assert forall|i: int, j: int| 0 <= i < j < r.len() implies le(#[trigger] r[i], #[trigger] r[j]) by {
            if j == s.len() && i < s.len() - 1 {
                assert(le(s[i], s[s.len() - 1]));
            }
        }
        assert forall|k: int| 0 <= k < r.len() implies (#[trigger] r[k]) == x || s.contains(r[k]) by {
            if k < s.len() {
                assert(s[k] == r[k]);
            }
        }
    } else {
        let front = s.drop_last();
        lemma_insert_by(front, x, le);
        let q = insert_by(front, x, le);
        assert(le(x, s.last()));
        assert forall|k: int| 0 <= k < q.len() implies le(#[trigger] q[k], s.last()) by {
            if q[k] != x {
                assert(front.contains(q[k]));
                let m = choose|m: int| 0 <= m < front.len() && front[m] == q[k];
                assert(le(s[m], s[s.len() - 1]));
            }
        }
        assert forall|k: int| 0 <= k < r.len() implies (#[trigger] r[k]) == x || s.contains(r[k]) by {
            if k < q.len() {
                if q[k] != x {
                    assert(front.contains(q[k]));
                    let m = choose|m: int| 0 <= m < front.len() && front[m] == q[k];
                    assert(s[m] == r[k]);
                }
            } else {
                assert(s[s.len() - 1] == r[k]);
            }
        }
    }
}

/// A sorted sequence is in order.
pub proof fn sort_by_is_ordered<T>(s: Seq<T>, le: spec_fn(T, T) -> bool)
    requires
        is_order(le),
    ensures
        in_order(sort_by(s, le), le),
    decreases s.len(),
{
    if s.len() > 0 {
        sort_by_is_ordered(s.drop_last(), le);
        lemma_insert_by(sort_by(s.drop_last(), le), s.last(), le);
    }
}

proof fn lemma_insert_by_items<T>(s: Seq<T>, x: T, le: spec_fn(T, T) -> bool)
    ensures
        insert_by(s, x, le).to_multiset() == s.to_multiset().insert(x),
    decreases s.len(),
{
    broadcast use vstd::seq_lib::group_to_multiset_ensures;

    if s.len() == 0 || le(s.last(), x) {
    } else {
        lemma_insert_by_items(s.drop_last(), x, le);
        let q = insert_by(s.drop_last(), x, le);
        assert(q.push(s.last()).to_multiset() == q.to_multiset().insert(s.last()));
        assert(s =~= s.drop_last().push(s.last()));
        assert(s.to_multiset() =~= s.drop_last().to_multiset().insert(s.last()));
        assert(q.to_multiset().insert(s.last()) =~= s.to_multiset().insert(x));
    }
}

/// A sorted sequence holds the same items, each as often.
pub proof fn sort_by_keeps_items<T>(s: Seq<T>, le: spec_fn(T, T) -> bool)
    ensures
        sort_by(s, le).to_multiset() == s.to_multiset(),
        sort_by(s, le).len() == s.len(),
    decreases s.len(),
{
    broadcast use vstd::seq_lib::group_to_multiset_ensures;

    if s.len() > 0 {
        sort_by_keeps_items(s.drop_last(), le);
        lemma_insert_by_items(sort_by(s.drop_last(), le), s.last(), le);
        assert(s =~= s.drop_last().push(s.last()));
        assert(sort_by(s, le).to_multiset() == s.to_multiset());
    }
    assert(sort_by(s, le).len() == sort_by(s, le).to_multiset().len());
}

proof fn lemma_insert_by_map<T, U>(
    s: Seq<T>,
    x: T,
    le: spec_fn(T, T) -> bool,
    f: spec_fn(T) -> U,
    le_u: spec_fn(U, U) -> bool,
)
    requires
        forall|a: T, b: T| #[trigger] le(a, b) == le_u(f(a), f(b)),
    ensures
        insert_by(s, x, le).map_values(f) == insert_by(s.map_values(f), f(x), le_u),
    decreases s.len(),
{
    let m = s.map_values(f);
    if s.len() == 0 || le(s.last(), x) {
        assert(s.push(x).map_values(f) =~= m.push(f(x)));
    } else {
        lemma_insert_by_map(s.drop_last(), x, le, f, le_u);
        assert(s.drop_last().map_values(f) =~= m.drop_last());
        let q = insert_by(s.drop_last(), x, le);
        assert(q.push(s.last()).map_values(f) =~= q.map_values(f).push(f(s.last())));
    }
}

/// Sorting commutes with a map that carries one order to another.
pub proof fn lemma_sort_by_map<T, U>(
    s: Seq<T>,
    le: spec_fn(T, T) -> bool,
    f: spec_fn(T) -> U,
    le_u: spec_fn(U, U) -> bool,
)
    requires
        forall|a: T, b: T| #[trigger] le(a, b) == le_u(f(a), f(b)),
    ensures
        sort_by(s, le).map_values(f) == sort_by(s.map_values(f), le_u),
    decreases s.len(),
{
    let m = s.map_values(f);
    if s.len() == 0 {
        assert(s.map_values(f) =~= Seq::empty());
        assert(sort_by(m, le_u) =~= m);
    } else {
        lemma_sort_by_map(s.drop_last(), le, f, le_u);
        assert(s.drop_last().map_values(f) =~= m.drop_last());
        lemma_insert_by_map(sort_by(s.drop_last(), le), s.last(), le, f, le_u);
    }
}

/// Sorts by the given comparison.
pub(crate) fn sort_vec<T, F: Fn(&T, &T) -> bool>(
    items: Vec<T>,
    compare: F,
    le: Ghost<spec_fn(T, T) -> bool>,
) -> (r: Vec<T>)
    requires
        forall|a: T, b: T| #[trigger] call_requires(compare, (&a, &b)),
        forall|a: T, b: T, c: bool|
            #[trigger] call_ensures(compare, (&a, &b), c) ==> c == le@(a, b),
    ensures
        r@ == sort_by(items@, le@),
{
    let mut rest: Vec<T> = items;
    let mut out: Vec<T> = Vec::new();
    let ghost all = rest@;
    assert(all.take(0) =~= Seq::empty());
    assert(all.skip(0) =~= all);
    let ghost mut done: int = 0;
    while rest.len() > 0
        invariant
            forall|a: T, b: T| #[trigger] call_requires(compare, (&a, &b)),
            forall|a: T, b: T, c: bool|
                #[trigger] call_ensures(compare, (&a, &b), c) ==> c == le@(a, b),
            0 <= done <= all.len(),
            rest@ == all.skip(done),
            out@ == sort_by(all.take(done), le@),
        decreases rest@.len(),
    {
        let x: T = rest.remove(0);
        let ghost sorted = out@;
        let mut k: usize = out.len();
        assert(sorted.take(k as int) =~= sorted);
        assert(sorted.skip(k as int) =~= Seq::empty());
        assert(insert_by(sorted, x, le@) + sorted.skip(k as int) =~= insert_by(sorted, x, le@));
        while k > 0 && !compare(&out[k - 1], &x)
            invariant
                forall|a: T, b: T| #[trigger] call_requires(compare, (&a, &b)),
                forall|a: T, b: T, c: bool|
                    #[trigger] call_ensures(compare, (&a, &b), c) ==> c == le@(a, b),
                out@ == sorted,
                k <= sorted.len(),
                insert_by(sorted, x, le@) == insert_by(sorted.take(k as int), x, le@)
                    + sorted.skip(k as int),
            decreases k,
        {
            proof {
                let part = sorted.take(k as int);
                assert(part.last() == sorted[k - 1]);
                assert(part.drop_last() =~= sorted.take(k - 1));
                assert(sorted.skip(k - 1) =~= seq![sorted[k - 1]] + sorted.skip(k as int));
                assert(insert_by(part, x, le@) + sorted.skip(k as int) =~= insert_by(
                    sorted.take(k - 1),
                    x,
                    le@,
                ) + sorted.skip(k - 1));
            }
            k = k - 1;
        }
        proof {
            let part = sorted.take(k as int);
            if k > 0 {
                assert(part.last() == sorted[k - 1]);
                assert(le@(sorted[k - 1], x));
            }
            assert(insert_by(part, x, le@) == part.push(x));
            assert(sorted.insert(k as int, x) =~= part.push(x) + sorted.skip(k as int));
        }
        out.insert(k, x);
        proof {
            assert(x == all[done]);
            assert(all.take(done + 1).drop_last() =~= all.take(done));
            assert(all.take(done + 1).last() == x);
            assert(rest@ =~= all.skip(done + 1));
            done = done + 1;
        }
    }
    assert(all.take(done) =~= all);
    out
}

/// The order of texts, as a relation.
pub open spec fn text_order() -> spec_fn(Seq<char>, Seq<char>) -> bool {
    |a: Seq<char>, b: Seq<char>| text_le(a, b)
}

/// `list` in text order.
pub open spec fn sort_texts(list: Seq<Seq<char>>) -> Seq<Seq<char>> {
    sort_by(list, text_order())
}

/// Text order is an order.
pub proof fn text_order_is_order()
    ensures
        is_order(text_order()),
{
    let le = text_order();
    assert forall|a: Seq<char>, b: Seq<char>| #[trigger] le(a, b) || le(b, a) by {
        lemma_text_le_total(a, b, 0);
    }
    assert forall|a: Seq<char>, b: Seq<char>, c: Seq<char>| #[trigger]
        le(a, b) && #[trigger] le(b, c) implies le(a, c) by {
        lemma_text_le_transitive(a, b, c, 0);
    }
}

/// Whether `a` comes no later than `b` in text order.
fn string_not_after(a: &String, b: &String) -> (r: bool)
    ensures
        r == text_le(a@, b@),
{
    not_after(a.as_str(), b.as_str())
}

/// Sorts strings in text order.
pub fn sort_strings(list: Vec<String>) -> (r: Vec<String>)
    ensures
        texts(r@) == sort_texts(texts(list@)),
{
    let ghost le = |a: String, b: String| text_le(a@, b@);
    let ghost f = |s: String| s@;
    proof {
        lemma_sort_by_map(list@, le, f, text_order());
        assert(texts(list@) =~= list@.map_values(f));
    }
    let r: Vec<String> = sort_vec(list, string_not_after, Ghost(le));
    assert(texts(r@) =~= r@.map_values(f));
    r
}

} // verus!
