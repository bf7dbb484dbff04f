//! Lists: picking items, dropping repeats.

use crate::order::{
    in_order, lemma_text_le_antisymmetric, sort_by_is_ordered, sort_by_keeps_items, sort_strings,
    sort_texts, text_order, text_order_is_order,
};
use crate::text::{same_text, texts};
use vstd::prelude::*;

verus! {

/// Picking from one more item.
pub proof fn lemma_pick_step<A, B>(s: Seq<A>, f: spec_fn(A) -> Option<B>, i: int)
    requires
        0 <= i < s.len(),
    ensures
        s.take(i + 1).filter_map(f) == match f(s[i]) {
            Some(b) => s.take(i).filter_map(f).push(b),
            None => s.take(i).filter_map(f),
        },
{
    assert(s.take(i + 1).drop_last() =~= s.take(i));
    assert(s.take(i + 1).last() == s[i]);
    if let Some(b) = f(s[i]) {
        assert(s.take(i).filter_map(f) + seq![b] =~= s.take(i).filter_map(f).push(b));
    }
}

/// Picking from nothing, and from all.
pub proof fn lemma_pick_ends<A, B>(s: Seq<A>, f: spec_fn(A) -> Option<B>)
    ensures
        s.take(0).filter_map(f) == Seq::<B>::empty(),
        s.take(s.len() as int).filter_map(f) == s.filter_map(f),
{
    assert(s.take(s.len() as int) =~= s);
}

/// `s` without items that equal the one before them.
pub open spec fn without_repeats<T>(s: Seq<T>) -> Seq<T>
    decreases s.len(),
{
    if s.len() == 0 {
        s
    } else {
        let front = without_repeats(s.drop_last());
        if front.len() > 0 && front.last() == s.last() {
            front
        } else {
            front.push(s.last())
        }
    }
}

/// `s` with only the first of equal items.
pub open spec fn unique<T>(s: Seq<T>) -> Seq<T>
    decreases s.len(),
{
    if s.len() == 0 {
        s
    } else {
        let front = unique(s.drop_last());
        if front.contains(s.last()) {
            front
        } else {
            front.push(s.last())
        }
    }
}

/// No item occurs twice.
pub open spec fn all_distinct<T>(s: Seq<T>) -> bool {
    forall|i: int, j: int| 0 <= i < j < s.len() ==> #[trigger] s[i] != #[trigger] s[j]
}

/// Dropping later equals keeps every item once.
pub proof fn unique_keeps_each_once<T>(s: Seq<T>)
    ensures
        all_distinct(unique(s)),
        forall|x: T| #[trigger] unique(s).contains(x) <==> s.contains(x),
    decreases s.len(),
{
    if s.len() > 0 {
        let front = s.drop_last();
        unique_keeps_each_once(front);
        let u = unique(front);
        assert forall|x: T| #[trigger] unique(s).contains(x) <==> s.contains(x) by {
            assert(s.contains(x) <==> front.contains(x) || x == s.last()) by {
                if front.contains(x) {
                    let k = choose|k: int| 0 <= k < front.len() && front[k] == x;
                    assert(s[k] == x);
                }
                if s.contains(x) {
                    let k = choose|k: int| 0 <= k < s.len() && s[k] == x;
                    if k < front.len() {
                        assert(front[k] == x);
                    }
                }
                assert(s[s.len() - 1] == s.last());
            }
            if !u.contains(s.last()) {
                assert(u.push(s.last()).contains(x) <==> u.contains(x) || x == s.last()) by {
                    if u.contains(x) {
                        let k = choose|k: int| 0 <= k < u.len() && u[k] == x;
                        assert(u.push(s.last())[k] == x);
                    }
                    assert(u.push(s.last())[u.len() as int] == s.last());
                }
            }
        }
    }
}

/// `list` in text order, each text once.
pub open spec fn text_set(list: Seq<Seq<char>>) -> Seq<Seq<char>> {
    without_repeats(sort_texts(list))
}

proof fn lemma_without_repeats(s: Seq<Seq<char>>)
    requires
        in_order(s, text_order()),
    ensures
        in_order(without_repeats(s), text_order()),
        all_distinct(without_repeats(s)),
        forall|x: Seq<char>| #[trigger] without_repeats(s).contains(x) <==> s.contains(x),
        s.len() > 0 ==> without_repeats(s).len() > 0 && without_repeats(s).last() == s.last(),
    decreases s.len(),
{
    let le = text_order();
    if s.len() > 0 {
        let front = s.drop_last();
        assert(in_order(front, le)) by {
            assert forall|i: int, j: int| 0 <= i < j < front.len() implies le(
                #[trigger] front[i],
                #[trigger] front[j],
            ) by {
                assert(le(s[i], s[j]));
            }
        }
        lemma_without_repeats(front);
        let w = without_repeats(front);
        let r = without_repeats(s);
        assert forall|k: int| 0 <= k < w.len() implies le(#[trigger] w[k], s.last()) by {
            assert(w.contains(w[k]));
            let m = choose|m: int| 0 <= m < front.len() && front[m] == w[k];
            assert(le(s[m], s[s.len() - 1]));
        }
        assert forall|i: int, j: int| 0 <= i < j < r.len() implies #[trigger] r[i]
            != #[trigger] r[j] by {
            if j < w.len() {
                assert(w[i] != w[j]);
            } else if i < w.len() - 1 && r[i] == r[j] {
                assert(le(w[i], w[w.len() - 1]));
                assert(le(w[w.len() - 1], s.last()));
                lemma_text_le_antisymmetric(w[i], w[w.len() - 1], 0);
                assert(w[i] =~= w[i].skip(0));
                assert(w[w.len() - 1] =~= w[w.len() - 1].skip(0));
                assert(w[i] != w[w.len() - 1]);
            }
        }
        assert forall|x: Seq<char>| #[trigger] r.contains(x) <==> s.contains(x) by {
            assert(s.contains(x) <==> front.contains(x) || x == s.last()) by {
                if front.contains(x) {
                    let k = choose|k: int| 0 <= k < front.len() && front[k] == x;
                    assert(s[k] == x);
                }
                if s.contains(x) {
                    let k = choose|k: int| 0 <= k < s.len() && s[k] == x;
                    if k < front.len() {
                        assert(front[k] == x);
                    }
                }
                assert(s[s.len() - 1] == s.last());
            }
            assert(r.contains(x) <==> w.contains(x) || x == s.last()) by {
                if w.contains(x) {
                    let k = choose|k: int| 0 <= k < w.len() && w[k] == x;
                    assert(r[k] == x);
                }
                if r.contains(x) {
                    let k = choose|k: int| 0 <= k < r.len() && r[k] == x;
                    if k < w.len() {
                        assert(w[k] == x);
                    }
                }
                assert(r[r.len() - 1] == s.last());
            }
        }
    }
}

/// A text set is in order, holds no text twice, and holds the same texts.
pub proof fn text_set_is_a_set(list: Seq<Seq<char>>)
    ensures
        in_order(text_set(list), text_order()),
        all_distinct(text_set(list)),
        forall|x: Seq<char>| #[trigger] text_set(list).contains(x) <==> list.contains(x),
{
    broadcast use vstd::seq_lib::group_to_multiset_ensures;

    text_order_is_order();
    sort_by_is_ordered(list, text_order());
    sort_by_keeps_items(list, text_order());
    lemma_without_repeats(sort_texts(list));
    assert forall|x: Seq<char>| #[trigger] text_set(list).contains(x) <==> list.contains(x) by {
        assert(sort_texts(list).contains(x) <==> list.contains(x)) by {
            list.to_multiset_ensures();
            sort_texts(list).to_multiset_ensures();
            assert(list.contains(x) <==> list.to_multiset().count(x) > 0);
            assert(sort_texts(list).contains(x) <==> sort_texts(list).to_multiset().count(x) > 0);
        }
    }
}

/// Sorts strings and drops repeats.
pub fn sorted_set(list: Vec<String>) -> (r: Vec<String>)
    ensures
        texts(r@) == text_set(texts(list@)),
{
    let sorted: Vec<String> = sort_strings(list);
    let ghost all = texts(sorted@);
    let mut out: Vec<String> = Vec::new();
    let mut i: usize = 0;
    assert(all.take(0) =~= Seq::empty());
    while i < sorted.len()
        invariant
            i <= sorted@.len(),
            all == texts(sorted@),
            texts(out@) == without_repeats(all.take(i as int)),
        decreases sorted@.len() - i,
    {
        assert(all.take(i + 1).drop_last() =~= all.take(i as int));
        assert(all.take(i + 1).last() == sorted@[i as int]@);
        assert(texts(out@).len() == out@.len());
        let n: usize = out.len();
        if n > 0 {
            assert(texts(out@).last() == out@[n - 1]@);
        }
        if n == 0 || !same_text(out[n - 1].as_str(), sorted[i].as_str()) {
            let ghost before = out@;
            out.push(sorted[i].clone());
            assert(texts(out@) =~= texts(before).push(sorted@[i as int]@));
        }
        i = i + 1;
    }
    assert(all.take(i as int) =~= all);
    out
}

} // verus!
