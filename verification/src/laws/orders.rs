//! Order: how texts compare, and that sorting keeps what it need not move.

use crate::number::{decimal, lemma_radix_roundtrip, parse_signed};
use crate::order::{insert_by, sort_by, text_le, text_le_from};
use vstd::prelude::*;

verus! {

/// Texts compare by the first character in which they differ; a text comes
/// before every longer one that it starts.
pub proof fn texts_compare_by_their_first_difference(
    start: Seq<char>,
    a: Seq<char>,
    b: Seq<char>,
)
    requires
        a.len() > 0 && b.len() > 0 ==> a[0] != b[0],
    ensures
        a.len() > 0 && b.len() > 0 ==> (text_le(start + a, start + b) <==> a[0] < b[0]),
        a.len() == 0 ==> text_le(start + a, start + b),
        a.len() > 0 && b.len() == 0 ==> !text_le(start + a, start + b),
{
    lemma_compare(start, a, b, 0);
}

proof fn lemma_compare(start: Seq<char>, a: Seq<char>, b: Seq<char>, i: int)
    requires
        0 <= i <= start.len(),
        a.len() > 0 && b.len() > 0 ==> a[0] != b[0],
    ensures
        text_le_from(start + a, start + b, i) == (a.len() == 0 || (b.len() > 0 && a[0] < b[0])),
    decreases start.len() - i,
{
    let x = start + a;
    let y = start + b;
    if i < start.len() {
        assert(x[i] == start[i] && y[i] == start[i]);
        lemma_compare(start, a, b, i + 1);
    } else {
        if a.len() > 0 {
            assert(x[i] == a[0]);
        }
        if b.len() > 0 {
            assert(y[i] == b[0]);
        }
    }
}

proof fn lemma_filter_push<T>(s: Seq<T>, x: T, p: spec_fn(T) -> bool)
    ensures
        s.push(x).filter(p) == (if p(x) {
            s.filter(p).push(x)
        } else {
            s.filter(p)
        }),
{
    reveal(Seq::filter);
    assert(s.push(x).drop_last() =~= s);
}

proof fn lemma_insert_stable<T>(
    s: Seq<T>,
    x: T,
    le: spec_fn(T, T) -> bool,
    p: spec_fn(T) -> bool,
)
    requires
        forall|a: T, b: T| #[trigger] p(a) && #[trigger] p(b) ==> le(a, b),
    ensures
        insert_by(s, x, le).filter(p) == s.push(x).filter(p),
    decreases s.len(),
{
    if s.len() > 0 && !le(s.last(), x) {
        let front = s.drop_last();
        let last = s.last();
        lemma_insert_stable(front, x, le, p);
        lemma_filter_push(insert_by(front, x, le), last, p);
        lemma_filter_push(front, x, p);
        lemma_filter_push(front, last, p);
        assert(front.push(last) =~= s);
        lemma_filter_push(s, x, p);
        assert(!(p(last) && p(x)));
    }
}

/// Items of which each may stand before the other keep their order when a list is
/// sorted.
pub proof fn equal_items_keep_their_order<T>(
    s: Seq<T>,
    le: spec_fn(T, T) -> bool,
    p: spec_fn(T) -> bool,
)
    requires
        forall|a: T, b: T| #[trigger] p(a) && #[trigger] p(b) ==> le(a, b),
    ensures
        sort_by(s, le).filter(p) == s.filter(p),
    decreases s.len(),
{
    if s.len() > 0 {
        let front = s.drop_last();
        equal_items_keep_their_order(front, le, p);
        lemma_insert_stable(sort_by(front, le), s.last(), le, p);
        lemma_filter_push(sort_by(front, le), s.last(), p);
        lemma_filter_push(front, s.last(), p);
        assert(front.push(s.last()) =~= s);
    }
}

/// A minus sign makes a number negative.
pub proof fn signed_numbers_are_read(n: nat)
    requires
        n <= i64::MAX,
    ensures
        parse_signed(decimal(n)) == Some(n as int),
        parse_signed("-"@ + decimal(n)) == Some(-(n as int)),
{
    reveal_strlit("-");
    lemma_radix_roundtrip(n, 10);
    let text = "-"@ + decimal(n);
    assert(text.skip(1) =~= decimal(n));
    assert(text[0] == '-');
    assert(crate::number::digit_value(decimal(n)[0], 10) is Some);
}

} // verus!
