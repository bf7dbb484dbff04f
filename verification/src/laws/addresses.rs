//! Addresses: how they are written, and that what is written is what is read.

use crate::cli::{canonical_host, loopback_host};
use crate::ip::{
    colon_parts, group_at, groups_text, groups_value, hex_groups, host_text, longest_zeros,
    parse_group, parse_ip, parse_octet, parse_v4, span_of, spells_loopback, tail_groups, v4_text,
    v6_groups, v6_text, zero_groups, zero_run, IpAddr,
};
use crate::laws::bridge::lemma_decimal_is_tight;
use crate::laws::numbers::{bound, lemma_length};
use crate::laws::texts::{
    a_first_piece_comes_first, found_first_at, joined_texts_split, split_nowhere,
    stripping_undoes_putting,
};
use crate::number::{decimal, digit_value, lemma_radix_roundtrip, radix_text};
use crate::text::{
    find_sub, has_suffix, join, lemma_find_sub_from, lower_text, occurs_at, split_char,
};
use vstd::prelude::*;

verus! {

// --------------------------------------------------------------------- IPv4

/// Four numbers between dots.
pub open spec fn dotted(a: nat, b: nat, c: nat, d: nat) -> Seq<char> {
    decimal(a) + "."@ + decimal(b) + "."@ + decimal(c) + "."@ + decimal(d)
}

proof fn lemma_octet(n: nat)
    requires
        n <= 255,
    ensures
        parse_octet(decimal(n)) == Some(n),
        !decimal(n).contains('.'),
{
    lemma_radix_roundtrip(n, 10);
    lemma_decimal_is_tight(n);
    reveal_with_fuel(bound, 4);
    lemma_length(n, 10, 3);
    if n == 0 {
        assert(decimal(0).len() == 1);
    }
}

/// Four numbers up to 255 between dots are the IPv4 address of these octets, the
/// first highest: a loopback address exactly where the first is 127, and the
/// wildcard exactly where all are zero.
pub proof fn dotted_numbers_are_addresses(a: nat, b: nat, c: nat, d: nat)
    requires
        a <= 255 && b <= 255 && c <= 255 && d <= 255,
    ensures
        ({
            let value = a * 0x100_0000 + b * 0x1_0000 + c * 0x100 + d;
            let text = dotted(a, b, c, d);
            &&& parse_ip(text) == Some(IpAddr::V4(value as u32))
            &&& value <= u32::MAX
            &&& IpAddr::V4(value as u32).loopback() <==> a == 127
            &&& IpAddr::V4(value as u32).unspecified() <==> a == 0 && b == 0 && c == 0 && d == 0
            &&& spells_loopback(text) <==> a == 127
            &&& v4_text(value) == text
            &&& host_text(IpAddr::V4(value as u32)) == text
        }),
{
    lemma_dotted(a, b, c, d);
    lemma_places(a, b, c, d);
    lemma_written(a, b, c, d);
}

proof fn lemma_places(a: nat, b: nat, c: nat, d: nat)
    requires
        a <= 255 && b <= 255 && c <= 255 && d <= 255,
    ensures
        ({
            let value = a * 0x100_0000 + b * 0x1_0000 + c * 0x100 + d;
            &&& value <= u32::MAX
            &&& value / 0x100_0000 == a
            &&& value / 0x1_0000 % 0x100 == b
            &&& value / 0x100 % 0x100 == c
            &&& value % 0x100 == d
        }),
{
}

#[verifier::rlimit(40)]
proof fn lemma_dotted(a: nat, b: nat, c: nat, d: nat)
    requires
        a <= 255 && b <= 255 && c <= 255 && d <= 255,
    ensures
        parse_v4(dotted(a, b, c, d)) == Some(a * 0x100_0000 + b * 0x1_0000 + c * 0x100 + d),
{
    reveal_strlit(".");
    let text = dotted(a, b, c, d);
    lemma_octet(a);
    lemma_octet(b);
    lemma_octet(c);
    lemma_octet(d);
    let last = decimal(d);
    let two = decimal(c) + seq!['.'] + last;
    let three = decimal(b) + seq!['.'] + two;
    assert(text =~= decimal(a) + seq!['.'] + three);
    a_first_piece_comes_first(decimal(a), '.', three);
    a_first_piece_comes_first(decimal(b), '.', two);
    a_first_piece_comes_first(decimal(c), '.', last);
    split_nowhere(last, '.');
    let parts = split_char(text, '.');
    assert(parts =~= seq![decimal(a), decimal(b), decimal(c), decimal(d)]);
}

proof fn lemma_written(a: nat, b: nat, c: nat, d: nat)
    requires
        a <= 255 && b <= 255 && c <= 255 && d <= 255,
    ensures
        v4_text(a * 0x100_0000 + b * 0x1_0000 + c * 0x100 + d) == dotted(a, b, c, d),
{
    reveal_strlit(".");
    lemma_places(a, b, c, d);
    assert("."@ =~= seq!['.']);
}

/// A part of an IPv4 address is a number up to 255 without leading zeros.
pub proof fn other_parts_are_no_octets(n: nat, rest: Seq<char>)
    requires
        n > 255,
        rest.len() > 0,
    ensures
        parse_octet(decimal(n)) is None,
        parse_octet("0"@ + rest) is None,
        parse_octet(Seq::empty()) is None,
{
    reveal_strlit("0");
    lemma_radix_roundtrip(n, 10);
    assert(("0"@ + rest)[0] == '0');
}

// --------------------------------------------------------------------- IPv6

/// Groups as they are written: in hexadecimal.
pub open spec fn hex_texts(groups: Seq<nat>) -> Seq<Seq<char>> {
    groups.map_values(|g: nat| radix_text(g, 16))
}

/// Groups of sixteen bits.
pub open spec fn are_groups(groups: Seq<nat>) -> bool {
    forall|i: int| 0 <= i < groups.len() ==> #[trigger] groups[i] < 0x1_0000
}

proof fn lemma_group(g: nat)
    requires
        g < 0x1_0000,
    ensures
        parse_group(radix_text(g, 16)) == Some(g),
        radix_text(g, 16).len() > 0,
        !radix_text(g, 16).contains(':'),
        !radix_text(g, 16).contains('.'),
{
    lemma_radix_roundtrip(g, 16);
    reveal_with_fuel(bound, 5);
    lemma_length(g, 16, 4);
    let text = radix_text(g, 16);
    if text.contains(':') {
        let k = choose|k: int| 0 <= k < text.len() && text[k] == ':';
        assert(digit_value(text[k], 16) is Some);
    }
    if text.contains('.') {
        let k = choose|k: int| 0 <= k < text.len() && text[k] == '.';
        assert(digit_value(text[k], 16) is Some);
    }
}

proof fn lemma_hex(groups: Seq<nat>)
    requires
        are_groups(groups),
    ensures
        hex_groups(hex_texts(groups)) == Some(groups),
    decreases groups.len(),
{
    let parts = hex_texts(groups);
    if groups.len() == 0 {
        assert(groups =~= Seq::<nat>::empty());
    } else {
        let front = groups.drop_last();
        assert forall|i: int| 0 <= i < front.len() implies #[trigger] front[i] < 0x1_0000 by {
            assert(front[i] == groups[i]);
        }
        lemma_hex(front);
        assert(parts.drop_last() =~= hex_texts(front));
        assert(groups[groups.len() - 1] == groups.last());
        lemma_group(groups.last());
        assert(front.push(groups.last()) =~= groups);
    }
}

proof fn lemma_joined(groups: Seq<nat>)
    requires
        are_groups(groups),
    ensures
        colon_parts(join(hex_texts(groups), ":"@)) == hex_texts(groups),
        tail_groups(hex_texts(groups)) == Some(groups),
        hex_groups(hex_texts(groups)) == Some(groups),
{
    reveal_strlit(":");
    assert(":"@ =~= seq![':']);
    lemma_hex(groups);
    let parts = hex_texts(groups);
    let text = join(parts, ":"@);
    assert forall|i: int| 0 <= i < parts.len() implies (#[trigger] parts[i]).len() > 0
        && !parts[i].contains(':') && !parts[i].contains('.') by {
        assert(groups[i] < 0x1_0000);
        lemma_group(groups[i]);
    }
    if groups.len() == 0 {
        assert(text.len() == 0);
        assert(parts =~= Seq::<Seq<char>>::empty());
    } else {
        joined_texts_split(parts, ':');
        lemma_join_ends(parts);
        let last = parts.last();
        assert(parts[parts.len() - 1] == last);
        split_nowhere(last, '.');
    }
}

proof fn lemma_join_ends(parts: Seq<Seq<char>>)
    requires
        parts.len() > 0,
        forall|i: int|
            0 <= i < parts.len() ==> (#[trigger] parts[i]).len() > 0 && !parts[i].contains(':'),
    ensures
        join(parts, ":"@).len() > 0,
        join(parts, ":"@)[0] != ':',
        join(parts, ":"@).last() != ':',
        forall|i: int|
            #![trigger join(parts, ":"@)[i]]
            0 <= i < join(parts, ":"@).len() - 1 ==> !(join(parts, ":"@)[i] == ':' && join(
                parts,
                ":"@,
            )[i + 1] == ':'),
    decreases parts.len(),
{
    reveal_strlit(":");
    let text = join(parts, ":"@);
    let last = parts.last();
    assert(parts[parts.len() - 1] == last);
    assert(last.last() != ':' && last[0] != ':') by {
        if last.last() == ':' {
            assert(last[last.len() - 1] == ':');
            assert(last.contains(':'));
        }
        if last[0] == ':' {
            assert(last.contains(':'));
        }
    }
    if parts.len() == 1 {
        assert(text == parts[0]);
        assert forall|i: int| 0 <= i < text.len() - 1 implies !(#[trigger] text[i] == ':'
            && text[i + 1] == ':') by {
            if text[i] == ':' {
                assert(parts[0].contains(':'));
            }
        }
    } else {
        let front = parts.drop_last();
        assert forall|i: int| 0 <= i < front.len() implies (#[trigger] front[i]).len() > 0
            && !front[i].contains(':') by {
            assert(front[i] == parts[i]);
        }
        lemma_join_ends(front);
        let before = join(front, ":"@);
        assert(text == before + ":"@ + last);
        let n = before.len() as int;
        assert(text.last() == last.last());
        assert(text[0] == before[0]);
        assert forall|i: int| 0 <= i < text.len() - 1 implies !(#[trigger] text[i] == ':'
            && text[i + 1] == ':') by {
            if i + 1 < n {
                assert(text[i] == before[i] && text[i + 1] == before[i + 1]);
            } else if i + 1 == n {
                assert(text[i] == before.last());
            } else if i == n {
                assert(text[i + 1] == last[0]);
            } else {
                assert(text[i] == last[i - n - 1]);
                if text[i] == ':' {
                    assert(last.contains(':'));
                }
            }
        }
    }
}

/// Eight hexadecimal groups between colons are an IPv6 address of these groups;
/// two colons stand for as many zero groups as are missing.
pub proof fn colon_groups_are_addresses(groups: Seq<nat>, head: Seq<nat>, tail: Seq<nat>)
    requires
        are_groups(groups),
        groups.len() == 8,
        are_groups(head),
        are_groups(tail),
        head.len() + tail.len() <= 7,
    ensures
        v6_groups(join(hex_texts(groups), ":"@)) == Some(groups),
        v6_groups(join(hex_texts(head), ":"@) + "::"@ + join(hex_texts(tail), ":"@)) == Some(
            head + Seq::new((8 - head.len() - tail.len()) as nat, |i: int| 0nat) + tail,
        ),
{
    reveal_strlit("::");
    lemma_joined(groups);
    let full = join(hex_texts(groups), ":"@);
    lemma_plain(groups);
    lemma_find_sub_from(full, "::"@, 0);
    if let Some(k) = find_sub(full, "::"@) {
        assert(occurs_at(full, "::"@, k));
        assert(full.subrange(k, k + 2)[0] == full[k]);
        assert(full.subrange(k, k + 2)[1] == full[k + 1]);
    }
    lemma_short(head, tail);
    lemma_joined(head);
    lemma_joined(tail);
    let before = join(hex_texts(head), ":"@);
    let after = join(hex_texts(tail), ":"@);
    let text = before + "::"@ + after;
    assert(text.take(before.len() as int) =~= before);
    assert(text.skip(before.len() as int + 2) =~= after);
    assert(zero_groups(8 - head.len() - tail.len()) =~= Seq::new(
        (8 - head.len() - tail.len()) as nat,
        |i: int| 0nat,
    ));
}

proof fn lemma_plain(groups: Seq<nat>)
    requires
        are_groups(groups),
        groups.len() > 0,
    ensures
        ({
            let text = join(hex_texts(groups), ":"@);
            &&& text.len() > 0
            &&& text.last() != ':'
            &&& forall|i: int|
                0 <= i < text.len() - 1 ==> !(#[trigger] text[i] == ':' && text[i + 1] == ':')
        }),
{
    let parts = hex_texts(groups);
    assert forall|i: int| 0 <= i < parts.len() implies (#[trigger] parts[i]).len() > 0
        && !parts[i].contains(':') by {
        assert(groups[i] < 0x1_0000);
        lemma_group(groups[i]);
    }
    lemma_join_ends(parts);
}

proof fn lemma_short(head: Seq<nat>, tail: Seq<nat>)
    requires
        are_groups(head),
    ensures
        ({
            let before = join(hex_texts(head), ":"@);
            find_sub(before + "::"@ + join(hex_texts(tail), ":"@), "::"@) == Some(
                before.len() as int,
            )
        }),
{
    let before = join(hex_texts(head), ":"@);
    if head.len() > 0 {
        lemma_plain(head);
    } else {
        assert(before.len() == 0);
    }
    lemma_first_pair(before, join(hex_texts(tail), ":"@));
}

proof fn lemma_first_pair(before: Seq<char>, after: Seq<char>)
    requires
        before.len() > 0 ==> before.last() != ':',
        forall|i: int|
            0 <= i < before.len() - 1 ==> !(#[trigger] before[i] == ':' && before[i + 1] == ':'),
    ensures
        find_sub(before + "::"@ + after, "::"@) == Some(before.len() as int),
{
    reveal_strlit("::");
    let pair = "::"@;
    let text = before + pair + after;
    let n = before.len() as int;
    assert(occurs_at(text, pair, n)) by {
        assert(text.subrange(n, n + 2) =~= pair);
    }
    assert forall|k: int| 0 <= k < n implies !#[trigger] occurs_at(text, pair, k) by {
        if occurs_at(text, pair, k) {
            assert(text.subrange(k, k + 2)[0] == text[k]);
            assert(text.subrange(k, k + 2)[1] == text[k + 1]);
            assert(text[k] == before[k]);
            if k + 1 < n {
                assert(text[k + 1] == before[k + 1]);
            }
        }
    }
    found_first_at(text, pair, n);
}

/// The groups of an address.
pub open spec fn groups_of(v: nat) -> Seq<nat> {
    Seq::new(8, |i: int| group_at(v, i))
}

proof fn lemma_spans()
    ensures
        span_of(0) == 1,
        span_of(8) == 0x1_0000_0000_0000_0000_0000_0000_0000_0000,
        forall|k: nat| k > 0 ==> #[trigger] span_of(k) == 0x1_0000 * span_of((k - 1) as nat),
        forall|k: nat| #[trigger] span_of(k) > 0,
{
    reveal_with_fuel(span_of, 9);
    assert forall|k: nat| #[trigger] span_of(k) > 0 by {
        lemma_span_positive(k);
    }
}

proof fn lemma_span_positive(k: nat)
    ensures
        span_of(k) > 0,
    decreases k,
{
    if k > 0 {
        lemma_span_positive((k - 1) as nat);
    }
}

proof fn lemma_groups_take(v: nat, k: nat)
    requires
        v < 0x1_0000_0000_0000_0000_0000_0000_0000_0000,
        k <= 8,
    ensures
        groups_value(groups_of(v).take(k as int)) == v / span_of((8 - k) as nat),
    decreases k,
{
    lemma_spans();
    let part = groups_of(v).take(k as int);
    if k == 0 {
        assert(part.len() == 0);
        vstd::arithmetic::div_mod::lemma_basic_div(v as int, span_of(8) as int);
    } else {
        let less = (k - 1) as nat;
        lemma_groups_take(v, less);
        assert(part.drop_last() =~= groups_of(v).take(less as int));
        assert(part.last() == group_at(v, less as int));
        let s = span_of((8 - k) as nat);
        let t = span_of((9 - k) as nat);
        assert(t == 0x1_0000 * s);
        let q = v / s;
        assert(group_at(v, less as int) == q % 0x1_0000);
        vstd::arithmetic::div_mod::lemma_div_denominator(v as int, s as int, 0x1_0000);
        assert(s * 0x1_0000 == t) by (nonlinear_arith)
            requires
                t == 0x1_0000 * s,
        ;
        assert(v / t == q / 0x1_0000);
        assert(0x1_0000 * (q / 0x1_0000) + q % 0x1_0000 == q);
    }
}

/// The groups of an address make up the address.
pub proof fn groups_make_up_the_address(v: nat)
    requires
        v < 0x1_0000_0000_0000_0000_0000_0000_0000_0000,
    ensures
        groups_value(groups_of(v)) == v,
        are_groups(groups_of(v)),
{
    lemma_groups_take(v, 8);
    lemma_spans();
    assert(groups_of(v).take(8) =~= groups_of(v));
    let one = span_of(0);
    assert(v / one == v) by (nonlinear_arith)
        requires
            one == 1,
    ;
    assert forall|i: int| 0 <= i < 8 implies #[trigger] groups_of(v)[i] < 0x1_0000 by {
        assert(groups_of(v)[i] == group_at(v, i));
    }
}

proof fn lemma_groups_text(v: nat, from: int, to: int)
    requires
        0 <= from <= to <= 8,
    ensures
        groups_text(v, from, to) == join(hex_texts(groups_of(v).subrange(from, to)), ":"@),
    decreases to - from,
{
    reveal_strlit(":");
    let part = groups_of(v).subrange(from, to);
    let texts = hex_texts(part);
    if from + 1 == to {
        assert(texts[0] == radix_text(group_at(v, from), 16));
    } else if from < to {
        lemma_groups_text(v, from, to - 1);
        assert(texts.drop_last() =~= hex_texts(groups_of(v).subrange(from, to - 1)));
        assert(texts.last() == radix_text(group_at(v, to - 1), 16));
        assert(":"@ =~= seq![':']);
    }
}

proof fn lemma_zero_run(v: nat, i: int)
    requires
        0 <= i <= 8,
    ensures
        0 <= zero_run(v, i) <= 8 - i,
        forall|k: int| i <= k < i + zero_run(v, i) ==> #[trigger] group_at(v, k) == 0,
    decreases 8 - i,
{
    if i < 8 && group_at(v, i) == 0 {
        lemma_zero_run(v, i + 1);
    }
}

proof fn lemma_longest(v: nat, n: int)
    requires
        1 <= n <= 8,
    ensures
        0 <= longest_zeros(v, n) < n,
    decreases n,
{
    if n > 1 {
        lemma_longest(v, n - 1);
    }
}

/// An IPv6 address that was written reads back as itself.
#[verifier::rlimit(40)]
pub proof fn written_addresses_are_read(v: u128)
    ensures
        parse_ip(v6_text(v as nat)) == Some(IpAddr::V6(v)),
        !v6_text(v as nat).contains('.'),
{
    reveal_strlit("::");
    let n = v as nat;
    let groups = groups_of(n);
    groups_make_up_the_address(n);
    let start = longest_zeros(n, 8);
    lemma_longest(n, 8);
    let count = zero_run(n, start);
    lemma_zero_run(n, start);
    let text = v6_text(n);
    let head = groups.subrange(0, start);
    let tail = groups.subrange(start + count, 8);
    assert forall|i: int| 0 <= i < head.len() implies #[trigger] head[i] < 0x1_0000 by {
        assert(head[i] == groups[i]);
    }
    assert forall|i: int| 0 <= i < tail.len() implies #[trigger] tail[i] < 0x1_0000 by {
        assert(tail[i] == groups[start + count + i]);
    }
    lemma_no_dot(groups);
    lemma_no_dot(head);
    lemma_no_dot(tail);
    if count > 1 {
        lemma_groups_text(n, 0, start);
        lemma_groups_text(n, start + count, 8);
        colon_groups_are_addresses(groups, head, tail);
        let zeros = Seq::new((8 - head.len() - tail.len()) as nat, |i: int| 0nat);
        assert forall|i: int| 0 <= i < 8 implies (head + zeros + tail)[i] == groups[i] by {
            if start <= i < start + count {
                assert(group_at(n, i) == 0);
            }
        }
        assert(head + zeros + tail =~= groups);
        assert(v6_groups(text) == Some(groups));
        if text.contains('.') {
            let k = choose|k: int| 0 <= k < text.len() && text[k] == '.';
            let a = join(hex_texts(head), ":"@);
            let b = join(hex_texts(tail), ":"@);
            if k < a.len() {
                assert(a[k] == '.');
                assert(a.contains('.'));
            } else if k >= a.len() + 2 {
                assert(b[k - a.len() - 2] == '.');
                assert(b.contains('.'));
            }
        }
    } else {
        lemma_groups_text(n, 0, 8);
        assert(groups.subrange(0, 8) =~= groups);
        colon_groups_are_addresses(groups, Seq::empty(), Seq::empty());
        assert(v6_groups(text) == Some(groups));
    }
    split_nowhere(text, '.');
    assert(parse_v4(text) is None);
}

proof fn lemma_no_dot(groups: Seq<nat>)
    requires
        are_groups(groups),
    ensures
        !join(hex_texts(groups), ":"@).contains('.'),
    decreases groups.len(),
{
    reveal_strlit(":");
    let texts = hex_texts(groups);
    let text = join(texts, ":"@);
    if groups.len() > 0 {
        let last = groups.last();
        assert(groups[groups.len() - 1] == last);
        lemma_group(last);
        if groups.len() == 1 {
            assert(text == texts[0]);
        } else {
            let front = groups.drop_last();
            assert forall|i: int| 0 <= i < front.len() implies #[trigger] front[i] < 0x1_0000 by {
                assert(front[i] == groups[i]);
            }
            lemma_no_dot(front);
            assert(texts.drop_last() =~= hex_texts(front));
            let before = join(hex_texts(front), ":"@);
            assert(text == before + ":"@ + texts.last());
            if text.contains('.') {
                let k = choose|k: int| 0 <= k < text.len() && text[k] == '.';
                if k < before.len() {
                    assert(before[k] == '.');
                } else if k > before.len() {
                    assert(texts.last()[k - before.len() - 1] == '.');
                }
            }
        }
    }
}

/// An address is written as a URL has it: IPv6 in brackets, but for an IPv4
/// address in IPv6 form, which is written as the IPv4 address that it is. The
/// IPv6 address one is the loopback, and zero the wildcard.
pub proof fn addresses_are_written_for_urls(v: u128)
    ensures
        v / 0x1_0000_0000 != 0xffff ==> {
            let text = host_text(IpAddr::V6(v));
            &&& text.len() > 2
            &&& text[0] == '[' && text.last() == ']'
            &&& parse_ip(text.subrange(1, text.len() - 1)) == Some(IpAddr::V6(v))
        },
        v / 0x1_0000_0000 == 0xffff ==> host_text(IpAddr::V6(v)) == host_text(
            IpAddr::V4((v % 0x1_0000_0000) as u32),
        ),
        IpAddr::V6(v).loopback() <==> v == 1,
        IpAddr::V6(v).unspecified() <==> v == 0,
{
    written_addresses_are_read(v);
    let text = host_text(IpAddr::V6(v));
    if v / 0x1_0000_0000 != 0xffff {
        let inner = v6_text(v as nat);
        assert(text.subrange(1, text.len() - 1) =~= inner);
        crate::ip::lemma_ip_shape(inner);
    }
}

/// The loopback hosts: localhost, the addresses that start with 127, and the
/// IPv6 address one, in brackets or not.
pub proof fn loopback_hosts_are_known(a: nat, b: nat, c: nat, d: nat)
    requires
        a <= 255 && b <= 255 && c <= 255 && d <= 255,
    ensures
        loopback_host("localhost"@),
        loopback_host(dotted(a, b, c, d)) <==> a == 127,
        loopback_host("::1"@),
        loopback_host("[::1]"@),
{
    reveal_strlit("localhost");
    reveal_strlit("::1");
    reveal_strlit("[::1]");
    lemma_one();
    assert("[::1]"@.subrange(1, 4) =~= "::1"@);
    assert("::1"@[0] == ':');
    dotted_numbers_are_addresses(a, b, c, d);
    let text = dotted(a, b, c, d);
    lemma_radix_roundtrip(a, 10);
    assert(text[0] == decimal(a)[0]);
    assert(digit_value(decimal(a)[0], 10) is Some);
    assert(text != "localhost"@) by {
        if text == "localhost"@ {
            assert(text[0] == 'l');
        }
    }
}

#[verifier::rlimit(40)]
proof fn lemma_one()
    ensures
        spells_loopback("::1"@),
{
    reveal_strlit("::1");
    reveal_strlit("::");
    let one = seq![1nat];
    let none = Seq::<nat>::empty();
    colon_groups_are_addresses(Seq::new(8, |i: int| 0nat), none, one);
    assert(hex_texts(none) =~= Seq::<Seq<char>>::empty());
    assert(radix_text(1, 16) =~= seq!['1']);
    assert(hex_texts(one)[0] == radix_text(1, 16));
    assert(join(hex_texts(none), ":"@) + "::"@ + join(hex_texts(one), ":"@) =~= "::1"@);
    let zeros = Seq::new(7, |i: int| 0nat);
    let groups = none + zeros + one;
    assert(v6_groups("::1"@) == Some(groups));
    lemma_zeros(7);
    assert(groups.drop_last() =~= zeros);
    assert(groups.last() == 1);
    assert(groups_value(groups) == 1);
    split_nowhere("::1"@, '.');
}

/// A host is compared in lower case and without one trailing dot.
pub proof fn hosts_are_compared_in_lower_case(host: Seq<char>)
    ensures
        canonical_host(host + "."@) == lower_text(host),
        host.len() == 0 || host.last() != '.' ==> canonical_host(host) == lower_text(host),
{
    reveal_strlit(".");
    stripping_undoes_putting("."@, host);
    if has_suffix(host, "."@) {
        assert(host.skip(host.len() - 1)[0] == host.last());
    }
}

proof fn lemma_zeros(count: nat)
    ensures
        groups_value(Seq::new(count, |i: int| 0nat)) == 0,
    decreases count,
{
    if count > 0 {
        let s = Seq::new(count, |i: int| 0nat);
        lemma_zeros((count - 1) as nat);
        assert(s.drop_last() =~= Seq::new((count - 1) as nat, |i: int| 0nat));
    }
}

/// An IPv6 address may end in an IPv4 address, which stands for its last two
/// groups.
#[verifier::spinoff_prover]
#[verifier::rlimit(80)]
pub proof fn dotted_tails_are_two_groups(
    head: Seq<nat>,
    middle: Seq<nat>,
    a: nat,
    b: nat,
    c: nat,
    d: nat,
)
    requires
        a <= 255 && b <= 255 && c <= 255 && d <= 255,
        are_groups(head),
        are_groups(middle),
        head.len() + middle.len() <= 5,
    ensures
        v6_groups(
            join(hex_texts(head), ":"@) + "::"@ + join(
                hex_texts(middle).push(dotted(a, b, c, d)),
                ":"@,
            ),
        ) == Some(
            head + Seq::new((6 - head.len() - middle.len()) as nat, |i: int| 0nat) + middle.push(
                a * 256 + b,
            ).push(c * 256 + d),
        ),
{
    reveal_strlit(":");
    reveal_strlit("::");
    reveal_strlit(".");
    assert(":"@ =~= seq![':']);
    let last = dotted(a, b, c, d);
    let parts = hex_texts(middle).push(last);
    lemma_dotted(a, b, c, d);
    assert(!last.contains(':')) by {
        lemma_decimal_is_tight(a);
        lemma_decimal_is_tight(b);
        lemma_decimal_is_tight(c);
        lemma_decimal_is_tight(d);
        if last.contains(':') {
            let k = choose|k: int| 0 <= k < last.len() && last[k] == ':';
            let x = decimal(a).len() as int;
            let y = x + 1 + decimal(b).len();
            let z = y + 1 + decimal(c).len();
            if k < x {
                assert(decimal(a)[k] == ':');
            } else if x < k < y {
                assert(decimal(b)[k - x - 1] == ':');
            } else if y < k < z {
                assert(decimal(c)[k - y - 1] == ':');
            } else if k > z {
                assert(decimal(d)[k - z - 1] == ':');
            }
        }
    }
    assert forall|i: int| 0 <= i < parts.len() implies !(#[trigger] parts[i]).contains(':') by {
        if i < middle.len() {
            assert(middle[i] < 0x1_0000);
            assert(parts[i] == radix_text(middle[i], 16));
            lemma_group(middle[i]);
        }
    }
    joined_texts_split(parts, ':');
    lemma_hex(middle);
    assert(parts.last() == last);
    assert(parts.drop_last() =~= hex_texts(middle));
    let value = a * 0x100_0000 + b * 0x1_0000 + c * 0x100 + d;
    assert(value / 0x1_0000 == a * 256 + b && value % 0x1_0000 == c * 256 + d);
    let tail = middle.push(a * 256 + b).push(c * 256 + d);
    assert(tail_groups(parts) == Some(tail));
    let before = join(hex_texts(head), ":"@);
    let after = join(parts, ":"@);
    if head.len() > 0 {
        lemma_plain(head);
    }
    lemma_first_pair(before, after);
    lemma_joined(head);
    let text = before + "::"@ + after;
    assert(text.take(before.len() as int) =~= before);
    assert(text.skip(before.len() as int + 2) =~= after);
    assert(after.len() > 0) by {
        if parts.len() > 1 {
            assert(after == join(parts.drop_last(), ":"@) + ":"@ + last);
        }
        lemma_radix_roundtrip(a, 10);
    }
    assert(zero_groups(8 - head.len() - tail.len()) =~= Seq::new(
        (6 - head.len() - middle.len()) as nat,
        |i: int| 0nat,
    ));
}

} // verus!
