//! IP addresses: reading them, writing them, and the ranges that matter here.

use crate::number::{
    all_digits, decimal, digit_value, digits_value, radix_text, radix_value, write_radix,
};
use crate::text::{
    all_chars, chars_of, find_sub, find_text, lemma_find_sub_from, lemma_split_char, occurs_at,
    push_chars, split_at_char, split_char, string_of, views,
};
use vstd::prelude::*;
use vstd::slice::slice_subrange;

verus! {

/// An IPv4 or IPv6 address as a number, the first octet highest.
#[derive(Clone, Copy, Debug, PartialEq, Eq, Structural)]
pub enum IpAddr {
    V4(u32),
    V6(u128),
}

// ------------------------------------------------------------------ reading

/// A number from 0 to 255 in one to three decimal digits, with no leading zero.
pub open spec fn parse_octet(s: Seq<char>) -> Option<nat> {
    if 1 <= s.len() <= 3 && all_digits(s, 10) && (s.len() > 1 ==> s[0] != '0') && radix_value(s, 10)
        <= 255 {
        Some(radix_value(s, 10))
    } else {
        None
    }
}

/// Four octets between dots.
pub open spec fn parse_v4(s: Seq<char>) -> Option<nat> {
    let parts = split_char(s, '.');
    if parts.len() == 4 {
        match (
            parse_octet(parts[0]),
            parse_octet(parts[1]),
            parse_octet(parts[2]),
            parse_octet(parts[3]),
        ) {
            (Some(a), Some(b), Some(c), Some(d)) => Some(
                0x100_0000 * a + 0x1_0000 * b + 0x100 * c + d,
            ),
            _ => None,
        }
    } else {
        None
    }
}

/// One to four hexadecimal digits.
pub open spec fn parse_group(s: Seq<char>) -> Option<nat> {
    if 1 <= s.len() <= 4 && all_digits(s, 16) {
        Some(radix_value(s, 16))
    } else {
        None
    }
}

/// Every part as a hexadecimal group.
pub open spec fn hex_groups(parts: Seq<Seq<char>>) -> Option<Seq<nat>>
    decreases parts.len(),
{
    if parts.len() == 0 {
        Some(Seq::empty())
    } else {
        match (hex_groups(parts.drop_last()), parse_group(parts.last())) {
            (Some(head), Some(last)) => Some(head.push(last)),
            _ => None,
        }
    }
}

/// Every part as a hexadecimal group, save that the last may be a dotted IPv4
/// address, which stands for two groups.
pub open spec fn tail_groups(parts: Seq<Seq<char>>) -> Option<Seq<nat>> {
    if parts.len() > 0 && parse_v4(parts.last()) is Some {
        match hex_groups(parts.drop_last()) {
            Some(head) => {
                let v = parse_v4(parts.last()).unwrap();
                Some(head.push(v / 0x1_0000).push(v % 0x1_0000))
            },
            None => None,
        }
    } else {
        hex_groups(parts)
    }
}

/// The parts between colons; an empty text has none.
pub open spec fn colon_parts(s: Seq<char>) -> Seq<Seq<char>> {
    if s.len() == 0 {
        Seq::empty()
    } else {
        split_char(s, ':')
    }
}

/// The number that groups of sixteen bits make up, the first highest.
pub open spec fn groups_value(groups: Seq<nat>) -> nat
    decreases groups.len(),
{
    if groups.len() == 0 {
        0
    } else {
        0x1_0000 * groups_value(groups.drop_last()) + groups.last()
    }
}

/// `count` zero groups.
pub open spec fn zero_groups(count: int) -> Seq<nat> {
    Seq::new(count as nat, |i: int| 0nat)
}

/// The groups of an IPv6 address: eight of them, or fewer with `::` in place of
/// at least one zero group.
pub open spec fn v6_groups(s: Seq<char>) -> Option<Seq<nat>> {
    match find_sub(s, "::"@) {
        None => match tail_groups(colon_parts(s)) {
            Some(groups) => if groups.len() == 8 {
                Some(groups)
            } else {
                None
            },
            None => None,
        },
        Some(i) => match (
            hex_groups(colon_parts(s.take(i))),
            tail_groups(colon_parts(s.skip(i + 2))),
        ) {
            (Some(head), Some(tail)) => if head.len() + tail.len() <= 7 {
                Some(head + zero_groups(8 - head.len() - tail.len()) + tail)
            } else {
                None
            },
            _ => None,
        },
    }
}

/// The address that `s` spells.
pub open spec fn parse_ip(s: Seq<char>) -> Option<IpAddr> {
    match parse_v4(s) {
        Some(v) => Some(IpAddr::V4(v as u32)),
        None => match v6_groups(s) {
            Some(groups) => Some(IpAddr::V6(groups_value(groups) as u128)),
            None => None,
        },
    }
}

fn read_octet(s: &[char]) -> (r: Option<u32>)
    ensures
        match r {
            Some(v) => parse_octet(s@) == Some(v as nat) && v <= 255,
            None => parse_octet(s@) is None,
        },
{
    if s.len() > 3 || (s.len() > 1 && s[0] == '0') {
        return None;
    }
    match digits_value(s, 10, 255) {
        Some(v) => Some(v as u32),
        None => None,
    }
}

fn read_v4(s: &[char]) -> (r: Option<u32>)
    ensures
        match r {
            Some(v) => parse_v4(s@) == Some(v as nat),
            None => parse_v4(s@) is None,
        },
{
    let parts: Vec<Vec<char>> = split_at_char(s, '.');
    assert(views(parts@).len() == parts@.len());
    if parts.len() != 4 {
        return None;
    }
    assert(views(parts@)[0] == parts@[0]@);
    assert(views(parts@)[1] == parts@[1]@);
    assert(views(parts@)[2] == parts@[2]@);
    assert(views(parts@)[3] == parts@[3]@);
    let a: u32 = match read_octet(parts[0].as_slice()) {
        Some(v) => v,
        None => return None,
    };
    let b: u32 = match read_octet(parts[1].as_slice()) {
        Some(v) => v,
        None => return None,
    };
    let c: u32 = match read_octet(parts[2].as_slice()) {
        Some(v) => v,
        None => return None,
    };
    let d: u32 = match read_octet(parts[3].as_slice()) {
        Some(v) => v,
        None => return None,
    };
    Some(0x100_0000 * a + 0x1_0000 * b + 0x100 * c + d)
}

proof fn lemma_short_value(s: Seq<char>)
    requires
        s.len() <= 4,
        all_digits(s, 16),
    ensures
        radix_value(s, 16) <= 0xffff,
{
    reveal_with_fuel(radix_value, 5);
    assert forall|i: int| 0 <= i < s.len() implies crate::number::digit_value(s[i], 16).unwrap()
        <= 15 by {
        assert(crate::number::digit_value(s[i], 16) is Some);
    }
}

/// The groups of a sequence of machine words.
pub open spec fn nats(groups: Seq<u16>) -> Seq<nat> {
    groups.map_values(|g: u16| g as nat)
}

fn read_group(s: &[char]) -> (r: Option<u16>)
    ensures
        match r {
            Some(v) => parse_group(s@) == Some(v as nat),
            None => parse_group(s@) is None,
        },
{
    if s.len() > 4 {
        return None;
    }
    proof {
        if all_digits(s@, 16) {
            lemma_short_value(s@);
        }
    }
    match digits_value(s, 16, 0xffff) {
        Some(v) => Some(v as u16),
        None => None,
    }
}

proof fn lemma_hex_groups_prefix(parts: Seq<Seq<char>>, i: int)
    requires
        0 <= i <= parts.len(),
        hex_groups(parts.take(i)) is None,
    ensures
        hex_groups(parts) is None,
    decreases parts.len() - i,
{
    if i < parts.len() {
        assert(parts.take(i + 1).drop_last() =~= parts.take(i));
        lemma_hex_groups_prefix(parts, i + 1);
    } else {
        assert(parts.take(i) =~= parts);
    }
}

/// The first `count` parts as hexadecimal groups.
fn read_groups(parts: &Vec<Vec<char>>, count: usize) -> (r: Option<Vec<u16>>)
    requires
        count <= parts@.len(),
    ensures
        match r {
            Some(v) => hex_groups(views(parts@).take(count as int)) == Some(nats(v@)),
            None => hex_groups(views(parts@).take(count as int)) is None,
        },
{
    let ghost all = views(parts@).take(count as int);
    let mut out: Vec<u16> = Vec::new();
    let mut i: usize = 0;
    assert(all.take(0) =~= Seq::<Seq<char>>::empty());
    assert(nats(out@) =~= Seq::<nat>::empty());
    while i < count
        invariant
            i <= count,
            count <= parts@.len(),
            all == views(parts@).take(count as int),
            hex_groups(all.take(i as int)) == Some(nats(out@)),
        decreases count - i,
    {
        assert(all.take(i + 1).drop_last() =~= all.take(i as int));
        assert(all.take(i + 1).last() == parts@[i as int]@);
        match read_group(parts[i].as_slice()) {
            None => {
                proof {
                    lemma_hex_groups_prefix(all, i + 1);
                }
                return None;
            },
            Some(g) => {
                let ghost before = out@;
                out.push(g);
                assert(nats(out@) =~= nats(before).push(g as nat));
            },
        }
        i = i + 1;
    }
    assert(all.take(count as int) =~= all);
    Some(out)
}

fn parts_of(s: &[char]) -> (r: Vec<Vec<char>>)
    ensures
        views(r@) == colon_parts(s@),
{
    if s.len() == 0 {
        let none: Vec<Vec<char>> = Vec::new();
        assert(views(none@) =~= Seq::<Seq<char>>::empty());
        none
    } else {
        split_at_char(s, ':')
    }
}

fn read_tail(parts: &Vec<Vec<char>>) -> (r: Option<Vec<u16>>)
    ensures
        match r {
            Some(v) => tail_groups(views(parts@)) == Some(nats(v@)),
            None => tail_groups(views(parts@)) is None,
        },
{
    let n: usize = parts.len();
    let ghost all = views(parts@);
    assert(all.take(n as int) =~= all);
    if n == 0 {
        return read_groups(parts, n);
    }
    assert(all.last() == parts@[n - 1]@);
    match read_v4(parts[n - 1].as_slice()) {
        None => read_groups(parts, n),
        Some(v) => {
            assert(all.take(n - 1) =~= all.drop_last());
            match read_groups(parts, n - 1) {
                None => None,
                Some(mut out) => {
                    let ghost before = out@;
                    out.push((v / 0x1_0000) as u16);
                    out.push((v % 0x1_0000) as u16);
                    assert(nats(out@) =~= nats(before).push((v / 0x1_0000) as nat).push(
                        (v % 0x1_0000) as nat,
                    ));
                    Some(out)
                },
            }
        },
    }
}

fn read_v6(s: &[char]) -> (r: Option<Vec<u16>>)
    ensures
        match r {
            Some(v) => v6_groups(s@) == Some(nats(v@)) && v@.len() == 8,
            None => v6_groups(s@) is None,
        },
{
    let n: usize = s.len();
    let mark: Vec<char> = chars_of("::");
    proof {
        reveal_strlit("::");
        lemma_find_sub_from(s@, "::"@, 0);
    }
    match find_text(s, mark.as_slice()) {
        None => {
            let parts: Vec<Vec<char>> = parts_of(s);
            match read_tail(&parts) {
                Some(groups) => {
                    if groups.len() == 8 {
                        Some(groups)
                    } else {
                        None
                    }
                },
                None => None,
            }
        },
        Some(i) => {
            let before: &[char] = slice_subrange(s, 0, i);
            let after: &[char] = slice_subrange(s, i + 2, n);
            assert(before@ =~= s@.take(i as int));
            assert(after@ =~= s@.skip(i + 2));
            let head_parts: Vec<Vec<char>> = parts_of(before);
            assert(views(head_parts@).take(head_parts@.len() as int) =~= views(head_parts@));
            let head: Vec<u16> = match read_groups(&head_parts, head_parts.len()) {
                Some(v) => v,
                None => return None,
            };
            let tail_parts: Vec<Vec<char>> = parts_of(after);
            let tail: Vec<u16> = match read_tail(&tail_parts) {
                Some(v) => v,
                None => return None,
            };
            if head.len() > 7 || tail.len() > 7 - head.len() {
                return None;
            }
            let gap: usize = 8 - head.len() - tail.len();
            let mut out: Vec<u16> = Vec::new();
            let mut k: usize = 0;
            while k < head.len()
                invariant
                    k <= head@.len(),
                    nats(out@) == nats(head@).take(k as int),
                decreases head@.len() - k,
            {
                let ghost was = out@;
                out.push(head[k]);
                k = k + 1;
                assert(nats(out@) =~= nats(was).push(head@[k - 1] as nat));
                assert(nats(head@).take(k as int) =~= nats(head@).take(k - 1).push(
                    head@[k - 1] as nat,
                ));
            }
            assert(nats(head@).take(k as int) =~= nats(head@));
            k = 0;
            while k < gap
                invariant
                    k <= gap,
                    nats(out@) == nats(head@) + zero_groups(k as int),
                decreases gap - k,
            {
                let ghost was = out@;
                out.push(0);
                k = k + 1;
                assert(nats(out@) =~= nats(was).push(0));
                assert(nats(out@) =~= nats(head@) + zero_groups(k as int));
            }
            k = 0;
            while k < tail.len()
                invariant
                    k <= tail@.len(),
                    nats(out@) == nats(head@) + zero_groups(gap as int) + nats(tail@).take(
                        k as int,
                    ),
                decreases tail@.len() - k,
            {
                let ghost was = out@;
                out.push(tail[k]);
                k = k + 1;
                assert(nats(out@) =~= nats(was).push(tail@[k - 1] as nat));
                assert(nats(out@) =~= nats(head@) + zero_groups(gap as int) + nats(tail@).take(
                    k as int,
                ));
            }
            assert(nats(tail@).take(k as int) =~= nats(tail@));
            assert(nats(out@).len() == 8);
            Some(out)
        },
    }
}

/// Sixteen bits per group.
pub open spec fn span_of(count: nat) -> nat
    decreases count,
{
    if count == 0 {
        1
    } else {
        0x1_0000 * span_of((count - 1) as nat)
    }
}

proof fn lemma_groups_bound(groups: Seq<u16>)
    ensures
        groups_value(nats(groups)) < span_of(groups.len()),
    decreases groups.len(),
{
    if groups.len() > 0 {
        lemma_groups_bound(groups.drop_last());
        assert(nats(groups).drop_last() =~= nats(groups.drop_last()));
    }
}

fn value_of(groups: &Vec<u16>) -> (r: u128)
    requires
        groups@.len() == 8,
    ensures
        r == groups_value(nats(groups@)),
{
    let mut value: u128 = 0;
    let mut i: usize = 0;
    assert(nats(groups@).take(0) =~= Seq::<nat>::empty());
    proof {
        reveal_with_fuel(span_of, 9);
    }
    while i < groups.len()
        invariant
            i <= groups@.len(),
            groups@.len() == 8,
            span_of(7) == 0x1_0000_0000_0000_0000_0000_0000_0000,
            value == groups_value(nats(groups@).take(i as int)),
        decreases groups@.len() - i,
    {
        proof {
            lemma_groups_bound(groups@.take(i as int));
            assert(nats(groups@.take(i as int)) =~= nats(groups@).take(i as int));
            lemma_span_grows(i as nat, 7);
            assert(nats(groups@).take(i + 1).drop_last() =~= nats(groups@).take(i as int));
            assert(nats(groups@).take(i + 1).last() == groups@[i as int] as nat);
        }
        value = 0x1_0000 * value + (groups[i] as u128);
        i = i + 1;
    }
    assert(nats(groups@).take(8) =~= nats(groups@));
    value
}

proof fn lemma_span_grows(a: nat, b: nat)
    requires
        a <= b,
    ensures
        span_of(a) <= span_of(b),
    decreases b,
{
    if a < b {
        lemma_span_grows(a, (b - 1) as nat);
    }
}

impl IpAddr {
    /// Reads an address.
    pub fn parse(s: &[char]) -> (r: Option<IpAddr>)
        ensures
            r == parse_ip(s@),
    {
        match read_v4(s) {
            Some(v) => Some(IpAddr::V4(v)),
            None => match read_v6(s) {
                Some(groups) => Some(IpAddr::V6(value_of(&groups))),
                None => None,
            },
        }
    }

    /// The loopback range: 127.0.0.0/8, or the IPv6 address one.
    pub open spec fn loopback(self) -> bool {
        match self {
            IpAddr::V4(v) => v / 0x100_0000 == 127,
            IpAddr::V6(v) => v == 1,
        }
    }

    /// The wildcard address.
    pub open spec fn unspecified(self) -> bool {
        match self {
            IpAddr::V4(v) => v == 0,
            IpAddr::V6(v) => v == 0,
        }
    }

    /// The IPv4 address behind `::ffff:0:0/96`.
    pub open spec fn mapped(self) -> Option<nat> {
        match self {
            IpAddr::V4(v) => Some(v as nat),
            IpAddr::V6(v) => if v / 0x1_0000_0000 == 0xffff {
                Some((v % 0x1_0000_0000) as nat)
            } else {
                None
            },
        }
    }

    /// Whether this is a loopback address.
    pub fn is_loopback(&self) -> (r: bool)
        ensures
            r == self.loopback(),
    {
        match *self {
            IpAddr::V4(v) => v / 0x100_0000 == 127,
            IpAddr::V6(v) => v == 1,
        }
    }

    /// Whether this is the wildcard address.
    pub fn is_unspecified(&self) -> (r: bool)
        ensures
            r == self.unspecified(),
    {
        match *self {
            IpAddr::V4(v) => v == 0,
            IpAddr::V6(v) => v == 0,
        }
    }
}

/// Whether `s` spells a loopback address.
pub open spec fn spells_loopback(s: Seq<char>) -> bool {
    match parse_ip(s) {
        Some(ip) => ip.loopback(),
        None => false,
    }
}

/// Whether `s` spells a loopback address.
pub fn names_loopback(s: &[char]) -> (r: bool)
    ensures
        r == spells_loopback(s@),
{
    match IpAddr::parse(s) {
        Some(ip) => ip.is_loopback(),
        None => false,
    }
}

/// A character that an address is written with.
pub open spec fn is_ip_char(c: char) -> bool {
    digit_value(c, 16) is Some || c == '.' || c == ':'
}

/// The characters that an address is written with.
pub open spec fn ip_chars() -> spec_fn(char) -> bool {
    |c: char| is_ip_char(c)
}

proof fn lemma_v4_shape(s: Seq<char>)
    requires
        parse_v4(s) is Some,
    ensures
        all_chars(s, ip_chars()),
        s.len() > 0,
        s.last() != '.',
{
    let parts = split_char(s, '.');
    assert forall|k: int| 0 <= k < parts.len() implies all_chars(
        #[trigger] parts[k],
        ip_chars(),
    ) by {
        assert(parse_octet(parts[k]) is Some);
        assert forall|i: int| 0 <= i < parts[k].len() implies ip_chars()(
            #[trigger] parts[k][i],
        ) by {
            assert(digit_value(parts[k][i], 10) is Some);
        }
    }
    lemma_split_char(s, '.', ip_chars());
    let last = parts.last();
    assert(parse_octet(last) is Some);
    assert(digit_value(last[last.len() - 1], 10) is Some);
    assert(s.skip(s.len() - last.len())[last.len() - 1] == s[s.len() - 1]);
}

proof fn lemma_hex_shape(parts: Seq<Seq<char>>, k: int)
    requires
        hex_groups(parts) is Some,
        0 <= k < parts.len(),
    ensures
        all_chars(parts[k], ip_chars()),
        parts[k].len() > 0,
        parts[k].last() != '.',
    decreases parts.len(),
{
    if k < parts.len() - 1 {
        lemma_hex_shape(parts.drop_last(), k);
        assert(parts.drop_last()[k] == parts[k]);
    } else {
        let part = parts[k];
        assert(parse_group(part) is Some);
        assert forall|i: int| 0 <= i < part.len() implies ip_chars()(#[trigger] part[i]) by {
            assert(digit_value(part[i], 16) is Some);
        }
        assert(digit_value(part[part.len() - 1], 16) is Some);
    }
}

proof fn lemma_colon_shape(s: Seq<char>)
    requires
        tail_groups(colon_parts(s)) is Some,
    ensures
        all_chars(s, ip_chars()),
        s.len() > 0 ==> s.last() != '.',
{
    if s.len() > 0 {
        let parts = split_char(s, ':');
        assert forall|k: int| 0 <= k < parts.len() implies all_chars(#[trigger] parts[k], ip_chars())
            && parts[k].len() > 0 && parts[k].last() != '.' by {
            if parse_v4(parts.last()) is Some {
                if k == parts.len() - 1 {
                    lemma_v4_shape(parts[k]);
                } else {
                    lemma_hex_shape(parts.drop_last(), k);
                    assert(parts.drop_last()[k] == parts[k]);
                }
            } else {
                lemma_hex_shape(parts, k);
            }
        }
        lemma_split_char(s, ':', ip_chars());
        let last = parts[parts.len() - 1];
        assert(last.len() > 0 && last.last() != '.');
        assert(s.skip(s.len() - last.len())[last.len() - 1] == s[s.len() - 1]);
    }
}

/// An address is written with hexadecimal digits, dots and colons alone, and
/// does not end in a dot.
pub proof fn lemma_ip_shape(s: Seq<char>)
    requires
        parse_ip(s) is Some,
    ensures
        all_chars(s, ip_chars()),
        s.len() > 0,
        s.last() != '.',
{
    if parse_v4(s) is Some {
        lemma_v4_shape(s);
    } else {
        reveal_strlit("::");
        lemma_find_sub_from(s, "::"@, 0);
        match find_sub(s, "::"@) {
            None => {
                lemma_colon_shape(s);
                assert(s.len() == 0 ==> tail_groups(colon_parts(s)) == Some(Seq::<nat>::empty()));
            },
            Some(i) => {
                let head = s.take(i);
                let tail = s.skip(i + 2);
                assert(occurs_at(s, "::"@, i));
                assert(s.subrange(i, i + 2) == "::"@);
                assert(s.subrange(i, i + 2)[0] == s[i] && s.subrange(i, i + 2)[1] == s[i + 1]);
                lemma_colon_shape(tail);
                if head.len() > 0 {
                    let parts = split_char(head, ':');
                    assert forall|k: int| 0 <= k < parts.len() implies all_chars(
                        #[trigger] parts[k],
                        ip_chars(),
                    ) by {
                        lemma_hex_shape(parts, k);
                    }
                    lemma_split_char(head, ':', ip_chars());
                }
                assert forall|j: int| 0 <= j < s.len() implies ip_chars()(#[trigger] s[j]) by {
                    if j < i {
                        assert(head[j] == s[j]);
                    } else if j >= i + 2 {
                        assert(tail[j - i - 2] == s[j]);
                    }
                }
                if tail.len() > 0 {
                    assert(tail.last() == s.last());
                }
            },
        }
    }
}

// ------------------------------------------------------------------ writing

/// An IPv4 address as four decimal octets.
pub open spec fn v4_text(v: nat) -> Seq<char> {
    decimal(v / 0x100_0000) + seq!['.'] + decimal(v / 0x1_0000 % 0x100) + seq!['.'] + decimal(
        v / 0x100 % 0x100,
    ) + seq!['.'] + decimal(v % 0x100)
}

/// The group at `i` of eight, the first highest.
pub open spec fn group_at(v: nat, i: int) -> nat {
    v / span_of((7 - i) as nat) % 0x1_0000
}

/// The length of the run of zero groups that starts at `i`.
pub open spec fn zero_run(v: nat, i: int) -> int
    decreases 8 - i,
{
    if 0 <= i < 8 && group_at(v, i) == 0 {
        1 + zero_run(v, i + 1)
    } else {
        0
    }
}

/// Where the first of the longest runs of zero groups starts, looking at the
/// first `n` places.
pub open spec fn longest_zeros(v: nat, n: int) -> int
    decreases n,
{
    if n <= 1 {
        0
    } else {
        let before = longest_zeros(v, n - 1);
        if zero_run(v, n - 1) > zero_run(v, before) {
            n - 1
        } else {
            before
        }
    }
}

/// The groups from `from` up to `to`, in hexadecimal between colons.
pub open spec fn groups_text(v: nat, from: int, to: int) -> Seq<char>
    decreases to - from,
{
    if from >= to {
        Seq::empty()
    } else if from + 1 == to {
        radix_text(group_at(v, from), 16)
    } else {
        groups_text(v, from, to - 1) + seq![':'] + radix_text(group_at(v, to - 1), 16)
    }
}

/// An IPv6 address in its shortest form: the first longest run of at least two
/// zero groups becomes `::`.
pub open spec fn v6_text(v: nat) -> Seq<char> {
    let start = longest_zeros(v, 8);
    let count = zero_run(v, start);
    if count > 1 {
        groups_text(v, 0, start) + "::"@ + groups_text(v, start + count, 8)
    } else {
        groups_text(v, 0, 8)
    }
}

/// An address as the host of a URL: IPv6 in brackets, save for an IPv4 address
/// in IPv6 form.
pub open spec fn host_text(ip: IpAddr) -> Seq<char> {
    match ip {
        IpAddr::V4(v) => v4_text(v as nat),
        IpAddr::V6(v) => match ip.mapped() {
            Some(w) => v4_text(w),
            None => seq!['['] + v6_text(v as nat) + seq![']'],
        },
    }
}

fn write_v4(v: u32) -> (r: Vec<char>)
    ensures
        r@ == v4_text(v as nat),
{
    let mut out: Vec<char> = write_radix((v / 0x100_0000) as u64, 10);
    out.push('.');
    let b: Vec<char> = write_radix((v / 0x1_0000 % 0x100) as u64, 10);
    push_chars(&mut out, b.as_slice());
    out.push('.');
    let c: Vec<char> = write_radix((v / 0x100 % 0x100) as u64, 10);
    push_chars(&mut out, c.as_slice());
    out.push('.');
    let d: Vec<char> = write_radix((v % 0x100) as u64, 10);
    push_chars(&mut out, d.as_slice());
    assert(out@ =~= v4_text(v as nat));
    out
}

fn group(v: u128, i: usize) -> (r: u64)
    requires
        i < 8,
    ensures
        r == group_at(v as nat, i as int),
{
    proof {
        reveal_with_fuel(span_of, 9);
    }
    let span: u128 = if i == 0 {
        0x1_0000_0000_0000_0000_0000_0000_0000
    } else if i == 1 {
        0x1_0000_0000_0000_0000_0000_0000
    } else if i == 2 {
        0x1_0000_0000_0000_0000_0000
    } else if i == 3 {
        0x1_0000_0000_0000_0000
    } else if i == 4 {
        0x1_0000_0000_0000
    } else if i == 5 {
        0x1_0000_0000
    } else if i == 6 {
        0x1_0000
    } else {
        1
    };
    assert(span == span_of((7 - i) as nat));
    (v / span % 0x1_0000) as u64
}

fn run_of_zeros(v: u128, i: usize) -> (r: usize)
    requires
        i <= 8,
    ensures
        r == zero_run(v as nat, i as int),
        i + r <= 8,
    decreases 8 - i,
{
    if i < 8 && group(v, i) == 0 {
        1 + run_of_zeros(v, i + 1)
    } else {
        0
    }
}

fn write_groups(v: u128, from: usize, to: usize) -> (r: Vec<char>)
    requires
        from <= to <= 8,
    ensures
        r@ == groups_text(v as nat, from as int, to as int),
    decreases to - from,
{
    if from >= to {
        let none: Vec<char> = Vec::new();
        assert(none@ =~= Seq::<char>::empty());
        none
    } else if from + 1 == to {
        write_radix(group(v, from), 16)
    } else {
        let mut out: Vec<char> = write_groups(v, from, to - 1);
        out.push(':');
        let last: Vec<char> = write_radix(group(v, to - 1), 16);
        push_chars(&mut out, last.as_slice());
        assert(out@ =~= groups_text(v as nat, from as int, to as int));
        out
    }
}

fn write_v6(v: u128) -> (r: Vec<char>)
    ensures
        r@ == v6_text(v as nat),
{
    let mut start: usize = 0;
    let mut count: usize = run_of_zeros(v, 0);
    let mut n: usize = 1;
    while n < 8
        invariant
            1 <= n <= 8,
            start < 8,
            start == longest_zeros(v as nat, n as int),
            count == zero_run(v as nat, start as int),
            start + count <= 8,
        decreases 8 - n,
    {
        let here: usize = run_of_zeros(v, n);
        if here > count {
            start = n;
            count = here;
        }
        n = n + 1;
    }
    if count > 1 {
        let mut out: Vec<char> = write_groups(v, 0, start);
        let mark: Vec<char> = chars_of("::");
        push_chars(&mut out, mark.as_slice());
        let rest: Vec<char> = write_groups(v, start + count, 8);
        push_chars(&mut out, rest.as_slice());
        out
    } else {
        write_groups(v, 0, 8)
    }
}

/// Writes an address as the host of a URL.
pub fn format_host(ip: &IpAddr) -> (r: String)
    ensures
        r@ == host_text(*ip),
{
    match *ip {
        IpAddr::V4(v) => {
            let out: Vec<char> = write_v4(v);
            string_of(out.as_slice())
        },
        IpAddr::V6(v) => {
            if v / 0x1_0000_0000 == 0xffff {
                let out: Vec<char> = write_v4((v % 0x1_0000_0000) as u32);
                string_of(out.as_slice())
            } else {
                let mut out: Vec<char> = Vec::new();
                out.push('[');
                let body: Vec<char> = write_v6(v);
                push_chars(&mut out, body.as_slice());
                out.push(']');
                assert(out@ =~= seq!['['] + v6_text(v as nat) + seq![']']);
                string_of(out.as_slice())
            }
        },
    }
}

} // verus!
