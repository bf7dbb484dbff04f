//! Numbers as text: reading and writing digits in a radix.

use crate::text::string_of;
use vstd::prelude::*;
use vstd::slice::slice_subrange;

verus! {

/// The value of a digit, for digits below `radix`.
pub open spec fn digit_value(c: char, radix: nat) -> Option<nat> {
    let u = c as nat;
    let v = if '0' <= c <= '9' {
        (u - 48) as nat
    } else if 'a' <= c <= 'z' {
        (u - 87) as nat
    } else if 'A' <= c <= 'Z' {
        (u - 55) as nat
    } else {
        radix
    };
    if v < radix {
        Some(v)
    } else {
        None
    }
}

/// Whether every character is a digit below `radix`.
pub open spec fn all_digits(s: Seq<char>, radix: nat) -> bool {
    forall|i: int| 0 <= i < s.len() ==> (#[trigger] digit_value(s[i], radix)) is Some
}

/// The number that a string of digits stands for, most significant first.
pub open spec fn radix_value(s: Seq<char>, radix: nat) -> nat
    decreases s.len(),
{
    if s.len() == 0 {
        0
    } else {
        radix_value(s.drop_last(), radix) * radix + digit_value(s.last(), radix).unwrap_or(0)
    }
}

/// `s` without one leading plus sign.
pub open spec fn unsigned_body(s: Seq<char>) -> Seq<char> {
    if s.len() > 0 && s[0] == '+' {
        s.skip(1)
    } else {
        s
    }
}

/// The number that `s` spells: digits, at least one, after an optional plus
/// sign, up to `max`.
pub open spec fn parse_radix(s: Seq<char>, radix: nat, max: nat) -> Option<nat> {
    let body = unsigned_body(s);
    if body.len() > 0 && all_digits(body, radix) && radix_value(body, radix) <= max {
        Some(radix_value(body, radix))
    } else {
        None
    }
}

/// The decimal number that `s` spells, up to `max`.
pub open spec fn parse_decimal(s: Seq<char>, max: nat) -> Option<nat> {
    parse_radix(s, 10, max)
}

/// The signed decimal number that `s` spells, within 64 bits.
pub open spec fn parse_signed(s: Seq<char>) -> Option<int> {
    if s.len() > 0 && s[0] == '-' {
        let body = s.skip(1);
        if body.len() > 0 && all_digits(body, 10) && radix_value(body, 10)
            <= 0x8000_0000_0000_0000 {
            Some(-(radix_value(body, 10) as int))
        } else {
            None
        }
    } else {
        match parse_radix(s, 10, 0x7fff_ffff_ffff_ffff) {
            Some(n) => Some(n as int),
            None => None,
        }
    }
}

/// More digits never make the number smaller.
pub proof fn lemma_radix_value_grows(s: Seq<char>, radix: nat, i: int)
    requires
        0 <= i <= s.len(),
        radix >= 1,
    ensures
        radix_value(s.take(i), radix) <= radix_value(s, radix),
    decreases s.len() - i,
{
    if i < s.len() {
        lemma_radix_value_grows(s, radix, i + 1);
        let a = s.take(i + 1);
        assert(a.drop_last() =~= s.take(i));
        let v = radix_value(s.take(i), radix);
        assert(v <= v * radix) by (nonlinear_arith)
            requires
                radix >= 1,
                v >= 0,
        ;
    } else {
        assert(s.take(i) =~= s);
    }
}

/// The value of a digit below `radix`.
pub fn digit_of(c: char, radix: u32) -> (r: Option<u32>)
    requires
        radix <= 36,
    ensures
        match r {
            Some(v) => digit_value(c, radix as nat) == Some(v as nat) && v < radix,
            None => digit_value(c, radix as nat) is None,
        },
{
    let u: u32 = c as u32;
    let v: u32 = if '0' <= c && c <= '9' {
        u - 48
    } else if 'a' <= c && c <= 'z' {
        u - 87
    } else if 'A' <= c && c <= 'Z' {
        u - 55
    } else {
        radix
    };
    if v < radix {
        Some(v)
    } else {
        None
    }
}

/// The value of a nonempty run of digits, where all are digits and the value is
/// at most `max`.
pub fn digits_value(s: &[char], radix: u32, max: u64) -> (r: Option<u64>)
    requires
        2 <= radix <= 36,
    ensures
        match r {
            Some(v) => s@.len() > 0 && all_digits(s@, radix as nat) && v == radix_value(
                s@,
                radix as nat,
            ) && v <= max,
            None => s@.len() == 0 || !all_digits(s@, radix as nat) || radix_value(s@, radix as nat)
                > max,
        },
{
    if s.len() == 0 {
        return None;
    }
    let mut value: u64 = 0;
    let mut i: usize = 0;
    assert(s@.take(0) =~= Seq::<char>::empty());
    while i < s.len()
        invariant
            2 <= radix <= 36,
            i <= s@.len(),
            value <= max,
            value == radix_value(s@.take(i as int), radix as nat),
            forall|j: int| 0 <= j < i ==> (#[trigger] digit_value(s@[j], radix as nat)) is Some,
        decreases s@.len() - i,
    {
        match digit_of(s[i], radix) {
            None => {
                assert(!all_digits(s@, radix as nat));
                return None;
            },
            Some(d) => {
                assert((value as u128) * (radix as u128) <= 0xffff_ffff_ffff_ffff * 36)
                    by (nonlinear_arith)
                    requires
                        value <= 0xffff_ffff_ffff_ffff,
                        radix <= 36,
                ;
                let next: u128 = (value as u128) * (radix as u128) + (d as u128);
                proof {
                    let a = s@.take(i + 1);
                    assert(a.drop_last() =~= s@.take(i as int));
                    assert(a.last() == s@[i as int]);
                    assert(next == radix_value(a, radix as nat));
                    lemma_radix_value_grows(s@, radix as nat, i + 1);
                }
                if next > max as u128 {
                    return None;
                }
                value = next as u64;
                i = i + 1;
            },
        }
    }
    assert(s@.take(i as int) =~= s@);
    Some(value)
}

/// The number that `s` spells in `radix`, up to `max`.
pub fn number_of(s: &[char], radix: u32, max: u64) -> (r: Option<u64>)
    requires
        2 <= radix <= 36,
    ensures
        match r {
            Some(v) => parse_radix(s@, radix as nat, max as nat) == Some(v as nat) && v <= max,
            None => parse_radix(s@, radix as nat, max as nat) is None,
        },
{
    if s.len() > 0 && s[0] == '+' {
        let body: &[char] = slice_subrange(s, 1, s.len());
        assert(body@ =~= s@.skip(1));
        digits_value(body, radix, max)
    } else {
        digits_value(s, radix, max)
    }
}

/// The 16-bit decimal number that `s` spells.
pub fn port_number(s: &[char]) -> (r: Option<u16>)
    ensures
        match r {
            Some(v) => parse_decimal(s@, 65535) == Some(v as nat),
            None => parse_decimal(s@, 65535) is None,
        },
{
    match number_of(s, 10, 65535) {
        Some(v) => Some(v as u16),
        None => None,
    }
}

/// The 32-bit decimal number that `s` spells.
pub fn word_number(s: &[char]) -> (r: Option<u32>)
    ensures
        match r {
            Some(v) => parse_decimal(s@, 0xffff_ffff) == Some(v as nat),
            None => parse_decimal(s@, 0xffff_ffff) is None,
        },
{
    match number_of(s, 10, 0xffff_ffff) {
        Some(v) => Some(v as u32),
        None => None,
    }
}

/// The signed 64-bit decimal number that `s` spells.
pub fn signed_number(s: &[char]) -> (r: Option<i64>)
    ensures
        match r {
            Some(v) => parse_signed(s@) == Some(v as int),
            None => parse_signed(s@) is None,
        },
{
    if s.len() > 0 && s[0] == '-' {
        let body: &[char] = slice_subrange(s, 1, s.len());
        assert(body@ =~= s@.skip(1));
        match digits_value(body, 10, 0x8000_0000_0000_0000) {
            None => None,
            Some(v) => {
                if v == 0x8000_0000_0000_0000 {
                    Some(i64::MIN)
                } else {
                    Some(-(v as i64))
                }
            },
        }
    } else {
        match number_of(s, 10, 0x7fff_ffff_ffff_ffff) {
            None => None,
            Some(v) => Some(v as i64),
        }
    }
}

// ------------------------------------------------------------------- writing

/// The character for a digit below 36, in lower case.
pub open spec fn digit_char(d: nat) -> char {
    if d < 10 {
        (d + 48) as char
    } else {
        (d + 87) as char
    }
}

/// `n` written in `radix`, without leading zeros.
pub open spec fn radix_text(n: nat, radix: nat) -> Seq<char>
    decreases n,
{
    if n < radix || radix < 2 {
        seq![digit_char(n)]
    } else {
        proof {
            assert(n / radix < n) by (nonlinear_arith)
                requires
                    n >= radix,
                    radix >= 2,
            ;
        }
        radix_text(n / radix, radix).push(digit_char(n % radix))
    }
}

/// `n` written in decimal.
pub open spec fn decimal(n: nat) -> Seq<char> {
    radix_text(n, 10)
}

/// Writing a number and reading it back gives the number.
pub proof fn lemma_radix_roundtrip(n: nat, radix: nat)
    requires
        2 <= radix <= 36,
    ensures
        radix_text(n, radix).len() > 0,
        all_digits(radix_text(n, radix), radix),
        radix_value(radix_text(n, radix), radix) == n,
        radix_text(n, radix)[0] != '+',
        n > 0 ==> radix_text(n, radix)[0] != '0',
    decreases n,
{
    let s = radix_text(n, radix);
    if n < radix {
        assert(s.drop_last() =~= Seq::<char>::empty());
        assert(digit_value(digit_char(n), radix) == Some(n));
        assert(radix_value(s.drop_last(), radix) == 0);
        assert(0 * radix == 0) by (nonlinear_arith);
    } else {
        let q = n / radix;
        assert(q < n && q >= 1) by (nonlinear_arith)
            requires
                q == n / radix,
                n >= radix,
                radix >= 2,
        ;
        lemma_radix_roundtrip(q, radix);
        let front = radix_text(q, radix);
        assert(s.drop_last() =~= front);
        let d = n % radix;
        assert(digit_value(digit_char(d), radix) == Some(d));
        assert(q * radix + d == n) by (nonlinear_arith)
            requires
                q == n / radix,
                d == n % radix,
                radix >= 2,
        ;
        assert forall|i: int| 0 <= i < s.len() implies (#[trigger] digit_value(s[i], radix)) is Some by {
            if i < front.len() {
                assert(s[i] == front[i]);
                assert(digit_value(front[i], radix) is Some);
            }
        }
        assert(s[0] == front[0]);
    }
}

/// Reading back what `decimal` wrote gives the number, wherever it fits.
pub proof fn decimal_reads_back(n: nat, max: nat)
    requires
        n <= max,
    ensures
        parse_decimal(decimal(n), max) == Some(n),
{
    lemma_radix_roundtrip(n, 10);
}

/// Two numbers with the same decimal text are the same.
pub proof fn decimal_is_injective(a: nat, b: nat)
    ensures
        decimal(a) == decimal(b) ==> a == b,
{
    lemma_radix_roundtrip(a, 10);
    lemma_radix_roundtrip(b, 10);
}

/// `n` written in `radix`.
pub fn write_radix(n: u64, radix: u64) -> (r: Vec<char>)
    requires
        2 <= radix <= 36,
    ensures
        r@ == radix_text(n as nat, radix as nat),
    decreases n,
{
    if n < radix {
        let d: u8 = n as u8;
        let c: char = if d < 10 {
            (d + 48u8) as char
        } else {
            (d + 87u8) as char
        };
        let mut out: Vec<char> = Vec::new();
        out.push(c);
        assert(out@ =~= seq![digit_char(n as nat)]);
        out
    } else {
        let q: u64 = n / radix;
        assert(q < n) by (nonlinear_arith)
            requires
                q == n / radix,
                n >= radix,
                radix >= 2,
        ;
        let d: u8 = (n % radix) as u8;
        let c: char = if d < 10 {
            (d + 48u8) as char
        } else {
            (d + 87u8) as char
        };
        let mut out: Vec<char> = write_radix(q, radix);
        out.push(c);
        assert(out@ =~= radix_text(n as nat, radix as nat));
        out
    }
}

/// `n` written in decimal.
pub fn decimal_string(n: u64) -> (r: String)
    ensures
        r@ == decimal(n as nat),
{
    let digits: Vec<char> = write_radix(n, 10);
    string_of(digits.as_slice())
}

} // verus!
