//! Numbers in texts.

use crate::number::{decimal, digit_value, lemma_radix_roundtrip, parse_decimal, radix_text};
use vstd::prelude::*;

verus! {

/// A number is written digit by digit: one below ten with its own digit, any
/// other with the digits of its tens and then that of its ones.
pub proof fn numbers_are_written_digit_by_digit(n: nat, d: nat)
    requires
        d < 10,
    ensures
        decimal(d) == seq![((('0' as u32) + d) as u32) as char],
        n > 0 ==> decimal(10 * n + d) == decimal(n) + decimal(d),
{
    assert(decimal(d) =~= seq![((('0' as u32) + d) as u32) as char]);
    if n > 0 {
        let whole = 10 * n + d;
        assert(whole / 10 == n && whole % 10 == d);
        assert(decimal(whole) =~= decimal(n) + decimal(d));
    }
}

/// A number is read where it is written with digits alone, and is not above the
/// bound; a plus sign may stand in front of it.
pub proof fn only_digits_are_numbers(n: nat, max: nat, text: Seq<char>, k: int)
    requires
        0 <= k < text.len(),
        !('0' <= text[k] <= '9'),
        k == 0 ==> text[k] != '+',
    ensures
        parse_decimal(decimal(n), max) == (if n <= max {
            Some(n)
        } else {
            None
        }),
        parse_decimal("+"@ + decimal(n), max) == (if n <= max {
            Some(n)
        } else {
            None
        }),
        parse_decimal(text, max) is None,
        parse_decimal(Seq::empty(), max) is None,
        parse_decimal("+"@, max) is None,
{
    reveal_strlit("+");
    lemma_radix_roundtrip(n, 10);
    let signed = "+"@ + decimal(n);
    assert(signed.skip(1) =~= decimal(n));
    assert(signed[0] == '+');
    assert("+"@.skip(1) =~= Seq::<char>::empty());
    assert(digit_value(text[k], 10) is None);
    if text[0] == '+' {
        assert(text.skip(1)[k - 1] == text[k]);
    }
}

/// The least number with more than `count` digits in a radix.
pub open spec fn bound(radix: nat, count: nat) -> nat
    decreases count,
{
    if count == 0 {
        1
    } else {
        radix * bound(radix, (count - 1) as nat)
    }
}

/// How long a number is when it is written.
pub proof fn lemma_length(n: nat, radix: nat, count: nat)
    requires
        radix == 10 || radix == 16,
        count > 0,
        n < bound(radix, count),
    ensures
        1 <= radix_text(n, radix).len() <= count,
    decreases count,
{
    if n >= radix {
        if count == 1 {
            assert(bound(radix, 0) == 1);
        } else {
            let less = bound(radix, (count - 1) as nat);
            if radix == 10 {
                assert(n / 10 < less);
            } else {
                assert(n / 16 < less);
            }
            lemma_length(n / radix, radix, (count - 1) as nat);
        }
    }
}

/// The hexadecimal digits, in either case, and what they stand for.
pub proof fn hexadecimal_digits_are_known(c: char)
    ensures
        '0' <= c <= '9' ==> digit_value(c, 16) == Some((c as nat - '0' as nat) as nat),
        'a' <= c <= 'f' ==> digit_value(c, 16) == Some((c as nat - 'a' as nat + 10) as nat),
        'A' <= c <= 'F' ==> digit_value(c, 16) == Some((c as nat - 'A' as nat + 10) as nat),
        !('0' <= c <= '9') && !('a' <= c <= 'f') && !('A' <= c <= 'F') ==> digit_value(c, 16)
            is None,
        digit_value(c, 10) is Some <==> '0' <= c <= '9',
{
}

} // verus!
