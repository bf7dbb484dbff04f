//! Durations as text: a decimal number and a unit, worked out in the 53-bit
//! binary arithmetic of IEEE 754 double precision, with integers only.

use crate::number::{
    all_digits, decimal, digit_value, digits_value, lemma_radix_roundtrip, radix_value,
};
use crate::text::{chars_of, find, find_char, lemma_find_from, same_text, string_of};
use vstd::prelude::*;
use vstd::slice::slice_subrange;

verus! {

/// Two to the power `k`.
pub open spec fn two_to(k: nat) -> nat
    decreases k,
{
    if k == 0 {
        1
    } else {
        2 * two_to((k - 1) as nat)
    }
}

/// Ten to the power `k`.
pub open spec fn ten_to(k: nat) -> nat
    decreases k,
{
    if k == 0 {
        1
    } else {
        10 * ten_to((k - 1) as nat)
    }
}

/// The least significand of a double: two to the power 52.
pub open spec fn low() -> nat {
    0x10_0000_0000_0000
}

/// The bound on the significand of a double: two to the power 53.
pub open spec fn high() -> nat {
    0x20_0000_0000_0000
}

/// The whole number nearest to `n / d`, of two equally near the even one.
pub open spec fn half_even(n: nat, d: nat) -> nat {
    let q = n / d;
    let r = n % d;
    if 2 * r > d || (2 * r == d && q % 2 == 1) {
        q + 1
    } else {
        q
    }
}

/// How often `n / d` must be doubled to reach the least significand.
pub open spec fn up_shift(n: nat, d: nat) -> nat
    decreases
            (if low() * d > n {
                low() * d - n
            } else {
                0
            }),
{
    if n == 0 || n >= low() * d {
        0
    } else {
        1 + up_shift(2 * n, d)
    }
}

/// How often `n / d` must be halved to fall below the bound on significands.
pub open spec fn down_shift(n: nat, d: nat) -> nat
    decreases
            (if n > d {
                n - d
            } else {
                0
            }),
{
    if d == 0 || n < high() * d {
        0
    } else {
        1 + down_shift(n, 2 * d)
    }
}

/// The double nearest to `n / d`, ties to even, as a fraction. Values too large
/// or too small for a double's exponent keep theirs here.
pub open spec fn binary64(n: nat, d: nat) -> (nat, nat) {
    let a = up_shift(n, d);
    let b = down_shift(n, d);
    (half_even(n * two_to(a), d * two_to(b)) * two_to(b), two_to(a))
}

/// The nanoseconds in `n / d` units of `unit` nanoseconds each: the number is
/// rounded to a double, the product is rounded to a double, and what is over
/// the last whole nanosecond is cut off. No result above two to the power 64;
/// that value itself becomes the largest 64-bit number.
pub open spec fn nanos_of(n: nat, d: nat, unit: nat) -> Option<nat> {
    let value = binary64(n, d);
    let product = binary64(value.0 * unit, value.1);
    if product.0 > 0x1_0000_0000_0000_0000 * product.1 {
        None
    } else if product.0 / product.1 > 0xffff_ffff_ffff_ffff {
        Some(0xffff_ffff_ffff_ffff)
    } else {
        Some(product.0 / product.1)
    }
}

// ------------------------------------------------------------------- lemmas

proof fn lemma_two_to_positive(k: nat)
    ensures
        two_to(k) >= 1,
    decreases k,
{
    if k > 0 {
        lemma_two_to_positive((k - 1) as nat);
    }
}

proof fn lemma_ten_to_positive(k: nat)
    ensures
        ten_to(k) >= 1,
    decreases k,
{
    if k > 0 {
        lemma_ten_to_positive((k - 1) as nat);
    }
}

proof fn lemma_two_to_adds(a: nat, b: nat)
    ensures
        two_to(a + b) == two_to(a) * two_to(b),
    decreases a,
{
    if a > 0 {
        lemma_two_to_adds((a - 1) as nat, b);
        assert(two_to(a + b) == 2 * two_to((a - 1 + b) as nat));
        assert(2 * (two_to((a - 1) as nat) * two_to(b)) == (2 * two_to((a - 1) as nat)) * two_to(b))
            by (nonlinear_arith);
    } else {
        assert(1 * two_to(b) == two_to(b));
    }
}

proof fn lemma_up_unique(n: nat, d: nat, a: nat)
    requires
        n > 0,
        d > 0,
        low() * d <= n * two_to(a),
        a > 0 ==> n * two_to(a) < high() * d,
    ensures
        up_shift(n, d) == a,
    decreases a,
{
    if a == 0 {
        assert(n * two_to(0) == n) by (nonlinear_arith)
            requires
                two_to(0) == 1,
        ;
    } else {
        let h = two_to((a - 1) as nat);
        lemma_two_to_positive((a - 1) as nat);
        assert(n * two_to(a) == (2 * n) * h) by (nonlinear_arith)
            requires
                two_to(a) == 2 * h,
        ;
        assert(n <= n * h) by (nonlinear_arith)
            requires
                h >= 1,
        ;
        assert((2 * n) * h == 2 * (n * h)) by (nonlinear_arith);
        assert(n < low() * d);
        lemma_up_unique(2 * n, d, (a - 1) as nat);
    }
}

proof fn lemma_down_unique(n: nat, d: nat, b: nat)
    requires
        d > 0,
        n < high() * (d * two_to(b)),
        b > 0 ==> n >= low() * (d * two_to(b)),
    ensures
        down_shift(n, d) == b,
    decreases b,
{
    if b == 0 {
        assert(d * two_to(0) == d) by (nonlinear_arith)
            requires
                two_to(0) == 1,
        ;
    } else {
        let h = two_to((b - 1) as nat);
        lemma_two_to_positive((b - 1) as nat);
        assert(d * two_to(b) == (2 * d) * h) by (nonlinear_arith)
            requires
                two_to(b) == 2 * h,
        ;
        assert(d <= d * h) by (nonlinear_arith)
            requires
                h >= 1,
        ;
        assert((2 * d) * h == 2 * (d * h)) by (nonlinear_arith);
        assert(n >= high() * d);
        lemma_down_unique(n, 2 * d, (b - 1) as nat);
    }
}

/// What the upward shift does: the doubled value reaches the least significand
/// and, where it was doubled at all, stays below the bound.
proof fn lemma_up_shift(n: nat, d: nat)
    requires
        n > 0,
        d > 0,
    ensures
        n * two_to(up_shift(n, d)) >= low() * d,
        up_shift(n, d) > 0 ==> n * two_to(up_shift(n, d)) < high() * d,
    decreases
            (if low() * d > n {
                low() * d - n
            } else {
                0
            }),
{
    let a = up_shift(n, d);
    if n >= low() * d {
        assert(n * two_to(0) == n) by (nonlinear_arith)
            requires
                two_to(0) == 1,
        ;
    } else {
        lemma_up_shift(2 * n, d);
        let h = two_to((a - 1) as nat);
        assert(n * two_to(a) == (2 * n) * h) by (nonlinear_arith)
            requires
                two_to(a) == 2 * h,
        ;
        if a == 1 {
            assert((2 * n) * h == 2 * n) by (nonlinear_arith)
                requires
                    h == 1,
            ;
        }
    }
}

proof fn lemma_down_shift(n: nat, d: nat)
    requires
        d > 0,
    ensures
        n < high() * (d * two_to(down_shift(n, d))),
        down_shift(n, d) > 0 ==> n >= low() * (d * two_to(down_shift(n, d))),
    decreases
            (if n > d {
                n - d
            } else {
                0
            }),
{
    let b = down_shift(n, d);
    if n < high() * d {
        assert(d * two_to(0) == d) by (nonlinear_arith)
            requires
                two_to(0) == 1,
        ;
    } else {
        lemma_down_shift(n, 2 * d);
        let h = two_to((b - 1) as nat);
        assert(d * two_to(b) == (2 * d) * h) by (nonlinear_arith)
            requires
                two_to(b) == 2 * h,
        ;
        if b == 1 {
            assert((2 * d) * h == 2 * d) by (nonlinear_arith)
                requires
                    h == 1,
            ;
            assert(low() * (2 * d) == high() * d) by (nonlinear_arith)
                requires
                    high() == 2 * low(),
            ;
        } else {
            assert(down_shift(n, 2 * d) == b - 1);
        }
    }
}

/// A rounded quotient of at least one is within a factor of two.
proof fn lemma_half_even_near(n: nat, d: nat)
    requires
        d > 0,
        n >= d,
    ensures
        half_even(n, d) * d <= 2 * n,
        2 * (half_even(n, d) * d) >= n,
{
    let q = n / d;
    let r = n % d;
    assert(n == q * d + r && 0 <= r < d && q >= 1) by (nonlinear_arith)
        requires
            q == n / d,
            r == n % d,
            d > 0,
            n >= d,
    ;
    assert((q + 1) * d == q * d + d) by (nonlinear_arith);
    assert(q * d >= d) by (nonlinear_arith)
        requires
            q >= 1,
            d > 0,
    ;
}

/// A double is within a factor of two of what it stands for.
proof fn lemma_binary64_near(n: nat, d: nat)
    requires
        n > 0,
        d > 0,
    ensures
        ({
            let v = binary64(n, d);
            &&& v.1 >= 1
            &&& v.0 * d <= 2 * (n * v.1)
            &&& 2 * (v.0 * d) >= n * v.1
        }),
{
    let a = up_shift(n, d);
    let b = down_shift(n, d);
    let p = two_to(a);
    let q = two_to(b);
    lemma_two_to_positive(a);
    lemma_two_to_positive(b);
    lemma_up_shift(n, d);
    lemma_down_shift(n, d);
    assert(d * q >= 1) by (nonlinear_arith)
        requires
            d > 0,
            q >= 1,
    ;
    assert(n * p >= d * q) by {
        if b > 0 {
            assert(n * p >= n) by (nonlinear_arith)
                requires
                    p >= 1,
            ;
        } else {
            assert(d * q == d) by (nonlinear_arith)
                requires
                    q == 1,
            ;
        }
    }
    lemma_half_even_near(n * p, d * q);
    let h = half_even(n * p, d * q);
    assert((h * q) * d == h * (d * q)) by (nonlinear_arith);
}

/// A value below one part in two to the power 60 gives no whole nanosecond.
proof fn lemma_tiny(n: nat, d: nat, unit: nat)
    requires
        d > 0,
        n * 0x1000_0000_0000_0000 <= d,
        0 < unit <= 3_600_000_000_000,
    ensures
        nanos_of(n, d, unit) == Some(0nat),
{
    let v = binary64(n, d);
    if n == 0 {
        lemma_zero(d);
        assert(0 * unit == 0) by (nonlinear_arith);
        lemma_zero(1);
        return ;
    }
    lemma_binary64_near(n, d);
    // v.0 / v.1 <= 2 n / d, so v.0 * 2^59 <= v.1
    assert(v.0 * 0x800_0000_0000_0000 <= v.1) by (nonlinear_arith)
        requires
            v.0 * d <= 2 * (n * v.1),
            n * 0x1000_0000_0000_0000 <= d,
            n > 0,
            d > 0,
            v.1 >= 1,
    {
        assert((v.0 * d) * 0x800_0000_0000_0000 <= (n * 0x1000_0000_0000_0000) * v.1);
        assert((n * 0x1000_0000_0000_0000) * v.1 <= d * v.1);
        assert((v.0 * 0x800_0000_0000_0000) * d <= v.1 * d);
    }
    assert(v.0 > 0) by (nonlinear_arith)
        requires
            2 * (v.0 * d) >= n * v.1,
            n > 0,
            v.1 >= 1,
    ;
    let m = v.0 * unit;
    assert(m > 0) by (nonlinear_arith)
        requires
            m == v.0 * unit,
            v.0 > 0,
            unit > 0,
    ;
    assert(m * 4 <= v.1) by (nonlinear_arith)
        requires
            m == v.0 * unit,
            unit <= 3_600_000_000_000,
            v.0 * 0x800_0000_0000_0000 <= v.1,
            v.0 > 0,
    ;
    lemma_binary64_near(m, v.1);
    let p = binary64(m, v.1);
    assert(p.0 < p.1) by (nonlinear_arith)
        requires
            p.0 * v.1 <= 2 * (m * p.1),
            m * 4 <= v.1,
            m > 0,
            p.1 >= 1,
    {
        assert((m * 4) * p.1 <= v.1 * p.1);
        assert(2 * (p.0 * v.1) <= v.1 * p.1);
    }
    assert(p.0 / p.1 == 0) by (nonlinear_arith)
        requires
            p.0 < p.1,
    ;
}

/// A value of two to the power 53 or more is out of range in every unit.
proof fn lemma_huge(n: nat, d: nat, unit: nat)
    requires
        d > 0,
        n >= high() * d,
        1_000_000_000 <= unit,
    ensures
        nanos_of(n, d, unit) is None,
{
    let v = binary64(n, d);
    lemma_binary64_near(n, d);
    assert(v.0 >= low() * v.1) by (nonlinear_arith)
        requires
            2 * (v.0 * d) >= n * v.1,
            n >= 0x20_0000_0000_0000 * d,
            d > 0,
            low() == 0x10_0000_0000_0000,
    {
        assert(n * v.1 >= (0x20_0000_0000_0000 * d) * v.1);
        assert((v.0 - 0x10_0000_0000_0000 * v.1) * d >= 0);
    }
    let m = v.0 * unit;
    assert(m >= 0x10_0000_0000_0000 * 1_000_000_000 * v.1) by (nonlinear_arith)
        requires
            m == v.0 * unit,
            v.0 >= 0x10_0000_0000_0000 * v.1,
            unit >= 1_000_000_000,
    ;
    assert(m > 0) by (nonlinear_arith)
        requires
            m >= 0x10_0000_0000_0000 * 1_000_000_000 * v.1,
            v.1 >= 1,
    ;
    lemma_binary64_near(m, v.1);
    let p = binary64(m, v.1);
    assert(p.0 > 0x1_0000_0000_0000_0000 * p.1) by (nonlinear_arith)
        requires
            2 * (p.0 * v.1) >= m * p.1,
            m >= 0x10_0000_0000_0000 * 1_000_000_000 * v.1,
            p.1 >= 1,
            v.1 >= 1,
    {
        assert(m * p.1 >= (0x10_0000_0000_0000 * 1_000_000_000 * v.1) * p.1);
        assert((p.0 - 0x10_0000_0000_0000 * 500_000_000 * p.1) * v.1 >= 0);
    }
}

// ---------------------------------------------------------------- arithmetic

/// The number that decimal digits stand for, most significant first.
pub open spec fn digits_number(f: Seq<u8>) -> nat
    decreases f.len(),
{
    if f.len() == 0 {
        0
    } else {
        f[0] as nat * ten_to((f.len() - 1) as nat) + digits_number(f.skip(1))
    }
}

/// Whether every item is a decimal digit.
pub open spec fn are_digits(f: Seq<u8>) -> bool {
    forall|i: int| 0 <= i < f.len() ==> #[trigger] f[i] < 10
}

proof fn lemma_digits_bound(f: Seq<u8>)
    requires
        are_digits(f),
    ensures
        digits_number(f) < ten_to(f.len()),
    decreases f.len(),
{
    if f.len() > 0 {
        let rest = f.skip(1);
        assert forall|i: int| 0 <= i < rest.len() implies #[trigger] rest[i] < 10 by {
            assert(rest[i] == f[i + 1]);
        }
        lemma_digits_bound(rest);
        let t = ten_to((f.len() - 1) as nat);
        assert(f[0] as nat * t <= 9 * t) by (nonlinear_arith)
            requires
                f[0] < 10,
        ;
    }
}

proof fn lemma_digits_zero(f: Seq<u8>)
    ensures
        digits_number(f) == 0 <==> forall|i: int| 0 <= i < f.len() ==> f[i] == 0,
    decreases f.len(),
{
    if f.len() > 0 {
        let rest = f.skip(1);
        lemma_digits_zero(rest);
        let t = ten_to((f.len() - 1) as nat);
        lemma_ten_to_positive((f.len() - 1) as nat);
        assert(f[0] as nat * t == 0 <==> f[0] == 0) by (nonlinear_arith)
            requires
                t >= 1,
        ;
        assert(forall|i: int| 0 <= i < rest.len() ==> rest[i] == f[i + 1]);
        if forall|i: int| 0 <= i < rest.len() ==> rest[i] == 0 {
            assert forall|i: int| 1 <= i < f.len() implies f[i] == 0 by {
                assert(rest[i - 1] == f[i]);
            }
        }
        if forall|i: int| 0 <= i < f.len() ==> f[i] == 0 {
            assert forall|i: int| 0 <= i < rest.len() implies rest[i] == 0 by {
                assert(f[i + 1] == 0);
            }
        }
    }
}

/// Doubles a decimal fraction in place and returns the whole part, zero or one.
fn double(f: &mut Vec<u8>) -> (carry: u8)
    requires
        are_digits(old(f)@),
    ensures
        are_digits(final(f)@),
        final(f)@.len() == old(f)@.len(),
        carry <= 1,
        2 * digits_number(old(f)@) == carry as nat * ten_to(old(f)@.len()) + digits_number(
            final(f)@,
        ),
{
    let ghost before = f@;
    let mut i: usize = f.len();
    let mut carry: u8 = 0;
    while i > 0
        invariant
            i <= f@.len(),
            f@.len() == before.len(),
            are_digits(f@),
            are_digits(before),
            carry <= 1,
            f@.take(i as int) == before.take(i as int),
            2 * digits_number(before.skip(i as int)) == carry as nat * ten_to(
                (before.len() - i) as nat,
            ) + digits_number(f@.skip(i as int)),
        decreases i,
    {
        let ghost now = f@;
        let ghost old_carry = carry;
        assert(f@.take(i as int)[i - 1] == before.take(i as int)[i - 1]);
        assert(f@[i - 1] == before[i - 1]);
        let twice: u8 = 2 * f[i - 1] + carry;
        let digit: u8 = if twice >= 10 {
            twice - 10
        } else {
            twice
        };
        carry = if twice >= 10 {
            1
        } else {
            0
        };
        f[i - 1] = digit;
        i = i - 1;
        proof {
            assert(f@ =~= now.update(i as int, digit));
            assert(f@.take(i as int) =~= now.take(i as int));
            assert(now.take(i as int) =~= now.take(i + 1).take(i as int));
            assert(before.take(i as int) =~= before.take(i + 1).take(i as int));
            let t = ten_to((before.len() - i - 1) as nat);
            let a = before.skip(i as int);
            assert(a.skip(1) =~= before.skip(i + 1));
            let b = f@.skip(i as int);
            assert(b.skip(1) =~= now.skip(i + 1));
            assert(a[0] == before[i as int] && b[0] == digit);
            assert(ten_to((before.len() - i) as nat) == 10 * t);
            let x = before[i as int] as nat;
            assert(2 * (x * t) == (2 * x) * t) by (nonlinear_arith);
            assert((2 * x) * t + old_carry as nat * t == (2 * x + old_carry as nat) * t)
                by (nonlinear_arith);
            assert((carry as nat * 10 + digit as nat) * t == carry as nat * (10 * t) + digit as nat
                * t) by (nonlinear_arith);
        }
    }
    assert(before.skip(0) =~= before);
    assert(f@.skip(0) =~= f@);
    carry
}

/// Whether all digits are zero.
fn all_zero(f: &Vec<u8>) -> (r: bool)
    ensures
        r == (digits_number(f@) == 0),
{
    proof {
        lemma_digits_zero(f@);
    }
    let mut i: usize = 0;
    while i < f.len()
        invariant
            i <= f@.len(),
            forall|j: int| 0 <= j < i ==> f@[j] == 0,
        decreases f@.len() - i,
    {
        if f[i] != 0 {
            proof {
                lemma_digits_zero(f@);
                assert(f@[i as int] != 0);
            }
            return false;
        }
        i = i + 1;
    }
    true
}

proof fn lemma_divides(m: nat, t: nat, r: nat)
    requires
        r < t,
    ensures
        (m * t + r) / t == m,
        (m * t + r) % t == r,
{
    assert((m * t + r) / t == m && (m * t + r) % t == r) by (nonlinear_arith)
        requires
            r < t,
    ;
}

proof fn lemma_half_even_scale(n: nat, d: nat, c: nat)
    requires
        d > 0,
        c > 0,
    ensures
        half_even(n * c, d * c) == half_even(n, d),
{
    let q = n / d;
    let r = n % d;
    assert(n == q * d + r && r < d) by (nonlinear_arith)
        requires
            q == n / d,
            r == n % d,
            d > 0,
    ;
    assert(n * c == q * (d * c) + r * c) by (nonlinear_arith)
        requires
            n == q * d + r,
    ;
    assert(r * c < d * c) by (nonlinear_arith)
        requires
            r < d,
            c > 0,
    ;
    lemma_divides(q, d * c, r * c);
    assert(2 * (r * c) > d * c <==> 2 * r > d) by (nonlinear_arith)
        requires
            c > 0,
    ;
    assert(2 * (r * c) == d * c <==> 2 * r == d) by (nonlinear_arith)
        requires
            c > 0,
    ;
}

/// Equal fractions have the same whole part and compare alike with a number.
proof fn lemma_same_fraction(x: nat, y: nat, f: nat, s: nat, c: nat)
    requires
        y > 0,
        s > 0,
        x * s == f * y,
    ensures
        x / y == f / s,
        x > c * y <==> f > c * s,
{
    let q = x / y;
    let r = x % y;
    assert(x == q * y + r && r < y) by (nonlinear_arith)
        requires
            q == x / y,
            r == x % y,
            y > 0,
    ;
    // (f - q s) y == r s, so 0 <= f - q s < s
    assert(f * y == (q * s) * y + r * s) by (nonlinear_arith)
        requires
            x * s == f * y,
            x == q * y + r,
    ;
    assert(f >= q * s && f < q * s + s) by (nonlinear_arith)
        requires
            f * y == (q * s) * y + r * s,
            r < y,
            y > 0,
            s > 0,
    {
        assert((f - q * s) * y >= 0);
        assert((f - q * s) * y < s * y);
    }
    lemma_divides(q, s, (f - q * s) as nat);
    assert(q * s + (f - q * s) == f);
    assert(x > c * y <==> f > c * s) by (nonlinear_arith)
        requires
            x * s == f * y,
            y > 0,
            s > 0,
    {
        if x > c * y {
            assert(x * s > (c * y) * s);
            assert((f - c * s) * y > 0);
        }
        if f > c * s {
            assert(f * y > (c * s) * y);
            assert((x - c * y) * s > 0);
        }
    }
}

/// The double nearest to `p / 2^count`, found by rounding `p` to 53 bits.
proof fn lemma_rounded_product(p: nat, count: nat, t: nat)
    requires
        low() * two_to(t) <= p < high() * two_to(t),
    ensures
        ({
            let product = binary64(p, two_to(count));
            &&& product.1 >= 1
            &&& product.0 * two_to(count) == (half_even(p, two_to(t)) * two_to(t)) * product.1
        }),
{
    let step = two_to(count);
    let shift = two_to(t);
    lemma_two_to_positive(count);
    lemma_two_to_positive(t);
    let w = half_even(p, shift);
    if t <= count {
        let a = (count - t) as nat;
        let x = two_to(a);
        lemma_two_to_positive(a);
        lemma_two_to_adds(a, t);
        assert(step == x * shift);
        assert(low() * step <= p * x && p * x < high() * step) by (nonlinear_arith)
            requires
                step == x * shift,
                low() * shift <= p,
                p < high() * shift,
                x >= 1,
        ;
        assert(p < high() * step) by (nonlinear_arith)
            requires
                p * x < high() * step,
                x >= 1,
        ;
        assert(p > 0);
        lemma_up_unique(p, step, a);
        assert(step * two_to(0) == step) by (nonlinear_arith)
            requires
                two_to(0) == 1,
        ;
        lemma_down_unique(p, step, 0);
        assert(x * shift == shift * x) by (nonlinear_arith);
        lemma_half_even_scale(p, shift, x);
        assert(w * two_to(0) == w) by (nonlinear_arith)
            requires
                two_to(0) == 1,
        ;
        assert(w * (x * shift) == (w * shift) * x) by (nonlinear_arith);
    } else {
        let b = (t - count) as nat;
        let y = two_to(b);
        lemma_two_to_positive(b);
        lemma_two_to_adds(count, b);
        assert(shift == step * y);
        assert(p >= low() * step) by (nonlinear_arith)
            requires
                shift == step * y,
                low() * shift <= p,
                y >= 1,
        ;
        assert(p * two_to(0) == p) by (nonlinear_arith)
            requires
                two_to(0) == 1,
        ;
        lemma_up_unique(p, step, 0);
        lemma_down_unique(p, step, b);
        assert((w * y) * step == (w * (step * y)) * 1) by (nonlinear_arith);
    }
}

proof fn lemma_two_to_112()
    ensures
        two_to(112) == 0x1_0000_0000_0000_0000_0000_0000_0000,
{
    reveal_with_fuel(two_to, 17);
    lemma_two_to_adds(16, 16);
    lemma_two_to_adds(32, 16);
    lemma_two_to_adds(48, 16);
    lemma_two_to_adds(64, 16);
    lemma_two_to_adds(80, 16);
    lemma_two_to_adds(96, 16);
    assert(two_to(16) == 0x1_0000);
    assert(two_to(32) == 0x1_0000_0000);
}

proof fn lemma_two_to_grows(a: nat, b: nat)
    requires
        a <= b,
    ensures
        two_to(a) <= two_to(b),
    decreases b,
{
    if a < b {
        lemma_two_to_grows(a, (b - 1) as nat);
    }
}

/// The nanoseconds in a decimal number of units: `whole` before the point,
/// `fraction` after it.
pub fn nanos(whole: u64, fraction: Vec<u8>, unit: u64) -> (r: Option<u64>)
    requires
        are_digits(fraction@),
        1_000_000_000 <= unit <= 3_600_000_000_000,
    ensures
        ({
            let d = ten_to(fraction@.len());
            let n = whole as nat * d + digits_number(fraction@);
            match r {
                Some(v) => nanos_of(n, d, unit as nat) == Some(v as nat),
                None => nanos_of(n, d, unit as nat) is None,
            }
        }),
{
    let ghost d = ten_to(fraction@.len());
    let ghost n0 = (whole as nat * d + digits_number(fraction@)) as nat;
    proof {
        lemma_ten_to_positive(fraction@.len());
        lemma_digits_bound(fraction@);
    }
    if whole >= 0x20_0000_0000_0000 {
        proof {
            assert(n0 >= 0x20_0000_0000_0000 * d) by (nonlinear_arith)
                requires
                    n0 >= whole as nat * d,
                    whole >= 0x20_0000_0000_0000,
            ;
            lemma_huge(n0, d, unit as nat);
        }
        return None;
    }
    let mut f: Vec<u8> = fraction;
    let mut m: u64 = whole;
    let mut step: u128 = 1;
    let mut count: u32 = 0;
    let ghost mut n = n0;
    proof {
        assert(n0 * 1 == n0) by (nonlinear_arith);
        assert(n0 < high() * d) by (nonlinear_arith)
            requires
                n0 == whole as nat * d + digits_number(f@),
                digits_number(f@) < d,
                whole < 0x20_0000_0000_0000,
                high() == 0x20_0000_0000_0000,
        ;
        lemma_two_to_112();
    }
    while m < 0x10_0000_0000_0000 && count < 112
        invariant
            are_digits(f@),
            d == ten_to(f@.len()),
            d >= 1,
            count <= 112,
            step == two_to(count as nat),
            two_to(112) == 0x1_0000_0000_0000_0000_0000_0000_0000,
            n == n0 * two_to(count as nat),
            n == m as nat * d + digits_number(f@),
            digits_number(f@) < d,
            m < 0x20_0000_0000_0000,
            n0 > 0 ==> up_shift(n0, d) == count + up_shift(n, d),
        decreases 112 - count,
    {
        let ghost r = digits_number(f@);
        let ghost m_before = m;
        proof {
            lemma_two_to_grows((count + 1) as nat, 112);
            lemma_two_to_positive(count as nat);
            assert(n < low() * d) by (nonlinear_arith)
                requires
                    n == m as nat * d + r,
                    r < d,
                    m < 0x10_0000_0000_0000,
                    low() == 0x10_0000_0000_0000,
            ;
            if n0 > 0 {
                assert(n > 0) by (nonlinear_arith)
                    requires
                        n == n0 * two_to(count as nat),
                        n0 > 0,
                        two_to(count as nat) >= 1,
                ;
            }
        }
        let carry: u8 = double(&mut f);
        m = 2 * m + carry as u64;
        step = step * 2;
        count = count + 1;
        proof {
            lemma_digits_bound(f@);
            let half = two_to((count - 1) as nat);
            assert(2 * (n0 * half) == n0 * (2 * half)) by (nonlinear_arith);
            assert(2 * (m_before as nat * d) + carry as nat * d == (2 * m_before as nat
                + carry as nat) * d) by (nonlinear_arith);
            n = 2 * n;
        }
    }
    if m < 0x10_0000_0000_0000 {
        proof {
            assert(n < low() * d) by (nonlinear_arith)
                requires
                    n == m as nat * d + digits_number(f@),
                    digits_number(f@) < d,
                    m < 0x10_0000_0000_0000,
                    low() == 0x10_0000_0000_0000,
            ;
            assert(n == n0 * 0x1_0000_0000_0000_0000_0000_0000_0000);
            lemma_tiny(n0, d, unit as nat);
        }
        return Some(0);
    }
    let ghost r = digits_number(f@);
    let carry: u8 = double(&mut f);
    let rest_is_zero: bool = all_zero(&f);
    let value: u64 = if carry == 1 && (!rest_is_zero || m % 2 == 1) {
        m + 1
    } else {
        m
    };
    proof {
        assert(n >= low() * d) by (nonlinear_arith)
            requires
                n >= m as nat * d,
                m >= 0x10_0000_0000_0000,
                low() == 0x10_0000_0000_0000,
        ;
        if n0 == 0 {
            assert(0 * two_to(count as nat) == 0) by (nonlinear_arith);
            assert(false);
        }
        assert(two_to(0) == 1);
        assert(d * 1 == d) by (nonlinear_arith);
        lemma_down_unique(n0, d, 0);
        assert(up_shift(n0, d) == count);
        lemma_divides(m as nat, d, r);
        lemma_digits_bound(f@);
        assert(carry == 0 ==> carry as nat * d == 0) by (nonlinear_arith);
        assert(carry == 1 ==> carry as nat * d == d) by (nonlinear_arith);
        assert(half_even(n, d) == value);
        assert(value as nat * 1 == value as nat) by (nonlinear_arith);
        assert(binary64(n0, d) == (value as nat, two_to(count as nat)));
    }
    assert((value as u128) * (unit as u128) <= 0x20_0000_0000_0000 * 3_600_000_000_000)
        by (nonlinear_arith)
        requires
            value <= 0x20_0000_0000_0000,
            unit <= 3_600_000_000_000,
    ;
    let product: u128 = (value as u128) * (unit as u128);
    assert(product >= 0x10_0000_0000_0000) by (nonlinear_arith)
        requires
            product == (value as u128) * (unit as u128),
            value >= 0x10_0000_0000_0000,
            unit >= 1,
    ;
    let mut shift: u128 = 1;
    let ghost mut t: nat = 0;
    while product >= 0x20_0000_0000_0000 * shift
        invariant
            0x10_0000_0000_0000 * shift <= product,
            product <= 0x20_0000_0000_0000 * 3_600_000_000_000,
            shift >= 1,
            shift == two_to(t),
        decreases product - 0x10_0000_0000_0000 * shift,
    {
        shift = shift * 2;
        proof {
            t = t + 1;
        }
    }
    let quotient: u128 = product / shift;
    let remainder: u128 = product % shift;
    let rounded: u128 = if 2 * remainder > shift || (2 * remainder == shift && quotient % 2 == 1) {
        quotient + 1
    } else {
        quotient
    };
    assert(quotient <= 0x20_0000_0000_0000) by (nonlinear_arith)
        requires
            quotient == product / shift,
            product < 0x20_0000_0000_0000 * shift,
            shift >= 1,
    ;
    assert(rounded * shift <= 0x20_0000_0000_0001 * 0x1_0000_0000_0000) by (nonlinear_arith)
        requires
            rounded <= 0x20_0000_0000_0001,
            shift <= 0x1_0000_0000_0000,
    ;
    let full: u128 = rounded * shift;
    proof {
        lemma_two_to_positive(count as nat);
    }
    let result: u128 = full / step;
    let over: u128 = full % step;
    proof {
        let s = step as nat;
        lemma_rounded_product(product as nat, count as nat, t);
        let p = binary64(product as nat, s);
        assert(rounded == half_even(product as nat, two_to(t)));
        lemma_same_fraction(p.0, p.1, full as nat, s, 0x1_0000_0000_0000_0000);
        assert(full == result * step + over && over < step) by (nonlinear_arith)
            requires
                result == full / step,
                over == full % step,
                step >= 1,
        ;
        assert(full > 0x1_0000_0000_0000_0000 * step <==> (result > 0x1_0000_0000_0000_0000 || (
        result == 0x1_0000_0000_0000_0000 && over > 0))) by (nonlinear_arith)
            requires
                full == result * step + over,
                over < step,
                step >= 1,
        ;
    }
    if result > 0x1_0000_0000_0000_0000 || (result == 0x1_0000_0000_0000_0000 && over > 0) {
        None
    } else if result > 0xffff_ffff_ffff_ffff {
        Some(0xffff_ffff_ffff_ffff)
    } else {
        Some(result as u64)
    }
}

// --------------------------------------------------------------------- text

/// A string in quotes, with escapes, as Rust's `Debug` writes it.
pub uninterp spec fn debug_text(text: Seq<char>) -> Seq<char>;

/// `format!` with `{:?}`: std's `Debug` for strings, which quotes the text and
/// escapes what does not print. The result is named, not spelled out: which
/// characters are escaped follows Unicode tables.
#[verifier::external_body]
pub(crate) fn quoted(text: &str) -> (r: String)
    ensures
        r@ == debug_text(text@),
{
    format!("{text:?}")
}

/// A character of a plain decimal number.
pub open spec fn is_number_char(c: char) -> bool {
    ('0' <= c <= '9') || c == '.'
}

/// The first index at or after `i` that is not part of a plain number.
pub open spec fn number_end(s: Seq<char>, i: int) -> int
    decreases s.len() - i,
{
    if 0 <= i < s.len() && is_number_char(s[i]) {
        number_end(s, i + 1)
    } else {
        i
    }
}

proof fn lemma_number_end(s: Seq<char>, i: int)
    requires
        0 <= i <= s.len(),
    ensures
        i <= number_end(s, i) <= s.len(),
        forall|j: int| i <= j < number_end(s, i) ==> is_number_char(s[j]),
    decreases s.len() - i,
{
    if i < s.len() && is_number_char(s[i]) {
        lemma_number_end(s, i + 1);
    }
}

/// The digits before and after the decimal point: at most one point, at least
/// one digit.
pub open spec fn decimal_parts(number: Seq<char>) -> Option<(Seq<char>, Seq<char>)> {
    let parts = match find(number, '.') {
        None => (number, Seq::<char>::empty()),
        Some(i) => (number.take(i), number.skip(i + 1)),
    };
    if find(parts.1, '.') is Some || parts.0.len() + parts.1.len() == 0 {
        None
    } else {
        Some(parts)
    }
}

/// The nanoseconds in one unit: none for a unit that is not known, zero for one
/// below a second.
pub open spec fn unit_nanos(unit: Seq<char>) -> Option<nat> {
    if unit == "ns"@ || unit == "us"@ || unit == "µs"@ || unit == "ms"@ {
        Some(0)
    } else if unit == "s"@ {
        Some(1_000_000_000)
    } else if unit == "m"@ {
        Some(60_000_000_000)
    } else if unit == "h"@ {
        Some(3_600_000_000_000)
    } else {
        None
    }
}

/// The nanoseconds that a duration text stands for, or why there are none.
pub open spec fn duration_of(text: Seq<char>) -> Result<nat, Seq<char>> {
    let end = number_end(text, 0);
    let number = text.take(end);
    let unit = text.skip(end);
    let invalid = "invalid duration "@ + debug_text(text);
    if number.len() == 0 || unit.len() == 0 {
        Err(invalid)
    } else {
        match decimal_parts(number) {
            None => Err(invalid),
            Some((whole, fraction)) => match unit_nanos(unit) {
                None => Err(
                    "unknown unit "@ + debug_text(unit) + " in duration "@ + debug_text(text),
                ),
                Some(scale) => if scale == 0 {
                    Err("sub-second durations are not supported: "@ + debug_text(text))
                } else {
                    match nanos_of(
                        radix_value(whole + fraction, 10),
                        ten_to(fraction.len()),
                        scale,
                    ) {
                        None => Err("duration "@ + debug_text(text) + " out of range"@),
                        Some(n) => Ok(n),
                    }
                },
            },
        }
    }
}

/// The values of decimal digit characters.
pub open spec fn digit_values(s: Seq<char>) -> Seq<u8> {
    s.map_values(|c: char| ((c as u32) - 48) as u8)
}

proof fn lemma_digits_push(f: Seq<u8>, x: u8)
    ensures
        digits_number(f.push(x)) == 10 * digits_number(f) + x as nat,
    decreases f.len(),
{
    let g = f.push(x);
    if f.len() == 0 {
        assert(g.skip(1) =~= Seq::<u8>::empty());
        assert(digits_number(g.skip(1)) == 0);
        assert(x as nat * 1 == x as nat) by (nonlinear_arith);
        assert(ten_to(0) == 1);
    } else {
        assert(g.skip(1) =~= f.skip(1).push(x));
        lemma_digits_push(f.skip(1), x);
        let t = ten_to((f.len() - 1) as nat);
        assert(ten_to(f.len()) == 10 * t);
        assert(f[0] as nat * (10 * t) == 10 * (f[0] as nat * t)) by (nonlinear_arith);
    }
}

proof fn lemma_radix_split(a: Seq<char>, b: Seq<char>)
    requires
        all_digits(b, 10),
    ensures
        radix_value(a + b, 10) == radix_value(a, 10) * ten_to(b.len()) + digits_number(
            digit_values(b),
        ),
    decreases b.len(),
{
    let r = radix_value(a, 10);
    if b.len() == 0 {
        assert(a + b =~= a);
        assert(digit_values(b) =~= Seq::<u8>::empty());
        assert(r * 1 == r) by (nonlinear_arith);
    } else {
        let c = b.drop_last();
        assert forall|i: int| 0 <= i < c.len() implies (#[trigger] digit_value(c[i], 10)) is Some by {
            assert(c[i] == b[i]);
            assert(digit_value(b[i], 10) is Some);
        }
        lemma_radix_split(a, c);
        assert((a + b).drop_last() =~= a + c);
        assert((a + b).last() == b.last());
        assert(digit_value(b[b.len() - 1], 10) is Some);
        let x = ((b.last() as u32) - 48) as u8;
        assert(digit_values(b) =~= digit_values(c).push(x));
        lemma_digits_push(digit_values(c), x);
        let t = ten_to(c.len());
        assert(ten_to(b.len()) == 10 * t);
        assert((r * t) * 10 == r * (10 * t)) by (nonlinear_arith);
    }
}

/// The digit values of a run of digits and nothing else.
fn digits_to_values(s: &[char]) -> (r: Vec<u8>)
    requires
        all_digits(s@, 10),
    ensures
        r@ == digit_values(s@),
        are_digits(r@),
{
    let mut out: Vec<u8> = Vec::new();
    let mut i: usize = 0;
    while i < s.len()
        invariant
            i <= s@.len(),
            all_digits(s@, 10),
            out@ == digit_values(s@.take(i as int)),
            are_digits(out@),
        decreases s@.len() - i,
    {
        assert(digit_value(s@[i as int], 10) is Some);
        let d: u8 = (s[i] as u32 - 48) as u8;
        out.push(d);
        i = i + 1;
        assert(digit_values(s@.take(i as int)) =~= digit_values(s@.take(i - 1)).push(d));
    }
    assert(s@.take(i as int) =~= s@);
    out
}

/// The nanoseconds in one unit.
fn scale_of(unit: &str) -> (r: Option<u64>)
    ensures
        match r {
            Some(n) => unit_nanos(unit@) == Some(n as nat),
            None => unit_nanos(unit@) is None,
        },
{
    if same_text(unit, "ns") || same_text(unit, "us") || same_text(unit, "µs") || same_text(
        unit,
        "ms",
    ) {
        Some(0)
    } else if same_text(unit, "s") {
        Some(1_000_000_000)
    } else if same_text(unit, "m") {
        Some(60_000_000_000)
    } else if same_text(unit, "h") {
        Some(3_600_000_000_000)
    } else {
        None
    }
}

/// Number characters without a point are digits.
proof fn lemma_digits_only(s: Seq<char>)
    requires
        forall|i: int| 0 <= i < s.len() ==> is_number_char(s[i]),
        find(s, '.') is None,
    ensures
        all_digits(s, 10),
{
    lemma_find_from(s, '.', 0);
    assert forall|i: int| 0 <= i < s.len() implies (#[trigger] digit_value(s[i], 10)) is Some by {
        assert(is_number_char(s[i]));
        assert(s[i] != '.');
    }
}

/// The nanoseconds in `whole.fraction` units of `scale` nanoseconds.
fn nanos_of_parts(whole: &[char], fraction: &[char], scale: u64) -> (r: Option<u64>)
    requires
        all_digits(whole@, 10),
        all_digits(fraction@, 10),
        1_000_000_000 <= scale <= 3_600_000_000_000,
    ensures
        ({
            let n = nanos_of(
                radix_value(whole@ + fraction@, 10),
                ten_to(fraction@.len()),
                scale as nat,
            );
            match r {
                Some(v) => n == Some(v as nat),
                None => n is None,
            }
        }),
{
    proof {
        lemma_radix_split(whole@, fraction@);
        lemma_ten_to_positive(fraction@.len());
    }
    let values: Vec<u8> = digits_to_values(fraction);
    if whole.len() == 0 {
        assert(radix_value(whole@, 10) == 0);
        return nanos(0, values, scale);
    }
    match digits_value(whole, 10, 0xffff_ffff_ffff_ffff) {
        Some(w) => nanos(w, values, scale),
        None => {
            proof {
                let d = ten_to(fraction@.len());
                let w = radix_value(whole@, 10);
                assert(w * d >= high() * d) by (nonlinear_arith)
                    requires
                        w >= high(),
                ;
                lemma_huge(radix_value(whole@ + fraction@, 10), d, scale as nat);
            }
            None
        },
    }
}

/// Reads a duration such as `45s`, `1.5m` or `2h`, in nanoseconds.
pub fn parse_duration(text: &str) -> (r: Result<u64, String>)
    ensures
        match r {
            Ok(n) => duration_of(text@) == Ok::<nat, Seq<char>>(n as nat),
            Err(e) => duration_of(text@) == Err::<nat, Seq<char>>(e@),
        },
{
    let chars: Vec<char> = chars_of(text);
    let n: usize = chars.len();
    let mut end: usize = 0;
    while end < n && ((('0' <= chars[end]) && (chars[end] <= '9')) || chars[end] == '.')
        invariant
            end <= n,
            n == chars@.len(),
            number_end(chars@, 0) == number_end(chars@, end as int),
        decreases n - end,
    {
        end = end + 1;
    }
    proof {
        lemma_number_end(chars@, 0);
    }
    let number: &[char] = slice_subrange(chars.as_slice(), 0, end);
    let unit_chars: &[char] = slice_subrange(chars.as_slice(), end, n);
    assert(number@ =~= text@.take(end as int));
    assert(unit_chars@ =~= text@.skip(end as int));
    let mut invalid: String = "invalid duration ".to_owned();
    let shown: String = quoted(text);
    invalid.append(shown.as_str());
    if end == 0 || end == n {
        return Err(invalid);
    }
    let dot: Option<usize> = find_char(number, '.');
    let empty: Vec<char> = Vec::new();
    let whole: &[char] = match dot {
        None => number,
        Some(i) => slice_subrange(number, 0, i),
    };
    let fraction: &[char] = match dot {
        None => empty.as_slice(),
        Some(i) => slice_subrange(number, i + 1, end),
    };
    proof {
        if dot is Some {
            let i = dot.unwrap() as int;
            assert(whole@ =~= number@.take(i));
            assert(fraction@ =~= number@.skip(i + 1));
            lemma_find_from(number@, '.', 0);
        } else {
            assert(fraction@ =~= Seq::<char>::empty());
        }
    }
    if find_char(fraction, '.').is_some() || (whole.len() == 0 && fraction.len() == 0) {
        return Err(invalid);
    }
    proof {
        assert forall|j: int| 0 <= j < number@.len() implies is_number_char(number@[j]) by {
            assert(number@[j] == chars@[j]);
        }
        assert(find(whole@, '.') is None) by {
            lemma_find_from(whole@, '.', 0);
            lemma_find_from(number@, '.', 0);
        }
        assert forall|j: int| 0 <= j < fraction@.len() implies is_number_char(fraction@[j]) by {
            if dot is Some {
                assert(fraction@[j] == number@[j + dot.unwrap() + 1]);
            }
        }
        lemma_digits_only(whole@);
        lemma_digits_only(fraction@);
    }
    let unit: String = string_of(unit_chars);
    match scale_of(unit.as_str()) {
        None => {
            let mut message: String = "unknown unit ".to_owned();
            let shown_unit: String = quoted(unit.as_str());
            message.append(shown_unit.as_str());
            message.append(" in duration ");
            message.append(shown.as_str());
            Err(message)
        },
        Some(scale) => {
            if scale == 0 {
                let mut message: String = "sub-second durations are not supported: ".to_owned();
                message.append(shown.as_str());
                return Err(message);
            }
            match nanos_of_parts(whole, fraction, scale) {
                Some(v) => Ok(v),
                None => {
                    let mut message: String = "duration ".to_owned();
                    message.append(shown.as_str());
                    message.append(" out of range");
                    Err(message)
                },
            }
        },
    }
}

// --------------------------------------------------------------------- laws

proof fn lemma_two_to_53()
    ensures
        two_to(52) == low(),
        two_to(53) == high(),
{
    reveal_with_fuel(two_to, 14);
    lemma_two_to_adds(13, 13);
    lemma_two_to_adds(26, 13);
    lemma_two_to_adds(39, 13);
    assert(two_to(13) == 0x2000);
    assert(two_to(26) == 0x400_0000);
    assert(two_to(39) == 0x80_0000_0000);
    assert(two_to(52) == 0x10_0000_0000_0000);
    assert(two_to(53) == 2 * two_to(52));
}

/// A number of at most 53 bits, times and over powers of two, is a double: it is
/// rounded to itself.
proof fn lemma_binary64_exact(m: nat, t: nat, e: nat)
    requires
        m < high(),
    ensures
        ({
            let v = binary64(m * two_to(t), two_to(e));
            &&& v.1 >= 1
            &&& v.0 * two_to(e) == (m * two_to(t)) * v.1
        }),
{
    let n = m * two_to(t);
    let d = two_to(e);
    lemma_two_to_positive(t);
    lemma_two_to_positive(e);
    if m == 0 {
        assert(n == 0) by (nonlinear_arith)
            requires
                m == 0,
                n == m * two_to(t),
        ;
        lemma_zero(d);
        assert(0 * d == 0 && 0 * 1 == 0) by (nonlinear_arith);
    } else {
        assert(n > 0) by (nonlinear_arith)
            requires
                m > 0,
                n == m * two_to(t),
                two_to(t) >= 1,
        ;
        let a = up_shift(n, d);
        let b = down_shift(n, d);
        lemma_up_shift(n, d);
        lemma_down_shift(n, d);
        lemma_two_to_positive(a);
        lemma_two_to_positive(b);
        lemma_two_to_adds(t, a);
        lemma_two_to_adds(e, b);
        lemma_two_to_53();
        // n * 2^a >= 2^52 * d * 2^b, and n has at most 53 bits above 2^t
        assert(n * two_to(a) >= low() * (d * two_to(b))) by {
            if b > 0 {
                assert(n * two_to(a) >= n) by (nonlinear_arith)
                    requires
                        two_to(a) >= 1,
                ;
            } else {
                assert(d * two_to(b) == d) by (nonlinear_arith)
                    requires
                        two_to(b) == 1,
                ;
            }
        }
        assert(n * two_to(a) == m * two_to(t + a)) by (nonlinear_arith)
            requires
                n == m * two_to(t),
                two_to(t + a) == two_to(t) * two_to(a),
        ;
        if t + a < e + b {
            lemma_two_to_grows(t + a + 1, e + b);
            lemma_two_to_positive(t + a);
            assert(m * two_to(t + a) < low() * two_to(e + b)) by (nonlinear_arith)
                requires
                    m < 2 * low(),
                    two_to(t + a + 1) == 2 * two_to(t + a),
                    two_to(t + a + 1) <= two_to(e + b),
                    two_to(t + a) >= 1,
            {
                assert(m * two_to(t + a) < (2 * low()) * two_to(t + a));
                assert((2 * low()) * two_to(t + a) == low() * (2 * two_to(t + a)));
                assert(low() * (2 * two_to(t + a)) <= low() * two_to(e + b));
            }
            assert(false);
        }
        let k = (t + a - e - b) as nat;
        lemma_two_to_adds(k, e + b);
        let q = m * two_to(k);
        let unit = two_to(e + b);
        lemma_two_to_positive(e + b);
        assert(m * (two_to(k) * unit) == q * unit) by (nonlinear_arith)
            requires
                q == m * two_to(k),
        ;
        assert(q * unit + 0 == n * two_to(a));
        lemma_divides(q, unit, 0);
        assert(half_even(n * two_to(a), d * two_to(b)) == q);
        assert((q * two_to(b)) * d == q * (d * two_to(b))) by (nonlinear_arith);
    }
}

/// Nothing is rounded to nothing.
proof fn lemma_zero(d: nat)
    requires
        d > 0,
    ensures
        binary64(0, d) == (0nat, 1nat),
{
    assert(up_shift(0, d) == 0);
    assert(down_shift(0, d) == 0);
    assert(two_to(0) == 1);
    assert(0 * two_to(0) == 0) by (nonlinear_arith);
    assert(d * two_to(0) == d) by (nonlinear_arith)
        requires
            two_to(0) == 1,
    ;
    assert(0nat / d == 0 && 0nat % d == 0) by (nonlinear_arith)
        requires
            d > 0,
    ;
    assert(half_even(0, d) == 0);
}

/// Whole units of `odd * 2^s` nanoseconds are worked out exactly.
proof fn lemma_whole_nanos(n: nat, odd: nat, s: nat)
    requires
        n < high(),
        n * odd < high(),
        n * (odd * two_to(s)) <= 0xffff_ffff_ffff_ffff,
    ensures
        nanos_of(n, 1, odd * two_to(s)) == Some(n * (odd * two_to(s))),
{
    let unit = odd * two_to(s);
    let exact = n * unit;
    let value = binary64(n, 1);
    assert(two_to(0) == 1);
    assert(n * 1 == n) by (nonlinear_arith);
    lemma_binary64_exact(n, 0, 0);
    assert(value.0 * 1 == value.0) by (nonlinear_arith);
    let a = up_shift(n, 1);
    assert(value.1 == two_to(a));
    lemma_two_to_adds(s, a);
    assert(value.0 * unit == (n * odd) * two_to(s + a)) by (nonlinear_arith)
        requires
            value.0 == n * two_to(a),
            unit == odd * two_to(s),
            two_to(s + a) == two_to(s) * two_to(a),
    ;
    lemma_binary64_exact(n * odd, s + a, a);
    let product = binary64(value.0 * unit, value.1);
    lemma_two_to_positive(a);
    assert(product.0 == exact * product.1) by (nonlinear_arith)
        requires
            product.0 * two_to(a) == (value.0 * unit) * product.1,
            value.0 == n * two_to(a),
            exact == n * unit,
            two_to(a) >= 1,
    {
        assert((value.0 * unit) * product.1 == ((n * unit) * product.1) * two_to(a));
        assert((product.0 - (n * unit) * product.1) * two_to(a) == 0);
    }
    lemma_divides(exact, product.1, 0);
    assert(exact * product.1 <= 0x1_0000_0000_0000_0000 * product.1) by (nonlinear_arith)
        requires
            exact <= 0x1_0000_0000_0000_0000,
    ;
}

/// The number in a text of digits and a unit ends where the unit starts.
proof fn lemma_number_end_at(digits: Seq<char>, unit: Seq<char>, i: int)
    requires
        forall|k: int| 0 <= k < digits.len() ==> is_number_char(#[trigger] digits[k]),
        unit.len() > 0 ==> !is_number_char(unit[0]),
        0 <= i <= digits.len(),
    ensures
        number_end(digits + unit, i) == digits.len(),
    decreases digits.len() - i,
{
    let text = digits + unit;
    if i < digits.len() {
        assert(text[i] == digits[i]);
        lemma_number_end_at(digits, unit, i + 1);
    } else if unit.len() > 0 {
        assert(text[i] == unit[0]);
    }
}

/// A whole number and a unit come apart into just these.
proof fn lemma_whole_number(n: nat, unit: Seq<char>)
    requires
        unit.len() > 0 ==> !is_number_char(unit[0]),
    ensures
        ({
            let text = decimal(n) + unit;
            let end = number_end(text, 0);
            &&& text.take(end) == decimal(n)
            &&& text.skip(end) == unit
            &&& decimal_parts(decimal(n)) == Some((decimal(n), Seq::<char>::empty()))
            &&& decimal(n).len() > 0
            &&& radix_value(decimal(n), 10) == n
        }),
{
    let digits = decimal(n);
    let text = digits + unit;
    lemma_radix_roundtrip(n, 10);
    assert forall|k: int| 0 <= k < digits.len() implies is_number_char(#[trigger] digits[k])
        && digits[k] != '.' by {
        assert(digit_value(digits[k], 10) is Some);
    }
    lemma_number_end_at(digits, unit, 0);
    assert(text.take(digits.len() as int) =~= digits);
    assert(text.skip(digits.len() as int) =~= unit);
    lemma_find_from(digits, '.', 0);
    assert(find(digits, '.') is None);
    assert(find(Seq::<char>::empty(), '.') is None);
}

/// A whole number of seconds, minutes or hours reads as exactly that many: no
/// rounding shows below two to the power 62 nanoseconds, over a hundred years.
pub proof fn whole_units_read_exactly(n: nat, unit: Seq<char>)
    requires
        unit == "s"@ || unit == "m"@ || unit == "h"@,
        n * unit_nanos(unit).unwrap() < 0x4000_0000_0000_0000,
    ensures
        duration_of(decimal(n) + unit) == Ok::<nat, Seq<char>>(n * unit_nanos(unit).unwrap()),
        unit_nanos("s"@) == Some(1_000_000_000nat),
        unit_nanos("m"@) == Some(60 * 1_000_000_000nat),
        unit_nanos("h"@) == Some(3600 * 1_000_000_000nat),
{
    lemma_units();
    lemma_whole_number(n, unit);
    let scale = unit_nanos(unit).unwrap();
    let (odd, s): (nat, nat) = if unit == "s"@ {
        (1_953_125, 9)
    } else if unit == "m"@ {
        (29_296_875, 11)
    } else {
        (439_453_125, 13)
    };
    assert(two_to(9) == 512 && two_to(11) == 2048 && two_to(13) == 8192) by {
        reveal_with_fuel(two_to, 14);
    }
    assert(odd * two_to(s) == scale);
    assert(n < high() && n * odd < high()) by (nonlinear_arith)
        requires
            n * scale < 0x4000_0000_0000_0000,
            scale >= 512 * odd,
            odd >= 1,
            high() == 0x20_0000_0000_0000,
    {
        assert(n * (512 * odd) <= n * scale);
        assert(n * (512 * odd) == 512 * (n * odd));
        assert(n <= n * odd);
    }
    lemma_whole_nanos(n, odd, s);
    assert(decimal(n) + Seq::<char>::empty() =~= decimal(n));
    assert(ten_to(0) == 1);
}

proof fn lemma_units()
    ensures
        unit_nanos("s"@) == Some(1_000_000_000nat),
        unit_nanos("m"@) == Some(60_000_000_000nat),
        unit_nanos("h"@) == Some(3_600_000_000_000nat),
        forall|unit: Seq<char>|
            unit.len() != 1 ==> (#[trigger] unit_nanos(unit) matches Some(scale) ==> scale == 0),
        !is_number_char("s"@[0]) && !is_number_char("m"@[0]) && !is_number_char("h"@[0]),
        "s"@.len() == 1 && "m"@.len() == 1 && "h"@.len() == 1,
{
    reveal_strlit("ns");
    reveal_strlit("us");
    reveal_strlit("µs");
    reveal_strlit("ms");
    reveal_strlit("s");
    reveal_strlit("m");
    reveal_strlit("h");
    assert("s"@[0] == 's' && "m"@[0] == 'm' && "h"@[0] == 'h');
    assert("m"@.len() != "ns"@.len() && "m"@.len() != "us"@.len() && "m"@.len() != "µs"@.len()
        && "m"@.len() != "ms"@.len());
}

/// A number behind which stands no unit of at least a second is refused: no unit
/// at all, one below a second, or one that is not known.
pub proof fn other_units_are_refused(n: nat, unit: Seq<char>)
    requires
        unit.len() > 0 ==> !is_number_char(unit[0]),
        unit_nanos(unit) matches Some(scale) ==> scale == 0,
    ensures
        duration_of(decimal(n) + unit) is Err,
{
    lemma_whole_number(n, unit);
}

/// Durations of several parts, such as minutes and seconds, are refused.
pub proof fn compound_durations_are_refused(n: nat, unit: Seq<char>, more: Seq<char>)
    requires
        unit == "s"@ || unit == "m"@ || unit == "h"@,
        more.len() > 0,
    ensures
        duration_of(decimal(n) + unit + more) is Err,
{
    lemma_units();
    let whole = unit + more;
    assert(whole[0] == unit[0]);
    assert(decimal(n) + unit + more =~= decimal(n) + whole);
    other_units_are_refused(n, whole);
}

/// A rounded quotient is off by half at most.
proof fn lemma_half_even_close(n: nat, d: nat)
    requires
        d > 0,
    ensures
        2 * (half_even(n, d) * d) <= 2 * n + d,
        2 * (half_even(n, d) * d) + d >= 2 * n,
{
    let q = n / d;
    let r = n % d;
    assert(n == q * d + r && 0 <= r < d) by (nonlinear_arith)
        requires
            q == n / d,
            r == n % d,
            d > 0,
    ;
    assert((q + 1) * d == q * d + d) by (nonlinear_arith);
}

/// A double is off by one part in two to the power 53 at most.
proof fn lemma_binary64_close(n: nat, d: nat)
    requires
        n > 0,
        d > 0,
    ensures
        ({
            let v = binary64(n, d);
            &&& v.1 >= 1
            &&& high() * (v.0 * d) <= (high() + 1) * (n * v.1)
            &&& high() * (v.0 * d) >= (high() - 1) * (n * v.1)
        }),
{
    let a = up_shift(n, d);
    let b = down_shift(n, d);
    let p = two_to(a);
    let q = two_to(b);
    lemma_two_to_positive(a);
    lemma_two_to_positive(b);
    lemma_up_shift(n, d);
    lemma_down_shift(n, d);
    let x = n * p;
    let y = d * q;
    assert(y >= 1) by (nonlinear_arith)
        requires
            d > 0,
            q >= 1,
            y == d * q,
    ;
    assert(x >= low() * y) by {
        if b > 0 {
            assert(x >= n) by (nonlinear_arith)
                requires
                    p >= 1,
                    x == n * p,
            ;
        } else {
            assert(y == d) by (nonlinear_arith)
                requires
                    q == 1,
                    y == d * q,
            ;
        }
    }
    lemma_half_even_close(x, y);
    let h = half_even(x, y);
    let z = h * y;
    assert((h * q) * d == z) by (nonlinear_arith)
        requires
            z == h * y,
            y == d * q,
    ;
    assert(high() * z <= (high() + 1) * x && high() * z >= (high() - 1) * x) by (nonlinear_arith)
        requires
            2 * z <= 2 * x + y,
            2 * z + y >= 2 * x,
            x >= low() * y,
            high() == 2 * low(),
    ;
}

/// Two roundings, and what is over the last whole nanosecond cut off.
proof fn lemma_nanos_close(n: nat, d: nat, unit: nat)
    requires
        n > 0,
        d > 0,
        unit > 0,
        n * unit < 0x8000_0000_0000_0000 * d,
    ensures
        nanos_of(n, d, unit) matches Some(r) && (high() * high()) * (r * d) <= ((high() + 1) * (
        high() + 1)) * (n * unit) && (high() * high()) * ((r + 1) * d) >= ((high() - 1) * (high()
            - 1)) * (n * unit),
{
    let v = binary64(n, d);
    lemma_binary64_close(n, d);
    assert(v.0 > 0) by {
        if v.0 == 0 {
            assert(n * v.1 >= 1) by (nonlinear_arith)
                requires
                    n > 0,
                    v.1 >= 1,
            ;
            assert((high() - 1) * (n * v.1) > 0) by (nonlinear_arith)
                requires
                    n * v.1 >= 1,
                    high() > 1,
            ;
            assert(v.0 * d == 0) by (nonlinear_arith)
                requires
                    v.0 == 0,
            ;
        }
    }
    let m = v.0 * unit;
    assert(m > 0) by (nonlinear_arith)
        requires
            v.0 > 0,
            unit > 0,
            m == v.0 * unit,
    ;
    let w = binary64(m, v.1);
    lemma_binary64_close(m, v.1);
    let e = n * unit;
    lemma_bounds(n, d, unit, v.0, v.1, w.0, w.1);
    let r = w.0 / w.1;
    assert(r * w.1 <= w.0 && w.0 < (r + 1) * w.1) by (nonlinear_arith)
        requires
            r == w.0 / w.1,
            w.1 >= 1,
    ;
    let hh = high() * high();
    let up = (high() + 1) * (high() + 1);
    let down = (high() - 1) * (high() - 1);
    lemma_floor(hh, up, down as nat, w.0, w.1, r, d, e);
    assert(w.0 < 0x1_0000_0000_0000_0000 * w.1) by {
        lemma_in_range(hh, up, w.0, w.1, d, e);
    }
    assert(r < 0x1_0000_0000_0000_0000) by (nonlinear_arith)
        requires
            r * w.1 <= w.0,
            w.0 < 0x1_0000_0000_0000_0000 * w.1,
            w.1 >= 1,
    ;
}

proof fn lemma_in_range(hh: nat, up: nat, w0: nat, w1: nat, d: nat, e: nat)
    requires
        hh == high() * high(),
        up == (high() + 1) * (high() + 1),
        hh * (w0 * d) <= up * (e * w1),
        e < 0x8000_0000_0000_0000 * d,
        d > 0,
        w1 >= 1,
    ensures
        w0 < 0x1_0000_0000_0000_0000 * w1,
{
    assert(up <= 2 * hh) by (nonlinear_arith)
        requires
            hh == high() * high(),
            up == (high() + 1) * (high() + 1),
            high() == 0x20_0000_0000_0000,
    ;
    assert(hh > 0) by (nonlinear_arith)
        requires
            hh == high() * high(),
            high() > 0,
    ;
    let x = w0 * d;
    let y = e * w1;
    let z = d * w1;
    assert(y < 0x8000_0000_0000_0000 * z) by (nonlinear_arith)
        requires
            y == e * w1,
            z == d * w1,
            e < 0x8000_0000_0000_0000 * d,
            w1 >= 1,
    ;
    assert(up * y <= 2 * (hh * y)) by (nonlinear_arith)
        requires
            up <= 2 * hh,
    ;
    assert(x <= 2 * y) by (nonlinear_arith)
        requires
            hh * x <= 2 * (hh * y),
            hh > 0,
    ;
    assert(w0 * d < 0x1_0000_0000_0000_0000 * (d * w1));
    assert(w0 < 0x1_0000_0000_0000_0000 * w1) by (nonlinear_arith)
        requires
            w0 * d < 0x1_0000_0000_0000_0000 * (d * w1),
            d > 0,
    ;
}

proof fn lemma_bounds(n: nat, d: nat, unit: nat, v0: nat, v1: nat, w0: nat, w1: nat)
    requires
        v1 >= 1,
        w1 >= 1,
        high() * (v0 * d) <= (high() + 1) * (n * v1),
        high() * (v0 * d) >= (high() - 1) * (n * v1),
        high() * (w0 * v1) <= (high() + 1) * ((v0 * unit) * w1),
        high() * (w0 * v1) >= (high() - 1) * ((v0 * unit) * w1),
    ensures
        (high() * high()) * (w0 * d) <= ((high() + 1) * (high() + 1)) * ((n * unit) * w1),
        (high() * high()) * (w0 * d) >= ((high() - 1) * (high() - 1)) * ((n * unit) * w1),
{
    let h = high() as int;
    let c = (unit * w1) as int;
    // The first rounding, times unit and w1; the second, times d.
    lemma_scaled(h, v0 * d, n * v1, c);
    lemma_scaled(h, w0 * v1, (v0 * unit) * w1, d as int);
    let x = (w0 * v1) * d;
    let y = (v0 * d) * c;
    let z = (n * v1) * c;
    assert(((v0 * unit) * w1) * d == y) by (nonlinear_arith)
        requires
            y == (v0 * d) * c,
            c == unit * w1,
    ;
    assert(h * x <= (h + 1) * y && h * x >= (h - 1) * y);
    assert(h * y <= (h + 1) * z && h * y >= (h - 1) * z);
    assert(h * h * x <= (h + 1) * (h + 1) * z) by (nonlinear_arith)
        requires
            h > 1,
            h * x <= (h + 1) * y,
            h * y <= (h + 1) * z,
    ;
    assert(h * h * x >= (h - 1) * (h - 1) * z) by (nonlinear_arith)
        requires
            h > 1,
            h * x >= (h - 1) * y,
            h * y >= (h - 1) * z,
    ;
    let s = w0 * d;
    let t = (n * unit) * w1;
    assert(x == s * v1) by (nonlinear_arith)
        requires
            x == (w0 * v1) * d,
            s == w0 * d,
    ;
    assert(z == t * v1) by (nonlinear_arith)
        requires
            z == (n * v1) * c,
            c == unit * w1,
            t == (n * unit) * w1,
    ;
    let hh = h * h;
    let up = (h + 1) * (h + 1);
    let down = (h - 1) * (h - 1);
    assert(hh * s <= up * t) by (nonlinear_arith)
        requires
            hh * (s * v1) <= up * (t * v1),
            v1 >= 1,
    ;
    assert(hh * s >= down * t) by (nonlinear_arith)
        requires
            hh * (s * v1) >= down * (t * v1),
            v1 >= 1,
    ;
}

proof fn lemma_scaled(h: int, x: nat, y: nat, c: int)
    requires
        h > 1,
        c >= 0,
        h * x <= (h + 1) * y,
        h * x >= (h - 1) * y,
    ensures
        h * (x * c) <= (h + 1) * (y * c),
        h * (x * c) >= (h - 1) * (y * c),
{
    assert(h * (x * c) <= (h + 1) * (y * c)) by (nonlinear_arith)
        requires
            h * x <= (h + 1) * y,
            c >= 0,
    ;
    assert(h * (x * c) >= (h - 1) * (y * c)) by (nonlinear_arith)
        requires
            h * x >= (h - 1) * y,
            c >= 0,
    ;
}

proof fn lemma_floor(hh: nat, up: nat, down: nat, w0: nat, w1: nat, r: nat, d: nat, e: nat)
    requires
        w1 >= 1,
        r * w1 <= w0,
        w0 < (r + 1) * w1,
        hh * (w0 * d) <= up * (e * w1),
        hh * (w0 * d) >= down * (e * w1),
    ensures
        hh * (r * d) <= up * e,
        hh * ((r + 1) * d) >= down * e,
{
    let a = hh * d;
    let b = up * e;
    let c = down * e;
    assert(a * w0 <= b * w1 && a * w0 >= c * w1) by (nonlinear_arith)
        requires
            hh * (w0 * d) <= up * (e * w1),
            hh * (w0 * d) >= down * (e * w1),
            a == hh * d,
            b == up * e,
            c == down * e,
    ;
    assert(a * (r * w1) <= a * w0) by (nonlinear_arith)
        requires
            r * w1 <= w0,
    ;
    assert(a * ((r + 1) * w1) >= a * w0) by (nonlinear_arith)
        requires
            w0 < (r + 1) * w1,
    ;
    assert(a * r <= b) by (nonlinear_arith)
        requires
            a * (r * w1) <= b * w1,
            w1 >= 1,
    ;
    assert(a * (r + 1) >= c) by (nonlinear_arith)
        requires
            a * ((r + 1) * w1) >= c * w1,
            w1 >= 1,
    ;
    assert(hh * (r * d) == a * r && hh * ((r + 1) * d) == a * (r + 1)) by (nonlinear_arith)
        requires
            a == hh * d,
    ;
}

/// A number with a fraction reads as that many seconds, minutes or hours: off by
/// less than a nanosecond, and by what two roundings to 53 bits leave.
pub proof fn fractions_read_closely(whole: Seq<char>, fraction: Seq<char>, unit: Seq<char>)
    requires
        unit == "s"@ || unit == "m"@ || unit == "h"@,
        whole.len() + fraction.len() > 0,
        all_digits(whole, 10),
        all_digits(fraction, 10),
        radix_value(whole + fraction, 10) > 0,
        radix_value(whole + fraction, 10) * unit_nanos(unit).unwrap() < 0x8000_0000_0000_0000
            * ten_to(fraction.len()),
    ensures
        ({
            let exact = radix_value(whole + fraction, 10) * unit_nanos(unit).unwrap();
            let scale = ten_to(fraction.len());
            duration_of(whole + "."@ + fraction + unit) matches Ok(nanos) && (high() * high()) * (
            nanos * scale) <= ((high() + 1) * (high() + 1)) * exact && (high() * high()) * ((nanos
                + 1) * scale) >= ((high() - 1) * (high() - 1)) * exact
        }),
{
    reveal_strlit(".");
    lemma_units();
    let number = whole + "."@ + fraction;
    let text = number + unit;
    assert forall|k: int| 0 <= k < number.len() implies is_number_char(#[trigger] number[k]) by {
        if k < whole.len() {
            assert(number[k] == whole[k]);
            assert(digit_value(whole[k], 10) is Some);
        } else if k > whole.len() {
            assert(number[k] == fraction[k - whole.len() - 1]);
            assert(digit_value(fraction[k - whole.len() - 1], 10) is Some);
        }
    }
    assert(!is_number_char(unit[0]));
    lemma_number_end_at(number, unit, 0);
    assert(text.take(number.len() as int) =~= number);
    assert(text.skip(number.len() as int) =~= unit);
    lemma_find_from(number, '.', 0);
    let k = find(number, '.')->Some_0;
    assert(number[whole.len() as int] == '.');
    if k < whole.len() {
        assert(number[k] == whole[k]);
        assert(digit_value(whole[k], 10) is Some);
    }
    assert(k == whole.len());
    assert(number.take(k) =~= whole);
    assert(number.skip(k + 1) =~= fraction);
    lemma_find_from(fraction, '.', 0);
    if let Some(j) = find(fraction, '.') {
        assert(digit_value(fraction[j], 10) is Some);
    }
    lemma_ten_to_positive(fraction.len());
    lemma_nanos_close(
        radix_value(whole + fraction, 10),
        ten_to(fraction.len()),
        unit_nanos(unit).unwrap(),
    );
}

/// A number has one point at most, and a digit at least; a duration has a number
/// and a unit.
pub proof fn other_numbers_are_refused(
    a: Seq<char>,
    b: Seq<char>,
    c: Seq<char>,
    unit: Seq<char>,
)
    requires
        all_digits(a, 10) && all_digits(b, 10) && all_digits(c, 10),
        unit.len() > 0,
        !is_number_char(unit[0]),
    ensures
        duration_of(a + "."@ + b + "."@ + c + unit) is Err,
        duration_of("."@ + unit) is Err,
        duration_of(unit) is Err,
        duration_of(a) is Err,
{
    reveal_strlit(".");
    let none = Seq::<char>::empty();
    let number = a + "."@ + b + "."@ + c;
    assert forall|k: int| 0 <= k < number.len() implies is_number_char(#[trigger] number[k]) by {
        let x = a.len() as int;
        let y = x + 1 + b.len();
        if k < x {
            assert(number[k] == a[k]);
            assert(digit_value(a[k], 10) is Some);
        } else if x < k < y {
            assert(number[k] == b[k - x - 1]);
            assert(digit_value(b[k - x - 1], 10) is Some);
        } else if k > y {
            assert(number[k] == c[k - y - 1]);
            assert(digit_value(c[k - y - 1], 10) is Some);
        }
    }
    lemma_number_end_at(number, unit, 0);
    let text = number + unit;
    assert(text.take(number.len() as int) =~= number);
    lemma_find_from(number, '.', 0);
    assert(number[a.len() as int] == '.');
    let k = find(number, '.')->Some_0;
    let second = number.skip(k + 1);
    lemma_find_from(second, '.', 0);
    let at = a.len() + 1 + b.len();
    assert(number[at as int] == '.');
    assert(k <= a.len());
    assert(second[at - k - 1] == '.');
    assert(find(second, '.') is Some);
    assert forall|i: int| 0 <= i < "."@.len() implies is_number_char(#[trigger] "."@[i]) by {}
    lemma_number_end_at("."@, unit, 0);
    assert(("."@ + unit).take(1) =~= "."@);
    lemma_find_from("."@, '.', 0);
    assert("."@[0] == '.');
    assert("."@.take(0).len() == 0 && "."@.skip(1).len() == 0);
    lemma_number_end_at(none, unit, 0);
    assert(none + unit =~= unit);
    assert forall|i: int| 0 <= i < a.len() implies is_number_char(#[trigger] a[i]) by {
        assert(digit_value(a[i], 10) is Some);
    }
    lemma_number_end_at(a, none, 0);
    assert(a + none =~= a);
    assert(a.skip(a.len() as int).len() == 0);
}

} // verus!
