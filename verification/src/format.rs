//! Numbers as short text.
//!
//! A large number is written in thousands, millions or milliards with one decimal. It is divided
//! as a double-precision number is: the number and the quotient are rounded to 53 binary digits,
//! and the quotient then to tenths, each time to the nearest, and to the even one of two that are
//! equally near.

use vstd::arithmetic::power2;
use vstd::prelude::*;

use crate::text;

verus! {

/// `a / b`, rounded to the nearest number, or to the even one of two that are equally near.
pub open spec fn half_even(a: nat, b: nat) -> nat {
    let q = a / b;
    let r = a % b;
    if 2 * r < b || (2 * r == b && q % 2 == 0) {
        q
    } else {
        q + 1
    }
}

/// The fewest binary digits, from `s` on, that `n` has beyond 53.
pub open spec fn excess_bits(n: nat, s: nat) -> nat
    decreases n - s,
{
    if s >= n || n < power2::pow2(53) * power2::pow2(s) {
        s
    } else {
        excess_bits(n, s + 1)
    }
}

/// `n`, rounded to 53 binary digits.
pub open spec fn rounded(n: nat) -> nat {
    let p = power2::pow2(excess_bits(n, 0));
    half_even(n, p) * p
}

/// The fewest fractional digits, from `e` on, with which `a / b` has 53 binary digits.
pub open spec fn fraction_bits(a: nat, b: nat, e: nat) -> nat
    decreases 52 - e,
{
    if e >= 52 || a * power2::pow2(e) >= power2::pow2(52) * b {
        e
    } else {
        fraction_bits(a, b, e + 1)
    }
}

/// `n / unit` in tenths: the quotient is rounded to 53 binary digits and then to tenths.
pub open spec fn tenths(n: nat, unit: nat) -> nat {
    let a = rounded(n);
    let p = power2::pow2(fraction_bits(a, unit, 0));
    half_even(half_even(a * p, unit) * 10, p)
}

/// The decimal digit of a number below ten.
pub open spec fn digit(d: nat) -> char {
    (48 + d) as u8 as char
}

/// The decimal digits of a number.
pub open spec fn decimal(n: nat) -> Seq<char>
    decreases n,
{
    if n < 10 {
        seq![digit(n)]
    } else {
        decimal(n / 10).push(digit(n % 10))
    }
}

/// A number of tenths with one decimal, and a letter behind it.
pub open spec fn with_unit(t: nat, letter: char) -> Seq<char> {
    decimal(t / 10).push('.').push(digit(t % 10)).push(letter)
}

/// How a number is written: as it is below a thousand, and else in thousands (`K`), millions
/// (`M`) or milliards (`G`).
pub open spec fn formatted(n: nat) -> Seq<char> {
    if n >= 1_000_000_000 {
        with_unit(tenths(n, 1_000_000_000), 'G')
    } else if n >= 1_000_000 {
        with_unit(tenths(n, 1_000_000), 'M')
    } else if n >= 1_000 {
        with_unit(tenths(n, 1_000), 'K')
    } else {
        decimal(n)
    }
}

fn divide(a: u128, b: u128) -> (r: u128)
    requires
        b > 0,
    ensures
        r == half_even(a as nat, b as nat),
{
    let q: u128 = a / b;
    let r: u128 = a % b;
    if r < b - r || (r == b - r && q % 2 == 0) {
        q
    } else {
        assert(q < u128::MAX) by (nonlinear_arith)
            requires
                q == a / b,
                b >= 2,
                a <= u128::MAX,
        ;
        q + 1
    }
}

/// Rounds a number to 53 binary digits.
fn round(n: usize) -> (r: u128)
    ensures
        r == rounded(n as nat),
        r <= 0x1_0000_0000_0000_0000,
        r >= n || r >= 0x20_0000_0000_0000,
{
    let wide: u128 = n as u128;
    let mut p: u128 = 1;
    let ghost mut s: nat = 0;
    proof {
        power2::lemma2_to64();
        power2::lemma2_to64_rest();
    }
    while wide >= 0x20_0000_0000_0000 * p
        invariant
            wide == n,
            p == power2::pow2(s),
            power2::pow2(53) == 0x20_0000_0000_0000,
            power2::pow2(0) == 1,
            s <= 11,
            p <= 2048,
            s > 0 ==> wide >= 0x10_0000_0000_0000 * p,
            excess_bits(n as nat, 0) == excess_bits(n as nat, s),
        decreases 12 - s,
    {
        proof {
            power2::lemma_pow2_unfold(s + 1);
            power2::lemma2_to64();
            if s >= 11 {
                power2::lemma_pow2_strictly_increases(10, s);
            }
        }
        assert(p < 2048);
        p = p * 2;
        proof {
            s = s + 1;
            if s > 11 {
                power2::lemma_pow2_strictly_increases(11, s);
            }
        }
    }
    let q: u128 = divide(wide, p);
    proof {
        power2::lemma_pow2_pos(s);
        assert(q * p <= 0x1_0000_0000_0000_0000) by {
            lemma_half_even_bound(wide as nat, p as nat, 0x20_0000_0000_0000);
            assert(q * p <= 0x20_0000_0000_0000 * p) by (nonlinear_arith)
                requires
                    q <= 0x20_0000_0000_0000,
                    p > 0,
            ;
        }
        if s == 0 {
            assert(q == wide);
        } else {
            assert(wide / p >= 0x10_0000_0000_0000) by (nonlinear_arith)
                requires
                    wide >= 0x10_0000_0000_0000 * p,
                    p > 0,
            ;
            assert(q * p >= 0x20_0000_0000_0000) by (nonlinear_arith)
                requires
                    q >= 0x10_0000_0000_0000,
                    p >= 2,
            ;
        }
    }
    q * p
}

/// What rounds to a number does not exceed a bound that the quotient does not reach.
proof fn lemma_half_even_bound(a: nat, b: nat, bound: nat)
    requires
        b > 0,
        a < bound * b,
    ensures
        half_even(a, b) <= bound,
{
    assert(a / b < bound) by (nonlinear_arith)
        requires
            b > 0,
            a < bound * b,
    ;
}

/// Divides a number that is at least the unit, in tenths.
fn divide_in_tenths(n: usize, unit: u128) -> (t: u128)
    requires
        0 < unit <= 1_000_000_000,
        n >= unit,
    ensures
        t == tenths(n as nat, unit as nat),
{
    let a: u128 = round(n);
    let mut p: u128 = 1;
    let ghost mut e: nat = 0;
    proof {
        power2::lemma2_to64();
        power2::lemma2_to64_rest();
    }
    let least: u128 = 0x10_0000_0000_0000 * unit;
    let mut scaled: u128 = a;
    assert(a * 1 == a);
    while scaled < least
        invariant
            e <= 52,
            p == power2::pow2(e),
            p <= 0x10_0000_0000_0000,
            scaled == a * p,
            scaled <= 0x1_0000_0000_0000_0000_0000_0000,
            least == 0x10_0000_0000_0000 * unit,
            power2::pow2(52) == 0x10_0000_0000_0000,
            0 < unit <= 1_000_000_000,
            a >= unit,
            fraction_bits(a as nat, unit as nat, 0) == fraction_bits(a as nat, unit as nat, e),
        decreases 52 - e,
    {
        proof {
            if e == 52 {
                assert(a * p >= 0x10_0000_0000_0000 * unit) by (nonlinear_arith)
                    requires
                        p == 0x10_0000_0000_0000,
                        a >= unit,
                ;
            }
            power2::lemma_pow2_unfold(e + 1);
            if e < 51 {
                power2::lemma_pow2_strictly_increases(e + 1, 52);
            }
            assert(a * (2 * p) == 2 * (a * p)) by (nonlinear_arith);
        }
        p = p * 2;
        scaled = scaled * 2;
        proof {
            e = e + 1;
        }
    }
    proof {
        power2::lemma_pow2_pos(e);
        lemma_half_even_at_most(scaled as nat, unit as nat);
    }
    let m: u128 = divide(scaled, unit);
    divide(m * 10, p)
}

/// A quotient, rounded, exceeds what is divided by no more than one.
proof fn lemma_half_even_at_most(a: nat, b: nat)
    requires
        b > 0,
    ensures
        half_even(a, b) <= a + 1,
{
    assert(a / b <= a) by (nonlinear_arith)
        requires
            b > 0,
    ;
}

fn to_digit(d: u128) -> (c: char)
    requires
        d < 10,
    ensures
        c == digit(d as nat),
{
    (48 + d) as u8 as char
}

/// The decimal digits of a number.
fn digits(n: u128) -> (chars: Vec<char>)
    ensures
        chars@ == decimal(n as nat),
    decreases n,
{
    if n < 10 {
        let mut chars: Vec<char> = Vec::new();
        chars.push(to_digit(n));
        assert(chars@ =~= decimal(n as nat));
        chars
    } else {
        let mut chars = digits(n / 10);
        chars.push(to_digit(n % 10));
        chars
    }
}

fn write_tenths(t: u128, letter: char) -> (s: String)
    ensures
        s@ == with_unit(t as nat, letter),
{
    let mut chars = digits(t / 10);
    chars.push('.');
    chars.push(to_digit(t % 10));
    chars.push(letter);
    text::from_chars(&chars)
}

/// Writes a number as short text.
pub fn format_number(n: usize) -> (s: String)
    ensures
        s@ == formatted(n as nat),
{
    if n >= 1_000_000_000 {
        write_tenths(divide_in_tenths(n, 1_000_000_000), 'G')
    } else if n >= 1_000_000 {
        write_tenths(divide_in_tenths(n, 1_000_000), 'M')
    } else if n >= 1_000 {
        write_tenths(divide_in_tenths(n, 1_000), 'K')
    } else {
        text::from_chars(&digits(n as u128))
    }
}

/// The rounded quotient is the nearest number, and an even one if two are equally near.
pub proof fn lemma_half_even(a: nat, b: nat)
    requires
        b > 0,
    ensures
        2 * a <= (2 * half_even(a, b) + 1) * b,
        (2 * half_even(a, b) - 1) * b <= 2 * a,
        2 * a == (2 * half_even(a, b) + 1) * b ==> half_even(a, b) % 2 == 0,
        2 * a == (2 * half_even(a, b) - 1) * b ==> half_even(a, b) % 2 == 0,
{
    let q = a / b;
    let r = a % b;
    vstd::arithmetic::div_mod::lemma_fundamental_div_mod(a as int, b as int);
    vstd::arithmetic::div_mod::lemma_mod_bound(a as int, b as int);
    assert(a == b * q + r && 0 <= r < b);
    assert((2 * q + 1) * b == 2 * (b * q) + b) by (nonlinear_arith);
    assert((2 * q - 1) * b == 2 * (b * q) - b) by (nonlinear_arith);
    assert((2 * (q + 1) + 1) * b == 2 * (b * q) + 3 * b) by (nonlinear_arith);
    assert((2 * (q + 1) - 1) * b == 2 * (b * q) + b) by (nonlinear_arith);
}

/// A number is rounded at the binary digit that leaves it 53 of them, and not at all if it has no
/// more.
pub proof fn lemma_rounded(n: nat, s: nat)
    requires
        n < power2::pow2(53) * power2::pow2(s),
        s > 0 ==> n >= power2::pow2(52) * power2::pow2(s),
    ensures
        rounded(n) == half_even(n, power2::pow2(s)) * power2::pow2(s),
        s == 0 ==> rounded(n) == n,
{
    lemma_excess(n, s, 0);
    power2::lemma2_to64();
    if s == 0 {
        assert(n / 1 == n && n % 1 == 0);
        assert(half_even(n, 1) * 1 == n);
    }
}

proof fn lemma_excess(n: nat, s: nat, from: nat)
    requires
        from <= s,
        n < power2::pow2(53) * power2::pow2(s),
        s > 0 ==> n >= power2::pow2(52) * power2::pow2(s),
    ensures
        excess_bits(n, from) == s,
    decreases s - from,
{
    if from < s {
        let before = (s - 1) as nat;
        power2::lemma_pow2_unfold(53);
        power2::lemma_pow2_unfold(s);
        let h = power2::pow2(52);
        let p = power2::pow2(before);
        assert(h * (2 * p) == (2 * h) * p) by (nonlinear_arith);
        if from < before {
            power2::lemma_pow2_strictly_increases(from, before);
        }
        let q = power2::pow2(from);
        assert((2 * h) * q <= (2 * h) * p) by (nonlinear_arith)
            requires
                q <= p,
                h >= 0,
        ;
        lemma_more_than_exponent(from);
        power2::lemma_pow2_pos(52);
        assert(q <= (2 * h) * q) by (nonlinear_arith)
            requires
                h > 0,
                q >= 0,
        ;
        lemma_excess(n, s, from + 1);
    }
}

proof fn lemma_more_than_exponent(e: nat)
    ensures
        e < power2::pow2(e),
    decreases e,
{
    if e == 0 {
        power2::lemma2_to64();
    } else {
        lemma_more_than_exponent((e - 1) as nat);
        power2::lemma_pow2_unfold(e);
    }
}

/// The tenths are those of the quotient with 53 binary digits: with as many of them behind the point
/// as there must be, it is rounded, and then rounded to tenths.
pub proof fn lemma_tenths(n: nat, unit: nat, e: nat)
    requires
        unit > 0,
        e <= 52,
        power2::pow2(52) * unit <= rounded(n) * power2::pow2(e) < power2::pow2(53) * unit,
    ensures
        tenths(n, unit) == half_even(
            half_even(rounded(n) * power2::pow2(e), unit) * 10,
            power2::pow2(e),
        ),
{
    lemma_fraction(rounded(n), unit, e, 0);
}

proof fn lemma_fraction(a: nat, unit: nat, e: nat, from: nat)
    requires
        from <= e <= 52,
        power2::pow2(52) * unit <= a * power2::pow2(e) < power2::pow2(53) * unit,
    ensures
        fraction_bits(a, unit, from) == e,
    decreases e - from,
{
    if from < e {
        let before = (e - 1) as nat;
        power2::lemma_pow2_unfold(53);
        power2::lemma_pow2_unfold(e);
        let h = power2::pow2(52);
        let p = power2::pow2(before);
        assert(a * (2 * p) == 2 * (a * p)) by (nonlinear_arith);
        assert((2 * h) * unit == 2 * (h * unit)) by (nonlinear_arith);
        if from < before {
            power2::lemma_pow2_strictly_increases(from, before);
        }
        let q = power2::pow2(from);
        assert(a * q <= a * p) by (nonlinear_arith)
            requires
                q <= p,
                a >= 0,
        ;
        lemma_fraction(a, unit, e, from + 1);
    }
}

/// The number that decimal digits stand for.
pub open spec fn value(s: Seq<char>) -> int
    decreases s.len(),
{
    if s.len() == 0 {
        0
    } else {
        10 * value(s.drop_last()) + (s.last() as int - '0' as int)
    }
}

/// Every character is a decimal digit.
pub open spec fn is_decimal(s: Seq<char>) -> bool {
    forall|i: int| 0 <= i < s.len() ==> '0' <= (#[trigger] s[i]) <= '9'
}

/// The digits of a number stand for it, and there is no zero before them.
pub proof fn lemma_decimal(n: nat)
    ensures
        is_decimal(decimal(n)),
        value(decimal(n)) == n,
        decimal(n).len() > 0,
        n > 0 ==> decimal(n)[0] != '0',
    decreases n,
{
    let all = decimal(n);
    if n < 10 {
        assert(all.drop_last() =~= seq![]);
        assert(value(all.drop_last()) == 0);
        assert(all.last() == all[0]);
    } else {
        lemma_decimal(n / 10);
        assert(all.drop_last() =~= decimal(n / 10));
        assert(all.last() == digit(n % 10));
    }
}

/// A number below a thousand is written with its own digits. A larger one ends in the letter of its
/// unit, which is a thousand, a million or a milliard; before it stand a point and one digit, and the
/// digits before the point and the one behind it are the tenths of the unit.
pub proof fn lemma_formatted(n: nat)
    ensures
        n < 1_000 ==> is_decimal(formatted(n)) && value(formatted(n)) == n,
        n >= 1_000 ==> ({
            let s = formatted(n);
            let end = s.len() - 3;
            let unit = if n < 1_000_000 {
                1_000nat
            } else if n < 1_000_000_000 {
                1_000_000nat
            } else {
                1_000_000_000nat
            };
            &&& end > 0
            &&& is_decimal(s.take(end))
            &&& s[end] == '.'
            &&& '0' <= s[end + 1] <= '9'
            &&& 10 * value(s.take(end)) + (s[end + 1] as int - '0' as int) == tenths(n, unit)
            &&& s[end + 2] == (if n < 1_000_000 {
                'K'
            } else if n < 1_000_000_000 {
                'M'
            } else {
                'G'
            })
        }),
{
    if n < 1_000 {
        lemma_decimal(n);
    } else {
        let unit = if n < 1_000_000 {
            1_000nat
        } else if n < 1_000_000_000 {
            1_000_000nat
        } else {
            1_000_000_000nat
        };
        let t = tenths(n, unit);
        lemma_decimal(t / 10);
        let s = formatted(n);
        assert(s.take(s.len() - 3) =~= decimal(t / 10));
    }
}

} // verus!
