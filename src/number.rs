use vstd::arithmetic::div_mod::{lemma_fundamental_div_mod, lemma_fundamental_div_mod_converse};
use vstd::prelude::*;

verus! {

pub open spec fn is_digit(c: char) -> bool {
    '0' <= c && c <= '9'
}

pub open spec fn digit_value(c: char) -> int {
    (c as u32) as int - ('0' as u32) as int
}

/// The number that a run of decimal digits writes.
pub open spec fn digits_value(s: Seq<char>) -> int
    decreases s.len(),
{
    if s.len() == 0 {
        0
    } else {
        10 * digits_value(s.drop_last()) + digit_value(s.last())
    }
}

pub open spec fn all_digits(s: Seq<char>) -> bool {
    forall|i: int| 0 <= i < s.len() ==> is_digit(#[trigger] s[i])
}

/// The integer that `s` writes: an optional sign, then one or more decimal digits.
pub open spec fn integer_value(s: Seq<char>) -> Option<int> {
    if s.len() > 0 && (s[0] == '-' || s[0] == '+') {
        let rest = s.drop_first();
        if rest.len() > 0 && all_digits(rest) {
            Some(
                if s[0] == '-' {
                    -digits_value(rest)
                } else {
                    digits_value(rest)
                },
            )
        } else {
            None
        }
    } else if s.len() > 0 && all_digits(s) {
        Some(digits_value(s))
    } else {
        None
    }
}

/// The 32-bit integer that `s` writes, if it writes one in range.
pub open spec fn integer_of(s: Seq<char>) -> Option<i32> {
    match integer_value(s) {
        Some(v) => if i32::MIN <= v <= i32::MAX {
            Some(v as i32)
        } else {
            None
        },
        None => None,
    }
}

proof fn lemma_digits_grow(s: Seq<char>, a: int, i: int, j: int)
    requires
        0 <= a <= i <= j <= s.len(),
        forall|k: int| a <= k < j ==> is_digit(#[trigger] s[k]),
    ensures
        digits_value(s.subrange(a, j)) >= digits_value(s.subrange(a, i)) >= 0,
    decreases j - a,
{
    if j > a {
        assert(s.subrange(a, j).drop_last() =~= s.subrange(a, j - 1));
        if j > i {
            lemma_digits_grow(s, a, i, j - 1);
        } else {
            lemma_digits_grow(s, a, i - 1, j - 1);
        }
    }
}

/// Reads a decimal integer with an optional sign.
pub(crate) fn parse_i32(s: &Vec<char>) -> (r: Option<i32>)
    ensures
        r == integer_of(s@),
{
    let n = s.len();
    if n == 0 {
        return None;
    }
    let signed = s[0] == '-' || s[0] == '+';
    let start: usize = if signed {
        1
    } else {
        0
    };
    let ghost digits = s@.subrange(start as int, n as int);
    assert(signed ==> digits =~= s@.drop_first());
    assert(!signed ==> digits =~= s@);
    if start == n {
        return None;
    }
    let mut acc: u64 = 0;
    let mut i: usize = start;
    while i < n
        invariant
            n == s@.len(),
            start <= i <= n,
            digits == s@.subrange(start as int, n as int),
            n > 0,
            signed == (s@[0] == '-' || s@[0] == '+'),
            signed ==> digits == s@.drop_first(),
            !signed ==> digits == s@,
            forall|k: int| start <= k < i ==> is_digit(#[trigger] s@[k]),
            acc == digits_value(s@.subrange(start as int, i as int)),
            acc <= 2147483648,
        decreases n - i,
    {
        let c = s[i];
        if !('0' <= c && c <= '9') {
            assert(!is_digit(digits[i - start]));
            assert(!all_digits(digits));
            return None;
        }
        assert(s@.subrange(start as int, i + 1).drop_last() =~= s@.subrange(start as int, i as int));
        let d = (c as u32 - '0' as u32) as u64;
        let next = acc * 10 + d;
        if next > 2147483648 {
            proof {
                if all_digits(digits) {
                    assert forall|k: int| start <= k < n implies is_digit(#[trigger] s@[k]) by {
                        assert(s@[k] == digits[k - start]);
                    }
                    lemma_digits_grow(s@, start as int, i + 1, n as int);
                    assert(digits_value(s@.subrange(start as int, i + 1)) == next);
                    assert(digits_value(digits) > 2147483648);
                }
            }
            return None;
        }
        acc = next;
        i = i + 1;
    }
    assert(all_digits(digits)) by {
        assert forall|k: int| 0 <= k < digits.len() implies is_digit(#[trigger] digits[k]) by {
            assert(digits[k] == s@[k + start]);
        }
    }
    if s[0] == '-' {
        Some((0 - (acc as i64)) as i32)
    } else if acc <= 2147483647 {
        Some(acc as i32)
    } else {
        None
    }
}

pub open spec fn digit_char(d: int) -> char {
    if d == 0 {
        '0'
    } else if d == 1 {
        '1'
    } else if d == 2 {
        '2'
    } else if d == 3 {
        '3'
    } else if d == 4 {
        '4'
    } else if d == 5 {
        '5'
    } else if d == 6 {
        '6'
    } else if d == 7 {
        '7'
    } else if d == 8 {
        '8'
    } else {
        '9'
    }
}

/// The decimal digits of `n`, without leading zeros.
pub open spec fn decimal_text(n: nat) -> Seq<char>
    decreases n,
{
    if n < 10 {
        seq![digit_char(n as int)]
    } else {
        decimal_text(n / 10).push(digit_char((n % 10) as int))
    }
}

/// The last `k` decimal digits of `f`, with leading zeros.
pub open spec fn padded_digits(f: nat, k: nat) -> Seq<char>
    decreases k,
{
    if k == 0 {
        Seq::empty()
    } else {
        padded_digits(f / 10, (k - 1) as nat).push(digit_char((f % 10) as int))
    }
}

pub open spec fn strip_zeros(s: Seq<char>) -> Seq<char>
    decreases s.len(),
{
    if s.len() > 0 && s.last() == '0' {
        strip_zeros(s.drop_last())
    } else {
        s
    }
}

/// Digits kept after the decimal point. Every quotient whose divisor is
/// below 4000 and whose decimal expansion ends, ends within this many digits.
pub const FRACTION_DIGITS: u32 = 12;

/// Ten to the power `FRACTION_DIGITS`.
pub const SCALE: u128 = 1_000_000_000_000;

/// The digits after the decimal point of a scaled fraction `f`, with the
/// point, or nothing when `f` is zero.
pub open spec fn fraction_text(f: nat) -> Seq<char> {
    if f == 0 {
        Seq::empty()
    } else {
        seq!['.'] + strip_zeros(padded_digits(f, FRACTION_DIGITS as nat))
    }
}

pub open spec fn abs(x: int) -> nat {
    if x < 0 {
        (-x) as nat
    } else {
        x as nat
    }
}

/// `num / den` written in decimal, cut after `FRACTION_DIGITS` digits
/// after the point, without trailing zeros.
pub open spec fn quotient_text(num: int, den: int) -> Seq<char> {
    let scaled = (abs(num) * SCALE) / den;
    (if num < 0 {
        seq!['-']
    } else {
        Seq::empty()
    }) + decimal_text((scaled / SCALE as int) as nat) + fraction_text((scaled % SCALE as int) as nat)
}

fn digit_to_char(d: u64) -> (c: char)
    requires
        d < 10,
    ensures
        c == digit_char(d as int),
{
    if d == 0 {
        '0'
    } else if d == 1 {
        '1'
    } else if d == 2 {
        '2'
    } else if d == 3 {
        '3'
    } else if d == 4 {
        '4'
    } else if d == 5 {
        '5'
    } else if d == 6 {
        '6'
    } else if d == 7 {
        '7'
    } else if d == 8 {
        '8'
    } else {
        '9'
    }
}

fn push_decimal(v: &mut Vec<char>, n: u64)
    ensures
        final(v)@ == old(v)@ + decimal_text(n as nat),
    decreases n,
{
    if n >= 10 {
        push_decimal(v, n / 10);
    }
    let ghost before = v@;
    v.push(digit_to_char(n % 10));
    assert(v@ =~= old(v)@ + decimal_text(n as nat)) by {
        if n >= 10 {
            assert(before =~= old(v)@ + decimal_text((n / 10) as nat));
        }
    }
}

fn push_padded(v: &mut Vec<char>, f: u64, k: u32)
    ensures
        final(v)@ == old(v)@ + padded_digits(f as nat, k as nat),
    decreases k,
{
    if k > 0 {
        push_padded(v, f / 10, k - 1);
        let ghost before = v@;
        v.push(digit_to_char(f % 10));
        assert(v@ =~= old(v)@ + padded_digits(f as nat, k as nat)) by {
            assert(before =~= old(v)@ + padded_digits((f / 10) as nat, (k - 1) as nat));
        }
    } else {
        assert(v@ =~= old(v)@ + padded_digits(f as nat, k as nat));
    }
}

/// Writes `num / den` in decimal.
pub(crate) fn quotient_to_text(num: i64, den: u64) -> (r: Vec<char>)
    requires
        den >= 1,
        abs(num as int) <= 0x1000_0000_0000,
    ensures
        r@ == quotient_text(num as int, den as int),
{
    let magnitude: u128 = if num < 0 {
        (0 - (num as i128)) as u128
    } else {
        num as u128
    };
    assert(magnitude * SCALE <= 0x1000_0000_0000 * SCALE) by (nonlinear_arith)
        requires
            magnitude <= 0x1000_0000_0000,
    {
    }
    let scaled: u128 = magnitude * SCALE / (den as u128);
    assert(scaled <= magnitude * SCALE) by (nonlinear_arith)
        requires
            den >= 1,
            scaled as int == (magnitude * SCALE) as int / den as int,
    {
    }
    let whole = (scaled / SCALE) as u64;
    let fraction = (scaled % SCALE) as u64;
    let mut r: Vec<char> = Vec::new();
    if num < 0 {
        r.push('-');
    }
    push_decimal(&mut r, whole);
    if fraction > 0 {
        r.push('.');
        let mut digits: Vec<char> = Vec::new();
        push_padded(&mut digits, fraction, FRACTION_DIGITS);
        assert(digits@ =~= Seq::empty() + padded_digits(fraction as nat, FRACTION_DIGITS as nat));
        while digits.len() > 0 && digits[digits.len() - 1] == '0'
            invariant
                strip_zeros(digits@) == strip_zeros(
                    padded_digits(fraction as nat, FRACTION_DIGITS as nat),
                ),
            decreases digits@.len(),
        {
            let ghost before = digits@;
            digits.pop();
            assert(digits@ =~= before.drop_last());
        }
        let mut i: usize = 0;
        let ghost head = r@;
        while i < digits.len()
            invariant
                i <= digits@.len(),
                r@ == head + digits@.subrange(0, i as int),
            decreases digits@.len() - i,
        {
            r.push(digits[i]);
            i = i + 1;
            assert(r@ =~= head + digits@.subrange(0, i as int));
        }
        assert(digits@.subrange(0, digits@.len() as int) =~= digits@);
    }
    assert(r@ =~= quotient_text(num as int, den as int));
    r
}

proof fn lemma_div_cross(x1: int, d1: int, x2: int, d2: int)
    requires
        x1 >= 0,
        x2 >= 0,
        d1 > 0,
        d2 > 0,
        x1 * d2 == x2 * d1,
    ensures
        x1 / d1 == x2 / d2,
{
    let q = x1 / d1;
    let r = x1 % d1;
    lemma_fundamental_div_mod(x1, d1);
    assert(0 <= r < d1);
    let e = x2 - q * d2;
    assert(e * d1 == r * d2) by (nonlinear_arith)
        requires
            x1 == d1 * q + r,
            x1 * d2 == x2 * d1,
            e == x2 - q * d2,
    {
    }
    assert(0 <= e < d2) by (nonlinear_arith)
        requires
            e * d1 == r * d2,
            0 <= r < d1,
            d1 > 0,
            d2 > 0,
    {
    }
    lemma_fundamental_div_mod_converse(x2, d2, q, e);
}

/// Equal quotients are written alike, whatever numerator and divisor
/// express them.
pub proof fn lemma_quotient_text_equal(n1: int, d1: int, n2: int, d2: int)
    requires
        d1 > 0,
        d2 > 0,
        n1 * d2 == n2 * d1,
    ensures
        quotient_text(n1, d1) == quotient_text(n2, d2),
{
    assert((n1 < 0) == (n2 < 0)) by (nonlinear_arith)
        requires
            d1 > 0,
            d2 > 0,
            n1 * d2 == n2 * d1,
    {
    }
    let a1 = abs(n1) as int;
    let a2 = abs(n2) as int;
    assert(a1 * d2 == a2 * d1) by (nonlinear_arith)
        requires
            n1 * d2 == n2 * d1,
            a1 == (if n1 < 0 { -n1 } else { n1 }),
            a2 == (if n2 < 0 { -n2 } else { n2 }),
            (n1 < 0) == (n2 < 0),
    {
    }
    let s = SCALE as int;
    assert((a1 * s) * d2 == (a2 * s) * d1) by (nonlinear_arith)
        requires
            a1 * d2 == a2 * d1,
    {
    }
    assert(a1 * s >= 0 && a2 * s >= 0) by (nonlinear_arith)
        requires
            a1 >= 0,
            a2 >= 0,
            s > 0,
    {
    }
    lemma_div_cross(a1 * s, d1, a2 * s, d2);
}

} // verus!
