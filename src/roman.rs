use vstd::prelude::*;

use crate::error::{ConversionError, ErrorView};
use crate::text::{chars_of, string_of};

verus! {

/// One of the seven symbols of a Roman numeral.
#[derive(Clone, Copy, Debug, PartialEq, Eq, Structural)]
pub enum RomanNumeral {
    I,
    V,
    X,
    L,
    C,
    D,
    M,
}

impl RomanNumeral {
    /// The number that the symbol stands for.
    pub open spec fn magnitude(self) -> int {
        match self {
            RomanNumeral::I => 1,
            RomanNumeral::V => 5,
            RomanNumeral::X => 10,
            RomanNumeral::L => 50,
            RomanNumeral::C => 100,
            RomanNumeral::D => 500,
            RomanNumeral::M => 1000,
        }
    }

    /// The upper-case letter that writes the symbol.
    pub open spec fn symbol(self) -> char {
        match self {
            RomanNumeral::I => 'I',
            RomanNumeral::V => 'V',
            RomanNumeral::X => 'X',
            RomanNumeral::L => 'L',
            RomanNumeral::C => 'C',
            RomanNumeral::D => 'D',
            RomanNumeral::M => 'M',
        }
    }

    pub fn value(&self) -> (r: i32)
        ensures
            r == self.magnitude(),
    {
        match self {
            RomanNumeral::I => 1,
            RomanNumeral::V => 5,
            RomanNumeral::X => 10,
            RomanNumeral::L => 50,
            RomanNumeral::C => 100,
            RomanNumeral::D => 500,
            RomanNumeral::M => 1000,
        }
    }

    /// Reads one digit letter, in either case.
    pub fn from_char(c: char) -> (r: Result<RomanNumeral, ConversionError>)
        ensures
            r is Ok <==> digit_of(c) is Some,
            r matches Ok(d) ==> digit_of(c) == Some(d),
            r matches Err(e) ==> e matches ConversionError::UnknownDigit(t) && t@ == seq![c],
    {
        if c == 'I' || c == 'i' {
            Ok(RomanNumeral::I)
        } else if c == 'V' || c == 'v' {
            Ok(RomanNumeral::V)
        } else if c == 'X' || c == 'x' {
            Ok(RomanNumeral::X)
        } else if c == 'L' || c == 'l' {
            Ok(RomanNumeral::L)
        } else if c == 'C' || c == 'c' {
            Ok(RomanNumeral::C)
        } else if c == 'D' || c == 'd' {
            Ok(RomanNumeral::D)
        } else if c == 'M' || c == 'm' {
            Ok(RomanNumeral::M)
        } else {
            let mut letters: Vec<char> = Vec::new();
            letters.push(c);
            assert(letters@ =~= seq![c]);
            Err(ConversionError::UnknownDigit(string_of(letters.as_slice())))
        }
    }

    /// The letter of the symbol, as a string.
    pub fn to_string(&self) -> (r: String)
        ensures
            r@ == seq![self.symbol()],
    {
        let mut letters: Vec<char> = Vec::new();
        letters.push(self.to_char());
        assert(letters@ =~= seq![self.symbol()]);
        string_of(letters.as_slice())
    }

    pub fn to_char(&self) -> (c: char)
        ensures
            c == self.symbol(),
    {
        match self {
            RomanNumeral::I => 'I',
            RomanNumeral::V => 'V',
            RomanNumeral::X => 'X',
            RomanNumeral::L => 'L',
            RomanNumeral::C => 'C',
            RomanNumeral::D => 'D',
            RomanNumeral::M => 'M',
        }
    }
}

/// The symbol that an upper-case letter writes, if any.
pub open spec fn symbol_digit(c: char) -> Option<RomanNumeral> {
    if c == 'I' {
        Some(RomanNumeral::I)
    } else if c == 'V' {
        Some(RomanNumeral::V)
    } else if c == 'X' {
        Some(RomanNumeral::X)
    } else if c == 'L' {
        Some(RomanNumeral::L)
    } else if c == 'C' {
        Some(RomanNumeral::C)
    } else if c == 'D' {
        Some(RomanNumeral::D)
    } else if c == 'M' {
        Some(RomanNumeral::M)
    } else {
        None
    }
}

/// The symbol that a letter names, in either case.
pub open spec fn digit_of(c: char) -> Option<RomanNumeral> {
    if c == 'i' {
        Some(RomanNumeral::I)
    } else if c == 'v' {
        Some(RomanNumeral::V)
    } else if c == 'x' {
        Some(RomanNumeral::X)
    } else if c == 'l' {
        Some(RomanNumeral::L)
    } else if c == 'c' {
        Some(RomanNumeral::C)
    } else if c == 'd' {
        Some(RomanNumeral::D)
    } else if c == 'm' {
        Some(RomanNumeral::M)
    } else {
        symbol_digit(c)
    }
}

/// The letters that write a sequence of symbols.
pub open spec fn spelling(ds: Seq<RomanNumeral>) -> Seq<char> {
    ds.map_values(|d: RomanNumeral| d.symbol())
}

/// What the symbol at `i` adds: its magnitude, negated when the next symbol is larger.
pub open spec fn term(ds: Seq<RomanNumeral>, i: int) -> int {
    if i + 1 < ds.len() && ds[i].magnitude() < ds[i + 1].magnitude() {
        -ds[i].magnitude()
    } else {
        ds[i].magnitude()
    }
}

/// The sum of the terms of the first `i` symbols.
pub open spec fn evaluate_prefix(ds: Seq<RomanNumeral>, i: int) -> int
    decreases i,
{
    if i <= 0 {
        0
    } else {
        evaluate_prefix(ds, i - 1) + term(ds, i - 1)
    }
}

/// The value of a sequence of symbols under the subtractive rule.
pub open spec fn evaluate(ds: Seq<RomanNumeral>) -> int {
    evaluate_prefix(ds, ds.len() as int)
}

/// The standard spelling of a decimal digit `k` at one place, given the
/// symbols for one, five and ten units of that place.
pub open spec fn group(
    k: int,
    one: RomanNumeral,
    five: RomanNumeral,
    ten: RomanNumeral,
) -> Seq<RomanNumeral> {
    if k == 1 {
        seq![one]
    } else if k == 2 {
        seq![one, one]
    } else if k == 3 {
        seq![one, one, one]
    } else if k == 4 {
        seq![one, five]
    } else if k == 5 {
        seq![five]
    } else if k == 6 {
        seq![five, one]
    } else if k == 7 {
        seq![five, one, one]
    } else if k == 8 {
        seq![five, one, one, one]
    } else if k == 9 {
        seq![one, ten]
    } else {
        seq![]
    }
}

/// The standard numeral for `n`: thousands, hundreds, tens and units, in
/// that order. This is the language `M{0,3}(CM|CD|D?C{0,3})(XC|XL|L?X{0,3})(IX|IV|V?I{0,3})`
/// for `n` from 1 to 3999.
pub open spec fn standard_form(n: int) -> Seq<RomanNumeral> {
    group(n / 1000, RomanNumeral::M, RomanNumeral::M, RomanNumeral::M) + group(
        (n / 100) % 10,
        RomanNumeral::C,
        RomanNumeral::D,
        RomanNumeral::M,
    ) + group((n / 10) % 10, RomanNumeral::X, RomanNumeral::L, RomanNumeral::C) + group(
        n % 10,
        RomanNumeral::I,
        RomanNumeral::V,
        RomanNumeral::X,
    )
}

/// A sequence of symbols is standard when it is the standard numeral of a
/// number from 1 to 3999.
pub open spec fn is_standard(ds: Seq<RomanNumeral>) -> bool {
    exists|n: int| 1 <= n <= 3999 && ds == standard_form(n)
}

/// A text is a canonical numeral when it spells a standard sequence.
pub open spec fn is_canonical(s: Seq<char>) -> bool {
    exists|n: int| 1 <= n <= 3999 && s == spelling(standard_form(n))
}

proof fn lemma_evaluate_prefix_append(a: Seq<RomanNumeral>, b: Seq<RomanNumeral>, j: int)
    requires
        0 <= j <= b.len(),
    ensures
        evaluate_prefix(a + b, a.len() + j) == evaluate_prefix(a + b, a.len() as int)
            + evaluate_prefix(b, j),
    decreases j,
{
    if j > 0 {
        lemma_evaluate_prefix_append(a, b, j - 1);
        assert(term(a + b, a.len() + j - 1) == term(b, j - 1));
    }
}

proof fn lemma_evaluate_prefix_left(a: Seq<RomanNumeral>, b: Seq<RomanNumeral>, i: int, m: int)
    requires
        0 <= i <= a.len(),
        forall|k: int| 0 <= k < a.len() ==> a[k].magnitude() >= m,
        b.len() > 0 ==> b[0].magnitude() <= m,
    ensures
        evaluate_prefix(a + b, i) == evaluate_prefix(a, i),
    decreases i,
{
    if i > 0 {
        lemma_evaluate_prefix_left(a, b, i - 1, m);
        assert(term(a + b, i - 1) == term(a, i - 1));
    }
}

/// Evaluation splits at a point where no symbol on the left is smaller
/// than the first symbol on the right.
proof fn lemma_evaluate_append(a: Seq<RomanNumeral>, b: Seq<RomanNumeral>, m: int)
    requires
        forall|k: int| 0 <= k < a.len() ==> a[k].magnitude() >= m,
        b.len() > 0 ==> b[0].magnitude() <= m,
    ensures
        evaluate(a + b) == evaluate(a) + evaluate(b),
{
    lemma_evaluate_prefix_left(a, b, a.len() as int, m);
    lemma_evaluate_prefix_append(a, b, b.len() as int);
    assert((a + b).len() == a.len() + b.len());
}

proof fn lemma_group(k: int, one: RomanNumeral, five: RomanNumeral, ten: RomanNumeral)
    requires
        0 <= k <= 9,
        k <= 3 || (five.magnitude() == 5 * one.magnitude() && ten.magnitude() == 10
            * one.magnitude()),
    ensures
        evaluate(group(k, one, five, ten)) == k * one.magnitude(),
        group(k, one, five, ten).len() <= 4,
        forall|i: int|
            0 <= i < group(k, one, five, ten).len() ==> #[trigger] group(
                k,
                one,
                five,
                ten,
            )[i].magnitude() >= one.magnitude(),
        group(k, one, five, ten).len() > 0 ==> group(k, one, five, ten)[0].magnitude()
            <= five.magnitude() || group(k, one, five, ten)[0] == one,
{
    reveal_with_fuel(evaluate_prefix, 5);
    let g = group(k, one, five, ten);
    if k == 0 {
    } else if k == 1 {
        assert(evaluate(g) == one.magnitude());
    } else if k == 2 {
        assert(evaluate(g) == 2 * one.magnitude());
    } else if k == 3 {
        assert(evaluate(g) == 3 * one.magnitude());
    } else if k == 4 {
        assert(evaluate(g) == 4 * one.magnitude());
    } else if k == 5 {
        assert(evaluate(g) == 5 * one.magnitude());
    } else if k == 6 {
        assert(evaluate(g) == 6 * one.magnitude());
    } else if k == 7 {
        assert(evaluate(g) == 7 * one.magnitude());
    } else if k == 8 {
        assert(evaluate(g) == 8 * one.magnitude());
    } else {
        assert(evaluate(g) == 9 * one.magnitude());
    }
}

proof fn lemma_places(a: int, b: int, c: int, d: int)
    requires
        0 <= a <= 3,
        0 <= b <= 9,
        0 <= c <= 9,
        0 <= d <= 9,
    ensures
        evaluate(
            group(a, RomanNumeral::M, RomanNumeral::M, RomanNumeral::M) + group(
                b,
                RomanNumeral::C,
                RomanNumeral::D,
                RomanNumeral::M,
            ) + group(c, RomanNumeral::X, RomanNumeral::L, RomanNumeral::C) + group(
                d,
                RomanNumeral::I,
                RomanNumeral::V,
                RomanNumeral::X,
            ),
        ) == 1000 * a + 100 * b + 10 * c + d,
        (group(a, RomanNumeral::M, RomanNumeral::M, RomanNumeral::M) + group(
            b,
            RomanNumeral::C,
            RomanNumeral::D,
            RomanNumeral::M,
        ) + group(c, RomanNumeral::X, RomanNumeral::L, RomanNumeral::C) + group(
            d,
            RomanNumeral::I,
            RomanNumeral::V,
            RomanNumeral::X,
        )).len() <= 15,
{
    let th = group(a, RomanNumeral::M, RomanNumeral::M, RomanNumeral::M);
    let h = group(b, RomanNumeral::C, RomanNumeral::D, RomanNumeral::M);
    let t = group(c, RomanNumeral::X, RomanNumeral::L, RomanNumeral::C);
    let o = group(d, RomanNumeral::I, RomanNumeral::V, RomanNumeral::X);
    lemma_group(a, RomanNumeral::M, RomanNumeral::M, RomanNumeral::M);
    lemma_group(b, RomanNumeral::C, RomanNumeral::D, RomanNumeral::M);
    lemma_group(c, RomanNumeral::X, RomanNumeral::L, RomanNumeral::C);
    lemma_group(d, RomanNumeral::I, RomanNumeral::V, RomanNumeral::X);
    lemma_evaluate_append(th, h, 1000);
    assert forall|k: int| 0 <= k < (th + h).len() implies (th + h)[k].magnitude() >= 100 by {
        if k >= th.len() {
            assert((th + h)[k] == h[k - th.len()]);
        }
    }
    lemma_evaluate_append(th + h, t, 100);
    assert forall|k: int| 0 <= k < (th + h + t).len() implies (th + h + t)[k].magnitude()
        >= 10 by {
        if k >= (th + h).len() {
            assert((th + h + t)[k] == t[k - (th + h).len()]);
        } else {
            assert((th + h + t)[k] == (th + h)[k]);
        }
    }
    lemma_evaluate_append(th + h + t, o, 10);
}

/// The standard numeral of `n` evaluates back to `n` and is at most fifteen
/// symbols long.
pub proof fn lemma_standard_form(n: int)
    requires
        1 <= n <= 3999,
    ensures
        evaluate(standard_form(n)) == n,
        1 <= standard_form(n).len() <= 15,
{
    let a = n / 1000;
    let b = (n / 100) % 10;
    let c = (n / 10) % 10;
    let d = n % 10;
    assert(0 <= a <= 3 && 0 <= b <= 9 && 0 <= c <= 9 && 0 <= d <= 9) by (nonlinear_arith)
        requires
            1 <= n <= 3999,
            a == n / 1000,
            b == (n / 100) % 10,
            c == (n / 10) % 10,
            d == n % 10,
    {
    }
    assert(n == 1000 * a + 100 * b + 10 * c + d) by (nonlinear_arith)
        requires
            a == n / 1000,
            b == (n / 100) % 10,
            c == (n / 10) % 10,
            d == n % 10,
    {
    }
    lemma_places(a, b, c, d);
    if standard_form(n).len() == 0 {
        assert(evaluate(standard_form(n)) == 0);
    }
}

/// Two sequences with the same spelling are the same sequence.
proof fn lemma_spelling_injective(a: Seq<RomanNumeral>, b: Seq<RomanNumeral>)
    requires
        spelling(a) == spelling(b),
    ensures
        a == b,
{
    assert(a.len() == spelling(a).len());
    assert forall|i: int| 0 <= i < a.len() implies a[i] == b[i] by {
        assert(spelling(a)[i] == a[i].symbol());
        assert(spelling(b)[i] == b[i].symbol());
    }
    assert(a =~= b);
}

/// A canonical Roman numeral: the standard numeral of a number from 1 to 3999.
#[derive(Debug)]
pub struct RomanNumber(Vec<RomanNumeral>);

impl View for RomanNumber {
    type V = Seq<RomanNumeral>;

    closed spec fn view(&self) -> Seq<RomanNumeral> {
        self.0@
    }
}

/// Appends the standard spelling of the digit `k` at one place.
fn push_group(
    v: &mut Vec<RomanNumeral>,
    k: u32,
    one: RomanNumeral,
    five: RomanNumeral,
    ten: RomanNumeral,
)
    requires
        k <= 9,
    ensures
        final(v)@ == old(v)@ + group(k as int, one, five, ten),
{
    let ghost start = v@;
    if k == 9 {
        v.push(one);
        v.push(ten);
    } else if k == 4 {
        v.push(one);
        v.push(five);
    } else {
        let mut ones: u32 = k;
        if k >= 5 {
            v.push(five);
            ones = k - 5;
        }
        let ghost mid = v@;
        let mut i: u32 = 0;
        while i < ones
            invariant
                ones <= 3,
                i <= ones,
                v@ == mid + Seq::new(i as nat, |j: int| one),
            decreases ones - i,
        {
            v.push(one);
            i = i + 1;
            assert(v@ =~= mid + Seq::new(i as nat, |j: int| one));
        }
    }
    assert(v@ =~= start + group(k as int, one, five, ten));
}

/// The standard numeral of `n`.
fn standard_digits(n: u32) -> (r: Vec<RomanNumeral>)
    requires
        1 <= n <= 3999,
    ensures
        r@ == standard_form(n as int),
{
    let mut v: Vec<RomanNumeral> = Vec::new();
    push_group(&mut v, n / 1000, RomanNumeral::M, RomanNumeral::M, RomanNumeral::M);
    push_group(&mut v, (n / 100) % 10, RomanNumeral::C, RomanNumeral::D, RomanNumeral::M);
    push_group(&mut v, (n / 10) % 10, RomanNumeral::X, RomanNumeral::L, RomanNumeral::C);
    push_group(&mut v, n % 10, RomanNumeral::I, RomanNumeral::V, RomanNumeral::X);
    assert(v@ =~= standard_form(n as int));
    v
}

/// Evaluates a short sequence of symbols with the subtractive rule.
fn evaluate_digits(ds: &Vec<RomanNumeral>) -> (r: i32)
    requires
        ds@.len() <= 15,
    ensures
        r == evaluate(ds@),
{
    let mut result: i32 = 0;
    let mut i: usize = 0;
    while i < ds.len()
        invariant
            ds@.len() <= 15,
            i <= ds@.len(),
            result == evaluate_prefix(ds@, i as int),
            -1000 * i <= result <= 1000 * i,
        decreases ds@.len() - i,
    {
        let v = ds[i].value();
        if i + 1 < ds.len() && v < ds[i + 1].value() {
            result = result - v;
        } else {
            result = result + v;
        }
        i = i + 1;
    }
    result
}

fn same_digits(a: &Vec<RomanNumeral>, b: &Vec<RomanNumeral>) -> (r: bool)
    ensures
        r == (a@ == b@),
{
    if a.len() != b.len() {
        return false;
    }
    let mut i: usize = 0;
    while i < a.len()
        invariant
            a@.len() == b@.len(),
            i <= a@.len(),
            forall|j: int| 0 <= j < i ==> a@[j] == b@[j],
        decreases a@.len() - i,
    {
        if a[i] != b[i] {
            return false;
        }
        i = i + 1;
    }
    assert(a@ =~= b@);
    true
}

/// The letters that write a sequence of symbols.
fn spell(ds: &Vec<RomanNumeral>) -> (r: Vec<char>)
    ensures
        r@ == spelling(ds@),
{
    let mut r: Vec<char> = Vec::new();
    let mut i: usize = 0;
    while i < ds.len()
        invariant
            i <= ds@.len(),
            r@ == spelling(ds@.subrange(0, i as int)),
        decreases ds@.len() - i,
    {
        r.push(ds[i].to_char());
        i = i + 1;
        assert(r@ =~= spelling(ds@.subrange(0, i as int)));
    }
    assert(ds@.subrange(0, ds@.len() as int) =~= ds@);
    r
}

impl RomanNumber {
    #[verifier::type_invariant]
    spec fn well_formed(self) -> bool {
        is_standard(self.0@)
    }

    /// Accepts a sequence of symbols exactly when it is a standard numeral.
    pub fn try_from(digits: Vec<RomanNumeral>) -> (r: Result<RomanNumber, ConversionError>)
        ensures
            r is Ok <==> is_standard(digits@),
            r matches Ok(num) ==> num@ == digits@,
            r matches Err(e) ==> e matches ConversionError::InvalidNumeral(t) && t@ == spelling(
                digits@,
            ),
    {
        if digits.len() >= 1 && digits.len() <= 15 {
            let n = evaluate_digits(&digits);
            if 1 <= n && n <= 3999 {
                let standard = standard_digits(n as u32);
                if same_digits(&standard, &digits) {
                    return Ok(RomanNumber(digits));
                }
            }
        }
        proof {
            if is_standard(digits@) {
                let m = choose|m: int| 1 <= m <= 3999 && digits@ == standard_form(m);
                lemma_standard_form(m);
            }
        }
        let letters = spell(&digits);
        Err(ConversionError::InvalidNumeral(string_of(letters.as_slice())))
    }

    /// Parses a canonical numeral written in upper-case letters.
    pub fn parse(s: &str) -> (r: Result<RomanNumber, ConversionError>)
        ensures
            r is Ok <==> is_canonical(s@),
            r matches Ok(num) ==> spelling(num@) == s@,
            r matches Err(e) ==> e matches ConversionError::InvalidNumeral(t) && t@ == s@,
    {
        let letters = chars_of(s);
        let mut digits: Vec<RomanNumeral> = Vec::new();
        let mut i: usize = 0;
        while i < letters.len()
            invariant
                letters@ == s@,
                i <= letters@.len(),
                spelling(digits@) == s@.subrange(0, i as int),
            decreases letters@.len() - i,
        {
            let c = letters[i];
            let d = if c == 'I' {
                RomanNumeral::I
            } else if c == 'V' {
                RomanNumeral::V
            } else if c == 'X' {
                RomanNumeral::X
            } else if c == 'L' {
                RomanNumeral::L
            } else if c == 'C' {
                RomanNumeral::C
            } else if c == 'D' {
                RomanNumeral::D
            } else if c == 'M' {
                RomanNumeral::M
            } else {
                proof {
                    if is_canonical(s@) {
                        let m = choose|m: int| 1 <= m <= 3999 && s@ == spelling(standard_form(m));
                        assert(s@[i as int] == spelling(standard_form(m))[i as int]);
                    }
                }
                return Err(ConversionError::InvalidNumeral(s.to_owned()));
            };
            assert(d.symbol() == s@[i as int]);
            let ghost before = digits@;
            digits.push(d);
            assert(spelling(digits@) =~= spelling(before).push(d.symbol()));
            i = i + 1;
            assert(spelling(digits@) =~= s@.subrange(0, i as int));
        }
        assert(s@.subrange(0, s@.len() as int) =~= s@);
        proof {
            if is_canonical(s@) {
                let m = choose|m: int| 1 <= m <= 3999 && s@ == spelling(standard_form(m));
                lemma_spelling_injective(digits@, standard_form(m));
            }
            if is_standard(digits@) {
                let m = choose|m: int| 1 <= m <= 3999 && digits@ == standard_form(m);
                assert(s@ == spelling(standard_form(m)));
            }
        }
        match RomanNumber::try_from(digits) {
            Ok(num) => Ok(num),
            Err(_) => Err(ConversionError::InvalidNumeral(s.to_owned())),
        }
    }

    /// The value of the numeral under the subtractive rule.
    pub fn value(&self) -> (r: i32)
        ensures
            r == evaluate(self@),
            r == pair_sum(self@),
            1 <= r <= 3999,
            self@ == standard_form(r as int),
    {
        proof {
            use_type_invariant(self);
            let m = choose|m: int| 1 <= m <= 3999 && self.0@ == standard_form(m);
            lemma_standard_form(m);
            lemma_standard_form_pair_sum(m);
        }
        evaluate_digits(&self.0)
    }
}

impl std::str::FromStr for RomanNumeral {
    type Err = ConversionError;

    fn from_str(s: &str) -> (r: Result<RomanNumeral, ConversionError>)
        ensures
            r is Ok <==> (s@.len() == 1 && digit_of(s@[0]) is Some),
            r matches Ok(d) ==> digit_of(s@[0]) == Some(d),
            r matches Err(e) ==> e matches ConversionError::UnknownDigit(t) && t@ == s@,
    {
        let letters = chars_of(s);
        if letters.len() == 1 {
            assert(s@ =~= seq![letters@[0]]);
            RomanNumeral::from_char(letters[0])
        } else {
            Err(ConversionError::UnknownDigit(s.to_owned()))
        }
    }
}

impl std::str::FromStr for RomanNumber {
    type Err = ConversionError;

    fn from_str(s: &str) -> (r: Result<RomanNumber, ConversionError>)
        ensures
            r is Ok <==> is_canonical(s@),
            r matches Ok(num) ==> spelling(num@) == s@,
            r matches Err(e) ==> e matches ConversionError::InvalidNumeral(t) && t@ == s@,
    {
        RomanNumber::parse(s)
    }
}

impl TryFrom<Vec<RomanNumeral>> for RomanNumber {
    type Error = ConversionError;

    fn try_from(value: Vec<RomanNumeral>) -> (r: Result<RomanNumber, ConversionError>)
        ensures
            r is Ok <==> is_standard(value@),
            r matches Ok(num) ==> num@ == value@,
            r matches Err(e) ==> e matches ConversionError::InvalidNumeral(t) && t@ == spelling(
                value@,
            ),
    {
        RomanNumber::try_from(value)
    }
}

/// The result of `try_from` is stated on the method itself: it carries a
/// `String`, and spec code cannot name one `String` among those with a
/// given text.
impl vstd::std_specs::convert::TryFromSpecImpl<Vec<RomanNumeral>> for RomanNumber {
    open spec fn obeys_try_from_spec() -> bool {
        false
    }

    closed spec fn try_from_spec(v: Vec<RomanNumeral>) -> Result<RomanNumber, ConversionError> {
        if is_standard(v@) {
            Ok(RomanNumber(v))
        } else {
            Err(choose|e: ConversionError| e@ == ErrorView::InvalidNumeral(spelling(v@)))
        }
    }
}

impl From<RomanNumber> for i32 {
    fn from(value: RomanNumber) -> (r: i32) {
        value.value()
    }
}

impl vstd::std_specs::convert::FromSpecImpl<RomanNumber> for i32 {
    open spec fn obeys_from_spec() -> bool {
        true
    }

    open spec fn from_spec(v: RomanNumber) -> i32 {
        evaluate(v@) as i32
    }
}

/// A canonical numeral text spells exactly one sequence of symbols, that
/// sequence evaluates to the number whose standard numeral the text is, and
/// writing that value again in standard form gives back the text.
pub proof fn lemma_canonical_round_trip(s: Seq<char>, ds: Seq<RomanNumeral>, n: int)
    requires
        1 <= n <= 3999,
        s == spelling(standard_form(n)),
        spelling(ds) == s,
    ensures
        is_canonical(s),
        is_standard(ds),
        ds == standard_form(n),
        evaluate(ds) == n,
        evaluate(ds) == pair_sum(ds),
        spelling(standard_form(evaluate(ds))) == s,
{
    lemma_spelling_injective(ds, standard_form(n));
    lemma_standard_form(n);
    lemma_standard_form_pair_sum(n);
}

/// The six subtractive pairs: CM, CD, XC, XL, IX and IV.
pub open spec fn is_pair(a: RomanNumeral, b: RomanNumeral) -> bool {
    (a == RomanNumeral::C && (b == RomanNumeral::M || b == RomanNumeral::D)) || (a
        == RomanNumeral::X && (b == RomanNumeral::C || b == RomanNumeral::L)) || (a
        == RomanNumeral::I && (b == RomanNumeral::X || b == RomanNumeral::V))
}

/// The usual value of a Roman numeral: each subtractive pair counts as one
/// unit worth the larger symbol less the smaller, every other symbol counts
/// its magnitude.
pub open spec fn pair_sum(ds: Seq<RomanNumeral>) -> int
    decreases ds.len(),
{
    if ds.len() == 0 {
        0
    } else if ds.len() >= 2 && is_pair(ds[0], ds[1]) {
        ds[1].magnitude() - ds[0].magnitude() + pair_sum(ds.subrange(2, ds.len() as int))
    } else {
        ds[0].magnitude() + pair_sum(ds.drop_first())
    }
}

proof fn lemma_pair_sum_single(x: RomanNumeral, r: Seq<RomanNumeral>)
    requires
        r.len() == 0 || !is_pair(x, r[0]),
    ensures
        pair_sum(seq![x] + r) == x.magnitude() + pair_sum(r),
        (seq![x] + r).len() > 0,
        (seq![x] + r)[0] == x,
{
    assert((seq![x] + r).drop_first() =~= r);
}

proof fn lemma_pair_sum_pair(x: RomanNumeral, y: RomanNumeral, r: Seq<RomanNumeral>)
    requires
        is_pair(x, y),
    ensures
        pair_sum(seq![x, y] + r) == y.magnitude() - x.magnitude() + pair_sum(r),
{
    reveal_with_fuel(pair_sum, 1);
    let s = seq![x, y] + r;
    assert(s.subrange(2, s.len() as int) =~= r);
}

/// A group followed by `r` adds the group's digit times the unit.
#[verifier::spinoff_prover]
#[verifier::rlimit(40)]
proof fn lemma_pair_sum_group(
    k: int,
    one: RomanNumeral,
    five: RomanNumeral,
    ten: RomanNumeral,
    r: Seq<RomanNumeral>,
)
    requires
        0 <= k <= 9,
        !is_pair(one, one),
        k <= 3 || (is_pair(one, five) && is_pair(one, ten) && !is_pair(five, one)
            && five.magnitude() == 5 * one.magnitude() && ten.magnitude() == 10
            * one.magnitude()),
        r.len() > 0 ==> !is_pair(one, r[0]) && !is_pair(five, r[0]) && !is_pair(ten, r[0]),
    ensures
        pair_sum(group(k, one, five, ten) + r) == k * one.magnitude() + pair_sum(r),
{
    let o = one;
    let f = five;
    let t = ten;
    let g = group(k, one, five, ten);
    let u = one.magnitude();
    if k == 0 {
        assert(g + r =~= r);
    } else if k == 1 {
        assert(pair_sum(g + r) == u + pair_sum(r)) by {
            assert(g + r =~= seq![o] + r);
            lemma_pair_sum_single(o, r);
        }
    } else if k == 2 {
        assert(pair_sum(g + r) == 2 * u + pair_sum(r)) by {
            let r1 = seq![o] + r;
            assert(g + r =~= seq![o] + r1);
            lemma_pair_sum_single(o, r);
            lemma_pair_sum_single(o, r1);
        }
    } else if k == 3 {
        assert(pair_sum(g + r) == 3 * u + pair_sum(r)) by {
            let r1 = seq![o] + r;
            let r2 = seq![o] + r1;
            assert(g + r =~= seq![o] + r2);
            lemma_pair_sum_single(o, r);
            lemma_pair_sum_single(o, r1);
            lemma_pair_sum_single(o, r2);
        }
    } else if k == 4 {
        assert(pair_sum(g + r) == 4 * u + pair_sum(r)) by {
            assert(g + r =~= seq![o, f] + r);
            lemma_pair_sum_pair(o, f, r);
        }
    } else if k == 5 {
        assert(pair_sum(g + r) == 5 * u + pair_sum(r)) by {
            assert(g + r =~= seq![f] + r);
            lemma_pair_sum_single(f, r);
        }
    } else if k == 6 {
        assert(pair_sum(g + r) == 6 * u + pair_sum(r)) by {
            let r1 = seq![o] + r;
            assert(g + r =~= seq![f] + r1);
            lemma_pair_sum_single(o, r);
            lemma_pair_sum_single(f, r1);
        }
    } else if k == 7 {
        assert(pair_sum(g + r) == 7 * u + pair_sum(r)) by {
            let r1 = seq![o] + r;
            let r2 = seq![o] + r1;
            assert(g + r =~= seq![f] + r2);
            lemma_pair_sum_single(o, r);
            lemma_pair_sum_single(o, r1);
            lemma_pair_sum_single(f, r2);
        }
    } else if k == 8 {
        assert(pair_sum(g + r) == 8 * u + pair_sum(r)) by {
            let r1 = seq![o] + r;
            let r2 = seq![o] + r1;
            let r3 = seq![o] + r2;
            assert(g + r =~= seq![f] + r3);
            lemma_pair_sum_single(o, r);
            lemma_pair_sum_single(o, r1);
            lemma_pair_sum_single(o, r2);
            lemma_pair_sum_single(f, r3);
        }
    } else {
        assert(pair_sum(g + r) == 9 * u + pair_sum(r)) by {
            assert(g + r =~= seq![o, t] + r);
            lemma_pair_sum_pair(o, t, r);
        }
    }
}

proof fn lemma_group_members(k: int, one: RomanNumeral, five: RomanNumeral, ten: RomanNumeral)
    ensures
        forall|i: int|
            0 <= i < group(k, one, five, ten).len() ==> #[trigger] group(k, one, five, ten)[i]
                == one || group(k, one, five, ten)[i] == five || group(k, one, five, ten)[i]
                == ten,
{
}

proof fn lemma_pair_places(a: int, b: int, c: int, d: int)
    requires
        0 <= a <= 3,
        0 <= b <= 9,
        0 <= c <= 9,
        0 <= d <= 9,
    ensures
        pair_sum(
            group(a, RomanNumeral::M, RomanNumeral::M, RomanNumeral::M) + (group(
                b,
                RomanNumeral::C,
                RomanNumeral::D,
                RomanNumeral::M,
            ) + (group(c, RomanNumeral::X, RomanNumeral::L, RomanNumeral::C) + group(
                d,
                RomanNumeral::I,
                RomanNumeral::V,
                RomanNumeral::X,
            ))),
        ) == 1000 * a + 100 * b + 10 * c + d,
{
    let h = group(b, RomanNumeral::C, RomanNumeral::D, RomanNumeral::M);
    let t = group(c, RomanNumeral::X, RomanNumeral::L, RomanNumeral::C);
    let o = group(d, RomanNumeral::I, RomanNumeral::V, RomanNumeral::X);
    let e: Seq<RomanNumeral> = Seq::empty();
    lemma_group_members(b, RomanNumeral::C, RomanNumeral::D, RomanNumeral::M);
    lemma_group_members(c, RomanNumeral::X, RomanNumeral::L, RomanNumeral::C);
    lemma_group_members(d, RomanNumeral::I, RomanNumeral::V, RomanNumeral::X);
    assert(o + e =~= o);
    lemma_pair_sum_group(d, RomanNumeral::I, RomanNumeral::V, RomanNumeral::X, e);
    if o.len() > 0 {
        assert(o[0] == RomanNumeral::I || o[0] == RomanNumeral::V || o[0] == RomanNumeral::X);
    }
    lemma_pair_sum_group(c, RomanNumeral::X, RomanNumeral::L, RomanNumeral::C, o);
    let to = t + o;
    if to.len() > 0 {
        if t.len() > 0 {
            assert(to[0] == t[0]);
        } else {
            assert(to[0] == o[0]);
        }
    }
    lemma_pair_sum_group(b, RomanNumeral::C, RomanNumeral::D, RomanNumeral::M, to);
    lemma_pair_sum_group(a, RomanNumeral::M, RomanNumeral::M, RomanNumeral::M, h + to);
}

/// The standard numeral of `n` has the usual value `n`.
pub proof fn lemma_standard_form_pair_sum(n: int)
    requires
        1 <= n <= 3999,
    ensures
        pair_sum(standard_form(n)) == n,
{
    let a = n / 1000;
    let b = (n / 100) % 10;
    let c = (n / 10) % 10;
    let d = n % 10;
    assert(0 <= a <= 3 && 0 <= b <= 9 && 0 <= c <= 9 && 0 <= d <= 9) by (nonlinear_arith)
        requires
            1 <= n <= 3999,
            a == n / 1000,
            b == (n / 100) % 10,
            c == (n / 10) % 10,
            d == n % 10,
    {
    }
    assert(n == 1000 * a + 100 * b + 10 * c + d) by (nonlinear_arith)
        requires
            a == n / 1000,
            b == (n / 100) % 10,
            c == (n / 10) % 10,
            d == n % 10,
    {
    }
    lemma_pair_places(a, b, c, d);
    let th = group(a, RomanNumeral::M, RomanNumeral::M, RomanNumeral::M);
    let h = group(b, RomanNumeral::C, RomanNumeral::D, RomanNumeral::M);
    let t = group(c, RomanNumeral::X, RomanNumeral::L, RomanNumeral::C);
    let o = group(d, RomanNumeral::I, RomanNumeral::V, RomanNumeral::X);
    assert(standard_form(n) =~= th + (h + (t + o)));
}

} // verus!
