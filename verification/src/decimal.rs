use vstd::prelude::*;
use vstd::arithmetic::div_mod::{lemma_div_denominator, lemma_hoist_over_denominator};
use vstd::string::StringExecFns;

verus! {

/// Whether `c` is one of the ten decimal digits `'0'` to `'9'`.
pub open spec fn is_digit(c: char) -> bool {
    '0' <= c <= '9'
}

/// The number that the digit `c` stands for.
pub open spec fn digit_value(c: char) -> nat
    recommends
        is_digit(c),
{
    (c as u32 - '0' as u32) as nat
}

/// The digit that stands for `d`.
pub open spec fn digit_char(d: nat) -> char
    recommends
        d < 10,
{
    (d + '0' as u32) as char
}

/// The number that a sequence of digits writes in base ten, most
/// significant digit first; the empty sequence writes zero.
pub open spec fn decimal_value(digits: Seq<char>) -> nat
    decreases digits.len(),
{
    if digits.len() == 0 {
        0
    } else {
        decimal_value(digits.drop_last()) * 10 + digit_value(digits.last())
    }
}

/// The digits of `n` in base ten, without leading zeros; zero is `"0"`.
pub open spec fn decimal_digits(n: nat) -> Seq<char>
    decreases n,
{
    if n < 10 {
        seq![digit_char(n)]
    } else {
        decimal_digits(n / 10).push(digit_char(n % 10))
    }
}

/// Whether every item of `s` is a decimal digit.
pub open spec fn all_digits(s: Seq<char>) -> bool {
    forall|i: int| 0 <= i < s.len() ==> is_digit(#[trigger] s[i])
}

/// Whether `c` is a decimal digit.
pub(crate) fn is_decimal_digit(c: char) -> (digit: bool)
    ensures
        digit == is_digit(c),
{
    '0' <= c && c <= '9'
}

/// The number that the digit `c` stands for.
pub(crate) fn digit_to_number(c: char) -> (d: u8)
    requires
        is_digit(c),
    ensures
        d == digit_value(c),
        d < 10,
{
    (c as u32 - '0' as u32) as u8
}

/// Writing a digit behind a numeral multiplies its value by ten and adds
/// the digit.
pub proof fn lemma_decimal_value_push(digits: Seq<char>, c: char)
    ensures
        decimal_value(digits.push(c)) == decimal_value(digits) * 10 + digit_value(c),
{
    assert(digits.push(c).drop_last() == digits);
}

/// The digits of a number are digits, at least one of them, and they write
/// that number.
pub proof fn lemma_decimal_digits_value(n: nat)
    ensures
        all_digits(decimal_digits(n)),
        decimal_digits(n).len() >= 1,
        decimal_value(decimal_digits(n)) == n,
    decreases n,
{
    if n < 10 {
        assert(decimal_digits(n).drop_last() == Seq::<char>::empty());
        assert(decimal_value(Seq::<char>::empty()) == 0);
    } else {
        lemma_decimal_digits_value(n / 10);
        lemma_decimal_value_push(decimal_digits(n / 10), digit_char(n % 10));
    }
}

/// Ten to the power `k`.
pub open spec fn pow10(k: nat) -> nat
    decreases k,
{
    if k == 0 {
        1
    } else {
        10 * pow10((k - 1) as nat)
    }
}

/// A power of ten is at least one.
pub proof fn lemma_pow10_positive(k: nat)
    ensures
        pow10(k) >= 1,
    decreases k,
{
    if k > 0 {
        lemma_pow10_positive((k - 1) as nat);
    }
}

/// A numeral followed by another writes the first one's value shifted left
/// by the length of the second, plus the second one's value.
pub proof fn lemma_decimal_value_concat(a: Seq<char>, b: Seq<char>)
    ensures
        decimal_value(a + b) == decimal_value(a) * pow10(b.len()) + decimal_value(b),
    decreases b.len(),
{
    if b.len() == 0 {
        assert(decimal_value(a) * pow10(b.len()) == decimal_value(a)) by (nonlinear_arith)
            requires
                pow10(b.len()) == 1,
        ;
    } else {
        lemma_decimal_value_concat(a, b.drop_last());
        assert((a + b).drop_last() =~= a + b.drop_last());
        let x = decimal_value(a) as int;
        let p = pow10(b.drop_last().len()) as int;
        let y = decimal_value(b.drop_last()) as int;
        assert((x * p + y) * 10 == x * (10 * p) + y * 10) by (nonlinear_arith);
    }
}

/// Powers of ten grow with the exponent.
pub proof fn lemma_pow10_increases(j: nat, k: nat)
    requires
        j <= k,
    ensures
        pow10(j) <= pow10(k),
    decreases k,
{
    if j < k {
        lemma_pow10_increases(j, (k - 1) as nat);
        lemma_pow10_positive((k - 1) as nat);
    }
}

/// A larger number has at least as many digits as a smaller one.
pub proof fn lemma_decimal_digits_len_increases(m: nat, n: nat)
    requires
        m <= n,
    ensures
        decimal_digits(m).len() <= decimal_digits(n).len(),
    decreases n,
{
    if n >= 10 {
        if m >= 10 {
            lemma_decimal_digits_len_increases(m / 10, n / 10);
        } else {
            lemma_decimal_digits_value(n / 10);
        }
    }
}

/// The number `value / 10^places` scaled by `multiplier`, rounded down.
pub open spec fn scaled(value: nat, multiplier: nat, places: nat) -> nat {
    (value * multiplier) / pow10(places)
}

/// Scaling `i + f / p` by `m` and rounding down is `i * m` plus the scaled
/// fraction rounded down.
proof fn lemma_scale_split(i: int, f: int, m: int, p: int)
    requires
        i >= 0,
        f >= 0,
        m >= 0,
        p > 0,
    ensures
        ((i * p + f) * m) / p == i * m + (f * m) / p,
{
    assert((i * p + f) * m == f * m + (i * m) * p) by (nonlinear_arith);
    lemma_hoist_over_denominator(f * m, i * m, p as nat);
}

/// Scaling a fraction whose first digit is `d` goes digit by digit: the
/// scaled rest is added to `d * m`, and a tenth of the sum is taken.
proof fn lemma_scale_step(d: int, r: int, m: int, p: int)
    requires
        d >= 0,
        r >= 0,
        m >= 0,
        p > 0,
    ensures
        ((d * p + r) * m) / (10 * p) == (d * m + (r * m) / p) / 10,
{
    let x = (d * p + r) * m;
    assert(x >= 0) by (nonlinear_arith)
        requires
            x == (d * p + r) * m,
            d >= 0,
            r >= 0,
            m >= 0,
            p > 0,
    ;
    lemma_div_denominator(x, p, 10);
    lemma_scale_split(d, r, m, p);
}

/// A number with integer digits `int_digits` and fraction digits
/// `frac_digits`, scaled and rounded down, is the integer part times the
/// multiplier plus the scaled fraction rounded down.
pub proof fn lemma_scaled_parts(int_digits: Seq<char>, frac_digits: Seq<char>, multiplier: nat)
    ensures
        scaled(decimal_value(int_digits + frac_digits), multiplier, frac_digits.len())
            == decimal_value(int_digits) * multiplier + scaled(
            decimal_value(frac_digits),
            multiplier,
            frac_digits.len(),
        ),
{
    lemma_decimal_value_concat(int_digits, frac_digits);
    lemma_pow10_positive(frac_digits.len());
    lemma_scale_split(
        decimal_value(int_digits) as int,
        decimal_value(frac_digits) as int,
        multiplier as int,
        pow10(frac_digits.len()) as int,
    );
}

/// Reads the digits `chars[from..to]` as a number. The result is `None`
/// where the number is beyond 64 bits.
pub(crate) fn parse_digits(chars: &Vec<char>, from: usize, to: usize) -> (value: Option<u64>)
    requires
        from <= to <= chars@.len(),
        all_digits(chars@.subrange(from as int, to as int)),
    ensures
        value matches Some(v) ==> v == decimal_value(chars@.subrange(from as int, to as int)),
        value is None ==> decimal_value(chars@.subrange(from as int, to as int)) > u64::MAX,
{
    let ghost digits = chars@.subrange(from as int, to as int);
    let mut value: u64 = 0;
    let mut overflow = false;
    let mut i: usize = from;
    while i < to
        invariant
            from <= i <= to <= chars@.len(),
            digits == chars@.subrange(from as int, to as int),
            all_digits(digits),
            !overflow ==> value == decimal_value(digits.take(i - from)),
            overflow ==> decimal_value(digits.take(i - from)) > u64::MAX,
        decreases to - i,
    {
        let c = chars[i];
        proof {
            assert(digits.take(i - from + 1) =~= digits.take(i - from).push(c));
            lemma_decimal_value_push(digits.take(i - from), c);
        }
        let d: u64 = digit_to_number(c) as u64;
        if !overflow {
            if value > (u64::MAX - d) / 10 {
                overflow = true;
            } else {
                value = value * 10 + d;
            }
        }
        i = i + 1;
    }
    assert(digits.take(to - from) =~= digits);
    if overflow {
        None
    } else {
        Some(value)
    }
}

/// Scales the fraction written by the digits `chars[from..to]` by
/// `multiplier` and rounds down: the digits' number times `multiplier`,
/// divided by ten to the power of their count.
pub(crate) fn scale_fraction(
    chars: &Vec<char>,
    from: usize,
    to: usize,
    multiplier: u64,
) -> (result: u64)
    requires
        from <= to <= chars@.len(),
        all_digits(chars@.subrange(from as int, to as int)),
        multiplier <= 0x100_0000_0000,
    ensures
        result == scaled(
            decimal_value(chars@.subrange(from as int, to as int)),
            multiplier as nat,
            (to - from) as nat,
        ),
        result <= multiplier,
{
    let ghost digits = chars@.subrange(from as int, to as int);
    let mut result: u64 = 0;
    let mut i: usize = to;
    proof {
        assert(scaled(0, multiplier as nat, 0) == 0) by (nonlinear_arith)
            requires
                pow10(0) == 1,
        ;
    }
    while i > from
        invariant
            from <= i <= to <= chars@.len(),
            digits == chars@.subrange(from as int, to as int),
            all_digits(digits),
            multiplier <= 0x100_0000_0000,
            result <= multiplier,
            result == scaled(
                decimal_value(digits.skip(i - from)),
                multiplier as nat,
                (to - i) as nat,
            ),
        decreases i - from,
    {
        i = i - 1;
        let c = chars[i];
        assert(c == digits[i - from]);
        let d: u64 = digit_to_number(c) as u64;
        proof {
            let rest = digits.skip(i - from + 1);
            assert(digits.skip(i - from) =~= seq![c] + rest);
            lemma_decimal_value_concat(seq![c], rest);
            assert(seq![c].drop_last() =~= Seq::<char>::empty());
            assert(decimal_value(Seq::<char>::empty()) == 0);
            lemma_pow10_positive(rest.len());
            lemma_scale_step(
                d as int,
                decimal_value(rest) as int,
                multiplier as int,
                pow10(rest.len()) as int,
            );
            assert(d * multiplier <= 9 * multiplier) by (nonlinear_arith)
                requires
                    d <= 9,
            ;
        }
        result = (d * multiplier + result) / 10;
    }
    assert(digits.skip(0) =~= digits);
    result
}

/// The one-character text for the digit `d`.
fn digit_text(d: u64) -> (text: &'static str)
    requires
        d < 10,
    ensures
        text@ == seq![digit_char(d as nat)],
{
    proof {
        reveal_strlit("0");
        reveal_strlit("1");
        reveal_strlit("2");
        reveal_strlit("3");
        reveal_strlit("4");
        reveal_strlit("5");
        reveal_strlit("6");
        reveal_strlit("7");
        reveal_strlit("8");
        reveal_strlit("9");
    }
    if d == 0 {
        "0"
    } else if d == 1 {
        "1"
    } else if d == 2 {
        "2"
    } else if d == 3 {
        "3"
    } else if d == 4 {
        "4"
    } else if d == 5 {
        "5"
    } else if d == 6 {
        "6"
    } else if d == 7 {
        "7"
    } else if d == 8 {
        "8"
    } else {
        "9"
    }
}

/// Writes `n` in base ten.
pub fn to_decimal(n: u64) -> (text: String)
    ensures
        text@ == decimal_digits(n as nat),
    decreases n,
{
    if n < 10 {
        String::from_str(digit_text(n))
    } else {
        let mut text = to_decimal(n / 10);
        text.append(digit_text(n % 10));
        text
    }
}

/// The characters of `s`, in order.
pub(crate) fn to_chars(s: &str) -> (chars: Vec<char>)
    ensures
        chars@ == s@,
{
    let mut chars: Vec<char> = Vec::new();
    for c in it: s.chars()
        invariant
            chars@ == s@.take(it.index() as int),
            it.seq() == s@,
    {
        chars.push(c);
    }
    chars
}

} // verus!
