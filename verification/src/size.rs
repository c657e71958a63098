use vstd::prelude::*;
use crate::decimal::{
    all_digits, decimal_value, is_decimal_digit, is_digit, lemma_scaled_parts, parse_digits, pow10,
    scale_fraction, scaled, to_chars,
};
use crate::error::ChunkError;

verus! {

/// Whether `c` is white space: a character with the Unicode property
/// `White_Space`.
pub open spec fn is_space(c: char) -> bool {
    let code = c as u32;
    ||| 0x09 <= code <= 0x0D
    ||| code == 0x20
    ||| code == 0x85
    ||| code == 0xA0
    ||| code == 0x1680
    ||| 0x2000 <= code <= 0x200A
    ||| code == 0x2028
    ||| code == 0x2029
    ||| code == 0x202F
    ||| code == 0x205F
    ||| code == 0x3000
}

/// Whether `c` is white space.
fn is_space_char(c: char) -> (space: bool)
    ensures
        space == is_space(c),
{
    let code: u32 = c as u32;
    (0x09 <= code && code <= 0x0D) || code == 0x20 || code == 0x85 || code == 0xA0 || code
        == 0x1680 || (0x2000 <= code && code <= 0x200A) || code == 0x2028 || code == 0x2029
        || code == 0x202F || code == 0x205F || code == 0x3000
}

/// `s` without the white space that it begins with.
pub open spec fn trim_start(s: Seq<char>) -> Seq<char>
    decreases s.len(),
{
    if s.len() > 0 && is_space(s.first()) {
        trim_start(s.drop_first())
    } else {
        s
    }
}

/// `s` without the white space that it ends with.
pub open spec fn trim_end(s: Seq<char>) -> Seq<char>
    decreases s.len(),
{
    if s.len() > 0 && is_space(s.last()) {
        trim_end(s.drop_last())
    } else {
        s
    }
}

/// `s` without the white space around it.
pub open spec fn trimmed(s: Seq<char>) -> Seq<char> {
    trim_end(trim_start(s))
}

/// Finds where the text of `chars` begins and ends once the white space
/// around it is left out.
fn trim_bounds(chars: &Vec<char>) -> (bounds: (usize, usize))
    ensures
        bounds.0 <= bounds.1 <= chars@.len(),
        chars@.subrange(bounds.0 as int, bounds.1 as int) == trimmed(chars@),
{
    let len = chars.len();
    let mut start: usize = 0;
    assert(chars@.skip(0) =~= chars@);
    while start < len && is_space_char(chars[start])
        invariant
            start <= len,
            len == chars@.len(),
            trim_start(chars@) == trim_start(chars@.skip(start as int)),
        decreases len - start,
    {
        assert(chars@.skip(start as int).drop_first() =~= chars@.skip(start as int + 1));
        start = start + 1;
    }
    let ghost rest = chars@.skip(start as int);
    let mut end: usize = len;
    assert(rest.take(len - start) =~= rest);
    while end > start && is_space_char(chars[end - 1])
        invariant
            start <= end <= len,
            len == chars@.len(),
            rest == chars@.skip(start as int),
            trim_end(rest) == trim_end(rest.take(end - start)),
        decreases end - start,
    {
        assert(rest.take(end - start).drop_last() =~= rest.take(end - start - 1));
        end = end - 1;
    }
    (start, end)
}

/// The number of decimal digits that `s` begins with.
pub open spec fn digits_len(s: Seq<char>) -> nat
    decreases s.len(),
{
    if s.len() > 0 && is_digit(s.first()) {
        1 + digits_len(s.drop_first())
    } else {
        0
    }
}

/// Finds the end of the digits that `chars[from..to]` begins with.
fn scan_digits(chars: &Vec<char>, from: usize, to: usize) -> (end: usize)
    requires
        from <= to <= chars@.len(),
    ensures
        from <= end <= to,
        end - from == digits_len(chars@.subrange(from as int, to as int)),
        all_digits(chars@.subrange(from as int, end as int)),
{
    let mut end: usize = from;
    while end < to && is_decimal_digit(chars[end])
        invariant
            from <= end <= to <= chars@.len(),
            digits_len(chars@.subrange(from as int, to as int)) == (end - from) + digits_len(
                chars@.subrange(end as int, to as int),
            ),
            all_digits(chars@.subrange(from as int, end as int)),
        decreases to - end,
    {
        assert(chars@.subrange(end as int, to as int).drop_first() =~= chars@.subrange(
            end as int + 1,
            to as int,
        ));
        assert forall|i: int| 0 <= i < end + 1 - from implies is_digit(
            #[trigger] chars@.subrange(from as int, end as int + 1)[i],
        ) by {
            if i < end - from {
            }
        }
        end = end + 1;
    }
    end
}

/// The upper-case form of an ASCII letter; any other character as it is.
pub open spec fn ascii_upper(c: char) -> char {
    if 'a' <= c <= 'z' {
        ((c as u32) - 32) as char
    } else {
        c
    }
}

/// The factor that the unit letter `c` stands for, whatever its case:
/// powers of 1024 for `K`, `M`, `G` and `T`.
pub open spec fn letter_multiplier(c: char) -> Option<nat> {
    let upper = ascii_upper(c);
    if upper == 'K' {
        Some(0x400)
    } else if upper == 'M' {
        Some(0x10_0000)
    } else if upper == 'G' {
        Some(0x4000_0000)
    } else if upper == 'T' {
        Some(0x100_0000_0000)
    } else {
        None
    }
}

/// The factor that a unit suffix stands for: 1 for no suffix and for `B`;
/// the letter's factor for `K`, `M`, `G`, `T`, alone or followed by `B`; in
/// any case of letters. No other suffix is a unit.
pub open spec fn unit_multiplier(unit: Seq<char>) -> Option<nat> {
    if unit.len() == 0 {
        Some(1)
    } else if unit.len() == 1 && ascii_upper(unit[0]) == 'B' {
        Some(1)
    } else if unit.len() == 1 || (unit.len() == 2 && ascii_upper(unit[1]) == 'B') {
        letter_multiplier(unit[0])
    } else {
        None
    }
}

/// Whether `c` is the letter `letter`, in either case.
fn is_letter(c: char, letter: char) -> (same: bool)
    requires
        'A' <= letter <= 'Z',
    ensures
        same == (ascii_upper(c) == letter),
{
    c == letter || (c as u32 == letter as u32 + 32)
}

/// Reads the unit suffix `chars[from..to]`.
fn parse_unit(chars: &Vec<char>, from: usize, to: usize) -> (multiplier: Option<u64>)
    requires
        from <= to <= chars@.len(),
    ensures
        multiplier is Some <==> unit_multiplier(chars@.subrange(from as int, to as int)) is Some,
        multiplier matches Some(m) ==> unit_multiplier(chars@.subrange(from as int, to as int))
            == Some(m as nat) && 1 <= m <= 0x100_0000_0000,
{
    let ghost unit = chars@.subrange(from as int, to as int);
    let len = to - from;
    if len == 0 {
        return Some(1);
    }
    let first = chars[from];
    if len == 1 && is_letter(first, 'B') {
        return Some(1);
    }
    if len > 2 {
        return None;
    }
    if len == 2 {
        if !is_letter(chars[from + 1], 'B') {
            return None;
        }
    }
    if is_letter(first, 'K') {
        Some(0x400)
    } else if is_letter(first, 'M') {
        Some(0x10_0000)
    } else if is_letter(first, 'G') {
        Some(0x4000_0000)
    } else if is_letter(first, 'T') {
        Some(0x100_0000_0000)
    } else {
        None
    }
}

/// The text of a size taken apart: the digits before the dot, the digits
/// after it, and the unit suffix.
pub struct SizeParts {
    pub int_digits: Seq<char>,
    pub frac_digits: Seq<char>,
    pub unit: Seq<char>,
}

/// Takes the text of a size apart. The integer digits are the digits that
/// the text begins with once the white space around it is left out; where a
/// dot follows them, the fraction digits are the digits behind the dot; the
/// unit is all that is left.
pub open spec fn size_parts(text: Seq<char>) -> SizeParts {
    let t = trimmed(text);
    let int_len = digits_len(t);
    if int_len < t.len() && t[int_len as int] == '.' {
        let behind = t.skip(int_len as int + 1);
        SizeParts {
            int_digits: t.take(int_len as int),
            frac_digits: behind.take(digits_len(behind) as int),
            unit: behind.skip(digits_len(behind) as int),
        }
    } else {
        SizeParts {
            int_digits: t.take(int_len as int),
            frac_digits: Seq::empty(),
            unit: t.skip(int_len as int),
        }
    }
}

/// The number of bytes that the text of a size stands for: its numeral
/// times the factor of its unit, rounded down. There is none where the
/// numeral has no digit or the suffix is no unit.
pub open spec fn size_value(text: Seq<char>) -> Option<nat> {
    let parts = size_parts(text);
    if parts.int_digits.len() + parts.frac_digits.len() == 0 {
        None
    } else {
        match unit_multiplier(parts.unit) {
            None => None,
            Some(multiplier) => Some(
                scaled(
                    decimal_value(parts.int_digits + parts.frac_digits),
                    multiplier,
                    parts.frac_digits.len(),
                ),
            ),
        }
    }
}

/// Digits followed by a text that begins with no digit are the digits that
/// the whole begins with.
proof fn lemma_digits_len_of_digits(digits: Seq<char>, rest: Seq<char>)
    requires
        all_digits(digits),
        rest.len() > 0 ==> !is_digit(rest[0]),
    ensures
        digits_len(digits + rest) == digits.len(),
    decreases digits.len(),
{
    if digits.len() == 0 {
        assert(digits + rest =~= rest);
    } else {
        assert(is_digit(digits[0]));
        assert((digits + rest).drop_first() =~= digits.drop_first() + rest);
        lemma_digits_len_of_digits(digits.drop_first(), rest);
    }
}

/// A whole number followed by a unit stands for the number times the
/// factor of the unit; without a unit it stands for itself.
pub proof fn lemma_size_of_whole_number(digits: Seq<char>, unit: Seq<char>)
    requires
        digits.len() > 0,
        all_digits(digits),
        unit_multiplier(unit) is Some,
    ensures
        size_value(digits + unit) == Some(decimal_value(digits) * unit_multiplier(unit)->0),
{
    let text = digits + unit;
    assert(is_digit(digits[0]));
    assert(text.first() == digits[0]);
    assert(trim_start(text) == text);
    assert(!is_space(text.last())) by {
        if unit.len() == 0 {
            assert(text.last() == digits.last());
            assert(is_digit(digits.last()));
        } else {
            assert(text.last() == unit.last());
        }
    }
    assert(trimmed(text) == text);
    lemma_digits_len_of_digits(digits, unit);
    assert(text.take(digits.len() as int) =~= digits);
    assert(text.skip(digits.len() as int) =~= unit);
    if unit.len() > 0 {
        assert(text[digits.len() as int] == unit[0]);
    }
    let parts = size_parts(text);
    assert(parts.int_digits == digits);
    assert(parts.frac_digits =~= Seq::<char>::empty());
    assert(parts.unit == unit);
    assert(digits + Seq::<char>::empty() =~= digits);
    assert(pow10(0) == 1);
}

/// Reads a size such as `10MB`, `1.5G` or `2048`: a numeral of decimal
/// digits, with or without a dot inside it, and a unit out of `B`, `K`, `KB`,
/// `M`, `MB`, `G`, `GB`, `T`, `TB` in any case of letters, or none. The units
/// are powers of 1024. White space around the text is left out. The result is
/// the number of bytes, rounded down; a text that is no size, and one that
/// stands for more bytes than a `usize` holds, is refused.
pub fn parse_size(size: &str) -> (result: Result<usize, ChunkError>)
    ensures
        match size_value(size@) {
            Some(bytes) if bytes <= usize::MAX => result == Ok::<usize, ChunkError>(bytes as usize),
            _ => result == Err::<usize, ChunkError>(ChunkError::InvalidArgument),
        },
{
    let chars = to_chars(size);
    let (start, end) = trim_bounds(&chars);
    let int_end = scan_digits(&chars, start, end);
    let has_dot = int_end < end && chars[int_end] == '.';
    let frac_start: usize = if has_dot {
        int_end + 1
    } else {
        int_end
    };
    let frac_end: usize = if has_dot {
        scan_digits(&chars, frac_start, end)
    } else {
        int_end
    };
    let ghost parts = size_parts(size@);
    proof {
        // What was scanned are the parts of the text.
        if has_dot {
            assert(trimmed(size@).skip(int_end - start + 1) =~= chars@.subrange(
                frac_start as int,
                end as int,
            ));
        }
        assert(parts.int_digits == chars@.subrange(start as int, int_end as int));
        assert(parts.frac_digits == chars@.subrange(frac_start as int, frac_end as int));
        assert(parts.unit == chars@.subrange(frac_end as int, end as int));
    }
    if (int_end - start) + (frac_end - frac_start) == 0 {
        return Err(ChunkError::InvalidArgument);
    }
    let multiplier: u64 = match parse_unit(&chars, frac_end, end) {
        Some(multiplier) => multiplier,
        None => {
            return Err(ChunkError::InvalidArgument);
        },
    };
    proof {
        lemma_scaled_parts(parts.int_digits, parts.frac_digits, multiplier as nat);
        assert(decimal_value(parts.int_digits) * multiplier >= decimal_value(parts.int_digits))
            by (nonlinear_arith)
            requires
                multiplier >= 1,
        ;
    }
    let fraction: u64 = scale_fraction(&chars, frac_start, frac_end, multiplier);
    let whole: u64 = match parse_digits(&chars, start, int_end) {
        Some(whole) => whole,
        None => {
            return Err(ChunkError::InvalidArgument);
        },
    };
    let bytes: u64 = match whole.checked_mul(multiplier) {
        Some(product) => match product.checked_add(fraction) {
            Some(bytes) => bytes,
            None => {
                return Err(ChunkError::InvalidArgument);
            },
        },
        None => {
            return Err(ChunkError::InvalidArgument);
        },
    };
    if bytes > usize::MAX as u64 {
        return Err(ChunkError::InvalidArgument);
    }
    Ok(bytes as usize)
}

} // verus!
