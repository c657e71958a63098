use vstd::prelude::*;
use vstd::string::{StrSliceExecFns, StringExecFns};
use crate::decimal::{
    all_digits, decimal_digits, decimal_value, digit_to_number, is_decimal_digit, is_digit,
    lemma_decimal_digits_len_increases, lemma_decimal_digits_value, lemma_decimal_value_concat,
    lemma_decimal_value_push, lemma_pow10_increases, lemma_pow10_positive, pow10, to_chars,
    to_decimal,
};
use crate::error::ChunkError;

verus! {

/// The text that stands between a chunk file's stem and its number.
pub open spec fn chunk_marker() -> Seq<char> {
    seq!['_', 'c', 'h', 'u', 'n', 'k']
}

/// The name of the file that holds chunk `index` of a source with the given
/// stem and extension: the stem, `_chunk`, the index counted from one, a
/// dot, and the extension.
pub open spec fn chunk_name(stem: Seq<char>, index: nat, extension: Seq<char>) -> Seq<char> {
    stem + chunk_marker() + decimal_digits(index + 1) + seq!['.'] + extension
}

/// Names the file of chunk `index`.
pub fn chunk_file_name(stem: &str, index: u64, extension: &str) -> (name: String)
    requires
        index < u64::MAX,
    ensures
        name@ == chunk_name(stem@, index as nat, extension@),
{
    proof {
        reveal_strlit("_chunk");
        reveal_strlit(".");
    }
    let number = to_decimal(index + 1);
    let mut name = String::from_str(stem);
    name.append("_chunk");
    name.append(number.as_str());
    name.append(".");
    name.append(extension);
    name
}

/// The position of the last dot of `name`, or -1 where it has none.
pub open spec fn last_dot(name: Seq<char>) -> int
    decreases name.len(),
{
    if name.len() == 0 {
        -1
    } else if name.last() == '.' {
        name.len() - 1
    } else {
        last_dot(name.drop_last())
    }
}

/// Whether a file name has a stem and an extension: it is not `..`, and its
/// last dot is not its first character.
pub open spec fn has_stem_and_extension(name: Seq<char>) -> bool {
    name != seq!['.', '.'] && last_dot(name) > 0
}

/// What stands before the last dot of `name`.
pub open spec fn stem_of(name: Seq<char>) -> Seq<char> {
    name.subrange(0, last_dot(name))
}

/// What stands after the last dot of `name`.
pub open spec fn extension_of(name: Seq<char>) -> Seq<char> {
    name.subrange(last_dot(name) + 1, name.len() as int)
}

/// The last dot of a name is a dot, and no dot follows it; a name without
/// one holds no dot at all.
pub proof fn lemma_last_dot(name: Seq<char>)
    ensures
        -1 <= last_dot(name) < name.len(),
        last_dot(name) >= 0 ==> name[last_dot(name)] == '.',
        forall|i: int| last_dot(name) < i < name.len() ==> name[i] != '.',
    decreases name.len(),
{
    if name.len() > 0 && name.last() != '.' {
        lemma_last_dot(name.drop_last());
        assert forall|i: int| last_dot(name) < i < name.len() implies name[i] != '.' by {
            if i < name.len() - 1 {
                assert(name[i] == name.drop_last()[i]);
            }
        }
    }
}

/// A source file's name taken apart at its last dot.
#[derive(Debug)]
pub struct NameParts {
    pub stem: String,
    pub extension: String,
}

/// Takes a source file's name apart into stem and extension. A name without
/// both is refused: the empty name, `..`, a name without a dot, and a name
/// whose only dot comes first.
pub fn split_file_name(name: &str) -> (result: Result<NameParts, ChunkError>)
    ensures
        has_stem_and_extension(name@) ==> result is Ok,
        !has_stem_and_extension(name@) ==> result == Err::<NameParts, ChunkError>(
            ChunkError::InvalidArgument,
        ),
        result matches Ok(parts) ==> parts.stem@ == stem_of(name@) && parts.extension@
            == extension_of(name@) && name@ == parts.stem@ + seq!['.'] + parts.extension@
            && parts.stem@.len() > 0 && !parts.extension@.contains('.'),
{
    let chars = to_chars(name);
    let len = chars.len();
    let mut dot: usize = len;
    let mut found = false;
    let mut i: usize = 0;
    while i < len
        invariant
            i <= len,
            len == chars@.len(),
            found ==> dot < i && last_dot(chars@.take(i as int)) == dot,
            !found ==> last_dot(chars@.take(i as int)) == -1,
        decreases len - i,
    {
        assert(chars@.take(i as int + 1).drop_last() == chars@.take(i as int));
        if chars[i] == '.' {
            dot = i;
            found = true;
        }
        i = i + 1;
    }
    assert(chars@.take(len as int) == chars@);
    let is_dot_dot = len == 2 && chars[0] == '.' && chars[1] == '.';
    assert(is_dot_dot <==> name@ =~= seq!['.', '.']);
    if !found || dot == 0 || is_dot_dot {
        return Err(ChunkError::InvalidArgument);
    }
    let stem = String::from_str(name.substring_char(0, dot));
    let extension = String::from_str(name.substring_char(dot + 1, len));
    proof {
        lemma_last_dot(name@);
        assert forall|k: int| 0 <= k < extension@.len() implies extension@[k] != '.' by {
            assert(extension@[k] == name@[dot + 1 + k]);
        }
    }
    Ok(NameParts { stem, extension })
}

/// The decimal digits of `name`, in the order in which they stand in it.
pub open spec fn digits_in(name: Seq<char>) -> Seq<char> {
    name.filter(|c: char| is_digit(c))
}

/// The key by which chunk files are ordered: the number written by all the
/// digits of the name, one after another; zero for a name without digits
/// and for one whose digits write a number beyond 64 bits.
pub open spec fn sort_key_of(name: Seq<char>) -> nat {
    let value = decimal_value(digits_in(name));
    if value <= u64::MAX {
        value
    } else {
        0
    }
}

/// The digits of a name that ends in `c` are those of the rest, and `c`
/// behind them if it is a digit.
pub proof fn lemma_digits_in_push(name: Seq<char>, c: char)
    ensures
        digits_in(name.push(c)) == if is_digit(c) {
            digits_in(name).push(c)
        } else {
            digits_in(name)
        },
{
    reveal(Seq::filter);
    assert(name.push(c).drop_last() == name);
}

/// The digits of two texts, one after the other, are the digits of the first
/// and then those of the second.
pub proof fn lemma_digits_in_concat(a: Seq<char>, b: Seq<char>)
    ensures
        digits_in(a + b) == digits_in(a) + digits_in(b),
{
    Seq::filter_distributes_over_add(a, b, |c: char| is_digit(c));
}

/// A text made of digits only holds these digits.
pub proof fn lemma_digits_in_digits(s: Seq<char>)
    requires
        all_digits(s),
    ensures
        digits_in(s) == s,
    decreases s.len(),
{
    reveal(Seq::filter);
    if s.len() > 0 {
        lemma_digits_in_digits(s.drop_last());
    }
}

/// The digits of a chunk file's name are those of the stem, those of the
/// chunk's number, and those of the extension.
pub proof fn lemma_digits_in_chunk_name(stem: Seq<char>, index: nat, extension: Seq<char>)
    ensures
        digits_in(chunk_name(stem, index, extension)) == digits_in(stem) + decimal_digits(
            index + 1,
        ) + digits_in(extension),
{
    let number = decimal_digits(index + 1);
    let dot = seq!['.'];
    lemma_digits_in_concat(stem + chunk_marker() + number + dot, extension);
    lemma_digits_in_concat(stem + chunk_marker() + number, dot);
    lemma_digits_in_concat(stem + chunk_marker(), number);
    lemma_digits_in_concat(stem, chunk_marker());
    lemma_decimal_digits_value(index + 1);
    lemma_digits_in_digits(number);
    assert(digits_in(chunk_marker()) =~= Seq::<char>::empty()) by {
        reveal_with_fuel(Seq::filter, 7);
    }
    assert(digits_in(dot) =~= Seq::<char>::empty()) by {
        reveal_with_fuel(Seq::filter, 2);
    }
    assert(digits_in(stem) + number + Seq::<char>::empty() =~= digits_in(stem) + number);
}

/// The number written by the digits of a chunk file's name: the digits of
/// the stem, shifted left by the length of the chunk's number, plus that
/// number; all of it shifted left by the count of the extension's digits,
/// plus their number.
pub proof fn lemma_chunk_name_value(stem: Seq<char>, index: nat, extension: Seq<char>)
    ensures
        decimal_value(digits_in(chunk_name(stem, index, extension))) == (decimal_value(
            digits_in(stem),
        ) * pow10(decimal_digits(index + 1).len()) + (index + 1)) * pow10(
            digits_in(extension).len(),
        ) + decimal_value(digits_in(extension)),
{
    lemma_digits_in_chunk_name(stem, index, extension);
    lemma_decimal_digits_value(index + 1);
    lemma_decimal_value_concat(
        digits_in(stem) + decimal_digits(index + 1),
        digits_in(extension),
    );
    lemma_decimal_value_concat(digits_in(stem), decimal_digits(index + 1));
}

/// Where neither stem nor extension holds a digit, the key of a chunk file
/// is the chunk's number: its index counted from one.
pub proof fn lemma_sort_key_of_chunk_name(stem: Seq<char>, index: nat, extension: Seq<char>)
    requires
        digits_in(stem).len() == 0,
        digits_in(extension).len() == 0,
        index + 1 <= u64::MAX,
    ensures
        sort_key_of(chunk_name(stem, index, extension)) == index + 1,
{
    lemma_chunk_name_value(stem, index, extension);
    // A text without digits writes zero and shifts by no place.
    assert(decimal_value(digits_in(stem)) == 0);
    assert(decimal_value(digits_in(extension)) == 0);
    assert(pow10(0) == 1);
    let shift = pow10(decimal_digits(index + 1).len()) as int;
    assert((0 * shift + (index + 1)) * 1 + 0 == index + 1) by (nonlinear_arith);
}

/// The digits of the names of two chunk files of one source write numbers
/// in the order of the chunks.
pub proof fn lemma_chunk_name_values_increase(
    stem: Seq<char>,
    extension: Seq<char>,
    earlier: nat,
    later: nat,
)
    requires
        earlier < later,
    ensures
        decimal_value(digits_in(chunk_name(stem, earlier, extension))) < decimal_value(
            digits_in(chunk_name(stem, later, extension)),
        ),
{
    lemma_chunk_name_value(stem, earlier, extension);
    lemma_chunk_name_value(stem, later, extension);
    lemma_decimal_digits_len_increases(earlier + 1, later + 1);
    let short = decimal_digits(earlier + 1).len();
    let long = decimal_digits(later + 1).len();
    lemma_pow10_increases(short, long);
    lemma_pow10_positive(short);
    lemma_pow10_positive(digits_in(extension).len());
    let head = decimal_value(digits_in(stem)) as int;
    let tail = decimal_value(digits_in(extension)) as int;
    let shift = pow10(digits_in(extension).len()) as int;
    let low = pow10(short) as int;
    let high = pow10(long) as int;
    assert((head * low + (earlier + 1)) * shift + tail < (head * high + (later + 1)) * shift
        + tail) by (nonlinear_arith)
        requires
            head >= 0,
            0 < low <= high,
            shift >= 1,
            earlier < later,
    ;
}

/// The chunk files of one source are ordered as their chunks are: a chunk
/// with a smaller index has a file with a smaller key, whatever digits stem
/// and extension hold, as long as the digits of the later file's name write
/// a number within 64 bits.
pub proof fn lemma_chunk_names_keep_order(
    stem: Seq<char>,
    extension: Seq<char>,
    earlier: nat,
    later: nat,
)
    requires
        earlier < later,
        decimal_value(digits_in(chunk_name(stem, later, extension))) <= u64::MAX,
    ensures
        sort_key_of(chunk_name(stem, earlier, extension)) < sort_key_of(
            chunk_name(stem, later, extension),
        ),
{
    lemma_chunk_name_values_increase(stem, extension, earlier, later);
}

/// Computes the key by which a chunk file is ordered.
pub fn sort_key(name: &str) -> (key: u64)
    ensures
        key == sort_key_of(name@),
{
    let mut value: u64 = 0;
    let mut overflow = false;
    proof {
        reveal(Seq::filter);
    }
    for c in it: name.chars()
        invariant
            it.seq() == name@,
            !overflow ==> value == decimal_value(digits_in(name@.take(it.index() as int))),
            overflow ==> decimal_value(digits_in(name@.take(it.index() as int))) > u64::MAX,
    {
        proof {
            assert(name@.take(it.index() + 1) == name@.take(it.index() as int).push(c));
            lemma_digits_in_push(name@.take(it.index() as int), c);
            lemma_decimal_value_push(digits_in(name@.take(it.index() as int)), c);
        }
        if is_decimal_digit(c) && !overflow {
            let d: u64 = digit_to_number(c) as u64;
            if value > (u64::MAX - d) / 10 {
                overflow = true;
            } else {
                value = value * 10 + d;
            }
        }
    }
    assert(name@.take(name@.len() as int) == name@);
    if overflow {
        0
    } else {
        value
    }
}

} // verus!
