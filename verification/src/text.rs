//! Text on bytes: splitting at a separator, trimming white space, and the
//! decimal form of a size. The archive format is built from these.

use crate::views::slice_views;
use vstd::prelude::*;
use vstd::slice::slice_subrange;

verus! {

/// Index of the first `byte` in `s`, or the length of `s` where there is none.
pub open spec fn find_byte(s: Seq<u8>, byte: u8) -> nat
    decreases s.len(),
{
    if s.len() == 0 || s[0] == byte {
        0
    } else {
        1 + find_byte(s.drop_first(), byte)
    }
}

/// `find_byte` stays in range, nothing before it is the byte, and where it is
/// inside the sequence it points at the byte.
pub proof fn lemma_find_byte(s: Seq<u8>, byte: u8)
    ensures
        find_byte(s, byte) <= s.len(),
        forall|k: int| 0 <= k < find_byte(s, byte) ==> #[trigger] s[k] != byte,
        find_byte(s, byte) < s.len() ==> s[find_byte(s, byte) as int] == byte,
    decreases s.len(),
{
    if s.len() > 0 && s[0] != byte {
        let t = s.drop_first();
        lemma_find_byte(t, byte);
        assert forall|k: int| 0 <= k < find_byte(s, byte) implies #[trigger] s[k] != byte by {
            if k > 0 {
                assert(s[k] == t[k - 1]);
            }
        }
    }
}

/// The position `k` is the first occurrence when nothing before it is the
/// byte and `k` is the end of the sequence or holds the byte.
pub proof fn lemma_find_byte_at(s: Seq<u8>, byte: u8, k: nat)
    requires
        k <= s.len(),
        forall|j: int| 0 <= j < k ==> #[trigger] s[j] != byte,
        k == s.len() || s[k as int] == byte,
    ensures
        find_byte(s, byte) == k,
    decreases k,
{
    if k > 0 {
        let t = s.drop_first();
        assert(s[0] != byte);
        assert forall|j: int| 0 <= j < k - 1 implies #[trigger] t[j] != byte by {
            assert(t[j] == s[j + 1]);
        }
        lemma_find_byte_at(t, byte, (k - 1) as nat);
    }
}

/// The parts of `s` between the occurrences of `separator`. There is always
/// at least one part; a separator at the very end leaves an empty last part.
pub open spec fn split_on(s: Seq<u8>, separator: u8) -> Seq<Seq<u8>>
    decreases s.len(),
{
    let k = find_byte(s, separator) as int;
    if k >= s.len() {
        seq![s]
    } else {
        seq![s.take(k)] + split_on(s.skip(k + 1), separator)
    }
}

/// The parts joined again, with the separator between neighbours.
pub open spec fn join_with(parts: Seq<Seq<u8>>, separator: u8) -> Seq<u8>
    decreases parts.len(),
{
    if parts.len() == 0 {
        Seq::empty()
    } else if parts.len() == 1 {
        parts[0]
    } else {
        parts[0] + seq![separator] + join_with(parts.drop_first(), separator)
    }
}

/// Splitting cuts at every separator and nowhere else: no part holds the
/// separator, and the parts joined with it are the input.
pub proof fn lemma_split_on(s: Seq<u8>, separator: u8)
    ensures
        split_on(s, separator).len() >= 1,
        forall|i: int, k: int|
            0 <= i < split_on(s, separator).len() && 0 <= k < split_on(s, separator)[i].len()
                ==> #[trigger] split_on(s, separator)[i][k] != separator,
        join_with(split_on(s, separator), separator) == s,
    decreases s.len(),
{
    let k = find_byte(s, separator) as int;
    let parts = split_on(s, separator);
    lemma_find_byte(s, separator);
    if k < s.len() {
        let tail = split_on(s.skip(k + 1), separator);
        lemma_split_on(s.skip(k + 1), separator);
        assert forall|i: int, j: int| 0 <= i < parts.len() && 0 <= j < parts[i].len() implies #[trigger] parts[i][j]
            != separator by {
            if i > 0 {
                assert(parts[i] == tail[i - 1]);
            }
        }
        assert(parts.drop_first() == tail);
        assert(s.take(k) + seq![separator] + s.skip(k + 1) == s);
    }
}

/// Cuts `data` at every `separator`, as `split_on` says.
pub fn split<'a>(data: &'a [u8], separator: u8) -> (parts: Vec<&'a [u8]>)
    ensures
        slice_views(parts@) == split_on(data@, separator),
{
    let len: usize = data.len();
    let mut parts: Vec<&'a [u8]> = Vec::new();
    let mut start: usize = 0;
    let mut i: usize = 0;
    proof {
        assert(data@.skip(0) == data@);
        assert(slice_views(parts@) == Seq::<Seq<u8>>::empty());
    }
    while i < len
        invariant
            len == data@.len(),
            start <= i <= len,
            forall|k: int| start <= k < i ==> #[trigger] data@[k] != separator,
            split_on(data@, separator) == slice_views(parts@) + split_on(
                data@.skip(start as int),
                separator,
            ),
        decreases len - i,
    {
        if data[i] == separator {
            let part: &'a [u8] = slice_subrange(data, start, i);
            proof {
                let rest = data@.skip(start as int);
                assert forall|j: int| 0 <= j < i - start implies #[trigger] rest[j] != separator by {
                    assert(rest[j] == data@[start + j]);
                }
                lemma_find_byte_at(rest, separator, (i - start) as nat);
                assert(part@ == rest.take(i - start));
                assert(rest.skip(i - start + 1) == data@.skip(i + 1));
                let tail = split_on(data@.skip(i + 1), separator);
                assert(slice_views(parts@.push(part)) == slice_views(parts@).push(part@));
                assert(slice_views(parts@) + (seq![part@] + tail) == slice_views(parts@).push(part@)
                    + tail);
            }
            parts.push(part);
            start = i + 1;
        }
        i += 1;
    }
    let part: &'a [u8] = slice_subrange(data, start, len);
    proof {
        let rest = data@.skip(start as int);
        assert forall|j: int| 0 <= j < len - start implies #[trigger] rest[j] != separator by {
            assert(rest[j] == data@[start + j]);
        }
        lemma_find_byte_at(rest, separator, (len - start) as nat);
        assert(part@ == rest);
        assert(slice_views(parts@.push(part)) == slice_views(parts@).push(part@));
        assert(slice_views(parts@) + seq![part@] == slice_views(parts@).push(part@));
    }
    parts.push(part);
    parts
}

/// The white space of one byte: space, tab, line feed, vertical tab, form
/// feed and carriage return.
pub open spec fn is_space(byte: u8) -> bool {
    byte == 32 || (9 <= byte && byte <= 13)
}

/// The white space of two bytes, in UTF-8: next line (U+0085) and no-break
/// space (U+00A0).
pub open spec fn is_space_pair(a: u8, b: u8) -> bool {
    a == 0xC2 && (b == 0x85 || b == 0xA0)
}

/// The white space of three bytes, in UTF-8: U+1680, U+2000 to U+200A,
/// U+2028, U+2029, U+202F, U+205F and U+3000.
pub open spec fn is_space_triple(a: u8, b: u8, c: u8) -> bool {
    ||| a == 0xE1 && b == 0x9A && c == 0x80
    ||| a == 0xE2 && b == 0x80 && ((0x80 <= c && c <= 0x8A) || c == 0xA8 || c == 0xA9 || c
        == 0xAF)
    ||| a == 0xE2 && b == 0x81 && c == 0x9F
    ||| a == 0xE3 && b == 0x80 && c == 0x80
}

/// The number of bytes of the white-space character that opens `s`; zero
/// where `s` does not open with one.
pub open spec fn leading_space(s: Seq<u8>) -> nat {
    if s.len() >= 1 && is_space(s[0]) {
        1
    } else if s.len() >= 2 && is_space_pair(s[0], s[1]) {
        2
    } else if s.len() >= 3 && is_space_triple(s[0], s[1], s[2]) {
        3
    } else {
        0
    }
}

/// The number of bytes of the white-space character that ends `s`; zero
/// where `s` does not end with one.
pub open spec fn trailing_space(s: Seq<u8>) -> nat {
    let n = s.len() as int;
    if n >= 1 && is_space(s[n - 1]) {
        1
    } else if n >= 2 && is_space_pair(s[n - 2], s[n - 1]) {
        2
    } else if n >= 3 && is_space_triple(s[n - 3], s[n - 2], s[n - 1]) {
        3
    } else {
        0
    }
}

/// `s` without the white space at its front.
pub open spec fn trim_start(s: Seq<u8>) -> Seq<u8>
    decreases s.len(),
{
    let width = leading_space(s);
    if width > 0 {
        trim_start(s.skip(width as int))
    } else {
        s
    }
}

/// `s` without the white space at its end.
pub open spec fn trim_end(s: Seq<u8>) -> Seq<u8>
    decreases s.len(),
{
    let width = trailing_space(s);
    if width > 0 {
        trim_end(s.take(s.len() - width))
    } else {
        s
    }
}

/// `s` without the white space at either end.
pub open spec fn trimmed(s: Seq<u8>) -> Seq<u8> {
    trim_end(trim_start(s))
}

/// Tells whether a byte is white space of one byte.
pub fn is_space_byte(byte: u8) -> (r: bool)
    ensures
        r == is_space(byte),
{
    byte == 32 || (9 <= byte && byte <= 13)
}

/// Tells whether two bytes are white space of two bytes.
pub fn is_space_pair_bytes(a: u8, b: u8) -> (r: bool)
    ensures
        r == is_space_pair(a, b),
{
    a == 0xC2 && (b == 0x85 || b == 0xA0)
}

/// Tells whether three bytes are white space of three bytes.
pub fn is_space_triple_bytes(a: u8, b: u8, c: u8) -> (r: bool)
    ensures
        r == is_space_triple(a, b, c),
{
    (a == 0xE1 && b == 0x9A && c == 0x80) || (a == 0xE2 && b == 0x80 && ((0x80 <= c && c <= 0x8A)
        || c == 0xA8 || c == 0xA9 || c == 0xAF)) || (a == 0xE2 && b == 0x81 && c == 0x9F) || (a
        == 0xE3 && b == 0x80 && c == 0x80)
}

/// Measures the white-space character that opens a line.
pub fn leading_space_width(line: &[u8]) -> (width: usize)
    ensures
        width == leading_space(line@),
{
    let len: usize = line.len();
    if len >= 1 && is_space_byte(line[0]) {
        1
    } else if len >= 2 && is_space_pair_bytes(line[0], line[1]) {
        2
    } else if len >= 3 && is_space_triple_bytes(line[0], line[1], line[2]) {
        3
    } else {
        0
    }
}

/// Measures the white-space character that ends a line.
pub fn trailing_space_width(line: &[u8]) -> (width: usize)
    ensures
        width == trailing_space(line@),
{
    let len: usize = line.len();
    if len >= 1 && is_space_byte(line[len - 1]) {
        1
    } else if len >= 2 && is_space_pair_bytes(line[len - 2], line[len - 1]) {
        2
    } else if len >= 3 && is_space_triple_bytes(line[len - 3], line[len - 2], line[len - 1]) {
        3
    } else {
        0
    }
}

/// Strips the white space from both ends of a line.
pub fn trim<'a>(line: &'a [u8]) -> (out: &'a [u8])
    ensures
        out@ == trimmed(line@),
{
    let mut rest: &'a [u8] = line;
    let mut width: usize = leading_space_width(rest);
    while width > 0
        invariant
            width == leading_space(rest@),
            trim_start(line@) == trim_start(rest@),
        decreases rest@.len(),
    {
        rest = slice_subrange(rest, width, rest.len());
        width = leading_space_width(rest);
    }
    width = trailing_space_width(rest);
    while width > 0
        invariant
            width == trailing_space(rest@),
            trimmed(line@) == trim_end(rest@),
        decreases rest@.len(),
    {
        rest = slice_subrange(rest, 0, rest.len() - width);
        width = trailing_space_width(rest);
    }
    rest
}

/// The digit `0`.
pub const DIGIT_ZERO: u8 = 48;

/// The digit `9`.
pub const DIGIT_NINE: u8 = 57;

/// The plus sign.
pub const PLUS_SIGN: u8 = 43;

/// The ASCII digits `0` to `9`.
pub open spec fn is_digit(byte: u8) -> bool {
    DIGIT_ZERO <= byte && byte <= DIGIT_NINE
}

/// Every byte is a digit.
pub open spec fn all_digits(s: Seq<u8>) -> bool {
    forall|k: int| 0 <= k < s.len() ==> is_digit(#[trigger] s[k])
}

/// The number that a sequence of digits writes in base ten; zero for the
/// empty sequence.
pub open spec fn digits_value(s: Seq<u8>) -> nat
    decreases s.len(),
{
    if s.len() == 0 {
        0
    } else {
        10 * digits_value(s.drop_last()) + (s.last() - DIGIT_ZERO) as nat
    }
}

/// The decimal form of `n`, without sign and without leading zeros.
pub open spec fn decimal(n: nat) -> Seq<u8>
    decreases n,
{
    if n < 10 {
        seq![(DIGIT_ZERO + n) as u8]
    } else {
        decimal(n / 10).push((DIGIT_ZERO + n % 10) as u8)
    }
}

/// The decimal form is made of digits, is never empty, and writes the number
/// it was made from.
pub proof fn lemma_decimal(n: nat)
    ensures
        decimal(n).len() >= 1,
        all_digits(decimal(n)),
        digits_value(decimal(n)) == n,
    decreases n,
{
    if n < 10 {
        let d = decimal(n);
        assert(d.drop_last() == Seq::<u8>::empty());
        assert(digits_value(d.drop_last()) == 0);
    } else {
        lemma_decimal(n / 10);
        let d = decimal(n);
        assert(d.drop_last() == decimal(n / 10));
    }
}

/// The digits of a size field: the field itself, without a plus sign in
/// front where it has one.
pub open spec fn size_digits(s: Seq<u8>) -> Seq<u8> {
    if s.len() > 0 && s[0] == PLUS_SIGN {
        s.drop_first()
    } else {
        s
    }
}

/// The size that a field writes: one or more digits, a plus sign in front
/// allowed, and a value that fits the machine's `usize`. Anything else is no
/// size.
pub open spec fn parsed_size(s: Seq<u8>) -> Option<nat> {
    let digits = size_digits(s);
    if digits.len() > 0 && all_digits(digits) && digits_value(digits) <= usize::MAX {
        Some(digits_value(digits))
    } else {
        None
    }
}

/// A longer number is not smaller than the number that its first digits write.
pub proof fn lemma_digits_value_prefix(s: Seq<u8>, k: int)
    requires
        all_digits(s),
        0 <= k <= s.len(),
    ensures
        digits_value(s.take(k)) <= digits_value(s),
    decreases s.len() - k,
{
    if k < s.len() {
        lemma_digits_value_prefix(s, k + 1);
        assert(s.take(k + 1).drop_last() == s.take(k));
    } else {
        assert(s.take(k) == s);
    }
}

/// One more digit behind the first `k`: they are digits too, and their value
/// is ten times the value so far, plus the digit.
pub proof fn lemma_digits_value_step(s: Seq<u8>, k: int)
    requires
        0 <= k < s.len(),
        all_digits(s.take(k)),
        is_digit(s[k]),
    ensures
        all_digits(s.take(k + 1)),
        digits_value(s.take(k + 1)) == 10 * digits_value(s.take(k)) + (s[k] - DIGIT_ZERO),
{
    let next = s.take(k + 1);
    assert(next.drop_last() == s.take(k));
    assert forall|j: int| 0 <= j < next.len() implies is_digit(#[trigger] next[j]) by {
        if j < k {
            assert(next[j] == s.take(k)[j]);
        }
    }
}

/// Puts one more digit behind a number, where the result fits a `usize`.
pub fn append_digit(value: usize, digit: u8) -> (r: Option<usize>)
    requires
        digit <= 9,
    ensures
        r == if 10 * value + digit <= usize::MAX {
            Some((10 * value + digit) as usize)
        } else {
            None
        },
{
    match value.checked_mul(10) {
        Some(tens) => tens.checked_add(digit as usize),
        None => None,
    }
}

/// Reads a size field, as `parsed_size` says.
pub fn parse_size(field: &[u8]) -> (r: Option<usize>)
    ensures
        match r {
            Some(n) => parsed_size(field@) == Some(n as nat),
            None => parsed_size(field@) is None,
        },
{
    let len: usize = field.len();
    let first: usize = if len > 0 && field[0] == PLUS_SIGN {
        1
    } else {
        0
    };
    if first == len {
        return None;
    }
    let ghost digits = size_digits(field@);
    let mut value: usize = 0;
    let mut i: usize = first;
    proof {
        assert(digits == field@.skip(first as int));
        assert(digits.take(0) == Seq::<u8>::empty());
    }
    while i < len
        invariant
            len == field@.len(),
            first <= i <= len,
            digits == field@.skip(first as int),
            digits == size_digits(field@),
            all_digits(digits.take(i - first)),
            value == digits_value(digits.take(i - first)),
        decreases len - i,
    {
        let byte: u8 = field[i];
        if byte < DIGIT_ZERO || byte > DIGIT_NINE {
            proof {
                assert(digits[i - first] == byte);
            }
            return None;
        }
        proof {
            assert(digits[i - first] == byte);
            lemma_digits_value_step(digits, i - first);
        }
        match append_digit(value, byte - DIGIT_ZERO) {
            Some(next) => {
                value = next;
            },
            None => {
                proof {
                    if all_digits(digits) {
                        lemma_digits_value_prefix(digits, i - first + 1);
                    }
                }
                return None;
            },
        }
        i += 1;
    }
    proof {
        assert(digits.take(len - first) == digits);
    }
    Some(value)
}

/// Appends the decimal form of `n` to the buffer.
pub fn push_decimal(out: &mut Vec<u8>, n: usize)
    ensures
        final(out)@ == old(out)@ + decimal(n as nat),
    decreases n,
{
    if n >= 10 {
        push_decimal(out, n / 10);
    }
    let digit: u8 = (n % 10) as u8;
    out.push(DIGIT_ZERO + digit);
    proof {
        if n >= 10 {
            assert(old(out)@ + decimal(n as nat) == (old(out)@ + decimal(n as nat / 10)).push(
                (DIGIT_ZERO + n % 10) as u8,
            ));
        } else {
            assert(old(out)@ + decimal(n as nat) == old(out)@.push((DIGIT_ZERO + n) as u8));
        }
    }
}

} // verus!
