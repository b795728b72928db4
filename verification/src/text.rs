//! Text as a sequence of characters: searching, lines, trimming, and numbers.

use vstd::prelude::*;
use vstd::slice::{slice_subrange, slice_to_vec};
use vstd::utf8::{decode_utf8, encode_utf8, is_ascii_chars, valid_utf8};

verus! {

/// What `String::from_utf8_lossy` makes of a byte string.
pub uninterp spec fn lossy_text(bytes: Seq<u8>) -> Seq<char>;

/// `String::from_utf8_lossy`, made owned: the text of the bytes, where what is
/// not UTF-8 gives way to replacement characters. Bytes that are UTF-8 throughout
/// decode to the text that they encode.
#[verifier::external_body]
pub(crate) fn from_utf8_lossy(bytes: &[u8]) -> (text: String)
    ensures
        text@ == lossy_text(bytes@),
        valid_utf8(bytes@) ==> text@ == decode_utf8(bytes@),
{
    String::from_utf8_lossy(bytes).into_owned()
}

/// `String::push` appends the character.
pub assume_specification[ String::push ](s: &mut String, c: char)
    ensures
        final(s)@ == old(s)@.push(c),
;

/// The characters of bytes that are ASCII.
pub open spec fn ascii_text(bytes: Seq<u8>) -> Seq<char> {
    bytes.map_values(|b: u8| b as char)
}

/// ASCII bytes are UTF-8, and decode to themselves.
pub proof fn lemma_ascii_text(bytes: Seq<u8>)
    requires
        forall|i: int| 0 <= i < bytes.len() ==> #[trigger] bytes[i] < 0x80,
    ensures
        valid_utf8(bytes),
        decode_utf8(bytes) == ascii_text(bytes),
{
    let chars = ascii_text(bytes);
    assert(is_ascii_chars(chars));
    vstd::utf8::is_ascii_chars_encode_utf8(chars);
    assert(encode_utf8(chars) == bytes);
    vstd::utf8::encode_utf8_valid_utf8(chars);
    vstd::utf8::encode_utf8_decode_utf8(chars);
}

/// The characters of a string.
pub fn chars_of(text: &str) -> (chars: Vec<char>)
    ensures
        chars@ == text@,
{
    let mut chars: Vec<char> = Vec::new();
    for c in it: text.chars()
        invariant
            it.seq() == text@,
            chars@ == text@.take(it.index() as int),
    {
        chars.push(c);
    }
    chars
}

/// The string of the characters.
pub fn string_of(chars: &[char]) -> (text: String)
    ensures
        text@ == chars@,
{
    let mut text = String::new();
    let mut i: usize = 0;
    while i < chars.len()
        invariant
            i <= chars@.len(),
            text@ == chars@.take(i as int),
        decreases chars@.len() - i,
    {
        text.push(chars[i]);
        i += 1;
    }
    assert(chars@.take(chars@.len() as int) == chars@);
    text
}

// ---------------------------------------------------------------------------
// Comparing and searching
// ---------------------------------------------------------------------------

/// `needle` stands in `text` at `i`.
pub open spec fn stands_at<T>(text: Seq<T>, needle: Seq<T>, i: int) -> bool {
    0 <= i && i + needle.len() <= text.len() && text.subrange(i, i + needle.len()) == needle
}

/// `needle` stands somewhere in `text`.
pub open spec fn has_text(text: Seq<char>, needle: Seq<char>) -> bool {
    exists|i: int| stands_at(text, needle, i)
}

/// Whether `needle` stands in `text` at `i`.
pub fn char_match(text: &[char], needle: &[char], i: usize) -> (found: bool)
    ensures
        found == stands_at(text@, needle@, i as int),
{
    if i > text.len() || text.len() - i < needle.len() {
        return false;
    }
    let mut k: usize = 0;
    while k < needle.len()
        invariant
            i + needle@.len() <= text@.len() <= usize::MAX,
            k <= needle@.len(),
            forall|j: int| 0 <= j < k ==> text@[i + j] == #[trigger] needle@[j],
        decreases needle@.len() - k,
    {
        if text[i + k] != needle[k] {
            assert(text@.subrange(i as int, i + needle@.len())[k as int] != needle@[k as int]);
            return false;
        }
        k += 1;
    }
    assert(text@.subrange(i as int, i + needle@.len()) == needle@);
    true
}

/// Whether `needle` stands somewhere in `text`.
pub fn contains(text: &[char], needle: &str) -> (found: bool)
    ensures
        found == has_text(text@, needle@),
{
    let wanted: Vec<char> = chars_of(needle);
    let mut i: usize = 0;
    while i <= text.len() && text.len() - i >= wanted.len()
        invariant
            wanted@ == needle@,
            i <= text@.len() + 1,
            forall|j: int| 0 <= j < i ==> !stands_at(text@, needle@, j),
        decreases text@.len() + 1 - i,
    {
        if char_match(text, wanted.as_slice(), i) {
            return true;
        }
        if i == text.len() {
            assert forall|j: int| !stands_at(text@, needle@, j) by {}
            return false;
        }
        i += 1;
    }
    assert forall|j: int| !stands_at(text@, needle@, j) by {}
    false
}

/// Whether two strings are the same text.
pub fn same_text(a: &str, b: &str) -> (same: bool)
    ensures
        same == (a@ == b@),
{
    let a: Vec<char> = chars_of(a);
    let b: Vec<char> = chars_of(b);
    if a.len() != b.len() {
        return false;
    }
    let same = char_match(a.as_slice(), b.as_slice(), 0);
    assert(a@.subrange(0, a@.len() as int) == a@);
    same
}

/// Whether `text` begins with `prefix`.
pub fn starts_with(text: &str, prefix: &str) -> (yes: bool)
    ensures
        yes == stands_at(text@, prefix@, 0),
{
    let text: Vec<char> = chars_of(text);
    let prefix: Vec<char> = chars_of(prefix);
    char_match(text.as_slice(), prefix.as_slice(), 0)
}

// ---------------------------------------------------------------------------
// Lines
// ---------------------------------------------------------------------------

/// Index of the first newline of `text` at or after `from`, or the length of the
/// text where there is none.
pub open spec fn newline_from(text: Seq<char>, from: int) -> int
    decreases text.len() - from,
{
    if from < 0 || from >= text.len() {
        text.len() as int
    } else if text[from] == '\n' {
        from
    } else {
        newline_from(text, from + 1)
    }
}

/// A line without the carriage return that belongs to its ending.
pub open spec fn without_cr(line: Seq<char>) -> Seq<char> {
    if line.len() > 0 && line.last() == '\r' {
        line.drop_last()
    } else {
        line
    }
}

/// The lines of `text` from `from` on. A line ends at a newline, or at a carriage
/// return and newline; the ending is no part of it. The ending of the last line
/// may be missing.
pub open spec fn lines_from(text: Seq<char>, from: int) -> Seq<Seq<char>>
    decreases text.len() - from,
{
    if from < 0 || from >= text.len() {
        Seq::empty()
    } else {
        proof {
            lemma_newline_from(text, from);
        }
        let end = newline_from(text, from);
        if end >= text.len() {
            seq![text.subrange(from, text.len() as int)]
        } else {
            seq![without_cr(text.subrange(from, end))] + lines_from(text, end + 1)
        }
    }
}

/// The lines of a text.
pub open spec fn lines(text: Seq<char>) -> Seq<Seq<char>> {
    lines_from(text, 0)
}

/// The newline lies where it was looked for.
pub proof fn lemma_newline_from(text: Seq<char>, from: int)
    requires
        0 <= from,
    ensures
        newline_from(text, from) <= text.len(),
        from <= text.len() ==> from <= newline_from(text, from),
        newline_from(text, from) < text.len() ==> text[newline_from(text, from)] == '\n',
        forall|i: int| from <= i < newline_from(text, from) ==> #[trigger] text[i] != '\n',
    decreases text.len() - from,
{
    if from < text.len() && text[from] != '\n' {
        lemma_newline_from(text, from + 1);
    }
}

/// Split a text into its lines.
pub fn split_lines(text: &[char]) -> (split: Vec<Vec<char>>)
    ensures
        split@.map_values(|l: Vec<char>| l@) == lines(text@),
{
    let mut split: Vec<Vec<char>> = Vec::new();
    let mut from: usize = 0;
    assert(text@.len() == text.len());
    assert(split@.map_values(|l: Vec<char>| l@) + lines_from(text@, 0) == lines(text@));
    while from < text.len()
        invariant
            from <= text@.len() <= usize::MAX,
            split@.map_values(|l: Vec<char>| l@) + lines_from(text@, from as int) == lines(text@),
        decreases text@.len() - from,
    {
        let ghost done = split@.map_values(|l: Vec<char>| l@);
        proof {
            lemma_newline_from(text@, from as int);
        }
        let mut end: usize = from;
        while end < text.len() && text[end] != '\n'
            invariant
                from <= end <= text@.len(),
                newline_from(text@, from as int) == newline_from(text@, end as int),
            decreases text@.len() - end,
        {
            end += 1;
        }
        assert(end == newline_from(text@, from as int));
        if end == text.len() {
            split.push(slice_to_vec(slice_subrange(text, from, end)));
            assert(split@.map_values(|l: Vec<char>| l@) == done + lines_from(text@, from as int));
            return split;
        }
        let cut: usize = if end > from && text[end - 1] == '\r' { end - 1 } else { end };
        let line = slice_to_vec(slice_subrange(text, from, cut));
        assert(line@ == without_cr(text@.subrange(from as int, end as int)));
        split.push(line);
        assert(split@.map_values(|l: Vec<char>| l@) == done.push(line@));
        assert(done.push(line@) + lines_from(text@, end + 1) == done + (seq![line@] + lines_from(
            text@,
            end + 1,
        )));
        from = end + 1;
    }
    assert(split@.map_values(|l: Vec<char>| l@) + lines_from(text@, from as int)
        == split@.map_values(|l: Vec<char>| l@));
    split
}

// ---------------------------------------------------------------------------
// White space
// ---------------------------------------------------------------------------

/// The character has the Unicode property `White_Space`.
pub open spec fn is_white_space(c: char) -> bool {
    ||| '\u{9}' <= c <= '\u{d}'
    ||| c == ' '
    ||| c == '\u{85}'
    ||| c == '\u{a0}'
    ||| c == '\u{1680}'
    ||| '\u{2000}' <= c <= '\u{200a}'
    ||| c == '\u{2028}'
    ||| c == '\u{2029}'
    ||| c == '\u{202f}'
    ||| c == '\u{205f}'
    ||| c == '\u{3000}'
}

/// A text without the white space at its end.
pub open spec fn trimmed_end(text: Seq<char>) -> Seq<char>
    decreases text.len(),
{
    if text.len() > 0 && is_white_space(text.last()) {
        trimmed_end(text.drop_last())
    } else {
        text
    }
}

/// A text without the white space at its beginning.
pub open spec fn trimmed_start(text: Seq<char>) -> Seq<char>
    decreases text.len(),
{
    if text.len() > 0 && is_white_space(text[0]) {
        trimmed_start(text.drop_first())
    } else {
        text
    }
}

/// Whether the character is white space.
pub fn white_space(c: char) -> (yes: bool)
    ensures
        yes == is_white_space(c),
{
    ('\u{9}' <= c && c <= '\u{d}') || c == ' ' || c == '\u{85}' || c == '\u{a0}' || c == '\u{1680}'
        || ('\u{2000}' <= c && c <= '\u{200a}') || c == '\u{2028}' || c == '\u{2029}' || c
        == '\u{202f}' || c == '\u{205f}' || c == '\u{3000}'
}

/// The text without the white space at its end.
pub fn trim_end(text: &[char]) -> (trimmed: &[char])
    ensures
        trimmed@ == trimmed_end(text@),
{
    let mut end: usize = text.len();
    assert(text@.take(end as int) == text@);
    while end > 0 && white_space(text[end - 1])
        invariant
            end <= text@.len(),
            trimmed_end(text@) == trimmed_end(text@.take(end as int)),
        decreases end,
    {
        assert(text@.take(end as int).drop_last() == text@.take(end - 1));
        end -= 1;
    }
    slice_subrange(text, 0, end)
}

/// The text without the white space at its beginning.
pub fn trim_start(text: &[char]) -> (trimmed: &[char])
    ensures
        trimmed@ == trimmed_start(text@),
{
    let mut from: usize = 0;
    assert(text@.skip(0) == text@);
    while from < text.len() && white_space(text[from])
        invariant
            from <= text@.len(),
            trimmed_start(text@) == trimmed_start(text@.skip(from as int)),
        decreases text@.len() - from,
    {
        assert(text@.skip(from as int).drop_first() == text@.skip(from + 1));
        from += 1;
    }
    slice_subrange(text, from, text.len())
}

// ---------------------------------------------------------------------------
// Numbers
// ---------------------------------------------------------------------------

/// The decimal digit for a value below ten.
pub open spec fn digit_char(value: nat) -> char {
    (0x30 + value) as char
}

/// The lower-case hexadecimal digit for a value below sixteen.
pub open spec fn hex_char(value: nat) -> char {
    if value < 10 {
        (0x30 + value) as char
    } else {
        (0x57 + value) as char
    }
}

/// A number in decimal, without leading zeros.
pub open spec fn decimal(n: nat) -> Seq<char>
    decreases n,
{
    if n < 10 {
        seq![digit_char(n)]
    } else {
        decimal(n / 10).push(digit_char(n % 10))
    }
}

/// A number in lower-case hexadecimal, without leading zeros.
pub open spec fn hex(n: nat) -> Seq<char>
    decreases n,
{
    if n < 16 {
        seq![hex_char(n)]
    } else {
        hex(n / 16).push(hex_char(n % 16))
    }
}

/// The bytes as two hexadecimal digits each.
pub open spec fn hex_bytes(bytes: Seq<u8>) -> Seq<char>
    decreases bytes.len(),
{
    if bytes.len() == 0 {
        Seq::empty()
    } else {
        hex_bytes(bytes.drop_last()).push(hex_char((bytes.last() / 16) as nat)).push(
            hex_char((bytes.last() % 16) as nat),
        )
    }
}

/// The hexadecimal digit for `value`.
pub fn hex_digit(value: u8) -> (digit: char)
    requires
        value < 16,
    ensures
        digit == hex_char(value as nat),
{
    if value < 10 {
        (0x30 + value) as char
    } else {
        (0x57 + value) as char
    }
}

/// Append `n` in decimal.
pub fn push_decimal(out: &mut String, n: u128)
    ensures
        final(out)@ == old(out)@ + decimal(n as nat),
    decreases n,
{
    if n >= 10 {
        push_decimal(out, n / 10);
    }
    let digit: u8 = (n % 10) as u8;
    out.push((0x30 + digit) as char);
    assert(out@ == old(out)@ + decimal(n as nat));
}

/// Append `n` in lower-case hexadecimal.
pub fn push_hex(out: &mut String, n: u64)
    ensures
        final(out)@ == old(out)@ + hex(n as nat),
    decreases n,
{
    if n >= 16 {
        push_hex(out, n / 16);
    }
    out.push(hex_digit((n % 16) as u8));
    assert(out@ == old(out)@ + hex(n as nat));
}

/// The bytes in lower-case hexadecimal.
pub fn hex_of_bytes(bytes: &[u8]) -> (out: String)
    ensures
        out@ == hex_bytes(bytes@),
{
    let mut out = String::new();
    let mut i: usize = 0;
    while i < bytes.len()
        invariant
            i <= bytes@.len(),
            out@ == hex_bytes(bytes@.take(i as int)),
        decreases bytes@.len() - i,
    {
        assert(bytes@.take(i + 1).drop_last() == bytes@.take(i as int));
        out.push(hex_digit(bytes[i] / 16));
        out.push(hex_digit(bytes[i] % 16));
        i += 1;
    }
    assert(bytes@.take(bytes@.len() as int) == bytes@);
    out
}

/// The character is a decimal digit.
pub open spec fn is_digit(c: char) -> bool {
    '0' <= c <= '9'
}

/// Every character is a decimal digit.
pub open spec fn all_digits(text: Seq<char>) -> bool {
    forall|i: int| 0 <= i < text.len() ==> is_digit(#[trigger] text[i])
}

/// The number that decimal digits stand for.
pub open spec fn digits_value(digits: Seq<char>) -> int
    decreases digits.len(),
{
    if digits.len() == 0 {
        0
    } else {
        10 * digits_value(digits.drop_last()) + (digits.last() as int - 0x30)
    }
}

/// The digits of a number: what follows the optional plus sign.
pub open spec fn unsigned_digits(text: Seq<char>) -> Seq<char> {
    if text.len() > 0 && text[0] == '+' {
        text.drop_first()
    } else {
        text
    }
}

/// The number that a text stands for: an optional plus sign followed by decimal
/// digits only, at least one.
pub open spec fn unsigned_number(text: Seq<char>) -> Option<int> {
    let digits = unsigned_digits(text);
    if digits.len() > 0 && all_digits(digits) {
        Some(digits_value(digits))
    } else {
        None
    }
}

/// Digits that follow only make the number larger.
proof fn lemma_digits_value_grows(digits: Seq<char>, n: int)
    requires
        all_digits(digits),
        0 <= n <= digits.len(),
    ensures
        0 <= digits_value(digits.take(n)) <= digits_value(digits),
    decreases digits.len(),
{
    if n == digits.len() {
        assert(digits.take(n) == digits);
        if digits.len() > 0 {
            assert(is_digit(digits[digits.len() - 1]));
            lemma_digits_value_grows(digits.drop_last(), digits.len() - 1);
            assert(digits.drop_last().take(digits.len() - 1) == digits.drop_last());
        }
    } else {
        let front = digits.drop_last();
        lemma_digits_value_grows(front, n);
        assert(front.take(n) == digits.take(n));
        assert(is_digit(digits[digits.len() - 1]));
    }
}

/// Read an unsigned number that is at most `max`.
pub fn parse_unsigned(text: &str, max: u64) -> (number: Option<u64>)
    ensures
        match number {
            Some(n) => unsigned_number(text@) == Some(n as int) && n <= max,
            None => unsigned_number(text@) is None || unsigned_number(text@)->0 > max,
        },
{
    let chars: Vec<char> = chars_of(text);
    let from: usize = if chars.len() > 0 && chars[0] == '+' { 1 } else { 0 };
    let ghost digits = unsigned_digits(text@);
    assert(chars@.skip(from as int) == digits);
    if from == chars.len() {
        return None;
    }
    let mut value: u64 = 0;
    let mut i: usize = from;
    while i < chars.len()
        invariant
            from <= i <= chars@.len(),
            digits == unsigned_digits(text@),
            digits == chars@.skip(from as int),
            digits.len() > 0,
            value <= max,
            all_digits(digits.take(i - from)),
            value == digits_value(digits.take(i - from)),
        decreases chars@.len() - i,
    {
        let c = chars[i];
        assert(c == digits[i - from]);
        if c < '0' || c > '9' {
            return None;
        }
        let digit: u64 = (c as u32 - 0x30) as u64;
        assert(digits.take(i - from + 1).drop_last() == digits.take(i - from));
        assert(digits.take(i - from + 1).last() == c);
        assert(digits_value(digits.take(i - from + 1)) == 10 * value + digit);
        if value > max / 10 || max - 10 * value < digit {
            proof {
                if all_digits(digits) {
                    lemma_digits_value_grows(digits, i - from + 1);
                }
            }
            return None;
        }
        value = 10 * value + digit;
        assert forall|k: int| 0 <= k < i - from + 1 implies is_digit(
            #[trigger] digits.take(i - from + 1)[k],
        ) by {
            if k < i - from {
                assert(digits.take(i - from)[k] == digits[k]);
            }
        }
        i += 1;
    }
    assert(digits.take(digits.len() as int) == digits);
    Some(value)
}

/// Different byte strings have different hexadecimal texts, of two digits for each
/// byte.
pub proof fn law_hex_bytes_injective(a: Seq<u8>, b: Seq<u8>)
    ensures
        hex_bytes(a).len() == 2 * a.len(),
        hex_bytes(a) == hex_bytes(b) ==> a == b,
    decreases a.len(),
{
    lemma_hex_bytes_len(a);
    lemma_hex_bytes_len(b);
    if hex_bytes(a) == hex_bytes(b) {
        assert(a.len() == b.len());
        if a.len() > 0 {
            let x = hex_bytes(a);
            let y = hex_bytes(b);
            let (fa, fb) = (a.drop_last(), b.drop_last());
            assert(x.drop_last().drop_last() == hex_bytes(fa));
            assert(y.drop_last().drop_last() == hex_bytes(fb));
            law_hex_bytes_injective(fa, fb);
            assert(x[x.len() - 1] == hex_char((a.last() % 16) as nat));
            assert(y[y.len() - 1] == hex_char((b.last() % 16) as nat));
            assert(x[x.len() - 2] == hex_char((a.last() / 16) as nat));
            assert(y[y.len() - 2] == hex_char((b.last() / 16) as nat));
            lemma_hex_char_injective((a.last() % 16) as nat, (b.last() % 16) as nat);
            lemma_hex_char_injective((a.last() / 16) as nat, (b.last() / 16) as nat);
            assert(a.last() == b.last());
            assert(a == fa.push(a.last()));
            assert(b == fb.push(b.last()));
        } else {
            assert(a == b);
        }
    }
}

proof fn lemma_hex_bytes_len(a: Seq<u8>)
    ensures
        hex_bytes(a).len() == 2 * a.len(),
    decreases a.len(),
{
    if a.len() > 0 {
        lemma_hex_bytes_len(a.drop_last());
    }
}

proof fn lemma_hex_char_injective(a: nat, b: nat)
    requires
        a < 16,
        b < 16,
        hex_char(a) == hex_char(b),
    ensures
        a == b,
{
}

// ---------------------------------------------------------------------------
// Laws
// ---------------------------------------------------------------------------

/// A text holds another exactly where the other begins what is left of it behind some
/// place; and so it does wherever it was put.
pub proof fn law_found_text(text: Seq<char>, needle: Seq<char>, front: Seq<char>, back: Seq<char>)
    ensures
        has_text(text, needle) <==> exists|i: int|
            0 <= i <= text.len() && needle.is_prefix_of(#[trigger] text.skip(i)),
        has_text(front + needle + back, needle),
{
    if has_text(text, needle) {
        let i = choose|i: int| stands_at(text, needle, i);
        assert(text.skip(i).subrange(0, needle.len() as int) =~= text.subrange(
            i,
            i + needle.len(),
        ));
        assert(needle.is_prefix_of(text.skip(i)));
    }
    if exists|i: int| 0 <= i <= text.len() && needle.is_prefix_of(#[trigger] text.skip(i)) {
        let i = choose|i: int| 0 <= i <= text.len() && needle.is_prefix_of(#[trigger] text.skip(i));
        assert(text.skip(i).subrange(0, needle.len() as int) =~= text.subrange(
            i,
            i + needle.len(),
        ));
        assert(stands_at(text, needle, i));
    }
    let whole = front + needle + back;
    assert(whole.subrange(front.len() as int, (front.len() + needle.len()) as int) =~= needle);
    assert(stands_at(whole, needle, front.len() as int));
}

/// The bytes or characters of a sequence that stands in another are those of it.
pub proof fn law_stands_at<T>(text: Seq<T>, needle: Seq<T>, i: int)
    ensures
        stands_at(text, needle, i) <==> {
            &&& 0 <= i
            &&& i + needle.len() <= text.len()
            &&& forall|j: int| 0 <= j < needle.len() ==> text[i + j] == #[trigger] needle[j]
        },
{
    if 0 <= i && i + needle.len() <= text.len() {
        let part = text.subrange(i, i + needle.len());
        if forall|j: int| 0 <= j < needle.len() ==> text[i + j] == #[trigger] needle[j] {
            assert(part =~= needle);
        }
        if stands_at(text, needle, i) {
            assert forall|j: int| 0 <= j < needle.len() implies text[i + j]
                == #[trigger] needle[j] by {
                assert(part[j] == needle[j]);
            }
        }
    }
}

/// The text of ASCII bytes has the bytes as its characters.
pub proof fn law_ascii_text(bytes: Seq<u8>, i: int)
    requires
        0 <= i < bytes.len(),
        bytes[i] < 0x80,
    ensures
        ascii_text(bytes).len() == bytes.len(),
        ascii_text(bytes)[i] as int == bytes[i],
{
}

/// The lines of a text are what stands between its newlines: a line is followed by
/// the lines of what follows its newline, a carriage return before the newline
/// belongs to the ending, and a last line needs no newline.
pub proof fn law_line_by_line(line: Seq<char>, rest: Seq<char>)
    requires
        !line.contains('\n'),
    ensures
        lines(Seq::<char>::empty()) == Seq::<Seq<char>>::empty(),
        line.len() > 0 ==> lines(line) == seq![line],
        line.len() == 0 || line[line.len() - 1] != '\r' ==> lines(line + seq!['\n'] + rest)
            == seq![line] + lines(rest),
        lines(line + seq!['\r', '\n'] + rest) == seq![line] + lines(rest),
{
    lemma_first_line(line, line, Seq::empty());
    assert(line + Seq::empty() =~= line);
    if line.len() > 0 {
        assert(newline_from(line, 0) == line.len()) by {
            lemma_newline_from(line, 0);
            if newline_from(line, 0) < line.len() {
                assert(line[newline_from(line, 0)] == '\n');
            }
        }
        assert(line.subrange(0, line.len() as int) =~= line);
    }
    let plain = line + seq!['\n'] + rest;
    assert(plain =~= line + (seq!['\n'] + rest));
    lemma_first_line(plain, line, seq!['\n'] + rest);
    if line.len() == 0 || line[line.len() - 1] != '\r' {
        assert(plain[line.len() as int] == '\n');
        assert(without_cr(line) == line);
        lemma_lines_shift(line + seq!['\n'], rest, 0);
        assert(lines(plain) =~= seq![line] + lines(rest));
    }
    let returned = line.push('\r');
    let whole = line + seq!['\r', '\n'] + rest;
    assert(whole =~= returned + (seq!['\n'] + rest));
    assert(!returned.contains('\n')) by {
        if returned.contains('\n') {
            let i = choose|i: int| 0 <= i < returned.len() && returned[i] == '\n';
            assert(line[i] == '\n');
        }
    }
    lemma_first_line(whole, returned, seq!['\n'] + rest);
    assert(whole[returned.len() as int] == '\n');
    assert(without_cr(returned) =~= line);
    assert(whole =~= (returned + seq!['\n']) + rest);
    lemma_lines_shift(returned + seq!['\n'], rest, 0);
    assert(lines(whole) =~= seq![line] + lines(rest));
}

/// The first newline of a text that begins with a line of its own.
proof fn lemma_first_line(text: Seq<char>, line: Seq<char>, back: Seq<char>)
    requires
        text == line + back,
        !line.contains('\n'),
        back.len() > 0 ==> back[0] == '\n',
    ensures
        newline_from(text, 0) == line.len(),
        text.subrange(0, line.len() as int) == line,
{
    lemma_newline_from(text, 0);
    let n = newline_from(text, 0);
    if n < line.len() {
        assert(line[n] == '\n');
    }
    if n > line.len() {
        assert(text[line.len() as int] == '\n');
    }
    assert(text.subrange(0, line.len() as int) =~= line);
}

proof fn lemma_newline_shift(front: Seq<char>, text: Seq<char>, from: int)
    requires
        0 <= from <= text.len(),
    ensures
        newline_from(front + text, front.len() + from) == front.len() + newline_from(text, from),
    decreases text.len() - from,
{
    if from < text.len() && text[from] != '\n' {
        lemma_newline_shift(front, text, from + 1);
    }
}

/// The lines from a place on do not depend on what stands before it.
proof fn lemma_lines_shift(front: Seq<char>, text: Seq<char>, from: int)
    requires
        0 <= from <= text.len(),
    ensures
        lines_from(front + text, front.len() + from) == lines_from(text, from),
    decreases text.len() - from,
{
    let whole = front + text;
    if from < text.len() {
        lemma_newline_shift(front, text, from);
        lemma_newline_from(text, from);
        let end = newline_from(text, from);
        assert(whole.subrange(front.len() + from, front.len() + end) =~= text.subrange(from, end));
        if end < text.len() {
            lemma_lines_shift(front, text, end + 1);
        }
    }
}

/// White space is the Unicode property `White_Space`, code point by code point.
pub proof fn law_white_space(c: char)
    ensures
        is_white_space(c) <==> {
            let n = c as int;
            ||| 9 <= n <= 13
            ||| n == 32
            ||| n == 133
            ||| n == 160
            ||| n == 5760
            ||| 8192 <= n <= 8202
            ||| n == 8232
            ||| n == 8233
            ||| n == 8239
            ||| n == 8287
            ||| n == 12288
        },
{
}

/// Trimming takes away white space and nothing else: a text that ends, or begins,
/// with another character comes back from any white space that was put there.
pub proof fn law_trimming(text: Seq<char>, spaces: Seq<char>)
    requires
        forall|i: int| 0 <= i < spaces.len() ==> is_white_space(#[trigger] spaces[i]),
    ensures
        text.len() == 0 || !is_white_space(text[text.len() - 1]) ==> trimmed_end(text + spaces)
            == text,
        text.len() == 0 || !is_white_space(text[0]) ==> trimmed_start(spaces + text) == text,
    decreases spaces.len(),
{
    if spaces.len() == 0 {
        assert(text + spaces =~= text);
        assert(spaces + text =~= text);
    } else {
        let front = spaces.drop_last();
        assert forall|i: int| 0 <= i < front.len() implies is_white_space(#[trigger] front[i]) by {
            assert(front[i] == spaces[i]);
        }
        law_trimming(text, front);
        assert(is_white_space(spaces[spaces.len() - 1]));
        assert((text + spaces).drop_last() =~= text + front);
        assert((text + spaces).last() == spaces.last());
        let back = spaces.drop_first();
        assert forall|i: int| 0 <= i < back.len() implies is_white_space(#[trigger] back[i]) by {
            assert(back[i] == spaces[i + 1]);
        }
        law_trimming(text, back);
        assert(is_white_space(spaces[0]));
        assert((spaces + text).drop_first() =~= back + text);
    }
}

/// Numbers are written in decimal: a digit below ten stands for itself, and one more
/// digit makes ten times the number and the digit.
pub proof fn law_decimal(n: nat, d: nat)
    requires
        d < 10,
    ensures
        decimal(d) == seq![(48 + d) as char],
        n > 0 ==> decimal(10 * n + d) == decimal(n).push((48 + d) as char),
{
    if n > 0 {
        assert((10 * n + d) / 10 == n);
        assert((10 * n + d) % 10 == d);
    }
}

/// Numbers are written in lower-case hexadecimal, by the same rule in base sixteen.
pub proof fn law_hexadecimal(n: nat, d: nat)
    requires
        d < 16,
    ensures
        d < 10 ==> hex(d) == seq![(48 + d) as char],
        d >= 10 ==> hex(d) == seq![(87 + d) as char],
        n > 0 ==> hex(16 * n + d) == hex(n) + hex(d),
{
    if n > 0 {
        assert((16 * n + d) / 16 == n);
        assert((16 * n + d) % 16 == d);
        assert(hex(n) + hex(d) =~= hex(n).push(hex_char(d)));
    }
}

/// The hexadecimal text of bytes has the two digits of each byte, the high one first.
pub proof fn law_hex_bytes(bytes: Seq<u8>, i: int)
    requires
        0 <= i < bytes.len(),
    ensures
        hex_bytes(bytes).len() == 2 * bytes.len(),
        ({
            let high = hex_bytes(bytes)[2 * i] as int;
            let low = hex_bytes(bytes)[2 * i + 1] as int;
            let of = |c: int| if c < 58 {
                c - 48
            } else {
                c - 87
            };
            &&& 48 <= high <= 57 || 97 <= high <= 102
            &&& 48 <= low <= 57 || 97 <= low <= 102
            &&& bytes[i] == 16 * of(high) + of(low)
        }),
    decreases bytes.len(),
{
    lemma_hex_bytes_len(bytes);
    lemma_hex_bytes_len(bytes.drop_last());
    if i < bytes.len() - 1 {
        law_hex_bytes(bytes.drop_last(), i);
        assert(hex_bytes(bytes)[2 * i] == hex_bytes(bytes.drop_last())[2 * i]);
        assert(hex_bytes(bytes)[2 * i + 1] == hex_bytes(bytes.drop_last())[2 * i + 1]);
    }
}

/// A written number reads back as itself, with a plus sign and with any zeros before
/// it too.
pub proof fn law_number_reads_back(n: nat, zeros: Seq<char>)
    requires
        forall|i: int| 0 <= i < zeros.len() ==> #[trigger] zeros[i] == '0',
    ensures
        unsigned_number(zeros + decimal(n)) == Some(n as int),
        unsigned_number(seq!['+'] + (zeros + decimal(n))) == Some(n as int),
{
    lemma_decimal_digits(n);
    lemma_zeros_before(zeros, decimal(n));
    let text = zeros + decimal(n);
    assert(text[0] != '+') by {
        if zeros.len() == 0 {
            assert(text[0] == decimal(n)[0]);
            assert(is_digit(decimal(n)[0]));
        } else {
            assert(text[0] == zeros[0]);
        }
    }
    assert((seq!['+'] + text).drop_first() =~= text);
}

/// What is no number: nothing at all, a lone sign, and any text with a character
/// other than a digit, but for a plus sign at its beginning.
pub proof fn law_no_number(text: Seq<char>)
    ensures
        unsigned_number(text) is None <==> {
            ||| text.len() == 0
            ||| text.len() == 1 && text[0] == '+'
            ||| exists|i: int|
                0 <= i < text.len() && !(48 <= #[trigger] text[i] as int <= 57) && !(i == 0
                    && text[i] == '+')
        },
{
    let digits = unsigned_digits(text);
    if exists|i: int|
        0 <= i < text.len() && !(48 <= #[trigger] text[i] as int <= 57) && !(i == 0 && text[i]
            == '+') {
        let i = choose|i: int|
            0 <= i < text.len() && !(48 <= #[trigger] text[i] as int <= 57) && !(i == 0 && text[i]
                == '+');
        if text[0] == '+' {
            assert(digits[i - 1] == text[i]);
        } else {
            assert(digits[i] == text[i]);
        }
    } else if digits.len() > 0 {
        assert forall|k: int| 0 <= k < digits.len() implies is_digit(#[trigger] digits[k]) by {
            if text[0] == '+' {
                assert(digits[k] == text[k + 1]);
            } else {
                assert(digits[k] == text[k]);
            }
        }
    }
}

proof fn lemma_decimal_digits(n: nat)
    ensures
        decimal(n).len() > 0,
        all_digits(decimal(n)),
        digits_value(decimal(n)) == n,
    decreases n,
{
    if n >= 10 {
        lemma_decimal_digits(n / 10);
        let front = decimal(n / 10);
        assert(decimal(n).drop_last() =~= front);
        assert forall|i: int| 0 <= i < decimal(n).len() implies is_digit(
            #[trigger] decimal(n)[i],
        ) by {
            if i < front.len() {
                assert(decimal(n)[i] == front[i]);
            }
        }
    } else {
        assert(decimal(n).drop_last() =~= Seq::<char>::empty());
        assert(digits_value(decimal(n).drop_last()) == 0);
    }
}

proof fn lemma_zeros_before(zeros: Seq<char>, digits: Seq<char>)
    requires
        forall|i: int| 0 <= i < zeros.len() ==> #[trigger] zeros[i] == '0',
        all_digits(digits),
    ensures
        all_digits(zeros + digits),
        digits_value(zeros + digits) == digits_value(digits),
    decreases zeros.len() + digits.len(),
{
    let all = zeros + digits;
    assert forall|i: int| 0 <= i < all.len() implies is_digit(#[trigger] all[i]) by {
        if i < zeros.len() {
            assert(all[i] == zeros[i]);
        } else {
            assert(all[i] == digits[i - zeros.len()]);
        }
    }
    if digits.len() > 0 {
        let front = digits.drop_last();
        assert forall|i: int| 0 <= i < front.len() implies is_digit(#[trigger] front[i]) by {
            assert(front[i] == digits[i]);
        }
        lemma_zeros_before(zeros, front);
        assert(all.drop_last() =~= zeros + front);
        assert(all.last() == digits.last());
    } else if zeros.len() > 0 {
        let front = zeros.drop_last();
        assert forall|i: int| 0 <= i < front.len() implies #[trigger] front[i] == '0' by {
            assert(front[i] == zeros[i]);
        }
        lemma_zeros_before(front, digits);
        assert(all.drop_last() =~= front + digits);
        assert(all.last() == zeros[zeros.len() - 1]);
    }
}

} // verus!
