//! Decimal numbers and plain text helpers.

use vstd::prelude::*;

verus! {

/// Gives `String::push` its documented meaning: the character is appended to
/// the end of the string.
pub assume_specification[ String::push ](string: &mut String, ch: char)
    ensures
        final(string)@ == old(string)@.push(ch),
;

/// Gives `String::push_str` its documented meaning: the given slice is
/// appended to the end of the string.
pub assume_specification[ String::push_str ](string: &mut String, text: &str)
    ensures
        final(string)@ == old(string)@ + text@,
;

/// Gives `String::clear` its documented meaning: all contents are removed.
pub assume_specification[ String::clear ](string: &mut String)
    ensures
        final(string)@ == Seq::<char>::empty(),
;

/// Calls `String::from_utf8`. Claimed, as its documentation says: the bytes
/// become a string exactly where they are valid UTF-8, and the string is the one
/// that they encode.
#[verifier::external_body]
pub(crate) fn text_from_utf8(bytes: Vec<u8>) -> (res: Option<String>)
    ensures
        res is Some <==> vstd::utf8::valid_utf8(bytes@),
        res matches Some(text) ==> text@ == vstd::utf8::decode_utf8(bytes@),
{
    String::from_utf8(bytes).ok()
}

/// The decimal digit character of a value below ten.
pub open spec fn digit_char(d: nat) -> char {
    (48 + d) as char
}

/// The decimal notation of a natural number, without leading zeros.
pub open spec fn decimal(n: nat) -> Seq<char>
    decreases n,
{
    if n < 10 {
        seq![digit_char(n)]
    } else {
        decimal(n / 10).push(digit_char(n % 10))
    }
}

/// Writes a number in decimal notation.
pub fn decimal_text(n: u128) -> (res: String)
    ensures
        res@ == decimal(n as nat),
    decreases n,
{
    let mut text = if n < 10 {
        String::new()
    } else {
        decimal_text(n / 10)
    };
    let digit: u8 = (n % 10) as u8;
    text.push((48 + digit) as char);
    text
}

/// The decimal notation of an integer.
pub open spec fn signed_decimal(n: int) -> Seq<char> {
    if n < 0 {
        seq!['-'] + decimal((-n) as nat)
    } else {
        decimal(n as nat)
    }
}

/// Writes an integer in decimal notation.
pub fn signed_decimal_text(n: i64) -> (res: String)
    ensures
        res@ == signed_decimal(n as int),
{
    if n < 0 {
        let mut text = String::new();
        text.push('-');
        let magnitude: u128 = (-(n as i128)) as u128;
        text.push_str(decimal_text(magnitude).as_str());
        text
    } else {
        decimal_text(n as u128)
    }
}

/// Collects the characters of a string.
pub fn chars_of(s: &str) -> (res: Vec<char>)
    ensures
        res@ == s@,
{
    let mut res: Vec<char> = Vec::new();
    for c in it: s.chars()
        invariant
            res@ == it.seq().take(it.index()),
    {
        res.push(c);
    }
    res
}

/// Builds a string from characters.
pub fn string_of(chars: &[char]) -> (res: String)
    ensures
        res@ == chars@,
{
    let mut res = String::new();
    let mut i: usize = 0;
    while i < chars.len()
        invariant
            i <= chars@.len(),
            res@ == chars@.take(i as int),
        decreases chars@.len() - i,
    {
        res.push(chars[i]);
        i = i + 1;
        proof {
            assert(chars@.take(i as int) =~= chars@.take(i - 1).push(chars@[i - 1]));
        }
    }
    proof {
        assert(chars@.take(i as int) =~= chars@);
    }
    res
}

/// Compares two byte slices.
pub fn same_bytes(a: &[u8], b: &[u8]) -> (res: bool)
    ensures
        res == (a@ == b@),
{
    if a.len() != b.len() {
        return false;
    }
    let mut i: usize = 0;
    while i < a.len()
        invariant
            i <= a@.len(),
            a@.len() == b@.len(),
            forall|j: int| 0 <= j < i ==> a@[j] == b@[j],
        decreases a@.len() - i,
    {
        if a[i] != b[i] {
            return false;
        }
        i = i + 1;
    }
    proof {
        assert(a@ =~= b@);
    }
    true
}

/// Compares two strings.
pub fn same_text(a: &str, b: &str) -> (res: bool)
    ensures
        res == (a@ == b@),
{
    proof {
        vstd::utf8::encode_utf8_decode_utf8(a@);
        vstd::utf8::encode_utf8_decode_utf8(b@);
    }
    same_bytes(a.as_bytes(), b.as_bytes())
}

/// Why a text is not a number that fits the machine word.
#[derive(Debug, Clone, Copy, PartialEq, Eq, Structural)]
pub enum NumberError {
    /// There is no text.
    Empty,
    /// A character is not a decimal digit.
    InvalidDigit,
    /// The number is too large.
    TooLarge,
}

impl NumberError {
    /// The message of this error.
    pub open spec fn message(self) -> Seq<char> {
        match self {
            NumberError::Empty => "cannot parse integer from empty string"@,
            NumberError::InvalidDigit => "invalid digit found in string"@,
            NumberError::TooLarge => "number too large to fit in target type"@,
        }
    }

    /// Renders the message of this error.
    pub fn to_text(&self) -> (res: String)
        ensures
            res@ == self.message(),
    {
        match self {
            NumberError::Empty => "cannot parse integer from empty string".to_owned(),
            NumberError::InvalidDigit => "invalid digit found in string".to_owned(),
            NumberError::TooLarge => "number too large to fit in target type".to_owned(),
        }
    }
}

/// Whether a character is an ASCII decimal digit.
pub open spec fn is_digit(c: char) -> bool {
    '0' <= c <= '9'
}

/// The number that a run of decimal digits denotes, or the first reason why it
/// denotes none.
pub open spec fn digits_value(digits: Seq<char>) -> Result<usize, NumberError>
    decreases digits.len(),
{
    if digits.len() == 0 {
        Ok(0)
    } else {
        match digits_value(digits.drop_last()) {
            Err(error) => Err(error),
            Ok(value) => if !is_digit(digits.last()) {
                Err(NumberError::InvalidDigit)
            } else if value * 10 + (digits.last() as int - 48) > usize::MAX {
                Err(NumberError::TooLarge)
            } else {
                Ok((value * 10 + (digits.last() as int - 48)) as usize)
            },
        }
    }
}

/// The number that a text denotes: an optional plus sign and decimal digits.
pub open spec fn number_value(text: Seq<char>) -> Result<usize, NumberError> {
    if text.len() == 0 {
        Err(NumberError::Empty)
    } else if text.len() == 1 && (text[0] == '+' || text[0] == '-') {
        Err(NumberError::InvalidDigit)
    } else if text[0] == '+' {
        digits_value(text.skip(1))
    } else {
        digits_value(text)
    }
}

proof fn lemma_digits_error_stays(digits: Seq<char>, n: int)
    requires
        0 <= n <= digits.len(),
        digits_value(digits.take(n)) is Err,
    ensures
        digits_value(digits) == digits_value(digits.take(n)),
    decreases digits.len() - n,
{
    if n < digits.len() {
        assert(digits.take(n + 1).drop_last() =~= digits.take(n));
        lemma_digits_error_stays(digits, n + 1);
    } else {
        assert(digits.take(n) =~= digits);
    }
}

/// Reads a run of decimal digits.
pub fn parse_digits(digits: &[char]) -> (res: Result<usize, NumberError>)
    ensures
        res == digits_value(digits@),
{
    let mut value: usize = 0;
    let mut i: usize = 0;
    proof {
        assert(digits@.take(0) =~= Seq::<char>::empty());
    }
    while i < digits.len()
        invariant
            i <= digits@.len(),
            digits_value(digits@.take(i as int)) == Ok::<usize, NumberError>(value),
        decreases digits@.len() - i,
    {
        let c: char = digits[i];
        proof {
            assert(digits@.take(i + 1).drop_last() =~= digits@.take(i as int));
            assert(digits@.take(i + 1).last() == c);
        }
        if !('0' <= c && c <= '9') {
            proof {
                lemma_digits_error_stays(digits@, i + 1);
            }
            return Err(NumberError::InvalidDigit);
        }
        let digit: usize = (c as u32 - 48) as usize;
        match value.checked_mul(10) {
            None => {
                proof {
                    lemma_digits_error_stays(digits@, i + 1);
                }
                return Err(NumberError::TooLarge);
            },
            Some(tens) => match tens.checked_add(digit) {
                None => {
                    proof {
                        lemma_digits_error_stays(digits@, i + 1);
                    }
                    return Err(NumberError::TooLarge);
                },
                Some(next) => {
                    value = next;
                },
            },
        }
        i = i + 1;
    }
    proof {
        assert(digits@.take(i as int) =~= digits@);
    }
    Ok(value)
}

/// Reads a number in decimal notation, with an optional plus sign.
pub fn parse_usize(text: &str) -> (res: Result<usize, NumberError>)
    ensures
        res == number_value(text@),
{
    let chars = chars_of(text);
    if chars.len() == 0 {
        Err(NumberError::Empty)
    } else if chars.len() == 1 && (chars[0] == '+' || chars[0] == '-') {
        Err(NumberError::InvalidDigit)
    } else if chars[0] == '+' {
        let digits: &[char] = &chars[1..chars.len()];
        proof {
            assert(digits@ =~= text@.skip(1));
        }
        parse_digits(digits)
    } else {
        parse_digits(chars.as_slice())
    }
}

/// The characters with the Unicode property `White_Space`.
pub open spec fn is_space(c: char) -> bool {
    ||| '\u{9}' <= c <= '\u{d}'
    ||| c == '\u{20}'
    ||| c == '\u{85}'
    ||| c == '\u{a0}'
    ||| c == '\u{1680}'
    ||| '\u{2000}' <= c <= '\u{200a}'
    ||| c == '\u{2028}'
    ||| c == '\u{2029}'
    ||| c == '\u{202f}'
    ||| c == '\u{205f}'
    ||| c == '\u{3000}'
}

/// A text without the white space at its ends.
pub open spec fn trimmed(text: Seq<char>) -> Seq<char>
    decreases text.len(),
{
    if text.len() == 0 {
        text
    } else if is_space(text[0]) {
        trimmed(text.drop_first())
    } else if is_space(text.last()) {
        trimmed(text.drop_last())
    } else {
        text
    }
}

fn space(c: char) -> (res: bool)
    ensures
        res == is_space(c),
{
    ('\u{9}' <= c && c <= '\u{d}') || c == '\u{20}' || c == '\u{85}' || c == '\u{a0}' || c
        == '\u{1680}' || ('\u{2000}' <= c && c <= '\u{200a}') || c == '\u{2028}' || c == '\u{2029}'
        || c == '\u{202f}' || c == '\u{205f}' || c == '\u{3000}'
}

/// Removes the white space at both ends.
pub fn trim(text: &[char]) -> (res: &[char])
    ensures
        res@ == trimmed(text@),
{
    let mut from: usize = 0;
    let mut to: usize = text.len();
    proof {
        assert(text@.subrange(0, to as int) =~= text@);
    }
    while from < to && (space(text[from]) || space(text[to - 1]))
        invariant
            from <= to <= text@.len(),
            trimmed(text@.subrange(from as int, to as int)) == trimmed(text@),
        ensures
            from <= to <= text@.len(),
            trimmed(text@.subrange(from as int, to as int)) == trimmed(text@),
            from == to || !is_space(text@[from as int]) && !is_space(text@[to - 1]),
        decreases to - from,
    {
        let ghost part = text@.subrange(from as int, to as int);
        if space(text[from]) {
            proof {
                assert(part.drop_first() =~= text@.subrange(from + 1, to as int));
            }
            from = from + 1;
        } else {
            proof {
                assert(part.drop_last() =~= text@.subrange(from as int, to - 1));
            }
            to = to - 1;
        }
    }
    &text[from..to]
}

} // verus!
