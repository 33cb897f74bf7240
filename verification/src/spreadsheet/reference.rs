//! Cell references such as `B7`.

use crate::helpers::text::chars_of;
use crate::helpers::text::decimal;
use crate::helpers::text::decimal_text;
use crate::helpers::text::is_digit;
use crate::helpers::text::trim;
use crate::helpers::text::trimmed;
use vstd::prelude::*;

verus! {

/// The number of columns of a sheet: the last one is `XFD`.
pub const MAX_COLUMNS: usize = 16384;

/// The number of rows of a sheet.
pub const MAX_ROWS: usize = 1048576;

/// Whether a character is an ASCII letter.
pub open spec fn is_letter(c: char) -> bool {
    'A' <= c <= 'Z' || 'a' <= c <= 'z'
}

/// The place of a letter in the alphabet, from 1, whatever its case.
pub open spec fn letter_value(c: char) -> nat {
    if 'A' <= c <= 'Z' {
        (c as int - 64) as nat
    } else {
        (c as int - 96) as nat
    }
}

/// The number of the column with the given letters, from 1: `Z` is 26 and `AA`
/// is 27.
pub open spec fn column_number(letters: Seq<char>) -> nat
    decreases letters.len(),
{
    if letters.len() == 0 {
        0
    } else {
        26 * column_number(letters.drop_last()) + letter_value(letters.last())
    }
}

/// The number that decimal digits denote.
pub open spec fn row_number(digits: Seq<char>) -> nat
    decreases digits.len(),
{
    if digits.len() == 0 {
        0
    } else {
        10 * row_number(digits.drop_last()) + (digits.last() as int - 48) as nat
    }
}

/// How many letters a text starts with.
pub open spec fn leading_letters(text: Seq<char>) -> nat
    decreases text.len(),
{
    if text.len() > 0 && is_letter(text[0]) {
        1 + leading_letters(text.drop_first())
    } else {
        0
    }
}

/// The row and column that a reference denotes, from 0: letters for the column,
/// then digits for the row.
pub open spec fn reference_index(text: Seq<char>) -> Option<(nat, nat)> {
    let n = leading_letters(text) as int;
    let digits = text.skip(n);
    let column = column_number(text.take(n));
    let row = row_number(digits);
    if n > 0 && digits.len() > 0 && (forall|i: int|
        0 <= i < digits.len() ==> is_digit(#[trigger] digits[i])) && column <= MAX_COLUMNS && 1
        <= row <= MAX_ROWS {
        Some(((row - 1) as nat, (column - 1) as nat))
    } else {
        None
    }
}

/// The capital letter with a place in the alphabet, from 0.
pub open spec fn capital(place: nat) -> char {
    (65 + place) as char
}

/// The letters of a column, from 0.
pub open spec fn column_letters(column: nat) -> Seq<char>
    decreases column,
{
    if column < 26 {
        seq![capital(column)]
    } else {
        column_letters((column / 26 - 1) as nat).push(capital(column % 26))
    }
}

/// The reference of a cell, from its row and column, from 0.
pub open spec fn index_reference(row: nat, column: nat) -> Seq<char> {
    column_letters(column) + decimal(row + 1)
}

/// A column has letters, and they denote it.
pub proof fn lemma_column_letters(column: nat)
    ensures
        column_letters(column).len() > 0,
        column_number(column_letters(column)) == column + 1,
        forall|i: int|
            0 <= i < column_letters(column).len() ==> is_letter(
                #[trigger] column_letters(column)[i],
            ),
    decreases column,
{
    let letters = column_letters(column);
    if column < 26 {
        assert(letters.drop_last() =~= Seq::<char>::empty());
        reveal_with_fuel(column_number, 2);
    } else {
        lemma_column_letters((column / 26 - 1) as nat);
        assert(letters.drop_last() =~= column_letters((column / 26 - 1) as nat));
    }
}

/// The decimal notation of a number is made of digits, and they denote it.
pub proof fn lemma_decimal_digits(n: nat)
    ensures
        decimal(n).len() > 0,
        row_number(decimal(n)) == n,
        forall|i: int| 0 <= i < decimal(n).len() ==> is_digit(#[trigger] decimal(n)[i]),
    decreases n,
{
    let digits = decimal(n);
    if n < 10 {
        assert(digits.drop_last() =~= Seq::<char>::empty());
        reveal_with_fuel(row_number, 2);
    } else {
        lemma_decimal_digits(n / 10);
        assert(digits.drop_last() =~= decimal(n / 10));
    }
}

/// The letters that a text starts with end where something else stands.
pub proof fn lemma_leading_letters(letters: Seq<char>, rest: Seq<char>)
    requires
        forall|i: int| 0 <= i < letters.len() ==> is_letter(#[trigger] letters[i]),
        rest.len() > 0 ==> !is_letter(rest[0]),
    ensures
        leading_letters(letters + rest) == letters.len(),
    decreases letters.len(),
{
    let text = letters + rest;
    if letters.len() > 0 {
        assert(text[0] == letters[0]);
        assert(text.drop_first() =~= letters.drop_first() + rest);
        lemma_leading_letters(letters.drop_first(), rest);
    } else {
        assert(text =~= rest);
    }
}

/// Reading the reference of a cell gives back the cell.
pub proof fn lemma_reference_round_trip(row: nat, column: nat)
    requires
        row < MAX_ROWS,
        column < MAX_COLUMNS,
    ensures
        reference_index(index_reference(row, column)) == Some((row, column)),
{
    let letters = column_letters(column);
    let digits = decimal(row + 1);
    let text = index_reference(row, column);
    lemma_column_letters(column);
    lemma_decimal_digits(row + 1);
    assert(is_digit(digits[0]));
    lemma_leading_letters(letters, digits);
    assert(text.take(letters.len() as int) =~= letters);
    assert(text.skip(letters.len() as int) =~= digits);
}

/// A reference denotes a cell within the limits of a sheet.
pub proof fn lemma_reference_within_limits(text: Seq<char>)
    ensures
        reference_index(text) matches Some((row, column)) ==> row < MAX_ROWS && column
            < MAX_COLUMNS,
{
    lemma_leading_letters_are_letters(text);
    let n = leading_letters(text) as int;
    if n > 0 {
        assert(is_letter(text[n - 1]));
        assert(text.take(n).last() == text[n - 1]);
    }
}

proof fn lemma_column_number_grows(letters: Seq<char>, n: int)
    requires
        0 <= n <= letters.len(),
        forall|i: int| 0 <= i < letters.len() ==> is_letter(#[trigger] letters[i]),
    ensures
        column_number(letters.take(n)) <= column_number(letters),
    decreases letters.len() - n,
{
    if n < letters.len() {
        assert(letters.take(n + 1).drop_last() =~= letters.take(n));
        assert(is_letter(letters[n]));
        lemma_column_number_grows(letters, n + 1);
    } else {
        assert(letters.take(n) =~= letters);
    }
}

proof fn lemma_row_number_grows(digits: Seq<char>, n: int)
    requires
        0 <= n <= digits.len(),
        forall|i: int| 0 <= i < digits.len() ==> is_digit(#[trigger] digits[i]),
    ensures
        row_number(digits.take(n)) <= row_number(digits),
    decreases digits.len() - n,
{
    if n < digits.len() {
        assert(digits.take(n + 1).drop_last() =~= digits.take(n));
        assert(is_digit(digits[n]));
        lemma_row_number_grows(digits, n + 1);
    } else {
        assert(digits.take(n) =~= digits);
    }
}

proof fn lemma_leading_letters_are_letters(text: Seq<char>)
    ensures
        leading_letters(text) <= text.len(),
        forall|i: int| 0 <= i < leading_letters(text) ==> is_letter(#[trigger] text[i]),
        leading_letters(text) < text.len() ==> !is_letter(text[leading_letters(text) as int]),
    decreases text.len(),
{
    if text.len() > 0 && is_letter(text[0]) {
        let rest = text.drop_first();
        lemma_leading_letters_are_letters(rest);
        assert forall|i: int| 0 <= i < leading_letters(text) implies is_letter(
            #[trigger] text[i],
        ) by {
            if i > 0 {
                assert(text[i] == rest[i - 1]);
            }
        }
    }
}

/// A reference starts with a letter, ends with a digit and holds nothing but letters
/// and digits.
pub proof fn lemma_reference_characters_are_plain(text: Seq<char>, i: int)
    ensures
        reference_index(text) is Some ==> {
            &&& text.len() > 0
            &&& is_letter(text[0])
            &&& is_digit(text.last())
            &&& 0 <= i < text.len() ==> is_letter(text[i]) || is_digit(text[i])
        },
{
    lemma_leading_letters_are_letters(text);
    let n = leading_letters(text) as int;
    let digits = text.skip(n);
    if reference_index(text) is Some {
        assert(is_digit(digits[digits.len() - 1]));
        assert(digits[digits.len() - 1] == text.last());
        if n <= i < text.len() {
            assert(is_digit(digits[i - n]));
            assert(digits[i - n] == text[i]);
        }
    }
}

fn letter(c: char) -> (res: Option<usize>)
    ensures
        match res {
            Some(value) => is_letter(c) && value == letter_value(c) && 1 <= value <= 26,
            None => !is_letter(c),
        },
{
    if 'A' <= c && c <= 'Z' {
        Some((c as u32 - 64) as usize)
    } else if 'a' <= c && c <= 'z' {
        Some((c as u32 - 96) as usize)
    } else {
        None
    }
}

/// Reads a cell reference in characters.
pub fn index_of_reference(text: &[char]) -> (res: Option<(usize, usize)>)
    ensures
        match reference_index(text@) {
            Some((row, column)) => res matches Some((r, c)) && r == row && c == column,
            None => res is None,
        },
{
    let ghost n = leading_letters(text@) as int;
    let ghost letters = text@.take(n);
    let ghost digits = text@.skip(n);
    proof {
        lemma_leading_letters_are_letters(text@);
        assert forall|j: int| 0 <= j < letters.len() implies is_letter(#[trigger] letters[j]) by {
            assert(text@[j] == letters[j]);
        }
        assert(letters.take(0) =~= Seq::<char>::empty());
    }
    let mut i: usize = 0;
    let mut column: usize = 0;
    let mut going: bool = true;
    while going && i < text.len()
        invariant
            i <= n <= text@.len(),
            n == leading_letters(text@),
            letters == text@.take(n),
            digits == text@.skip(n),
            forall|j: int| 0 <= j < letters.len() ==> is_letter(#[trigger] letters[j]),
            n < text@.len() ==> !is_letter(text@[n]),
            !going ==> i == n,
            column == column_number(letters.take(i as int)),
            column <= MAX_COLUMNS,
        decreases text@.len() - i, (if going { 1int } else { 0int }),
    {
        match letter(text[i]) {
            None => {
                proof {
                    if i < n {
                        assert(letters[i as int] == text@[i as int]);
                    }
                }
                going = false;
            },
            Some(value) => {
                proof {
                    assert(letters.take(i + 1).drop_last() =~= letters.take(i as int));
                    assert(letters[i as int] == text@[i as int]);
                }
                column = column * 26 + value;
                i = i + 1;
                if column > MAX_COLUMNS {
                    proof {
                        lemma_column_number_grows(letters, i as int);
                    }
                    return None;
                }
            },
        }
    }
    proof {
        assert(i == n) by {
            if i < n {
                assert(i == text@.len());
            }
        }
        assert(letters.take(i as int) =~= letters);
        assert(digits.take(0) =~= Seq::<char>::empty());
    }
    if i == 0 || i == text.len() {
        return None;
    }
    let start: usize = i;
    let mut row: usize = 0;
    let mut large: bool = false;
    while i < text.len()
        invariant
            start == n,
            start <= i <= text@.len(),
            digits == text@.skip(n),
            n == leading_letters(text@),
            forall|j: int| 0 <= j < i - start ==> is_digit(#[trigger] digits[j]),
            large ==> row_number(digits.take(i - start)) > MAX_ROWS,
            !large ==> row == row_number(digits.take(i - start)) && row <= MAX_ROWS,
        decreases text@.len() - i,
    {
        let c: char = text[i];
        proof {
            assert(digits[i - start] == c);
        }
        if !('0' <= c && c <= '9') {
            return None;
        }
        proof {
            assert(digits.take(i + 1 - start).drop_last() =~= digits.take(i - start));
        }
        if !large {
            row = row * 10 + (c as u32 - 48) as usize;
            if row > MAX_ROWS {
                large = true;
            }
        }
        i = i + 1;
    }
    proof {
        assert(digits.take(i - start) =~= digits);
    }
    if large || row == 0 {
        return None;
    }
    proof {
        assert(column >= 1) by {
            assert(letters.len() > 0);
            assert(is_letter(letters.last()));
        }
    }
    Some((row - 1, column - 1))
}

/// Reads a cell reference.
pub fn reference_to_index(reference: &str) -> (res: Option<(usize, usize)>)
    ensures
        match reference_index(reference@) {
            Some((row, column)) => res matches Some((r, c)) && r == row && c == column,
            None => res is None,
        },
{
    let chars = chars_of(reference);
    index_of_reference(chars.as_slice())
}

fn column_text(column: usize) -> (res: String)
    ensures
        res@ == column_letters(column as nat),
    decreases column,
{
    let mut text = if column < 26 {
        String::new()
    } else {
        column_text(column / 26 - 1)
    };
    let place: u8 = (column % 26) as u8;
    text.push((65 + place) as char);
    proof {
        assert(text@ =~= column_letters(column as nat));
    }
    text
}

/// Writes the reference of a cell.
pub fn index_to_reference(row: usize, column: usize) -> (res: String)
    ensures
        res@ == index_reference(row as nat, column as nat),
{
    let mut text = column_text(column);
    let number = decimal_text(row as u128 + 1);
    text.push_str(number.as_str());
    text
}

/// The four bounds of a merged range, from the references of its corners with
/// a colon between them. White space around the references is passed over.
pub open spec fn merge_range(text: Seq<char>) -> Option<(nat, nat, nat, nat)> {
    if exists|at: int| is_only_colon(text, at) {
        let at = choose|at: int| is_only_colon(text, at);
        match (
            reference_index(trimmed(text.take(at))),
            reference_index(trimmed(text.skip(at + 1))),
        ) {
            (Some((top, left)), Some((bottom, right))) => Some((top, left, bottom, right)),
            _ => None,
        }
    } else {
        None
    }
}

/// Whether the only colon of a text stands at `at`.
pub open spec fn is_only_colon(text: Seq<char>, at: int) -> bool {
    &&& 0 <= at < text.len()
    &&& text[at] == ':'
    &&& forall|i: int| 0 <= i < text.len() && i != at ==> text[i] != ':'
}

/// Reads the range of merged cells.
pub fn parse_merge_range(range_ref: &str) -> (res: Option<(usize, usize, usize, usize)>)
    ensures
        match merge_range(range_ref@) {
            Some((top, left, bottom, right)) => res matches Some((a, b, c, d)) && a == top && b
                == left && c == bottom && d == right,
            None => res is None,
        },
{
    let chars = chars_of(range_ref);
    let mut at: Option<usize> = None;
    let mut i: usize = 0;
    while i < chars.len()
        invariant
            i <= chars@.len(),
            match at {
                None => forall|j: int| 0 <= j < i ==> chars@[j] != ':',
                Some(k) => k < i && chars@[k as int] == ':' && forall|j: int|
                    0 <= j < i && j != k ==> chars@[j] != ':',
            },
            chars@ == range_ref@,
        decreases chars@.len() - i,
    {
        if chars[i] == ':' {
            if at.is_some() {
                proof {
                    assert forall|k: int| !is_only_colon(range_ref@, k) by {
                        let first = at.unwrap() as int;
                        assert(range_ref@[first] == ':' && range_ref@[i as int] == ':');
                    }
                }
                return None;
            }
            at = Some(i);
        }
        i = i + 1;
    }
    match at {
        None => {
            proof {
                assert forall|k: int| !is_only_colon(range_ref@, k) by {}
            }
            None
        },
        Some(k) => {
            proof {
                assert(is_only_colon(range_ref@, k as int));
                let chosen = choose|at: int| is_only_colon(range_ref@, at);
                assert(is_only_colon(range_ref@, chosen));
                assert(chosen == k);
                assert(chars@.subrange(0, k as int) =~= range_ref@.take(k as int));
                assert(chars@.subrange(k + 1, chars@.len() as int) =~= range_ref@.skip(k + 1));
            }
            let start_ref = trim(&chars[0..k]);
            let end_ref = trim(&chars[k + 1..chars.len()]);
            match (index_of_reference(start_ref), index_of_reference(end_ref)) {
                (Some((top_row, top_col)), Some((bottom_row, bottom_col))) => Some(
                    (top_row, top_col, bottom_row, bottom_col),
                ),
                _ => None,
            }
        },
    }
}

/// Reading the references of two cells with a colon between them gives back the
/// two cells.
pub proof fn lemma_merge_range_round_trip(top: nat, left: nat, bottom: nat, right: nat)
    requires
        top < MAX_ROWS,
        bottom < MAX_ROWS,
        left < MAX_COLUMNS,
        right < MAX_COLUMNS,
    ensures
        merge_range(index_reference(top, left) + seq![':'] + index_reference(bottom, right))
            == Some((top, left, bottom, right)),
{
    let a = index_reference(top, left);
    let b = index_reference(bottom, right);
    let text = a + seq![':'] + b;
    let at = a.len() as int;
    lemma_reference_characters(top, left);
    lemma_reference_characters(bottom, right);
    assert(is_only_colon(text, at)) by {
        assert forall|i: int| 0 <= i < text.len() && i != at implies text[i] != ':' by {
            if i < at {
                assert(text[i] == a[i]);
            } else {
                assert(text[i] == b[i - at - 1]);
            }
        }
    }
    let chosen = choose|k: int| is_only_colon(text, k);
    assert(is_only_colon(text, chosen));
    assert(chosen == at);
    assert(text.take(at) =~= a);
    assert(text.skip(at + 1) =~= b);
    lemma_reference_round_trip(top, left);
    lemma_reference_round_trip(bottom, right);
}

proof fn lemma_reference_characters(row: nat, column: nat)
    ensures
        forall|i: int|
            0 <= i < index_reference(row, column).len() ==> (#[trigger] index_reference(
                row,
                column,
            )[i]) != ':',
        trimmed(index_reference(row, column)) == index_reference(row, column),
{
    let text = index_reference(row, column);
    let letters = column_letters(column);
    let digits = decimal(row + 1);
    lemma_column_letters(column);
    lemma_decimal_digits(row + 1);
    assert forall|i: int| 0 <= i < text.len() implies is_letter(#[trigger] text[i]) || is_digit(
        text[i],
    ) by {
        if i < letters.len() {
            assert(text[i] == letters[i]);
        } else {
            assert(text[i] == digits[i - letters.len()]);
        }
    }
    assert(text.len() > 0);
    assert(is_letter(text[0]) || is_digit(text[0]));
    assert(is_letter(text.last()) || is_digit(text.last()));
}

} // verus!
