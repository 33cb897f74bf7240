//! What cell references have in common.

use crate::helpers::text::decimal;
use crate::helpers::text::is_digit;
use crate::helpers::text::trimmed;
use crate::spreadsheet::reference::column_letters;
use crate::spreadsheet::reference::column_number;
use crate::spreadsheet::reference::index_reference;
use crate::spreadsheet::reference::is_letter;
use crate::spreadsheet::reference::is_only_colon;
use crate::spreadsheet::reference::leading_letters;
use crate::spreadsheet::reference::lemma_column_letters;
use crate::spreadsheet::reference::lemma_decimal_digits;
use crate::spreadsheet::reference::lemma_leading_letters;
use crate::spreadsheet::reference::lemma_reference_characters_are_plain;
use crate::spreadsheet::reference::lemma_reference_round_trip;
use crate::spreadsheet::reference::letter_value;
use crate::spreadsheet::reference::merge_range;
use crate::spreadsheet::reference::reference_index;
use crate::spreadsheet::reference::row_number;
use vstd::prelude::*;

verus! {

/// Whether two characters are the same, or the capital and the small form of a letter.
pub open spec fn is_same_letter(a: char, b: char) -> bool {
    ||| a == b
    ||| 'A' <= a <= 'Z' && b as int == a as int + 32
    ||| 'A' <= b <= 'Z' && a as int == b as int + 32
}

/// Whether two texts differ in the case of letters alone.
pub open spec fn is_same_but_for_case(a: Seq<char>, b: Seq<char>) -> bool {
    a.len() == b.len() && forall|i: int|
        0 <= i < a.len() ==> is_same_letter(#[trigger] a[i], b[i])
}

proof fn lemma_column_whatever_case(a: Seq<char>, b: Seq<char>)
    requires
        is_same_but_for_case(a, b),
        forall|i: int| 0 <= i < a.len() ==> is_letter(#[trigger] a[i]),
    ensures
        column_number(a) == column_number(b),
    decreases a.len(),
{
    if a.len() > 0 {
        assert(is_same_letter(a[a.len() - 1], b[a.len() - 1]));
        assert(is_letter(a[a.len() - 1]));
        assert(letter_value(a.last()) == letter_value(b.last()));
        assert forall|i: int| 0 <= i < a.len() - 1 implies is_same_letter(
            #[trigger] a.drop_last()[i],
            b.drop_last()[i],
        ) by {
            assert(is_same_letter(a[i], b[i]));
        }
        assert forall|i: int| 0 <= i < a.len() - 1 implies is_letter(
            #[trigger] a.drop_last()[i],
        ) by {
            assert(is_letter(a[i]));
        }
        lemma_column_whatever_case(a.drop_last(), b.drop_last());
    }
}

proof fn lemma_letters_whatever_case(a: Seq<char>, b: Seq<char>)
    requires
        is_same_but_for_case(a, b),
    ensures
        leading_letters(a) == leading_letters(b),
        leading_letters(a) <= a.len(),
        forall|i: int| 0 <= i < leading_letters(a) ==> is_letter(#[trigger] a[i]),
    decreases a.len(),
{
    if a.len() > 0 {
        assert(is_same_letter(a[0], b[0]));
        let (p, q) = (a.drop_first(), b.drop_first());
        assert forall|i: int| 0 <= i < p.len() implies is_same_letter(#[trigger] p[i], q[i]) by {
            assert(is_same_letter(a[i + 1], b[i + 1]));
        }
        lemma_letters_whatever_case(p, q);
        if is_letter(a[0]) {
            assert forall|i: int| 0 <= i < leading_letters(a) implies is_letter(
                #[trigger] a[i],
            ) by {
                if i > 0 {
                    assert(is_letter(p[i - 1]));
                }
            }
        }
    }
}

proof fn lemma_rows_whatever_case(a: Seq<char>, b: Seq<char>)
    requires
        is_same_but_for_case(a, b),
        forall|i: int| 0 <= i < a.len() ==> is_digit(#[trigger] a[i]),
    ensures
        a == b,
{
    assert forall|i: int| 0 <= i < a.len() implies a[i] == b[i] by {
        assert(is_same_letter(a[i], b[i]));
        assert(is_digit(a[i]));
    }
    assert(a =~= b);
}

/// The case of letters makes no difference to what a reference denotes.
pub proof fn lemma_case_makes_no_difference(a: Seq<char>, b: Seq<char>)
    requires
        is_same_but_for_case(a, b),
    ensures
        reference_index(a) is Some ==> reference_index(b) == reference_index(a),
{
    lemma_letters_whatever_case(a, b);
    let n = leading_letters(a) as int;
    if reference_index(a) is Some {
        let (p, q) = (a.take(n), b.take(n));
        assert forall|i: int| 0 <= i < p.len() implies is_same_letter(#[trigger] p[i], q[i]) by {
            assert(is_same_letter(a[i], b[i]));
        }
        assert forall|i: int| 0 <= i < p.len() implies is_letter(#[trigger] p[i]) by {
            assert(is_letter(a[i]));
        }
        lemma_column_whatever_case(p, q);
        let (d, e) = (a.skip(n), b.skip(n));
        assert forall|i: int| 0 <= i < d.len() implies is_same_letter(#[trigger] d[i], e[i]) by {
            assert(is_same_letter(a[i + n], b[i + n]));
        }
        lemma_rows_whatever_case(d, e);
    }
}

proof fn lemma_row_of_zeros(digits: Seq<char>)
    ensures
        row_number(seq!['0'] + digits) == row_number(digits),
    decreases digits.len(),
{
    let more = seq!['0'] + digits;
    if digits.len() == 0 {
        reveal_with_fuel(row_number, 2);
        assert(more.drop_last() =~= Seq::<char>::empty());
    } else {
        lemma_row_of_zeros(digits.drop_last());
        assert(more.drop_last() =~= seq!['0'] + digits.drop_last());
        assert(more.last() == digits.last());
    }
}

/// A reference behind the last row or the last column of a sheet denotes no cell, and
/// neither does one with the row 0; zeros in front of a row make no difference.
pub proof fn lemma_limits_of_references(row: nat, column: nat)
    ensures
        row < 1048576 && column < 16384 ==> reference_index(
            column_letters(column) + (seq!['0'] + decimal(row + 1)),
        ) == Some((row, column)),
        row >= 1048576 || column >= 16384 ==> reference_index(index_reference(row, column)) is None,
        reference_index(column_letters(column) + seq!['0']) is None,
{
    let letters = column_letters(column);
    let digits = decimal(row + 1);
    lemma_column_letters(column);
    lemma_decimal_digits(row + 1);
    assert(is_digit(digits[0]));
    lemma_leading_letters(letters, digits);
    let text = index_reference(row, column);
    assert(text.take(letters.len() as int) =~= letters);
    assert(text.skip(letters.len() as int) =~= digits);
    let padded = seq!['0'] + digits;
    lemma_leading_letters(letters, padded);
    lemma_row_of_zeros(digits);
    assert((letters + padded).take(letters.len() as int) =~= letters);
    assert((letters + padded).skip(letters.len() as int) =~= padded);
    assert forall|i: int| 0 <= i < padded.len() implies is_digit(#[trigger] padded[i]) by {
        if i > 0 {
            assert(is_digit(digits[i - 1]));
        }
    }
    let zero = seq!['0'];
    lemma_leading_letters(letters, zero);
    assert((letters + zero).take(letters.len() as int) =~= letters);
    assert((letters + zero).skip(letters.len() as int) =~= zero);
    assert(row_number(zero) == 0) by {
        assert(zero.drop_last() =~= Seq::<char>::empty());
        reveal_with_fuel(row_number, 2);
    }
}

/// The letters of columns follow the alphabet: the first 26 columns have one letter
/// each, the next column has the next last letter, and behind `Z` it is `A` again.
pub proof fn lemma_columns_follow_each_other(column: nat)
    ensures
        column < 26 ==> column_letters(column).len() == 1 && column_letters(column)[0] as int == 65
            + column,
        column_letters(column).last() != 'Z' ==> {
            let next = column_letters(column + 1);
            &&& next.drop_last() == column_letters(column).drop_last()
            &&& next.last() as int == column_letters(column).last() as int + 1
        },
        column_letters(column).last() == 'Z' ==> column_letters(column + 1).last() == 'A',
{
    if column >= 26 {
        let front = column_letters((column / 26 - 1) as nat);
        assert(column_letters(column).drop_last() =~= front);
        if column % 26 != 25 {
            assert((column + 1) / 26 == column / 26);
            assert(column_letters(column + 1).drop_last() =~= front);
        }
    } else if column < 25 {
        assert(column_letters(column + 1).drop_last() =~= column_letters(column).drop_last());
    }
}

/// A text without a colon, or with two of them, is no merged range.
pub proof fn lemma_merged_ranges_have_one_colon(text: Seq<char>, i: int, j: int)
    requires
        (forall|k: int| 0 <= k < text.len() ==> text[k] != ':') || (0 <= i < j < text.len()
            && text[i] == ':' && text[j] == ':'),
    ensures
        merge_range(text) is None,
{
    assert forall|at: int| !is_only_colon(text, at) by {
        if is_only_colon(text, at) {
            assert(text[at] == ':');
            assert(i != at || j != at);
        }
    }
}

/// Whether a text is made of spaces, tabs and line ends.
pub open spec fn is_blank(text: Seq<char>) -> bool {
    forall|i: int|
        0 <= i < text.len() ==> ((#[trigger] text[i]) == ' ' || text[i] == '\t' || text[i] == '\n'
            || text[i] == '\r')
}

proof fn lemma_blanks_are_trimmed(before: Seq<char>, core: Seq<char>, behind: Seq<char>)
    requires
        is_blank(before),
        is_blank(behind),
        core.len() > 0,
        is_letter(core[0]),
        is_digit(core.last()),
    ensures
        trimmed(before + core + behind) == core,
    decreases before.len() + behind.len(),
{
    let text = before + core + behind;
    if before.len() > 0 {
        let c = before[0];
        assert(c == ' ' || c == '\t' || c == '\n' || c == '\r');
        assert(text[0] == c);
        let rest = before.drop_first();
        assert(text.drop_first() =~= rest + core + behind);
        assert forall|i: int| 0 <= i < rest.len() implies ((#[trigger] rest[i]) == ' ' || rest[i]
            == '\t' || rest[i] == '\n' || rest[i] == '\r') by {
            assert(rest[i] == before[i + 1]);
        }
        lemma_blanks_are_trimmed(rest, core, behind);
    } else if behind.len() > 0 {
        assert(text[0] == core[0]);
        let c = behind.last();
        assert(c == behind[behind.len() - 1]);
        assert(c == ' ' || c == '\t' || c == '\n' || c == '\r');
        assert(text.last() == c);
        let rest = behind.drop_last();
        assert(text.drop_last() =~= before + core + rest);
        assert forall|i: int| 0 <= i < rest.len() implies ((#[trigger] rest[i]) == ' ' || rest[i]
            == '\t' || rest[i] == '\n' || rest[i] == '\r') by {
            assert(rest[i] == behind[i]);
        }
        lemma_blanks_are_trimmed(before, core, rest);
    } else {
        assert(text =~= core);
    }
}

/// White space around the references of a merged range makes no difference.
pub proof fn lemma_merged_range_with_spaces(
    top: nat,
    left: nat,
    bottom: nat,
    right: nat,
    blanks: (Seq<char>, Seq<char>, Seq<char>, Seq<char>),
)
    requires
        top < 1048576,
        bottom < 1048576,
        left < 16384,
        right < 16384,
        is_blank(blanks.0),
        is_blank(blanks.1),
        is_blank(blanks.2),
        is_blank(blanks.3),
    ensures
        merge_range(
            (blanks.0 + index_reference(top, left) + blanks.1) + seq![':'] + (blanks.2
                + index_reference(bottom, right) + blanks.3),
        ) == Some((top, left, bottom, right)),
{
    let a = blanks.0 + index_reference(top, left) + blanks.1;
    let b = blanks.2 + index_reference(bottom, right) + blanks.3;
    let text = a + seq![':'] + b;
    let at = a.len() as int;
    lemma_reference_round_trip(top, left);
    lemma_reference_round_trip(bottom, right);
    lemma_reference_characters_are_plain(index_reference(top, left), 0);
    lemma_reference_characters_are_plain(index_reference(bottom, right), 0);
    lemma_blanks_are_trimmed(blanks.0, index_reference(top, left), blanks.1);
    lemma_blanks_are_trimmed(blanks.2, index_reference(bottom, right), blanks.3);
    lemma_no_colon(blanks.0, index_reference(top, left), blanks.1);
    lemma_no_colon(blanks.2, index_reference(bottom, right), blanks.3);
    assert(is_only_colon(text, at)) by {
        assert forall|i: int| 0 <= i < text.len() && i != at implies text[i] != ':' by {
            if i < at {
                assert(text[i] == a[i]);
            } else {
                assert(text[i] == b[i - at - 1]);
            }
        }
    }
    let found = choose|found: int| is_only_colon(text, found);
    assert(is_only_colon(text, found));
    assert(found == at);
    assert(text.take(at) =~= a);
    assert(text.skip(at + 1) =~= b);
}

proof fn lemma_no_colon(before: Seq<char>, core: Seq<char>, behind: Seq<char>)
    requires
        is_blank(before),
        is_blank(behind),
        reference_index(core) is Some,
    ensures
        forall|i: int|
            0 <= i < (before + core + behind).len() ==> (#[trigger] (before + core + behind)[i])
                != ':',
{
    let text = before + core + behind;
    assert forall|i: int| 0 <= i < text.len() implies (#[trigger] text[i]) != ':' by {
        if i < before.len() {
            assert(text[i] == before[i]);
        } else if i < before.len() + core.len() {
            lemma_reference_characters_are_plain(core, i - before.len());
            assert(text[i] == core[i - before.len()]);
        } else {
            assert(text[i] == behind[i - before.len() - core.len()]);
        }
    }
}

} // verus!
