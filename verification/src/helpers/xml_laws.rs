//! What holds of the names and attributes of elements.

use crate::error::ErrorView;
use crate::helpers::text::decimal;
use crate::helpers::text::digit_char;
use crate::helpers::text::digits_value;
use crate::helpers::text::is_digit;
use crate::helpers::text::number_value;
use crate::helpers::text::NumberError;
use crate::helpers::xml::attribute_number;
use crate::helpers::xml::attribute_value;
use crate::helpers::xml::char_reference;
use crate::helpers::xml::local_part;
use crate::helpers::xml::reference_char;
use crate::helpers::xml::AttributeView;
use crate::helpers::xml::TagView;
use crate::helpers::xml::XmlView;
use vstd::prelude::*;

verus! {

/// Whether attribute `i` is the first with this name, has this value, and no error
/// comes before it.
pub open spec fn is_first_value(
    attributes: Seq<Result<AttributeView, Seq<char>>>,
    name: Seq<char>,
    value: Seq<char>,
    i: int,
) -> bool {
    &&& 0 <= i < attributes.len()
    &&& attributes[i] == Ok::<AttributeView, Seq<char>>(
        AttributeView { key: name, value: Ok(value) },
    )
    &&& forall|j: int| 0 <= j < i ==> is_named_other(#[trigger] attributes[j], name)
}

/// Whether an attribute is readable and has another name.
pub open spec fn is_named_other(
    attribute: Result<AttributeView, Seq<char>>,
    name: Seq<char>,
) -> bool {
    attribute matches Ok(found) && found.key != name
}

/// Whether the attributes say that the one with this name has this value, or is
/// missing.
pub open spec fn says(
    attributes: Seq<Result<AttributeView, Seq<char>>>,
    name: Seq<char>,
    value: Option<Seq<char>>,
) -> bool {
    match value {
        Some(value) => exists|i: int| is_first_value(attributes, name, value, i),
        None => forall|j: int|
            0 <= j < attributes.len() ==> is_named_other(#[trigger] attributes[j], name),
    }
}

/// The value that is found for a name is that of the first attribute with the name,
/// and none is found where no attribute has it.
pub proof fn lemma_attribute_value(
    attributes: Seq<Result<AttributeView, Seq<char>>>,
    name: Seq<char>,
    value: Option<Seq<char>>,
)
    ensures
        says(attributes, name, value) <==> attribute_value(attributes, name) == Ok::<
            Option<Seq<char>>,
            ErrorView,
        >(value),
    decreases attributes.len(),
{
    if attributes.len() > 0 {
        let rest = attributes.drop_first();
        lemma_attribute_value(rest, name, value);
        let head = attributes[0];
        match value {
            Some(text) => {
                if is_named_other(head, name) {
                    if says(rest, name, value) {
                        let i = choose|i: int| is_first_value(rest, name, text, i);
                        assert forall|j: int| 0 <= j < i + 1 implies is_named_other(
                            #[trigger] attributes[j],
                            name,
                        ) by {
                            if j > 0 {
                                assert(attributes[j] == rest[j - 1]);
                            }
                        }
                        assert(is_first_value(attributes, name, text, i + 1));
                    }
                    if says(attributes, name, value) {
                        let i = choose|i: int| is_first_value(attributes, name, text, i);
                        assert(i > 0);
                        assert forall|j: int| 0 <= j < i - 1 implies is_named_other(
                            #[trigger] rest[j],
                            name,
                        ) by {
                            assert(rest[j] == attributes[j + 1]);
                        }
                        assert(rest[i - 1] == attributes[i]);
                        assert(is_first_value(rest, name, text, i - 1));
                    }
                } else {
                    if says(attributes, name, value) {
                        let i = choose|i: int| is_first_value(attributes, name, text, i);
                        assert(i == 0);
                    }
                    if attribute_value(attributes, name) == Ok::<Option<Seq<char>>, ErrorView>(
                        value,
                    ) {
                        assert(is_first_value(attributes, name, text, 0));
                    }
                }
            },
            None => {
                if is_named_other(head, name) {
                    if says(rest, name, value) {
                        assert forall|j: int| 0 <= j < attributes.len() implies is_named_other(
                            #[trigger] attributes[j],
                            name,
                        ) by {
                            if j > 0 {
                                assert(attributes[j] == rest[j - 1]);
                            }
                        }
                    }
                    if says(attributes, name, value) {
                        assert forall|j: int| 0 <= j < rest.len() implies is_named_other(
                            #[trigger] rest[j],
                            name,
                        ) by {
                            assert(rest[j] == attributes[j + 1]);
                        }
                    }
                }
            },
        }
    } else if let Some(text) = value {
        assert forall|i: int| !is_first_value(attributes, name, text, i) by {}
    }
}

proof fn lemma_decimal_value(n: nat)
    requires
        n <= usize::MAX,
    ensures
        digits_value(decimal(n)) == Ok::<usize, NumberError>(n as usize),
        decimal(n).len() > 0,
        forall|i: int| 0 <= i < decimal(n).len() ==> is_digit(#[trigger] decimal(n)[i]),
    decreases n,
{
    let digits = decimal(n);
    if n < 10 {
        assert(digits.drop_last() =~= Seq::<char>::empty());
        reveal_with_fuel(digits_value, 2);
        assert(digits.last() == digit_char(n));
    } else {
        lemma_decimal_value(n / 10);
        assert(digits.drop_last() =~= decimal(n / 10));
        assert(digits.last() == digit_char(n % 10));
    }
}

/// Reading the decimal notation of a number gives back the number, with a plus sign
/// in front or without.
pub proof fn lemma_number_round_trip(n: nat)
    requires
        n <= usize::MAX,
    ensures
        number_value(decimal(n)) == Ok::<usize, NumberError>(n as usize),
        number_value(seq!['+'] + decimal(n)) == Ok::<usize, NumberError>(n as usize),
{
    lemma_decimal_value(n);
    let digits = decimal(n);
    assert(is_digit(digits[0]));
    let signed = seq!['+'] + digits;
    assert(signed.skip(1) =~= digits);
}

proof fn lemma_zero_in_front(digits: Seq<char>)
    ensures
        digits_value(seq!['0'] + digits) == digits_value(digits),
    decreases digits.len(),
{
    let more = seq!['0'] + digits;
    if digits.len() == 0 {
        reveal_with_fuel(digits_value, 2);
        assert(more.drop_last() =~= Seq::<char>::empty());
    } else {
        lemma_zero_in_front(digits.drop_last());
        assert(more.drop_last() =~= seq!['0'] + digits.drop_last());
        assert(more.last() == digits.last());
    }
}

proof fn lemma_large_decimal(n: nat)
    requires
        n > usize::MAX,
    ensures
        digits_value(decimal(n)) == Err::<usize, NumberError>(NumberError::TooLarge),
        decimal(n).len() > 1,
        is_digit(decimal(n)[0]),
    decreases n,
{
    let digits = decimal(n);
    assert(digits.drop_last() =~= decimal(n / 10));
    assert(digits.last() == digit_char(n % 10));
    if n / 10 > usize::MAX {
        lemma_large_decimal(n / 10);
        assert(digits[0] == decimal(n / 10)[0]);
    } else {
        lemma_decimal_value(n / 10);
        assert(digits[0] == decimal(n / 10)[0]);
        assert(is_digit(decimal(n / 10)[0]));
    }
}

/// Zeros in front of a number make no difference, and a number that does not fit a
/// machine word is too large.
pub proof fn lemma_number_limits(n: nat)
    ensures
        n <= usize::MAX ==> number_value(seq!['0'] + decimal(n)) == Ok::<usize, NumberError>(
            n as usize,
        ),
        n > usize::MAX ==> number_value(decimal(n)) == Err::<usize, NumberError>(
            NumberError::TooLarge,
        ),
{
    if n <= usize::MAX {
        lemma_decimal_value(n);
        lemma_zero_in_front(decimal(n));
    } else {
        lemma_large_decimal(n);
    }
}

/// A text without the plus sign in front of it.
pub open spec fn without_plus(text: Seq<char>) -> Seq<char> {
    if text.len() > 0 && text[0] == '+' {
        text.skip(1)
    } else {
        text
    }
}

/// A text with a character that is no digit, behind the optional plus sign, is no
/// number; and neither is one without digits.
pub proof fn lemma_only_digits_are_numbers(text: Seq<char>)
    ensures
        number_value(text) is Ok ==> without_plus(text).len() > 0 && forall|i: int|
            0 <= i < without_plus(text).len() ==> '0' <= (#[trigger] without_plus(text)[i]) <= '9',
{
    if number_value(text) is Ok {
        if text[0] == '+' {
            lemma_digits_are_digits(text.skip(1));
        } else {
            lemma_digits_are_digits(text);
        }
    }
}

proof fn lemma_digits_are_digits(digits: Seq<char>)
    requires
        digits_value(digits) is Ok,
    ensures
        forall|i: int| 0 <= i < digits.len() ==> '0' <= (#[trigger] digits[i]) <= '9',
    decreases digits.len(),
{
    if digits.len() > 0 {
        lemma_digits_are_digits(digits.drop_last());
        assert forall|i: int| 0 <= i < digits.len() implies '0' <= (#[trigger] digits[i])
            <= '9' by {
            if i < digits.len() - 1 {
                assert(digits[i] == digits.drop_last()[i]);
            }
        }
    }
}

/// An attribute that holds the decimal notation of a number is read as the number,
/// and a missing one as none.
pub proof fn lemma_attribute_number(
    attributes: Seq<Result<AttributeView, Seq<char>>>,
    name: Seq<char>,
    n: Option<nat>,
)
    requires
        n matches Some(number) ==> number <= usize::MAX,
        says(attributes, name, match n {
            Some(number) => Some(decimal(number)),
            None => None,
        }),
    ensures
        attribute_number(attributes, name) == Ok::<Option<usize>, ErrorView>(
            match n {
                Some(number) => Some(number as usize),
                None => None,
            },
        ),
{
    match n {
        Some(number) => {
            lemma_number_round_trip(number);
            lemma_attribute_value(attributes, name, Some(decimal(number)));
        },
        None => {
            lemma_attribute_value(attributes, name, None);
        },
    }
}

/// Whether a name is the given one, which has no colon, with a prefix and a colon
/// before it or without.
pub open spec fn is_called(name: Seq<char>, local: Seq<char>) -> bool {
    name == local || exists|prefix: Seq<char>|
        !prefix.contains(':') && name == #[trigger] (prefix + seq![':']) + local
}

/// The local part of a name is what stands behind its prefix.
pub proof fn lemma_local_part(name: Seq<char>, local: Seq<char>)
    requires
        !local.contains(':'),
    ensures
        is_called(name, local) <==> local_part(name) == local,
{
    if name.contains(':') {
        let at = name.index_of_first(':').unwrap();
        name.index_of_first_ensures(':');
        let prefix = name.take(at);
        if local_part(name) == local {
            assert(name =~= (prefix + seq![':']) + local);
            assert(!prefix.contains(':')) by {
                if prefix.contains(':') {
                    let i = choose|i: int| 0 <= i < prefix.len() && prefix[i] == ':';
                    assert(name[i] == ':');
                }
            }
        }
        if is_called(name, local) && name != local {
            let p = choose|p: Seq<char>|
                !p.contains(':') && name == #[trigger] (p + seq![':']) + local;
            assert(name[p.len() as int] == ':');
            assert forall|i: int| 0 <= i < p.len() implies name[i] != ':' by {
                assert(p.contains(p[i]));
                assert(name[i] == p[i]);
            }
            assert(at == p.len());
            assert(name.skip(at + 1) =~= local);
        }
    } else {
        if is_called(name, local) && name != local {
            let p = choose|p: Seq<char>|
                !p.contains(':') && name == #[trigger] (p + seq![':']) + local;
            assert(name[p.len() as int] == ':');
        }
    }
}

/// Whether the events of a document from number `at` on are the given ones, and
/// maybe more.
pub open spec fn has_at(events: Seq<XmlView>, at: int, part: Seq<XmlView>) -> bool {
    &&& 0 <= at
    &&& at + part.len() <= events.len()
    &&& forall|i: int| 0 <= i < part.len() ==> events[at + i] == #[trigger] part[i]
}

/// A part of two pieces stands in a document where its pieces do, one behind the
/// other.
pub proof fn lemma_has_both(events: Seq<XmlView>, at: int, a: Seq<XmlView>, b: Seq<XmlView>)
    ensures
        has_at(events, at, a + b) <==> has_at(events, at, a) && has_at(
            events,
            at + a.len(),
            b,
        ),
{
    let both = a + b;
    if has_at(events, at, both) {
        assert forall|i: int| 0 <= i < a.len() implies events[at + i] == #[trigger] a[i] by {
            assert(both[i] == a[i]);
        }
        assert forall|i: int| 0 <= i < b.len() implies events[at + a.len() + i]
            == #[trigger] b[i] by {
            assert(both[a.len() + i] == b[i]);
        }
    }
    if has_at(events, at, a) && has_at(events, at + a.len(), b) {
        assert forall|i: int| 0 <= i < both.len() implies events[at + i] == #[trigger] both[i] by {
            if i < a.len() {
                assert(both[i] == a[i]);
            } else {
                let j = i - a.len();
                assert(both[i] == b[j]);
                assert(events[at + a.len() + j] == b[j]);
            }
        }
    }
}

/// An event stands in a document where its number gives it.
pub proof fn lemma_has_one(events: Seq<XmlView>, at: int, event: XmlView)
    ensures
        has_at(events, at, seq![event]) <==> 0 <= at < events.len() && events[at] == event,
{
    if has_at(events, at, seq![event]) {
        assert(events[at + 0] == seq![event][0]);
    }
}

/// The start of an element.
pub open spec fn opening(
    name: Seq<char>,
    attributes: Seq<Result<AttributeView, Seq<char>>>,
) -> XmlView {
    XmlView::Start(TagView { name, attributes })
}

/// A piece of text between tags.
pub enum Piece {
    /// Plain text.
    Plain(Seq<char>),
    /// The text of a CDATA section.
    Quoted(Seq<char>),
    /// A reference by its name, and the character that it stands for.
    Entity(Seq<char>, char),
}

impl Piece {
    /// The event of this piece.
    pub open spec fn event(self) -> XmlView {
        match self {
            Piece::Plain(text) => XmlView::Text(Ok(text)),
            Piece::Quoted(text) => XmlView::CData(Ok(text)),
            Piece::Entity(name, _) => XmlView::Reference(Ok(name)),
        }
    }

    /// The text of this piece.
    pub open spec fn text(self) -> Seq<char> {
        match self {
            Piece::Plain(text) => text,
            Piece::Quoted(text) => text,
            Piece::Entity(_, c) => seq![c],
        }
    }

    /// Whether a reference stands for its character: by the number of the character
    /// or by one of the five names that XML defines.
    pub open spec fn is_sound(self) -> bool {
        self matches Piece::Entity(name, c) ==> {
            ||| char_reference(name) == Ok::<Option<char>, Seq<char>>(Some(c))
            ||| char_reference(name) == Ok::<Option<char>, Seq<char>>(None) && {
                ||| name == "lt"@ && c == '<'
                ||| name == "gt"@ && c == '>'
                ||| name == "amp"@ && c == '&'
                ||| name == "apos"@ && c == '\''
                ||| name == "quot"@ && c == '"'
            }
        }
    }
}

/// The events of pieces of text.
pub open spec fn piece_events(pieces: Seq<Piece>) -> Seq<XmlView> {
    pieces.map_values(|piece: Piece| piece.event())
}

/// The joined text of pieces.
pub open spec fn piece_text(pieces: Seq<Piece>) -> Seq<char>
    decreases pieces.len(),
{
    if pieces.len() == 0 {
        Seq::empty()
    } else {
        piece_text(pieces.drop_last()) + pieces.last().text()
    }
}

/// Whether all references among pieces stand for their characters.
pub open spec fn are_sound(pieces: Seq<Piece>) -> bool {
    forall|i: int| 0 <= i < pieces.len() ==> (#[trigger] pieces[i]).is_sound()
}

/// A reference gives the character that it stands for.
pub proof fn lemma_reference_char(name: Seq<char>, c: char)
    requires
        Piece::Entity(name, c).is_sound(),
    ensures
        reference_char(Ok(name)) == Ok::<char, ErrorView>(c),
{
    reveal_strlit("lt");
    reveal_strlit("gt");
    reveal_strlit("amp");
    reveal_strlit("apos");
    reveal_strlit("quot");
    assert("lt"@[0] != "gt"@[0]);
    assert("amp"@.len() == 3);
    assert("apos"@[0] != "quot"@[0]);
}

} // verus!
