//! What string values and tables of shared strings say.

use crate::error::ErrorView;
use crate::helpers::xml::AttributeView;
use crate::helpers::xml::XmlView;
use crate::helpers::xml_laws::are_sound;
use crate::helpers::xml_laws::has_at;
use crate::helpers::xml_laws::lemma_has_both;
use crate::helpers::xml_laws::lemma_has_one;
use crate::helpers::xml_laws::lemma_reference_char;
use crate::helpers::xml_laws::opening;
use crate::helpers::xml_laws::piece_events;
use crate::helpers::xml_laws::piece_text;
use crate::helpers::xml_laws::Piece;
use crate::spreadsheet::xlsx::text::string_from;
use crate::spreadsheet::xlsx::text::string_value;
use crate::spreadsheet::xlsx::text::strings_from;
use crate::spreadsheet::xlsx::text::TextScan;
use vstd::prelude::*;

verus! {

proof fn lemma_pieces_are_read(
    events: Seq<XmlView>,
    at: int,
    pieces: Seq<Piece>,
    n: int,
    end_tag: Seq<char>,
    scan: TextScan,
)
    requires
        has_at(events, at, piece_events(pieces)),
        are_sound(pieces),
        scan.is_text,
        0 <= n <= pieces.len(),
    ensures
        string_from(events, at, end_tag, scan) == string_from(
            events,
            at + n,
            end_tag,
            TextScan { text: scan.text + piece_text(pieces.take(n)), ..scan },
        ),
    decreases n,
{
    if n > 0 {
        lemma_pieces_are_read(events, at, pieces, n - 1, end_tag, scan);
        let piece = pieces[n - 1];
        let front = pieces.take(n - 1);
        assert(pieces.take(n).drop_last() =~= front);
        assert(pieces.take(n).last() == piece);
        assert(piece_events(pieces)[n - 1] == piece.event());
        assert(events[at + (n - 1)] == piece.event());
        if let Piece::Entity(name, c) = piece {
            lemma_reference_char(name, c);
        }
        let before = TextScan { text: scan.text + piece_text(front), ..scan };
        let after = TextScan { text: scan.text + piece_text(pieces.take(n)), ..scan };
        assert(before.text + piece.text() =~= after.text);
        if let Piece::Entity(name, c) = piece {
            assert(before.text.push(c) =~= after.text);
        }
    } else {
        assert(pieces.take(0) =~= Seq::<Piece>::empty());
        assert(scan.text + piece_text(pieces.take(0)) =~= scan.text);
    }
}

/// The value in an element whose text counts is the joined text of its pieces.
pub proof fn lemma_plain_value(
    events: Seq<XmlView>,
    at: int,
    pieces: Seq<Piece>,
    end_tag: Seq<char>,
)
    requires
        has_at(events, at, piece_events(pieces) + seq![XmlView::End(end_tag)]),
        are_sound(pieces),
    ensures
        string_value(events, at, end_tag, true) == Ok::<(Seq<char>, int), ErrorView>(
            (piece_text(pieces), at + pieces.len() + 1),
        ),
{
    let n = pieces.len() as int;
    lemma_has_both(events, at, piece_events(pieces), seq![XmlView::End(end_tag)]);
    lemma_has_one(events, at + n, XmlView::End(end_tag));
    let scan = TextScan { phonetic: false, is_text: true, text: Seq::empty() };
    lemma_pieces_are_read(events, at, pieces, n, end_tag, scan);
    assert(pieces.take(n) =~= pieces);
    assert(scan.text + piece_text(pieces) =~= piece_text(pieces));
}

/// A part of a rich text.
pub enum TextPart {
    /// Text on its own.
    Plain(Seq<Piece>),
    /// A run of formatted text.
    Run(Seq<Piece>),
    /// A phonetic guide, which is no part of the text.
    Guide(Seq<Piece>),
}

/// The events of a text element.
pub open spec fn text_element(pieces: Seq<Piece>) -> Seq<XmlView> {
    seq![opening("t"@, Seq::empty())] + (piece_events(pieces) + seq![XmlView::End("t"@)])
}

impl TextPart {
    /// The events of this part.
    pub open spec fn events(self) -> Seq<XmlView> {
        match self {
            TextPart::Plain(pieces) => text_element(pieces),
            TextPart::Run(pieces) => seq![opening("r"@, Seq::empty())] + (text_element(pieces)
                + seq![XmlView::End("r"@)]),
            TextPart::Guide(pieces) => seq![opening("rPh"@, Seq::empty())] + (text_element(pieces)
                + seq![XmlView::End("rPh"@)]),
        }
    }

    /// What this part adds to the text.
    pub open spec fn text(self) -> Seq<char> {
        match self {
            TextPart::Plain(pieces) => piece_text(pieces),
            TextPart::Run(pieces) => piece_text(pieces),
            TextPart::Guide(_) => Seq::empty(),
        }
    }

    /// Whether the references in this part stand for their characters.
    pub open spec fn is_sound(self) -> bool {
        match self {
            TextPart::Plain(pieces) => are_sound(pieces),
            TextPart::Run(pieces) => are_sound(pieces),
            TextPart::Guide(pieces) => are_sound(pieces),
        }
    }
}

/// The events of a rich text.
pub open spec fn rich_events(parts: Seq<TextPart>) -> Seq<XmlView>
    decreases parts.len(),
{
    if parts.len() == 0 {
        Seq::empty()
    } else {
        parts[0].events() + rich_events(parts.drop_first())
    }
}

/// The text of a rich text.
pub open spec fn rich_text(parts: Seq<TextPart>) -> Seq<char>
    decreases parts.len(),
{
    if parts.len() == 0 {
        Seq::empty()
    } else {
        parts[0].text() + rich_text(parts.drop_first())
    }
}

/// Whether the references in a rich text stand for their characters.
pub open spec fn is_sound_text(parts: Seq<TextPart>) -> bool {
    forall|i: int| 0 <= i < parts.len() ==> (#[trigger] parts[i]).is_sound()
}

proof fn lemma_tags_differ()
    ensures
        "t"@ != "r"@,
        "t"@ != "rPh"@,
        "r"@ != "rPh"@,
        "si"@ != "t"@,
        "si"@ != "r"@,
        "si"@ != "rPh"@,
        "is"@ != "t"@,
        "is"@ != "r"@,
        "is"@ != "rPh"@,
        "sst"@ != "si"@,
{
    reveal_strlit("t");
    reveal_strlit("r");
    reveal_strlit("rPh");
    reveal_strlit("si");
    reveal_strlit("is");
    reveal_strlit("sst");
    assert("t"@[0] != "r"@[0]);
    assert("rPh"@.len() == 3);
    assert("si"@.len() == 2);
    assert("is"@.len() == 2);
    assert("sst"@.len() == 3);
}

proof fn lemma_text_element(
    events: Seq<XmlView>,
    at: int,
    pieces: Seq<Piece>,
    end_tag: Seq<char>,
    scan: TextScan,
)
    requires
        has_at(events, at, text_element(pieces)),
        are_sound(pieces),
        end_tag != "t"@,
        !scan.is_text,
    ensures
        string_from(events, at, end_tag, scan) == string_from(
            events,
            at + text_element(pieces).len(),
            end_tag,
            TextScan {
                text: if scan.phonetic {
                    scan.text
                } else {
                    scan.text + piece_text(pieces)
                },
                ..scan
            },
        ),
{
    lemma_tags_differ();
    let start = opening("t"@, Seq::empty());
    let end = XmlView::End("t"@);
    let n = pieces.len() as int;
    lemma_has_both(events, at, seq![start], piece_events(pieces) + seq![end]);
    lemma_has_one(events, at, start);
    lemma_has_both(events, at + 1, piece_events(pieces), seq![end]);
    lemma_has_one(events, at + 1 + n, end);
    assert(text_element(pieces).len() == n + 2);
    if scan.phonetic {
        lemma_pieces_are_passed(events, at + 1, pieces, n, end_tag, scan);
    } else {
        let open = TextScan { is_text: true, ..scan };
        lemma_pieces_are_read(events, at + 1, pieces, n, end_tag, open);
        assert(pieces.take(n) =~= pieces);
    }
}

proof fn lemma_pieces_are_passed(
    events: Seq<XmlView>,
    at: int,
    pieces: Seq<Piece>,
    n: int,
    end_tag: Seq<char>,
    scan: TextScan,
)
    requires
        has_at(events, at, piece_events(pieces)),
        !scan.is_text,
        0 <= n <= pieces.len(),
    ensures
        string_from(events, at, end_tag, scan) == string_from(events, at + n, end_tag, scan),
    decreases n,
{
    if n > 0 {
        lemma_pieces_are_passed(events, at, pieces, n - 1, end_tag, scan);
        assert(piece_events(pieces)[n - 1] == pieces[n - 1].event());
        assert(events[at + (n - 1)] == pieces[n - 1].event());
    }
}

proof fn lemma_part_is_read(
    events: Seq<XmlView>,
    at: int,
    part: TextPart,
    end_tag: Seq<char>,
    text: Seq<char>,
)
    requires
        has_at(events, at, part.events()),
        part.is_sound(),
        end_tag != "t"@,
        end_tag != "r"@,
        end_tag != "rPh"@,
    ensures
        string_from(
            events,
            at,
            end_tag,
            TextScan { phonetic: false, is_text: false, text },
        ) == string_from(
            events,
            at + part.events().len(),
            end_tag,
            TextScan { phonetic: false, is_text: false, text: text + part.text() },
        ),
{
    lemma_tags_differ();
    let scan = TextScan { phonetic: false, is_text: false, text };
    match part {
        TextPart::Plain(pieces) => {
            lemma_text_element(events, at, pieces, end_tag, scan);
        },
        TextPart::Run(pieces) => {
            let start = opening("r"@, Seq::empty());
            let end = XmlView::End("r"@);
            let inner = text_element(pieces);
            lemma_has_both(events, at, seq![start], inner + seq![end]);
            lemma_has_one(events, at, start);
            lemma_has_both(events, at + 1, inner, seq![end]);
            lemma_has_one(events, at + 1 + inner.len(), end);
            lemma_text_element(events, at + 1, pieces, end_tag, scan);
        },
        TextPart::Guide(pieces) => {
            let start = opening("rPh"@, Seq::empty());
            let end = XmlView::End("rPh"@);
            let inner = text_element(pieces);
            lemma_has_both(events, at, seq![start], inner + seq![end]);
            lemma_has_one(events, at, start);
            lemma_has_both(events, at + 1, inner, seq![end]);
            lemma_has_one(events, at + 1 + inner.len(), end);
            lemma_text_element(
                events,
                at + 1,
                pieces,
                end_tag,
                TextScan { phonetic: true, ..scan },
            );
            assert(text + part.text() =~= text);
        },
    }
}

proof fn lemma_parts_are_read(
    events: Seq<XmlView>,
    at: int,
    parts: Seq<TextPart>,
    end_tag: Seq<char>,
    text: Seq<char>,
)
    requires
        has_at(events, at, rich_events(parts)),
        is_sound_text(parts),
        end_tag != "t"@,
        end_tag != "r"@,
        end_tag != "rPh"@,
    ensures
        string_from(
            events,
            at,
            end_tag,
            TextScan { phonetic: false, is_text: false, text },
        ) == string_from(
            events,
            at + rich_events(parts).len(),
            end_tag,
            TextScan { phonetic: false, is_text: false, text: text + rich_text(parts) },
        ),
    decreases parts.len(),
{
    if parts.len() > 0 {
        let part = parts[0];
        let rest = parts.drop_first();
        lemma_has_both(events, at, part.events(), rich_events(rest));
        assert(parts[0].is_sound());
        lemma_part_is_read(events, at, part, end_tag, text);
        assert forall|i: int| 0 <= i < rest.len() implies (#[trigger] rest[i]).is_sound() by {
            assert(rest[i] == parts[i + 1]);
        }
        lemma_parts_are_read(
            events,
            at + part.events().len(),
            rest,
            end_tag,
            text + part.text(),
        );
        assert((text + part.text()) + rich_text(rest) =~= text + rich_text(parts));
    } else {
        assert(text + rich_text(parts) =~= text);
    }
}

/// The value of a rich text, whether it stands in a cell or in the table of shared
/// strings, is the joined text of its text elements and runs. Phonetic guides are no
/// part of it. It ends with the element around it.
pub proof fn lemma_rich_value(
    events: Seq<XmlView>,
    at: int,
    parts: Seq<TextPart>,
    end_tag: Seq<char>,
)
    requires
        end_tag == "si"@ || end_tag == "is"@,
        has_at(events, at, rich_events(parts) + seq![XmlView::End(end_tag)]),
        is_sound_text(parts),
    ensures
        string_value(events, at, end_tag, false) == Ok::<(Seq<char>, int), ErrorView>(
            (rich_text(parts), at + rich_events(parts).len() + 1),
        ),
{
    lemma_tags_differ();
    let inner = rich_events(parts);
    lemma_has_both(events, at, inner, seq![XmlView::End(end_tag)]);
    lemma_has_one(events, at + inner.len(), XmlView::End(end_tag));
    lemma_parts_are_read(events, at, parts, end_tag, Seq::empty());
    assert(Seq::<char>::empty() + rich_text(parts) =~= rich_text(parts));
}

/// The events of an item of the table of shared strings.
pub open spec fn item_events(parts: Seq<TextPart>) -> Seq<XmlView> {
    seq![opening("si"@, Seq::empty())] + (rich_events(parts) + seq![XmlView::End("si"@)])
}

/// The events of all items of the table of shared strings.
pub open spec fn items_events(items: Seq<Seq<TextPart>>) -> Seq<XmlView>
    decreases items.len(),
{
    if items.len() == 0 {
        Seq::empty()
    } else {
        item_events(items[0]) + items_events(items.drop_first())
    }
}

/// The events of a table of shared strings.
pub open spec fn string_table(
    attributes: Seq<Result<AttributeView, Seq<char>>>,
    items: Seq<Seq<TextPart>>,
) -> Seq<XmlView> {
    seq![opening("sst"@, attributes)] + (items_events(items) + seq![XmlView::End("sst"@)])
}

proof fn lemma_items_are_read(events: Seq<XmlView>, at: int, items: Seq<Seq<TextPart>>)
    requires
        has_at(events, at, items_events(items)),
        forall|i: int| 0 <= i < items.len() ==> is_sound_text(#[trigger] items[i]),
        strings_from(events, at + items_events(items).len()) == Ok::<Seq<Seq<char>>, ErrorView>(
            Seq::empty(),
        ),
    ensures
        strings_from(events, at) == Ok::<Seq<Seq<char>>, ErrorView>(
            items.map_values(|parts: Seq<TextPart>| rich_text(parts)),
        ),
    decreases items.len(),
{
    let texts = items.map_values(|parts: Seq<TextPart>| rich_text(parts));
    if items.len() > 0 {
        let parts = items[0];
        let rest = items.drop_first();
        let start = opening("si"@, Seq::empty());
        let inner = rich_events(parts) + seq![XmlView::End("si"@)];
        lemma_has_both(events, at, item_events(parts), items_events(rest));
        lemma_has_both(events, at, seq![start], inner);
        lemma_has_one(events, at, start);
        assert(is_sound_text(items[0]));
        lemma_rich_value(events, at + 1, parts, "si"@);
        let end = at + item_events(parts).len();
        assert forall|i: int| 0 <= i < rest.len() implies is_sound_text(#[trigger] rest[i]) by {
            assert(rest[i] == items[i + 1]);
        }
        lemma_items_are_read(events, end, rest);
        assert(texts =~= seq![rich_text(parts)] + rest.map_values(
            |parts: Seq<TextPart>| rich_text(parts),
        ));
    } else {
        assert(texts =~= Seq::<Seq<char>>::empty());
    }
}

/// Reading a table of shared strings gives back the texts of its items, each at its
/// number.
pub proof fn lemma_shared_strings_round_trip(
    attributes: Seq<Result<AttributeView, Seq<char>>>,
    items: Seq<Seq<TextPart>>,
)
    requires
        forall|i: int| 0 <= i < items.len() ==> is_sound_text(#[trigger] items[i]),
    ensures
        strings_from(string_table(attributes, items), 0) == Ok::<Seq<Seq<char>>, ErrorView>(
            items.map_values(|parts: Seq<TextPart>| rich_text(parts)),
        ),
{
    lemma_tags_differ();
    let events = string_table(attributes, items);
    let start = opening("sst"@, attributes);
    let end = XmlView::End("sst"@);
    let inner = items_events(items);
    assert(has_at(events, 0, events));
    lemma_has_both(events, 0, seq![start], inner + seq![end]);
    lemma_has_one(events, 0, start);
    lemma_has_both(events, 1, inner, seq![end]);
    lemma_has_one(events, (1 + inner.len()) as int, end);
    assert(events.len() == inner.len() + 2);
    reveal_with_fuel(strings_from, 3);
    lemma_items_are_read(events, 1, items);
}

} // verus!
