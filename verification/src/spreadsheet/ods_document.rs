//! OpenDocument tables, written down event by event, and what is read of them.

use crate::error::ErrorView;
use crate::helpers::text::decimal;
use crate::helpers::xml::AttributeView;
use crate::helpers::xml::XmlView;
use crate::helpers::xml_laws::has_at;
use crate::helpers::xml_laws::lemma_attribute_number;
use crate::helpers::xml_laws::lemma_attribute_value;
use crate::helpers::xml_laws::lemma_has_both;
use crate::helpers::xml_laws::lemma_has_one;
use crate::helpers::xml_laws::lemma_reference_char;
use crate::helpers::xml_laws::opening;
use crate::helpers::xml_laws::says;
use crate::helpers::xml_laws::Piece;
use crate::spreadsheet::cell::CellType;
use crate::spreadsheet::cell::CellView;
use crate::spreadsheet::criteria::after_bound;
use crate::spreadsheet::criteria::before_bound;
use crate::spreadsheet::criteria::Criteria;
use crate::spreadsheet::ods::capped;
use crate::spreadsheet::ods::lemma_spread_in_row_keeps;
use crate::spreadsheet::ods::spread_cell;
use crate::spreadsheet::ods::spread_in_row;
use crate::spreadsheet::ods::table_end_cell;
use crate::spreadsheet::ods::table_from;
use crate::spreadsheet::ods::table_start_cell;
use crate::spreadsheet::ods::table_step;
use crate::spreadsheet::ods::TableScan;
use crate::spreadsheet::reference::index_reference;
use crate::spreadsheet::sheet::bounds_of;
use crate::spreadsheet::xlsx::document::is_no_value;
use crate::spreadsheet::xlsx::document::lies_in;
use vstd::prelude::*;

verus! {

/// Whether an event says nothing of tables, rows and cells.
pub open spec fn is_aside(event: XmlView) -> bool {
    match event {
        XmlView::Fault(_) => false,
        XmlView::Start(tag) => tag.name != "table:table-row"@ && tag.name != "table:table-cell"@
            && tag.name != "table:covered-table-cell"@,
        XmlView::End(name) => name != "table:table"@ && name != "table:table-row"@ && name
            != "table:table-cell"@ && name != "table:covered-table-cell"@,
        _ => true,
    }
}

/// Whether all events say nothing of tables, rows and cells.
pub open spec fn are_aside(events: Seq<XmlView>) -> bool {
    forall|i: int| 0 <= i < events.len() ==> is_aside(#[trigger] events[i])
}

/// A piece of a paragraph.
pub enum TextPiece {
    /// Plain text.
    Plain(Seq<char>),
    /// A reference by its name, and the character that it stands for.
    Entity(Seq<char>, char),
    /// A run of spaces, with its attributes and the number that they give.
    Spaces(Seq<Result<AttributeView, Seq<char>>>, Option<nat>),
    /// Markup around text.
    Markup(XmlView),
}

impl TextPiece {
    /// The events of this piece.
    pub open spec fn events(self) -> Seq<XmlView> {
        match self {
            TextPiece::Plain(text) => seq![XmlView::Text(Ok(text))],
            TextPiece::Entity(name, _) => seq![XmlView::Reference(Ok(name))],
            TextPiece::Spaces(attributes, _) => seq![
                opening("text:s"@, attributes),
                XmlView::End("text:s"@),
            ],
            TextPiece::Markup(event) => seq![event],
        }
    }

    /// The text of this piece. A run of spaces without a number is one space.
    pub open spec fn text(self) -> Seq<char> {
        match self {
            TextPiece::Plain(text) => text,
            TextPiece::Entity(_, c) => seq![c],
            TextPiece::Spaces(_, Some(count)) => Seq::new(count, |i: int| ' '),
            TextPiece::Spaces(_, None) => seq![' '],
            TextPiece::Markup(_) => Seq::empty(),
        }
    }

    /// Whether the events say what is noted beside them.
    pub open spec fn is_sound(self) -> bool {
        match self {
            TextPiece::Plain(_) => true,
            TextPiece::Entity(name, c) => Piece::Entity(name, c).is_sound(),
            TextPiece::Spaces(attributes, count) => {
                &&& count matches Some(n) ==> n <= usize::MAX
                &&& says(
                    attributes,
                    "text:c"@,
                    match count {
                        Some(n) => Some(decimal(n)),
                        None => None,
                    },
                )
            },
            TextPiece::Markup(event) => match event {
                XmlView::Start(tag) => is_aside(event) && tag.name != "text:p"@ && tag.name
                    != "text:s"@ && tag.name != "office:annotation"@,
                XmlView::End(name) => is_aside(event),
                _ => false,
            },
        }
    }
}

/// The events of pieces.
pub open spec fn text_events(pieces: Seq<TextPiece>) -> Seq<XmlView>
    decreases pieces.len(),
{
    if pieces.len() == 0 {
        Seq::empty()
    } else {
        pieces[0].events() + text_events(pieces.drop_first())
    }
}

/// The joined text of pieces.
pub open spec fn joined_text(pieces: Seq<TextPiece>) -> Seq<char>
    decreases pieces.len(),
{
    if pieces.len() == 0 {
        Seq::empty()
    } else {
        pieces[0].text() + joined_text(pieces.drop_first())
    }
}

/// A part of a cell's content.
pub enum CellPart {
    /// A paragraph, with its attributes.
    Paragraph(Seq<Result<AttributeView, Seq<char>>>, Seq<TextPiece>),
    /// A comment, which is no part of the cell's text.
    Comment(Seq<Result<AttributeView, Seq<char>>>, Seq<XmlView>),
}

impl CellPart {
    /// The events of this part.
    pub open spec fn events(self) -> Seq<XmlView> {
        match self {
            CellPart::Paragraph(attributes, pieces) => seq![opening("text:p"@, attributes)] + (
            text_events(pieces) + seq![XmlView::End("text:p"@)]),
            CellPart::Comment(attributes, inner) => seq![opening("office:annotation"@, attributes)]
                + (inner + seq![XmlView::End("office:annotation"@)]),
        }
    }

    /// The text of a cell with this part behind the given text: paragraphs stand on
    /// lines of their own.
    pub open spec fn behind(self, text: Seq<char>) -> Seq<char> {
        match self {
            CellPart::Paragraph(_, pieces) => if text.len() == 0 {
                joined_text(pieces)
            } else {
                text + seq!['\n'] + joined_text(pieces)
            },
            CellPart::Comment(_, _) => text,
        }
    }

    /// Whether the events say what is noted beside them.
    pub open spec fn is_sound(self) -> bool {
        match self {
            CellPart::Paragraph(_, pieces) => forall|i: int|
                0 <= i < pieces.len() ==> (#[trigger] pieces[i]).is_sound(),
            CellPart::Comment(_, inner) => are_aside(inner) && forall|i: int|
                0 <= i < inner.len() ==> (#[trigger] inner[i]) != XmlView::End(
                    "office:annotation"@,
                ),
        }
    }
}

/// The events of a cell's content.
pub open spec fn content_events(parts: Seq<CellPart>) -> Seq<XmlView>
    decreases parts.len(),
{
    if parts.len() == 0 {
        Seq::empty()
    } else {
        parts[0].events() + content_events(parts.drop_first())
    }
}

/// The text of a cell with this content behind the given text.
pub open spec fn content_text(parts: Seq<CellPart>, text: Seq<char>) -> Seq<char>
    decreases parts.len(),
{
    if parts.len() == 0 {
        text
    } else {
        content_text(parts.drop_first(), parts[0].behind(text))
    }
}

/// Whether the events of all parts say what is noted beside them.
pub open spec fn is_sound_content(parts: Seq<CellPart>) -> bool {
    forall|i: int| 0 <= i < parts.len() ==> (#[trigger] parts[i]).is_sound()
}

/// What stands in a cell element.
pub enum CellContent {
    /// The text of a string.
    Text(Seq<CellPart>),
    /// What is shown for another value.
    Shown(Seq<XmlView>),
}

/// A cell element, with what it says of the cells that it stands for.
pub struct TableCell {
    /// The attributes.
    pub attributes: Seq<Result<AttributeView, Seq<char>>>,
    /// The content.
    pub content: CellContent,
    /// Whether the cell is covered by a merged range.
    pub covered: bool,
    /// The number of columns that are given as repeated.
    pub repeated: Option<nat>,
    /// The attribute for the type of the value.
    pub value_type: Option<Seq<char>>,
    /// The attribute that holds the value, where the type has one.
    pub given: Option<Seq<char>>,
    /// What the value stands for.
    pub kind: CellType,
    /// The value.
    pub value: Seq<char>,
}

impl TableCell {
    /// The name of the element.
    pub open spec fn name(self) -> Seq<char> {
        if self.covered {
            "table:covered-table-cell"@
        } else {
            "table:table-cell"@
        }
    }

    /// The events of the content.
    pub open spec fn inner(self) -> Seq<XmlView> {
        match self.content {
            CellContent::Text(parts) => content_events(parts),
            CellContent::Shown(events) => events,
        }
    }

    /// The events of this element.
    pub open spec fn events(self) -> Seq<XmlView> {
        seq![opening(self.name(), self.attributes)] + (self.inner() + seq![
            XmlView::End(self.name()),
        ])
    }

    /// How many columns this element stands for.
    pub open spec fn columns(self) -> nat {
        match self.repeated {
            Some(count) => count,
            None => 1,
        }
    }

    /// Whether the attributes and the content say what is noted beside them.
    pub open spec fn is_sound(self, error_as_null: bool) -> bool {
        &&& self.repeated matches Some(count) ==> count <= usize::MAX
        &&& says(
            self.attributes,
            "table:number-columns-repeated"@,
            match self.repeated {
                Some(count) => Some(decimal(count)),
                None => None,
            },
        )
        &&& says(self.attributes, "office:value-type"@, self.value_type)
        &&& match self.content {
            CellContent::Text(parts) => self.value_type == Some("string"@) && is_sound_content(
                parts,
            ),
            CellContent::Shown(events) => self.value_type != Some("string"@) && are_aside(events),
        }
        &&& self.is_typed(error_as_null)
    }

    /// Whether the type and the value are those that the attributes and the content
    /// give.
    pub open spec fn is_typed(self, error_as_null: bool) -> bool {
        &&& self.value_type is None ==> self.kind == CellType::Empty
        &&& self.value_type == Some("boolean"@) ==> {
            &&& says(self.attributes, "office:boolean-value"@, self.given)
            &&& self.kind == CellType::Boolean
            &&& self.value == if self.given is None || self.given == Some("false"@) || self.given
                == Some("0"@) {
                "0"@
            } else {
                "1"@
            }
        }
        &&& self.value_type == Some("date"@) ==> {
            &&& says(self.attributes, "office:date-value"@, self.given)
            &&& self.kind == CellType::IsoDateTime
            &&& self.holds_given()
        }
        &&& self.value_type == Some("time"@) ==> {
            &&& says(self.attributes, "office:time-value"@, self.given)
            &&& self.kind == CellType::IsoDuration
            &&& self.holds_given()
        }
        &&& self.value_type == Some("string"@) ==> {
            &&& says(self.attributes, "calcext:value-type"@, self.given)
            &&& self.kind == if self.given != Some("error"@) {
                CellType::InlineString
            } else if error_as_null {
                CellType::Empty
            } else {
                CellType::Error
            }
            &&& self.content matches CellContent::Text(parts) ==> self.value == content_text(
                parts,
                Seq::empty(),
            )
        }
        &&& self.has_other_type() ==> {
            &&& says(self.attributes, "office:value"@, self.given)
            &&& self.kind == CellType::Number
            &&& self.holds_given()
        }
    }

    /// Whether a type is given that is none of those with a name of their own.
    pub open spec fn has_other_type(self) -> bool {
        &&& self.value_type is Some
        &&& self.value_type != Some("boolean"@)
        &&& self.value_type != Some("date"@)
        &&& self.value_type != Some("time"@)
        &&& self.value_type != Some("string"@)
    }

    /// Whether the value is that of the attribute that holds it.
    pub open spec fn holds_given(self) -> bool {
        self.value == match self.given {
            Some(text) => text,
            None => Seq::empty(),
        }
    }
}

proof fn lemma_names_differ()
    ensures
        "table:table"@ != "table:table-row"@,
        "table:table"@ != "table:table-cell"@,
        "table:table"@ != "table:covered-table-cell"@,
        "table:table-row"@ != "table:table-cell"@,
        "table:table-row"@ != "table:covered-table-cell"@,
        "table:table-cell"@ != "table:covered-table-cell"@,
        "office:annotation"@ != "table:table"@,
        "office:annotation"@ != "table:table-row"@,
        "office:annotation"@ != "table:table-cell"@,
        "office:annotation"@ != "table:covered-table-cell"@,
        "text:p"@ != "table:table"@,
        "text:p"@ != "table:table-row"@,
        "text:p"@ != "table:table-cell"@,
        "text:p"@ != "table:covered-table-cell"@,
        "text:p"@ != "office:annotation"@,
        "text:s"@ != "table:table"@,
        "text:s"@ != "table:table-row"@,
        "text:s"@ != "table:table-cell"@,
        "text:s"@ != "table:covered-table-cell"@,
        "text:s"@ != "office:annotation"@,
        "text:s"@ != "text:p"@,
        "boolean"@ != "date"@,
        "boolean"@ != "time"@,
        "boolean"@ != "string"@,
        "date"@ != "time"@,
        "date"@ != "string"@,
        "time"@ != "string"@,
{
    reveal_strlit("table:table");
    reveal_strlit("table:table-row");
    reveal_strlit("table:table-cell");
    reveal_strlit("table:covered-table-cell");
    reveal_strlit("office:annotation");
    reveal_strlit("text:p");
    reveal_strlit("text:s");
    reveal_strlit("boolean");
    reveal_strlit("date");
    reveal_strlit("time");
    reveal_strlit("string");
    assert("table:table"@.len() == 11);
    assert("table:table-row"@.len() == 15);
    assert("table:table-cell"@.len() == 16);
    assert("table:covered-table-cell"@.len() == 24);
    assert("office:annotation"@.len() == 17);
    assert("text:p"@.len() == 6 && "text:s"@.len() == 6);
    assert("text:p"@[5] == 'p' && "text:s"@[5] == 's');
    assert("boolean"@.len() == 7 && "string"@.len() == 6 && "date"@.len() == 4 && "time"@.len()
        == 4);
    assert("date"@[0] == 'd' && "time"@[0] == 't');
}

proof fn lemma_step(
    events: Seq<XmlView>,
    at: int,
    s: TableScan,
    next: TableScan,
    c: Criteria,
)
    requires
        0 <= at < events.len(),
        table_step(s, events[at], c) == Ok::<(TableScan, bool), ErrorView>((next, false)),
    ensures
        table_from(events, at, s, c) == table_from(events, at + 1, next, c),
{
}

proof fn lemma_aside(
    events: Seq<XmlView>,
    at: int,
    part: Seq<XmlView>,
    s: TableScan,
    c: Criteria,
    n: int,
)
    requires
        has_at(events, at, part),
        are_aside(part),
        !s.element_context || (s.comment_context && forall|i: int|
            0 <= i < part.len() ==> (#[trigger] part[i]) != XmlView::End("office:annotation"@)),
        0 <= n <= part.len(),
    ensures
        table_from(events, at, s, c) == table_from(events, at + n, s, c),
    decreases n,
{
    if n > 0 {
        lemma_aside(events, at, part, s, c, n - 1);
        assert(is_aside(part[n - 1]));
        assert(events[at + (n - 1)] == part[n - 1]);
        lemma_names_differ();
        lemma_step(events, at + n - 1, s, s, c);
    }
}

proof fn lemma_pieces_are_read(
    events: Seq<XmlView>,
    at: int,
    pieces: Seq<TextPiece>,
    s: TableScan,
    c: Criteria,
)
    requires
        has_at(events, at, text_events(pieces)),
        forall|i: int| 0 <= i < pieces.len() ==> (#[trigger] pieces[i]).is_sound(),
        s.element_context,
        !s.comment_context,
    ensures
        table_from(events, at, s, c) == table_from(
            events,
            at + text_events(pieces).len(),
            TableScan { value: s.value + joined_text(pieces), ..s },
            c,
        ),
    decreases pieces.len(),
{
    lemma_names_differ();
    if pieces.len() > 0 {
        let piece = pieces[0];
        let rest = pieces.drop_first();
        lemma_has_both(events, at, piece.events(), text_events(rest));
        assert(pieces[0].is_sound());
        let next = TableScan { value: s.value + piece.text(), ..s };
        match piece {
            TextPiece::Plain(text) => {
                lemma_has_one(events, at, XmlView::Text(Ok(text)));
                lemma_step(events, at, s, next, c);
            },
            TextPiece::Entity(name, ch) => {
                lemma_has_one(events, at, XmlView::Reference(Ok(name)));
                lemma_reference_char(name, ch);
                assert(s.value.push(ch) =~= next.value);
                lemma_step(events, at, s, next, c);
            },
            TextPiece::Spaces(attributes, count) => {
                assert(piece.events()[0] == opening("text:s"@, attributes));
                assert(piece.events()[1] == XmlView::End("text:s"@));
                assert(events[at + 0] == piece.events()[0]);
                assert(events[at + 1] == piece.events()[1]);
                lemma_attribute_number(attributes, "text:c"@, count);
                let number = match count {
                    Some(n) => n,
                    None => 1,
                };
                assert(Seq::new(number, |i: int| ' ') =~= piece.text());
                lemma_step(events, at, s, next, c);
                lemma_step(events, at + 1, next, next, c);
            },
            TextPiece::Markup(event) => {
                lemma_has_one(events, at, event);
                assert(next.value =~= s.value);
                assert(next == s);
                lemma_step(events, at, s, s, c);
            },
        }
        assert forall|i: int| 0 <= i < rest.len() implies (#[trigger] rest[i]).is_sound() by {
            assert(rest[i] == pieces[i + 1]);
        }
        lemma_pieces_are_read(events, at + piece.events().len(), rest, next, c);
        assert(next.value + joined_text(rest) =~= s.value + joined_text(pieces));
    } else {
        assert(s.value + joined_text(pieces) =~= s.value);
    }
}

proof fn lemma_part_is_read(
    events: Seq<XmlView>,
    at: int,
    part: CellPart,
    s: TableScan,
    c: Criteria,
)
    requires
        has_at(events, at, part.events()),
        part.is_sound(),
        s.element_context,
        !s.comment_context,
    ensures
        table_from(events, at, s, c) == table_from(
            events,
            at + part.events().len(),
            TableScan { value: part.behind(s.value), ..s },
            c,
        ),
{
    lemma_names_differ();
    match part {
        CellPart::Paragraph(attributes, pieces) => {
            let start = opening("text:p"@, attributes);
            let end = XmlView::End("text:p"@);
            let inner = text_events(pieces);
            lemma_has_both(events, at, seq![start], inner + seq![end]);
            lemma_has_one(events, at, start);
            lemma_has_both(events, at + 1, inner, seq![end]);
            lemma_has_one(events, at + 1 + inner.len(), end);
            let open = TableScan {
                value: if s.value.len() == 0 {
                    s.value
                } else {
                    s.value.push('\n')
                },
                ..s
            };
            lemma_step(events, at, s, open, c);
            lemma_pieces_are_read(events, at + 1, pieces, open, c);
            let full = TableScan { value: open.value + joined_text(pieces), ..open };
            assert(full.value =~= part.behind(s.value));
            lemma_step(events, at + 1 + inner.len(), full, full, c);
        },
        CellPart::Comment(attributes, inner) => {
            let start = opening("office:annotation"@, attributes);
            let end = XmlView::End("office:annotation"@);
            lemma_has_both(events, at, seq![start], inner + seq![end]);
            lemma_has_one(events, at, start);
            lemma_has_both(events, at + 1, inner, seq![end]);
            lemma_has_one(events, at + 1 + inner.len(), end);
            let open = TableScan { comment_context: true, ..s };
            lemma_step(events, at, s, open, c);
            lemma_aside(events, at + 1, inner, open, c, inner.len() as int);
            lemma_step(events, at + 1 + inner.len(), open, s, c);
        },
    }
}

proof fn lemma_content_is_read(
    events: Seq<XmlView>,
    at: int,
    parts: Seq<CellPart>,
    s: TableScan,
    c: Criteria,
)
    requires
        has_at(events, at, content_events(parts)),
        is_sound_content(parts),
        s.element_context,
        !s.comment_context,
    ensures
        table_from(events, at, s, c) == table_from(
            events,
            at + content_events(parts).len(),
            TableScan { value: content_text(parts, s.value), ..s },
            c,
        ),
    decreases parts.len(),
{
    if parts.len() > 0 {
        let part = parts[0];
        let rest = parts.drop_first();
        lemma_has_both(events, at, part.events(), content_events(rest));
        assert(parts[0].is_sound());
        lemma_part_is_read(events, at, part, s, c);
        assert forall|i: int| 0 <= i < rest.len() implies (#[trigger] rest[i]).is_sound() by {
            assert(rest[i] == parts[i + 1]);
        }
        let next = TableScan { value: part.behind(s.value), ..s };
        lemma_content_is_read(events, at + part.events().len(), rest, next, c);
    }
}

proof fn lemma_push_contains(cells: Seq<CellView>, cell: CellView, other: CellView)
    ensures
        cells.push(cell).contains(other) <==> cells.contains(other) || other == cell,
{
    let all = cells.push(cell);
    if cells.contains(other) {
        let i = choose|i: int| 0 <= i < cells.len() && cells[i] == other;
        assert(all[i] == other);
    }
    if other == cell {
        assert(all[cells.len() as int] == other);
    }
    if all.contains(other) {
        let i = choose|i: int| 0 <= i < all.len() && all[i] == other;
        if i < cells.len() {
            assert(cells[i] == other);
        }
    }
}

/// Whether a cell is one of those in a block that hold a value, as far as they lie in
/// a range.
pub open spec fn is_in_block(
    c: Criteria,
    cell: CellView,
    kind: CellType,
    value: Seq<char>,
    rows: (int, int),
    cols: (int, int),
) -> bool {
    &&& cell.kind == kind
    &&& cell.value == value
    &&& rows.0 <= cell.row < rows.1
    &&& cols.0 <= cell.col < cols.1
    &&& lies_in(c.range, cell.row as int, cell.col as int)
    &&& !is_no_value(c, value)
    &&& kind != CellType::Empty
}

/// The cells in the columns from `col` up to `end` of a row that hold a value, as far as
/// they lie in the range, from left to right.
pub open spec fn row_cells(
    c: Criteria,
    kind: CellType,
    value: Seq<char>,
    row: int,
    col: int,
    end: int,
) -> Seq<CellView>
    decreases end - col,
{
    if col >= end {
        Seq::empty()
    } else {
        let rest = row_cells(c, kind, value, row, col + 1, end);
        if lies_in(c.range, row, col) && !is_no_value(c, value) && kind != CellType::Empty {
            seq![CellView { row: row as usize, col: col as usize, kind, value }] + rest
        } else {
            rest
        }
    }
}

/// The cells in a block that hold a value, as far as they lie in the range, row by row.
pub open spec fn block_cells(
    c: Criteria,
    kind: CellType,
    value: Seq<char>,
    rows: (int, int),
    cols: (int, int),
) -> Seq<CellView>
    decreases rows.1 - rows.0,
{
    if rows.0 >= rows.1 {
        Seq::empty()
    } else {
        row_cells(c, kind, value, rows.0, cols.0, cols.1) + block_cells(
            c,
            kind,
            value,
            (rows.0 + 1, rows.1),
            cols,
        )
    }
}

/// A row out of the range, or with no value to show, gives no cells.
pub proof fn lemma_no_row_cells(
    c: Criteria,
    kind: CellType,
    value: Seq<char>,
    row: int,
    col: int,
    end: int,
)
    requires
        kind == CellType::Empty || (c.range matches Some(bounds) && ((
        bounds.row_lower_bound matches Some(lower) && row < lower) || (
        bounds.row_upper_bound matches Some(upper) && row > upper))),
    ensures
        row_cells(c, kind, value, row, col, end) == Seq::<CellView>::empty(),
    decreases end - col,
{
    if col < end {
        lemma_no_row_cells(c, kind, value, row, col + 1, end);
    }
}

/// A block of empty cells, or behind the range, gives no cells.
pub proof fn lemma_no_block_cells(
    c: Criteria,
    kind: CellType,
    value: Seq<char>,
    rows: (int, int),
    cols: (int, int),
)
    requires
        kind == CellType::Empty || (c.range matches Some(bounds)
            && bounds.row_upper_bound matches Some(upper) && rows.0 > upper),
    ensures
        block_cells(c, kind, value, rows, cols) == Seq::<CellView>::empty(),
    decreases rows.1 - rows.0,
{
    if rows.0 < rows.1 {
        lemma_no_row_cells(c, kind, value, rows.0, cols.0, cols.1);
        lemma_no_block_cells(c, kind, value, (rows.0 + 1, rows.1), cols);
        assert(block_cells(c, kind, value, rows, cols) =~= Seq::<CellView>::empty());
    }
}

proof fn lemma_row_is_spread(s: TableScan, c: Criteria, row: int, col: int, cell: CellView)
    requires
        s.kind != CellType::Empty,
        s.kind != CellType::Error,
        !c.end_at_empty_row,
        s.sheet.range == c.range,
        0 <= row <= usize::MAX,
        !s.sheet.row_before(row),
        !after_bound(bounds_of(s.sheet.range).row_upper_bound, row),
        0 <= col,
    ensures
        spread_in_row(s, c, row, col) matches Ok(next) && {
            &&& next.sheet.range == s.sheet.range
            &&& next.sheet.rows_limit == s.sheet.rows_limit
            &&& next.sheet.cells.contains(cell) <==> s.sheet.cells.contains(cell) || is_in_block(
                c,
                cell,
                s.kind,
                s.value,
                (row, row + 1),
                (col, capped(s.col as int, s.col_count as int) as int),
            )
            &&& next.sheet.cells == s.sheet.cells + row_cells(
                c,
                s.kind,
                s.value,
                row,
                col,
                capped(s.col as int, s.col_count as int) as int,
            )
        },
    decreases capped(s.col as int, s.col_count as int) - col,
{
    if col < capped(s.col as int, s.col_count as int) {
        if before_bound(bounds_of(s.sheet.range).col_lower_bound, col) || after_bound(
            bounds_of(s.sheet.range).col_upper_bound,
            col,
        ) {
            lemma_row_is_spread(s, c, row, col + 1, cell);
        } else {
            let own = CellView { row: row as usize, col: col as usize, kind: s.kind, value: s.value };
            let next = TableScan {
                last_row: Some(s.row),
                sheet: if c.is_null(s.value) {
                    s.sheet
                } else {
                    s.sheet.with(own)
                },
                ..s
            };
            assert(c.is_null(s.value) == is_no_value(c, s.value));
            lemma_push_contains(s.sheet.cells, own, cell);
            lemma_row_is_spread(next, c, row, col + 1, cell);
            let rest = row_cells(
                c,
                s.kind,
                s.value,
                row,
                col + 1,
                capped(s.col as int, s.col_count as int) as int,
            );
            assert(s.sheet.cells.push(own) + rest =~= s.sheet.cells + (seq![own] + rest));
        }
    } else {
        assert(s.sheet.cells + Seq::<CellView>::empty() =~= s.sheet.cells);
    }
}

proof fn lemma_block_is_spread(s: TableScan, c: Criteria, row: int, cell: CellView)
    requires
        s.kind != CellType::Empty,
        s.kind != CellType::Error,
        !c.end_at_empty_row,
        c.rows_limit is None,
        s.sheet.range == c.range,
        s.sheet.rows_limit == c.rows_limit,
        0 <= row,
    ensures
        spread_cell(s, c, row) matches Ok(next) && {
            &&& next == (TableScan { sheet: next.sheet, last_row: next.last_row, ..s })
            &&& next.sheet.range == s.sheet.range
            &&& next.sheet.rows_limit == s.sheet.rows_limit
            &&& next.sheet.cells.contains(cell) <==> s.sheet.cells.contains(cell) || is_in_block(
                c,
                cell,
                s.kind,
                s.value,
                (row, capped(s.row as int, s.row_count as int) as int),
                (s.col as int, capped(s.col as int, s.col_count as int) as int),
            )
            &&& next.sheet.cells == s.sheet.cells + block_cells(
                c,
                s.kind,
                s.value,
                (row, capped(s.row as int, s.row_count as int) as int),
                (s.col as int, capped(s.col as int, s.col_count as int) as int),
            )
        },
    decreases capped(s.row as int, s.row_count as int) - row,
{
    let rows = (row, capped(s.row as int, s.row_count as int) as int);
    let cols = (s.col as int, capped(s.col as int, s.col_count as int) as int);
    assert(s.sheet.cells + Seq::<CellView>::empty() =~= s.sheet.cells);
    if row < capped(s.row as int, s.row_count as int) {
        let later = block_cells(c, s.kind, s.value, (row + 1, rows.1), cols);
        if s.sheet.row_before(row) {
            lemma_block_is_spread(s, c, row + 1, cell);
            lemma_no_row_cells(c, s.kind, s.value, row, cols.0, cols.1);
            assert(Seq::<CellView>::empty() + later =~= later);
        } else if !s.sheet.row_after(row) {
            lemma_row_is_spread(s, c, row, s.col as int, cell);
            lemma_spread_in_row_keeps(s, c, row, s.col as int);
            let next = spread_in_row(s, c, row, s.col as int)->Ok_0;
            lemma_block_is_spread(next, c, row + 1, cell);
            let own = row_cells(c, s.kind, s.value, row, cols.0, cols.1);
            assert(s.sheet.cells + own + later =~= s.sheet.cells + (own + later));
        } else {
            lemma_no_block_cells(c, s.kind, s.value, rows, cols);
        }
    }
}

/// Whether a scan stands between the cells of a table that was read with these
/// criteria.
pub open spec fn is_between_table_cells(s: TableScan, c: Criteria) -> bool {
    &&& !s.element_context
    &&& !s.comment_context
    &&& s.sheet.range == c.range
    &&& s.sheet.rows_limit == c.rows_limit
}

proof fn lemma_attributes_are_read(cell: TableCell, s: TableScan, c: Criteria)
    requires
        cell.is_sound(c.error_as_null),
        is_between_table_cells(s, c),
    ensures
        ({
            let is_text = cell.value_type == Some("string"@);
            table_start_cell(s, cell.attributes, c) == Ok::<TableScan, ErrorView>(
                TableScan {
                    col_count: cell.columns() as usize,
                    kind: cell.kind,
                    value: if is_text || cell.value_type is None {
                        Seq::empty()
                    } else {
                        cell.value
                    },
                    element_context: is_text && cell.kind != CellType::Empty,
                    ..s
                },
            )
        }),
{
    lemma_names_differ();
    reveal_strlit("0");
    reveal_strlit("1");
    assert("0"@ =~= seq!['0']);
    assert("1"@ =~= seq!['1']);
    lemma_attribute_number(cell.attributes, "table:number-columns-repeated"@, cell.repeated);
    lemma_attribute_value(cell.attributes, "office:value-type"@, cell.value_type);
    lemma_attribute_value(cell.attributes, "office:boolean-value"@, cell.given);
    lemma_attribute_value(cell.attributes, "office:date-value"@, cell.given);
    lemma_attribute_value(cell.attributes, "office:time-value"@, cell.given);
    lemma_attribute_value(cell.attributes, "office:value"@, cell.given);
    lemma_attribute_value(cell.attributes, "calcext:value-type"@, cell.given);
}

/// What a cell element makes of a scan: a cell for each of its columns and each row of
/// its row element joins the sheet, as far as they lie in the range and have a value.
pub proof fn lemma_table_cell_element(
    events: Seq<XmlView>,
    at: int,
    element: TableCell,
    s: TableScan,
    c: Criteria,
    cell: CellView,
) -> (next: TableScan)
    requires
        has_at(events, at, element.events()),
        element.is_sound(c.error_as_null),
        is_between_table_cells(s, c),
        !c.end_at_empty_row,
        c.rows_limit is None,
        element.kind != CellType::Error,
        s.row + s.row_count <= usize::MAX,
        s.col + element.columns() <= usize::MAX,
    ensures
        table_from(events, at, s, c) == table_from(events, at + element.events().len(), next, c),
        is_between_table_cells(next, c),
        next.row == s.row,
        next.row_count == s.row_count,
        next.col == s.col + element.columns(),
        next.sheet.cells.contains(cell) <==> s.sheet.cells.contains(cell) || is_in_block(
            c,
            cell,
            element.kind,
            element.value,
            (s.row as int, s.row + s.row_count),
            (s.col as int, s.col + element.columns()),
        ),
        next.sheet.cells == s.sheet.cells + block_cells(
            c,
            element.kind,
            element.value,
            (s.row as int, s.row + s.row_count),
            (s.col as int, s.col + element.columns()),
        ),
{
    lemma_names_differ();
    let start = opening(element.name(), element.attributes);
    let end = XmlView::End(element.name());
    let inner = element.inner();
    lemma_has_both(events, at, seq![start], inner + seq![end]);
    lemma_has_one(events, at, start);
    lemma_has_both(events, at + 1, inner, seq![end]);
    lemma_has_one(events, at + 1 + inner.len(), end);
    lemma_attributes_are_read(element, s, c);
    let open = table_start_cell(s, element.attributes, c)->Ok_0;
    lemma_step(events, at, s, open, c);
    let full = match element.content {
        CellContent::Text(parts) => {
            if open.element_context {
                lemma_content_is_read(events, at + 1, parts, open, c);
                TableScan { value: content_text(parts, Seq::empty()), ..open }
            } else {
                lemma_content_is_aside(parts);
                lemma_aside(events, at + 1, inner, open, c, inner.len() as int);
                open
            }
        },
        CellContent::Shown(shown) => {
            lemma_aside(events, at + 1, inner, open, c, inner.len() as int);
            open
        },
    };
    assert(table_from(events, at, s, c) == table_from(events, at + 1 + inner.len(), full, c));
    assert(full.kind != CellType::Empty ==> full.value == element.value);
    if full.kind != CellType::Empty {
        lemma_block_is_spread(full, c, full.row as int, cell);
    } else {
        lemma_no_block_cells(
            c,
            element.kind,
            element.value,
            (s.row as int, s.row + s.row_count),
            (s.col as int, s.col + element.columns()),
        );
        assert(s.sheet.cells + Seq::<CellView>::empty() =~= s.sheet.cells);
    }
    let next = table_end_cell(full, c)->Ok_0;
    lemma_step(events, at + 1 + inner.len(), full, next, c);
    next
}

/// A cell element with an error fails where it lies in the range, with its file, its
/// table, its reference and its text, unless errors count as no value.
pub proof fn lemma_error_element_fails(
    events: Seq<XmlView>,
    at: int,
    element: TableCell,
    s: TableScan,
    c: Criteria,
)
    requires
        has_at(events, at, element.events()),
        element.is_sound(c.error_as_null),
        is_between_table_cells(s, c),
        !c.end_at_empty_row,
        c.rows_limit is None,
        element.kind == CellType::Error,
        s.row_count > 0,
        element.columns() > 0,
        s.row + s.row_count <= usize::MAX,
        s.col + element.columns() <= usize::MAX,
        lies_in(c.range, s.row as int, s.col as int),
    ensures
        table_from(events, at, s, c) == Err::<(TableScan, int), ErrorView>(
            ErrorView::CellValueError(
                s.sheet.file_name,
                s.sheet.name,
                index_reference(s.row as nat, s.col as nat),
                element.value,
            ),
        ),
{
    lemma_names_differ();
    let start = opening(element.name(), element.attributes);
    let end = XmlView::End(element.name());
    let inner = element.inner();
    lemma_has_both(events, at, seq![start], inner + seq![end]);
    lemma_has_one(events, at, start);
    lemma_has_both(events, at + 1, inner, seq![end]);
    lemma_has_one(events, at + 1 + inner.len(), end);
    lemma_attributes_are_read(element, s, c);
    let open = table_start_cell(s, element.attributes, c)->Ok_0;
    lemma_step(events, at, s, open, c);
    let full = match element.content {
        CellContent::Text(parts) => {
            if open.element_context {
                lemma_content_is_read(events, at + 1, parts, open, c);
                TableScan { value: content_text(parts, Seq::empty()), ..open }
            } else {
                lemma_content_is_aside(parts);
                lemma_aside(events, at + 1, inner, open, c, inner.len() as int);
                open
            }
        },
        CellContent::Shown(shown) => {
            lemma_aside(events, at + 1, inner, open, c, inner.len() as int);
            open
        },
    };
    assert(table_from(events, at, s, c) == table_from(events, at + 1 + inner.len(), full, c));
    assert(full.value == element.value);
    assert(spread_in_row(full, c, full.row as int, full.col as int) is Err);
    assert(spread_cell(full, c, full.row as int) is Err);
    assert(table_end_cell(full, c) is Err);
}

proof fn lemma_aside_joins(a: Seq<XmlView>, b: Seq<XmlView>)
    requires
        are_aside(a),
        are_aside(b),
    ensures
        are_aside(a + b),
{
    assert forall|i: int| 0 <= i < (a + b).len() implies is_aside(#[trigger] (a + b)[i]) by {
        if i < a.len() {
            assert((a + b)[i] == a[i]);
        } else {
            assert((a + b)[i] == b[i - a.len()]);
        }
    }
}

proof fn lemma_pieces_are_aside(pieces: Seq<TextPiece>)
    requires
        forall|i: int| 0 <= i < pieces.len() ==> (#[trigger] pieces[i]).is_sound(),
    ensures
        are_aside(text_events(pieces)),
    decreases pieces.len(),
{
    lemma_names_differ();
    if pieces.len() > 0 {
        let rest = pieces.drop_first();
        assert(pieces[0].is_sound());
        assert forall|i: int| 0 <= i < rest.len() implies (#[trigger] rest[i]).is_sound() by {
            assert(rest[i] == pieces[i + 1]);
        }
        lemma_pieces_are_aside(rest);
        lemma_aside_joins(pieces[0].events(), text_events(rest));
    }
}

proof fn lemma_content_is_aside(parts: Seq<CellPart>)
    requires
        is_sound_content(parts),
    ensures
        are_aside(content_events(parts)),
    decreases parts.len(),
{
    lemma_names_differ();
    if parts.len() > 0 {
        let rest = parts.drop_first();
        assert(parts[0].is_sound());
        assert forall|i: int| 0 <= i < rest.len() implies (#[trigger] rest[i]).is_sound() by {
            assert(rest[i] == parts[i + 1]);
        }
        lemma_content_is_aside(rest);
        match parts[0] {
            CellPart::Paragraph(attributes, pieces) => {
                lemma_pieces_are_aside(pieces);
                lemma_aside_joins(text_events(pieces), seq![XmlView::End("text:p"@)]);
                lemma_aside_joins(
                    seq![opening("text:p"@, attributes)],
                    text_events(pieces) + seq![XmlView::End("text:p"@)],
                );
            },
            CellPart::Comment(attributes, inner) => {
                lemma_aside_joins(inner, seq![XmlView::End("office:annotation"@)]);
                lemma_aside_joins(
                    seq![opening("office:annotation"@, attributes)],
                    inner + seq![XmlView::End("office:annotation"@)],
                );
            },
        }
        lemma_aside_joins(parts[0].events(), content_events(rest));
    }
}

} // verus!
