//! Worksheet documents, written down event by event, and what is read of them.

use crate::error::ErrorView;
use crate::helpers::text::decimal;
use crate::helpers::xml::AttributeView;
use crate::helpers::xml::XmlView;
use crate::helpers::xml_laws::are_sound;
use crate::helpers::xml_laws::has_at;
use crate::helpers::xml_laws::lemma_attribute_value;
use crate::helpers::xml_laws::lemma_has_both;
use crate::helpers::xml_laws::lemma_has_one;
use crate::helpers::xml_laws::lemma_number_round_trip;
use crate::helpers::xml_laws::lemma_only_digits_are_numbers;
use crate::helpers::xml_laws::opening;
use crate::helpers::xml_laws::piece_events;
use crate::helpers::xml_laws::piece_text;
use crate::helpers::xml_laws::says;
use crate::helpers::xml_laws::without_plus;
use crate::helpers::xml_laws::Piece;
use crate::spreadsheet::cell::CellType;
use crate::spreadsheet::cell::CellView;
use crate::spreadsheet::criteria::Criteria;
use crate::spreadsheet::criteria::Range;
use crate::spreadsheet::reference::index_reference;
use crate::spreadsheet::reference::lemma_reference_characters_are_plain;
use crate::spreadsheet::reference::lemma_reference_round_trip;
use crate::spreadsheet::reference::reference_index;
use crate::spreadsheet::xlsx::cells::cell_type;
use crate::spreadsheet::xlsx::cells::end_cell;
use crate::spreadsheet::xlsx::cells::scan_from;
use crate::spreadsheet::xlsx::cells::scan_step;
use crate::spreadsheet::xlsx::cells::start_cell;
use crate::spreadsheet::xlsx::cells::ScanStep;
use crate::spreadsheet::xlsx::cells::SheetScan;
use crate::spreadsheet::xlsx::text_laws::is_sound_text;
use crate::spreadsheet::xlsx::text_laws::lemma_plain_value;
use crate::spreadsheet::xlsx::text_laws::lemma_rich_value;
use crate::spreadsheet::xlsx::text_laws::rich_events;
use crate::spreadsheet::xlsx::text_laws::rich_text;
use crate::spreadsheet::xlsx::text_laws::text_element;
use crate::spreadsheet::xlsx::text_laws::TextPart;
use vstd::prelude::*;

verus! {

/// What stands in a cell element.
pub enum Content {
    /// Nothing.
    Nothing,
    /// A value.
    Value(Seq<Piece>),
    /// A text of the cell's own.
    Inline(Seq<TextPart>),
}

impl Content {
    /// The events of this content.
    pub open spec fn events(self) -> Seq<XmlView> {
        match self {
            Content::Nothing => Seq::empty(),
            Content::Value(pieces) => seq![opening("v"@, Seq::empty())] + (piece_events(pieces)
                + seq![XmlView::End("v"@)]),
            Content::Inline(parts) => seq![opening("is"@, Seq::empty())] + (rich_events(parts)
                + seq![XmlView::End("is"@)]),
        }
    }

    /// The text of this content.
    pub open spec fn text(self) -> Seq<char> {
        match self {
            Content::Nothing => Seq::empty(),
            Content::Value(pieces) => piece_text(pieces),
            Content::Inline(parts) => rich_text(parts),
        }
    }

    /// Whether the references in this content stand for their characters.
    pub open spec fn is_sound(self) -> bool {
        match self {
            Content::Nothing => true,
            Content::Value(pieces) => are_sound(pieces),
            Content::Inline(parts) => is_sound_text(parts),
        }
    }
}

/// A cell element, with what it says of the cell.
pub struct CellElement {
    /// The attributes.
    pub attributes: Seq<Result<AttributeView, Seq<char>>>,
    /// The content.
    pub content: Content,
    /// The row, from 0.
    pub row: usize,
    /// The column, from 0.
    pub col: usize,
    /// The attribute `t`.
    pub t: Option<Seq<char>>,
    /// The number in the attribute `s`.
    pub style: Option<nat>,
    /// What the value stands for.
    pub kind: CellType,
}

impl CellElement {
    /// The events of this element.
    pub open spec fn events(self) -> Seq<XmlView> {
        seq![opening("c"@, self.attributes)] + (self.content.events() + seq![XmlView::End("c"@)])
    }

    /// The cell that this element describes.
    pub open spec fn cell(self) -> CellView {
        CellView { row: self.row, col: self.col, kind: self.kind, value: self.content.text() }
    }

    /// Whether the attributes say what is noted beside them, as the cell that comes
    /// after `rows` rows and after `cols` cells of its row.
    pub open spec fn is_sound(
        self,
        rows: nat,
        cols: nat,
        formats: Seq<CellType>,
        error_as_null: bool,
    ) -> bool {
        &&& self.content.is_sound()
        &&& says(self.attributes, "t"@, self.t)
        &&& self.is_styled()
        &&& self.is_placed(rows, cols)
        &&& self.is_typed(formats, error_as_null)
    }

    /// Whether the attribute `s` holds the number of the style. There is no style where
    /// the attribute is missing or empty; and where the attribute `t` names a type, the
    /// attribute may hold any text.
    pub open spec fn is_styled(self) -> bool {
        match self.style {
            Some(number) => says(self.attributes, "s"@, Some(decimal(number))),
            None => {
                ||| says(self.attributes, "s"@, None)
                ||| says(self.attributes, "s"@, Some(Seq::empty()))
                ||| names_type(self.t) && exists|text: Seq<char>|
                    says(self.attributes, "s"@, Some(text))
            },
        }
    }

    /// Whether the cell stands where its reference says, or else behind the cells
    /// before it.
    pub open spec fn is_placed(self, rows: nat, cols: nat) -> bool {
        ||| {
            &&& says(
                self.attributes,
                "r"@,
                Some(index_reference(self.row as nat, self.col as nat)),
            )
            &&& self.row < 1048576
            &&& self.col < 16384
        }
        ||| {
            &&& says(self.attributes, "r"@, None)
            &&& self.row == rows
            &&& self.col == cols
        }
    }

    /// Whether the type is the one that the attribute `t` names, or for numbers the
    /// one that the style gives.
    pub open spec fn is_typed(self, formats: Seq<CellType>, error_as_null: bool) -> bool {
        &&& self.t == Some("inlineStr"@) || self.t == Some("str"@) ==> self.kind
            == CellType::InlineString
        &&& self.t == Some("s"@) ==> self.kind == CellType::SharedString
        &&& self.t == Some("d"@) ==> self.kind == CellType::IsoDateTime
        &&& self.t == Some("b"@) ==> self.kind == CellType::Boolean
        &&& self.t == Some("e"@) ==> self.kind == if error_as_null {
            CellType::Empty
        } else {
            CellType::Error
        }
        &&& !names_type(self.t) ==> match self.style {
            Some(number) => number < formats.len() && number <= usize::MAX && self.kind
                == formats[number as int],
            None => self.kind == CellType::Number,
        }
        &&& self.style matches Some(number) ==> number <= usize::MAX
    }
}

/// Whether an attribute `t` names a type other than that of numbers.
pub open spec fn names_type(t: Option<Seq<char>>) -> bool {
    ||| t == Some("inlineStr"@)
    ||| t == Some("str"@)
    ||| t == Some("s"@)
    ||| t == Some("d"@)
    ||| t == Some("b"@)
    ||| t == Some("e"@)
}

/// Whether a value counts as none.
pub open spec fn is_no_value(c: Criteria, value: Seq<char>) -> bool {
    exists|i: int| 0 <= i < c.nulls@.len() && (#[trigger] c.nulls@[i])@ == value
}

/// Whether a position lies in a range.
pub open spec fn lies_in(range: Option<Range>, row: int, col: int) -> bool {
    range matches Some(bounds) ==> {
        &&& bounds.row_lower_bound matches Some(lower) ==> lower <= row
        &&& bounds.row_upper_bound matches Some(upper) ==> row <= upper
        &&& bounds.col_lower_bound matches Some(lower) ==> lower <= col
        &&& bounds.col_upper_bound matches Some(upper) ==> col <= upper
    }
}

/// Whether a row lies behind a range, or behind the wanted number of rows from the
/// first one on.
pub open spec fn lies_behind(c: Criteria, first: Option<usize>, row: int) -> bool {
    ||| c.range matches Some(bounds) && bounds.row_upper_bound matches Some(upper) && row > upper
    ||| c.rows_limit matches Some(limit) && first matches Some(lower) && row >= lower + limit
}

/// Whether a cell has a value.
pub open spec fn has_value(c: Criteria, cell: CellElement) -> bool {
    cell.kind != CellType::Empty && !is_no_value(c, cell.content.text())
}

/// Whether a cell cannot be read: it holds an error that does not count as no value,
/// and it lies in the range or may lend its value to a merged one.
pub open spec fn is_faulty(c: Criteria, cell: CellElement) -> bool {
    &&& cell.kind == CellType::Error
    &&& !is_no_value(c, cell.content.text())
    &&& lies_in(c.range, cell.row as int, cell.col as int) || c.spread_merged_cells
}

/// Whether a cell is read where no row limit hides it.
pub open spec fn is_shown(c: Criteria, cell: CellElement) -> bool {
    has_value(c, cell) && lies_in(c.range, cell.row as int, cell.col as int)
}

proof fn lemma_names_differ()
    ensures
        "c"@ != "v"@,
        "c"@ != "is"@,
        "c"@ != "row"@,
        "c"@ != "mergeCells"@,
        "c"@ != "mergeCell"@,
        "v"@ != "is"@,
        "v"@ != "mergeCells"@,
        "v"@ != "mergeCell"@,
        "v"@ != "row"@,
        "is"@ != "mergeCells"@,
        "is"@ != "mergeCell"@,
        "is"@ != "row"@,
        "row"@ != "mergeCells"@,
        "mergeCell"@ != "mergeCells"@,
        "mergeCell"@ != "row"@,
        "mergeCell"@ != "c"@,
        "t"@ != "c"@,
        "t"@ != "mergeCells"@,
        "t"@ != "mergeCell"@,
        "t"@ != "row"@,
        "r"@ != "c"@,
        "r"@ != "mergeCells"@,
        "r"@ != "mergeCell"@,
        "r"@ != "row"@,
        "rPh"@ != "c"@,
        "rPh"@ != "mergeCells"@,
        "rPh"@ != "mergeCell"@,
        "rPh"@ != "row"@,
{
    reveal_strlit("c");
    reveal_strlit("v");
    reveal_strlit("is");
    reveal_strlit("row");
    reveal_strlit("mergeCells");
    reveal_strlit("mergeCell");
    reveal_strlit("t");
    reveal_strlit("r");
    reveal_strlit("rPh");
    assert("c"@.len() == 1 && "v"@.len() == 1 && "t"@.len() == 1 && "r"@.len() == 1);
    assert("c"@[0] == 'c' && "v"@[0] == 'v' && "t"@[0] == 't' && "r"@[0] == 'r');
    assert("is"@.len() == 2);
    assert("row"@.len() == 3 && "rPh"@.len() == 3);
    assert("row"@[1] == 'o' && "rPh"@[1] == 'P');
    assert("mergeCells"@.len() == 10 && "mergeCell"@.len() == 9);
}

proof fn lemma_type_names_differ()
    ensures
        "inlineStr"@ != "str"@,
        "inlineStr"@ != "s"@,
        "inlineStr"@ != "d"@,
        "inlineStr"@ != "b"@,
        "inlineStr"@ != "e"@,
        "str"@ != "s"@,
        "str"@ != "d"@,
        "str"@ != "b"@,
        "str"@ != "e"@,
        "s"@ != "d"@,
        "s"@ != "b"@,
        "s"@ != "e"@,
        "d"@ != "b"@,
        "d"@ != "e"@,
        "b"@ != "e"@,
{
    reveal_strlit("inlineStr");
    reveal_strlit("str");
    reveal_strlit("s");
    reveal_strlit("d");
    reveal_strlit("b");
    reveal_strlit("e");
    assert("inlineStr"@.len() == 9);
    assert("str"@.len() == 3);
    assert("s"@[0] == 's' && "d"@[0] == 'd' && "b"@[0] == 'b' && "e"@[0] == 'e');
    assert("s"@.len() == 1 && "d"@.len() == 1 && "b"@.len() == 1 && "e"@.len() == 1);
}

/// Whether an event says nothing of cells, rows and merged ranges.
pub open spec fn is_passive(event: XmlView) -> bool {
    match event {
        XmlView::Fault(_) => false,
        XmlView::Start(tag) => tag.name != "c"@ && tag.name != "mergeCells"@ && tag.name
            != "mergeCell"@,
        XmlView::End(name) => name != "c"@ && name != "mergeCells"@ && name != "row"@,
        _ => true,
    }
}

proof fn lemma_passive_events(
    events: Seq<XmlView>,
    at: int,
    part: Seq<XmlView>,
    s: SheetScan,
    c: Criteria,
    formats: Seq<CellType>,
    n: int,
)
    requires
        has_at(events, at, part),
        forall|i: int| 0 <= i < part.len() ==> is_passive(#[trigger] part[i]),
        s.kind == CellType::Empty,
        0 <= n <= part.len(),
    ensures
        scan_from(events, at, s, c, formats) == scan_from(events, at + n, s, c, formats),
    decreases n,
{
    if n > 0 {
        lemma_passive_events(events, at, part, s, c, formats, n - 1);
        let event = part[n - 1];
        assert(events[at + (n - 1)] == event);
        assert(is_passive(part[n - 1]));
        assert(scan_step(events, at + n - 1, s, c, formats) == ScanStep::Go(s, at + n));
    }
}

proof fn lemma_pieces_are_passive(pieces: Seq<Piece>)
    ensures
        forall|i: int|
            0 <= i < piece_events(pieces).len() ==> is_passive(#[trigger] piece_events(pieces)[i]),
{
    assert forall|i: int| 0 <= i < piece_events(pieces).len() implies is_passive(
        #[trigger] piece_events(pieces)[i],
    ) by {
        assert(piece_events(pieces)[i] == pieces[i].event());
    }
}

spec fn are_passive(events: Seq<XmlView>) -> bool {
    forall|i: int| 0 <= i < events.len() ==> is_passive(#[trigger] events[i])
}

proof fn lemma_passive_join(a: Seq<XmlView>, b: Seq<XmlView>)
    requires
        are_passive(a),
        are_passive(b),
    ensures
        are_passive(a + b),
{
    assert forall|i: int| 0 <= i < (a + b).len() implies is_passive(#[trigger] (a + b)[i]) by {
        if i < a.len() {
            assert((a + b)[i] == a[i]);
        } else {
            assert((a + b)[i] == b[i - a.len()]);
        }
    }
}

proof fn lemma_wrapped_is_passive(
    name: Seq<char>,
    attributes: Seq<Result<AttributeView, Seq<char>>>,
    inner: Seq<XmlView>,
)
    requires
        name != "c"@,
        name != "mergeCells"@,
        name != "mergeCell"@,
        name != "row"@,
        are_passive(inner),
    ensures
        are_passive(seq![opening(name, attributes)] + (inner + seq![XmlView::End(name)])),
{
    lemma_passive_join(inner, seq![XmlView::End(name)]);
    lemma_passive_join(
        seq![opening(name, attributes)],
        inner + seq![XmlView::End(name)],
    );
}

proof fn lemma_rich_is_passive(parts: Seq<TextPart>)
    ensures
        are_passive(rich_events(parts)),
    decreases parts.len(),
{
    lemma_names_differ();
    if parts.len() > 0 {
        lemma_rich_is_passive(parts.drop_first());
        match parts[0] {
            TextPart::Plain(pieces) => {
                lemma_pieces_are_passive(pieces);
                lemma_wrapped_is_passive("t"@, Seq::empty(), piece_events(pieces));
            },
            TextPart::Run(pieces) => {
                lemma_pieces_are_passive(pieces);
                lemma_wrapped_is_passive("t"@, Seq::empty(), piece_events(pieces));
                lemma_wrapped_is_passive("r"@, Seq::empty(), text_element(pieces));
            },
            TextPart::Guide(pieces) => {
                lemma_pieces_are_passive(pieces);
                lemma_wrapped_is_passive("t"@, Seq::empty(), piece_events(pieces));
                lemma_wrapped_is_passive("rPh"@, Seq::empty(), text_element(pieces));
            },
        }
        lemma_passive_join(parts[0].events(), rich_events(parts.drop_first()));
    }
}

proof fn lemma_content_is_passive(content: Content)
    ensures
        are_passive(content.events()),
{
    lemma_names_differ();
    match content {
        Content::Nothing => {},
        Content::Value(pieces) => {
            lemma_pieces_are_passive(pieces);
            lemma_wrapped_is_passive("v"@, Seq::empty(), piece_events(pieces));
        },
        Content::Inline(parts) => {
            lemma_rich_is_passive(parts);
            lemma_wrapped_is_passive("is"@, Seq::empty(), rich_events(parts));
        },
    }
}

proof fn lemma_content_is_read(
    events: Seq<XmlView>,
    at: int,
    content: Content,
    s: SheetScan,
    c: Criteria,
    formats: Seq<CellType>,
)
    requires
        has_at(events, at, content.events()),
        content.is_sound(),
        s.kind != CellType::Empty,
        s.value == Seq::<char>::empty(),
    ensures
        scan_from(events, at, s, c, formats) == scan_from(
            events,
            at + content.events().len(),
            SheetScan { value: content.text(), ..s },
            c,
            formats,
        ),
{
    lemma_names_differ();
    match content {
        Content::Nothing => {
            assert(s == SheetScan { value: content.text(), ..s });
        },
        Content::Value(pieces) => {
            let start = opening("v"@, Seq::empty());
            let inner = piece_events(pieces) + seq![XmlView::End("v"@)];
            lemma_has_both(events, at, seq![start], inner);
            lemma_has_one(events, at, start);
            lemma_plain_value(events, at + 1, pieces, "v"@);
            assert(content.events().len() == pieces.len() + 2);
        },
        Content::Inline(parts) => {
            let start = opening("is"@, Seq::empty());
            let inner = rich_events(parts) + seq![XmlView::End("is"@)];
            lemma_has_both(events, at, seq![start], inner);
            lemma_has_one(events, at, start);
            lemma_rich_value(events, at + 1, parts, "is"@);
            assert(content.events().len() == rich_events(parts).len() + 2);
        },
    }
}

proof fn lemma_type_is_found(
    cell: CellElement,
    rows: nat,
    cols: nat,
    formats: Seq<CellType>,
    s: SheetScan,
    error_as_null: bool,
)
    requires
        cell.is_sound(rows, cols, formats, error_as_null),
    ensures
        cell_type(cell.attributes, error_as_null, formats, s.sheet, cell.row, cell.col) == Ok::<
            CellType,
            ErrorView,
        >(cell.kind),
{
    lemma_type_names_differ();
    lemma_attribute_value(cell.attributes, "t"@, cell.t);
    match cell.style {
        Some(number) => {
            lemma_attribute_value(cell.attributes, "s"@, Some(decimal(number)));
            lemma_number_round_trip(number);
        },
        None => {
            lemma_attribute_value(cell.attributes, "s"@, None);
            lemma_attribute_value(cell.attributes, "s"@, Some(Seq::empty()));
            if exists|text: Seq<char>| says(cell.attributes, "s"@, Some(text)) {
                let text = choose|text: Seq<char>| says(cell.attributes, "s"@, Some(text));
                lemma_attribute_value(cell.attributes, "s"@, Some(text));
            }
        },
    }
}

/// Whether a scan stands between the cells of a worksheet's document that was read
/// with these criteria.
pub open spec fn is_between_cells(s: SheetScan, c: Criteria) -> bool {
    &&& s.value == Seq::<char>::empty()
    &&& s.sheet.range == c.range
    &&& s.sheet.rows_limit == c.rows_limit
}

/// What a cell element makes of a scan, where the wanted rows go on to it: its cell
/// joins the sheet where it has a value and lies in the range; and its value is
/// noted, in the range or not, where merged ranges are spread.
pub proof fn lemma_cell_element(
    events: Seq<XmlView>,
    at: int,
    cell: CellElement,
    s: SheetScan,
    c: Criteria,
    formats: Seq<CellType>,
) -> (next: SheetScan)
    requires
        has_at(events, at, cell.events()),
        cell.is_sound(s.row_count, s.col_count, formats, c.error_as_null),
        is_between_cells(s, c),
        !c.end_at_empty_row,
        !lies_behind(c, s.sheet.row_lower, cell.row as int),
        !is_faulty(c, cell),
    ensures
        scan_from(events, at, s, c, formats) == scan_from(
            events,
            at + cell.events().len(),
            next,
            c,
            formats,
        ),
        is_between_cells(next, c),
        next.row_count == s.row_count,
        next.col_count == s.col_count + 1,
        next.in_merge_cells == s.in_merge_cells,
        next.merges == s.merges,
        next.sheet.file_name == s.sheet.file_name,
        next.sheet.name == s.sheet.name,
        next.sheet.cells == if is_shown(c, cell) {
            s.sheet.cells.push(cell.cell())
        } else {
            s.sheet.cells
        },
        next.sheet.row_lower == if is_shown(c, cell) && s.sheet.row_lower is None {
            Some(cell.row)
        } else {
            s.sheet.row_lower
        },
        next.stored == if c.spread_merged_cells && has_value(c, cell) {
            s.stored.insert((cell.row, cell.col), (cell.kind, cell.content.text()))
        } else {
            s.stored
        },
        next.seen == if c.spread_merged_cells && is_shown(c, cell) {
            s.seen.insert((cell.row, cell.col))
        } else {
            s.seen
        },
{
    lemma_names_differ();
    let start = opening("c"@, cell.attributes);
    let end = XmlView::End("c"@);
    let inner = cell.content.events();
    lemma_has_both(events, at, seq![start], inner + seq![end]);
    lemma_has_one(events, at, start);
    lemma_has_both(events, at + 1, inner, seq![end]);
    lemma_has_one(events, at + 1 + inner.len(), end);
    assert(cell.events().len() == inner.len() + 2);
    lemma_attribute_value(
        cell.attributes,
        "r"@,
        Some(index_reference(cell.row as nat, cell.col as nat)),
    );
    lemma_attribute_value(cell.attributes, "r"@, None);
    if cell.row < 1048576 && cell.col < 16384 {
        lemma_reference_round_trip(cell.row as nat, cell.col as nat);
    }
    lemma_type_is_found(cell, s.row_count, s.col_count, formats, s, c.error_as_null);
    assert(s.sheet.has(cell.row as int, cell.col as int) == lies_in(
        c.range,
        cell.row as int,
        cell.col as int,
    ));
    assert(!s.sheet.row_after(cell.row as int));
    let read = lies_in(c.range, cell.row as int, cell.col as int) || c.spread_merged_cells;
    let started = SheetScan {
        row: cell.row,
        col: cell.col,
        col_count: s.col_count + 1,
        kind: if read {
            cell.kind
        } else {
            CellType::Empty
        },
        ..s
    };
    assert(start_cell(s, cell.attributes, c, formats) == Ok::<(SheetScan, bool), ErrorView>(
        (started, false),
    ));
    assert(scan_step(events, at, s, c, formats) == ScanStep::Go(started, at + 1));
    let full = if started.kind == CellType::Empty {
        lemma_content_is_passive(cell.content);
        lemma_passive_events(events, at + 1, inner, started, c, formats, inner.len() as int);
        started
    } else {
        lemma_content_is_read(events, at + 1, cell.content, started, c, formats);
        SheetScan { value: cell.content.text(), ..started }
    };
    assert(c.is_null(full.value) == is_no_value(c, full.value));
    let ended = end_cell(full, c);
    assert(ended is Ok && !ended->Ok_0.1);
    let next = ended->Ok_0.0;
    assert(scan_step(events, at + 1 + inner.len(), full, c, formats) == ScanStep::Go(
        next,
        at + 2 + inner.len(),
    ));
    next
}

/// A cell in the range whose value is an error fails, with its file, its sheet, its
/// reference and its value, unless errors or that value count as no value.
pub proof fn lemma_error_cell_fails(
    events: Seq<XmlView>,
    at: int,
    cell: CellElement,
    s: SheetScan,
    c: Criteria,
    formats: Seq<CellType>,
)
    requires
        has_at(events, at, cell.events()),
        cell.is_sound(s.row_count, s.col_count, formats, c.error_as_null),
        is_between_cells(s, c),
        !lies_behind(c, s.sheet.row_lower, cell.row as int),
        lies_in(c.range, cell.row as int, cell.col as int),
        cell.kind == CellType::Error,
        !is_no_value(c, cell.content.text()),
    ensures
        scan_from(events, at, s, c, formats) == Err::<SheetScan, ErrorView>(
            ErrorView::CellValueError(
                s.sheet.file_name,
                s.sheet.name,
                index_reference(cell.row as nat, cell.col as nat),
                cell.content.text(),
            ),
        ),
{
    lemma_names_differ();
    let start = opening("c"@, cell.attributes);
    let end = XmlView::End("c"@);
    let inner = cell.content.events();
    lemma_has_both(events, at, seq![start], inner + seq![end]);
    lemma_has_one(events, at, start);
    lemma_has_both(events, at + 1, inner, seq![end]);
    lemma_has_one(events, at + 1 + inner.len(), end);
    lemma_attribute_value(
        cell.attributes,
        "r"@,
        Some(index_reference(cell.row as nat, cell.col as nat)),
    );
    lemma_attribute_value(cell.attributes, "r"@, None);
    if cell.row < 1048576 && cell.col < 16384 {
        lemma_reference_round_trip(cell.row as nat, cell.col as nat);
    }
    lemma_type_is_found(cell, s.row_count, s.col_count, formats, s, c.error_as_null);
    assert(s.sheet.has(cell.row as int, cell.col as int));
    assert(!s.sheet.row_after(cell.row as int));
    let started = SheetScan {
        row: cell.row,
        col: cell.col,
        col_count: s.col_count + 1,
        kind: cell.kind,
        ..s
    };
    assert(start_cell(s, cell.attributes, c, formats) == Ok::<(SheetScan, bool), ErrorView>(
        (started, false),
    ));
    assert(scan_step(events, at, s, c, formats) == ScanStep::Go(started, at + 1));
    lemma_content_is_read(events, at + 1, cell.content, started, c, formats);
    let full = SheetScan { value: cell.content.text(), ..started };
    assert(c.is_null(full.value) == is_no_value(c, full.value));
    assert(end_cell(full, c) is Err);
}

/// A cell in the range with a style that the workbook does not define fails, where its
/// attribute `t` names no type; it is not read as a number.
pub proof fn lemma_unknown_style_fails(
    events: Seq<XmlView>,
    at: int,
    cell: CellElement,
    style: nat,
    s: SheetScan,
    c: Criteria,
    formats: Seq<CellType>,
)
    requires
        has_at(events, at, cell.events()),
        cell.is_placed(s.row_count, s.col_count),
        says(cell.attributes, "t"@, cell.t),
        !names_type(cell.t),
        says(cell.attributes, "s"@, Some(decimal(style))),
        formats.len() <= style <= usize::MAX,
        is_between_cells(s, c),
        !lies_behind(c, s.sheet.row_lower, cell.row as int),
        lies_in(c.range, cell.row as int, cell.col as int),
    ensures
        scan_from(events, at, s, c, formats) == Err::<SheetScan, ErrorView>(
            ErrorView::CellValueError(
                s.sheet.file_name,
                s.sheet.name,
                index_reference(cell.row as nat, cell.col as nat),
                "invalid style index "@ + decimal(style) + ": workbook defines "@ + decimal(
                    formats.len(),
                ) + " styles"@,
            ),
        ),
{
    lemma_names_differ();
    let start = opening("c"@, cell.attributes);
    let inner = cell.content.events() + seq![XmlView::End("c"@)];
    lemma_has_both(events, at, seq![start], inner);
    lemma_has_one(events, at, start);
    lemma_attribute_value(
        cell.attributes,
        "r"@,
        Some(index_reference(cell.row as nat, cell.col as nat)),
    );
    lemma_attribute_value(cell.attributes, "r"@, None);
    if cell.row < 1048576 && cell.col < 16384 {
        lemma_reference_round_trip(cell.row as nat, cell.col as nat);
    }
    lemma_attribute_value(cell.attributes, "t"@, cell.t);
    lemma_attribute_value(cell.attributes, "s"@, Some(decimal(style)));
    lemma_number_round_trip(style);
    assert(decimal(style).len() > 0);
    assert(s.sheet.has(cell.row as int, cell.col as int));
    assert(!s.sheet.row_after(cell.row as int));
    assert(start_cell(s, cell.attributes, c, formats) is Err);
}

/// A cell in the range whose attribute `s` is no number fails, where its attribute `t`
/// names no type.
pub proof fn lemma_bad_style_fails(
    events: Seq<XmlView>,
    at: int,
    cell: CellElement,
    style: Seq<char>,
    s: SheetScan,
    c: Criteria,
    formats: Seq<CellType>,
    i: int,
)
    requires
        has_at(events, at, cell.events()),
        cell.is_placed(s.row_count, s.col_count),
        says(cell.attributes, "t"@, cell.t),
        !names_type(cell.t),
        says(cell.attributes, "s"@, Some(style)),
        0 < i < style.len(),
        !('0' <= style[i] <= '9'),
        is_between_cells(s, c),
        !lies_behind(c, s.sheet.row_lower, cell.row as int),
        lies_in(c.range, cell.row as int, cell.col as int),
    ensures
        scan_from(events, at, s, c, formats) is Err,
{
    lemma_names_differ();
    let start = opening("c"@, cell.attributes);
    let inner = cell.content.events() + seq![XmlView::End("c"@)];
    lemma_has_both(events, at, seq![start], inner);
    lemma_has_one(events, at, start);
    lemma_attribute_value(
        cell.attributes,
        "r"@,
        Some(index_reference(cell.row as nat, cell.col as nat)),
    );
    lemma_attribute_value(cell.attributes, "r"@, None);
    if cell.row < 1048576 && cell.col < 16384 {
        lemma_reference_round_trip(cell.row as nat, cell.col as nat);
    }
    lemma_attribute_value(cell.attributes, "t"@, cell.t);
    lemma_attribute_value(cell.attributes, "s"@, Some(style));
    lemma_only_digits_are_numbers(style);
    let digits = without_plus(style);
    if style[0] == '+' {
        assert(digits[i - 1] == style[i]);
    } else {
        assert(digits[i] == style[i]);
    }
    assert(s.sheet.has(cell.row as int, cell.col as int));
    assert(!s.sheet.row_after(cell.row as int));
    assert(start_cell(s, cell.attributes, c, formats) is Err);
}

/// A cell with an attribute `r` that denotes no cell fails, with its file, its sheet
/// and that text: letters and then digits are what a reference has to be made of.
pub proof fn lemma_bad_reference_fails(
    events: Seq<XmlView>,
    at: int,
    attributes: Seq<Result<AttributeView, Seq<char>>>,
    text: Seq<char>,
    s: SheetScan,
    c: Criteria,
    formats: Seq<CellType>,
    i: int,
)
    requires
        0 <= at < events.len(),
        events[at] == opening("c"@, attributes),
        says(attributes, "r"@, Some(text)),
        text.len() == 0 || !('A' <= text[0] <= 'Z' || 'a' <= text[0] <= 'z') || !('0'
            <= text.last() <= '9') || (0 <= i < text.len() && !('A' <= text[i] <= 'Z' || 'a'
            <= text[i] <= 'z' || '0' <= text[i] <= '9')),
    ensures
        scan_from(events, at, s, c, formats) == Err::<SheetScan, ErrorView>(
            ErrorView::CellReferenceError(s.sheet.file_name, s.sheet.name, text),
        ),
{
    lemma_names_differ();
    lemma_attribute_value(attributes, "r"@, Some(text));
    lemma_reference_characters_are_plain(text, i);
    assert(reference_index(text) is None);
    assert(start_cell(s, attributes, c, formats) == Err::<(SheetScan, bool), ErrorView>(
        ErrorView::CellReferenceError(s.sheet.file_name, s.sheet.name, text),
    ));
    assert(scan_step(events, at, s, c, formats) == ScanStep::Fail(
        ErrorView::CellReferenceError(s.sheet.file_name, s.sheet.name, text),
    ));
}

} // verus!
