//! OpenDocument spreadsheets.

use crate::error::ErrorView;
use crate::error::OdsError;
use crate::error::RustySheetError;
use crate::error::SpreadsheetError;
use crate::helpers::text::same_bytes;
use crate::helpers::text::same_text;
use crate::helpers::xml::attribute_number;
use crate::helpers::xml::attribute_value;
use crate::helpers::xml::event_views;
use crate::helpers::xml::reference_char;
use crate::helpers::xml::resolve_reference;
use crate::helpers::xml::AttributeView;
use crate::helpers::xml::XmlEvent;
use crate::helpers::xml::XmlTag;
use crate::helpers::xml::XmlView;
use crate::helpers::zip::archive_fault;
use crate::helpers::zip::part_start;
use crate::helpers::zip::required_markup;
use crate::helpers::zip::Archive;
use crate::spreadsheet::cell::Cell;
use crate::spreadsheet::cell::CellType;
use crate::spreadsheet::cell::CellView;
use crate::spreadsheet::criteria::after_bound;
use crate::spreadsheet::criteria::before_bound;
use crate::spreadsheet::criteria::Criteria;
use crate::spreadsheet::reference::index_reference;
use crate::spreadsheet::reference::index_to_reference;
use crate::spreadsheet::sheet::bounds_of;
use crate::spreadsheet::sheet::Sheet;
use crate::spreadsheet::sheet::SheetView;
use crate::spreadsheet::xlsx::cells::ends_before;
use crate::spreadsheet::xlsx::cells::sheet_ends;
use crate::spreadsheet::xlsx::stream::sheet_views;
use std::collections::HashMap;
use std::collections::HashSet;
use vstd::prelude::*;

verus! {

/// The media type of an OpenDocument spreadsheet.
pub const MIME_TYPE: &'static str = "application/vnd.oasis.opendocument.spreadsheet";

/// The number of bytes of the media type.
pub const MIME_TYPE_LENGTH: usize = 46;

/// The part with the media type.
pub const MIME_PART: &'static str = "mimetype";

/// The part with the list of all parts.
pub const MANIFEST_PART: &'static str = "META-INF/manifest.xml";

/// The part with the sheets.
pub const CONTENT_PART: &'static str = "content.xml";

/// The spreadsheet.
pub const SPREADSHEET: &'static str = "office:spreadsheet";

/// A sheet.
pub const TABLE: &'static str = "table:table";

/// A row.
pub const TABLE_ROW: &'static str = "table:table-row";

/// A cell.
pub const TABLE_CELL: &'static str = "table:table-cell";

/// A cell that is covered by a merged range.
pub const TABLE_COVERED_CELL: &'static str = "table:covered-table-cell";

/// A comment.
pub const ANNOTATION: &'static str = "office:annotation";

/// A paragraph.
pub const PARAGRAPH: &'static str = "text:p";

/// A run of spaces.
pub const STRING: &'static str = "text:s";

/// An entry of the list of all parts.
pub const FILE_ENTRY: &'static str = "manifest:file-entry";

/// How a part is encrypted.
pub const ENCRYPTION_DATA: &'static str = "manifest:encryption-data";

/// Whether the media type of an archive starts with that of a spreadsheet. An archive
/// without the part passes.
pub open spec fn mime_outcome(image: Seq<u8>) -> Result<(), ErrorView> {
    match part_start(image, MIME_PART@, MIME_TYPE_LENGTH as nat) {
        Err(error) => Err(error),
        Ok(None) => Ok(()),
        Ok(Some(bytes)) => if bytes != vstd::utf8::encode_utf8(MIME_TYPE@) {
            Err(ErrorView::Ods(OdsError::MimeTypeError))
        } else {
            Ok(())
        },
    }
}

/// Checks the media type of an archive.
pub fn check_mime(zip: &mut Archive) -> (res: Result<(), RustySheetError>)
    ensures
        final(zip).image() == old(zip).image(),
        match mime_outcome(old(zip).image()) {
            Ok(_) => res is Ok,
            Err(error) => res matches Err(e) && e@ == error,
        },
{
    match zip.file_start(MIME_PART, MIME_TYPE_LENGTH) {
        Err(error) => Err(error),
        Ok(None) => Ok(()),
        Ok(Some(bytes)) => {
            if same_bytes(bytes.as_slice(), MIME_TYPE.as_bytes()) {
                Ok(())
            } else {
                Err(RustySheetError::Ods(OdsError::MimeTypeError))
            }
        },
    }
}

/// Whether the list of parts, from event `at` on, has encryption data behind the
/// first entry.
pub open spec fn protected_from(events: Seq<XmlView>, at: int, in_file_entry: bool) -> Result<
    bool,
    ErrorView,
>
    decreases events.len() - at,
{
    if at < 0 || at >= events.len() {
        Ok(false)
    } else {
        match events[at] {
            XmlView::Fault(message) => Err(ErrorView::Xml(message)),
            XmlView::Start(tag) => if tag.name == FILE_ENTRY@ {
                protected_from(events, at + 1, true)
            } else if in_file_entry && tag.name == ENCRYPTION_DATA@ {
                Ok(true)
            } else {
                protected_from(events, at + 1, in_file_entry)
            },
            _ => protected_from(events, at + 1, in_file_entry),
        }
    }
}

/// Finds out whether the list of parts has encryption data.
pub fn has_encryption(events: &[XmlEvent]) -> (res: Result<bool, RustySheetError>)
    ensures
        match protected_from(event_views(events@), 0, false) {
            Ok(protected) => res == Ok::<bool, RustySheetError>(protected),
            Err(error) => res matches Err(e) && e@ == error,
        },
{
    let ghost views = event_views(events@);
    let mut in_file_entry: bool = false;
    let mut i: usize = 0;
    while i < events.len()
        invariant
            i <= events@.len(),
            views == event_views(events@),
            protected_from(views, 0, false) == protected_from(views, i as int, in_file_entry),
        decreases events@.len() - i,
    {
        proof {
            assert(views[i as int] == events@[i as int]@);
        }
        match &events[i] {
            XmlEvent::Fault(message) => {
                return Err(RustySheetError::Xml(message.clone()));
            },
            XmlEvent::Start(tag) => {
                if tag.is(FILE_ENTRY) {
                    in_file_entry = true;
                } else if in_file_entry && tag.is(ENCRYPTION_DATA) {
                    return Ok(true);
                }
            },
            _ => {},
        }
        i = i + 1;
    }
    Ok(false)
}

/// Whether an archive is protected by a password.
pub open spec fn protection_outcome(image: Seq<u8>) -> Result<bool, ErrorView> {
    match required_markup(image, MANIFEST_PART@) {
        Err(error) => Err(error),
        Ok(events) => protected_from(events, 0, false),
    }
}

/// Finds out whether an archive is protected by a password.
pub fn is_password_protected(zip: &mut Archive) -> (res: Result<bool, RustySheetError>)
    ensures
        final(zip).image() == old(zip).image(),
        match protection_outcome(old(zip).image()) {
            Ok(protected) => res == Ok::<bool, RustySheetError>(protected),
            Err(error) => res matches Err(e) && e@ == error,
        },
{
    match zip.required_xml_reader(MANIFEST_PART) {
        Err(error) => Err(error),
        Ok(events) => has_encryption(events.as_slice()),
    }
}

/// A sum that stays within the machine word.
pub open spec fn capped(a: int, b: int) -> usize {
    if a + b > usize::MAX {
        usize::MAX
    } else {
        (a + b) as usize
    }
}

/// How far a table was read.
#[verifier::ext_equal]
pub struct TableScan {
    /// The current row.
    pub row: usize,
    /// The current column.
    pub col: usize,
    /// How many rows the current row stands for.
    pub row_count: usize,
    /// How many columns the current cell stands for.
    pub col_count: usize,
    /// The type of the current cell.
    pub kind: CellType,
    /// The value of the current cell.
    pub value: Seq<char>,
    /// Whether the text of the current cell counts.
    pub element_context: bool,
    /// Whether a comment is open.
    pub comment_context: bool,
    /// The last row with a value, or the first one that is wanted.
    pub last_row: Option<usize>,
    /// The sheet with the cells so far.
    pub sheet: SheetView,
}

/// The start of a table's scan.
pub open spec fn table_start(file_name: Seq<char>, name: Seq<char>, c: Criteria) -> TableScan {
    let sheet = SheetView::empty(file_name, name, c.range, c.rows_limit, c.skip_empty_rows);
    TableScan {
        row: 0,
        col: 0,
        row_count: 0,
        col_count: 0,
        kind: CellType::Empty,
        value: Seq::empty(),
        element_context: false,
        comment_context: false,
        last_row: sheet.chunk_row_lower,
        sheet,
    }
}

/// The type of a cell by its attributes.
pub open spec fn ods_cell_type(
    attributes: Seq<Result<AttributeView, Seq<char>>>,
    value_type: Option<Seq<char>>,
    error_as_null: bool,
) -> Result<CellType, ErrorView> {
    match value_type {
        None => Ok(CellType::Empty),
        Some(text) => if text == "boolean"@ {
            Ok(CellType::Boolean)
        } else if text == "date"@ {
            Ok(CellType::IsoDateTime)
        } else if text == "time"@ {
            Ok(CellType::IsoDuration)
        } else if text == "string"@ {
            match attribute_value(attributes, "calcext:value-type"@) {
                Err(error) => Err(error),
                Ok(result) => if result != Some("error"@) {
                    Ok(CellType::InlineString)
                } else if error_as_null {
                    Ok(CellType::Empty)
                } else {
                    Ok(CellType::Error)
                },
            }
        } else {
            Ok(CellType::Number)
        },
    }
}

/// The name of the attribute that holds the value of a cell of this type.
pub open spec fn value_attribute(value_type: Seq<char>) -> Seq<char> {
    if value_type == "date"@ {
        "office:date-value"@
    } else if value_type == "time"@ {
        "office:time-value"@
    } else {
        "office:value"@
    }
}

/// The value that a cell has by its attributes. That of a string is in its text.
pub open spec fn ods_cell_value(
    attributes: Seq<Result<AttributeView, Seq<char>>>,
    value_type: Option<Seq<char>>,
) -> Result<Seq<char>, ErrorView> {
    match value_type {
        None => Ok(Seq::empty()),
        Some(text) => if text == "string"@ {
            Ok(Seq::empty())
        } else if text == "boolean"@ {
            match attribute_value(attributes, "office:boolean-value"@) {
                Err(error) => Err(error),
                Ok(Some(value)) => if value != "false"@ && value != "0"@ {
                    Ok(seq!['1'])
                } else {
                    Ok(seq!['0'])
                },
                Ok(None) => Ok(seq!['0']),
            }
        } else {
            match attribute_value(attributes, value_attribute(text)) {
                Err(error) => Err(error),
                Ok(Some(value)) => Ok(value),
                Ok(None) => Ok(Seq::empty()),
            }
        },
    }
}

/// A cell starts: its type and what its attributes say of its value.
pub open spec fn table_start_cell(
    s: TableScan,
    attributes: Seq<Result<AttributeView, Seq<char>>>,
    c: Criteria,
) -> Result<TableScan, ErrorView> {
    match attribute_number(attributes, "table:number-columns-repeated"@) {
        Err(error) => Err(error),
        Ok(repeated) => match attribute_value(attributes, "office:value-type"@) {
            Err(error) => Err(error),
            Ok(value_type) => match ods_cell_type(attributes, value_type, c.error_as_null) {
                Err(error) => Err(error),
                Ok(kind) => match ods_cell_value(attributes, value_type) {
                    Err(error) => Err(error),
                    Ok(value) => Ok(
                        TableScan {
                            col_count: match repeated {
                                Some(count) => count,
                                None => 1,
                            },
                            kind,
                            value,
                            element_context: if value_type == Some("string"@) {
                                kind != CellType::Empty
                            } else {
                                s.element_context
                            },
                            ..s
                        },
                    ),
                },
            },
        },
    }
}

/// Adds the current cell to row `row_number` in all columns it stands for, from
/// `col_number` on. Columns out of the range are passed over; and the row stays as
/// it is where the sheet ends before it.
pub open spec fn spread_in_row(s: TableScan, c: Criteria, row_number: int, col_number: int) -> Result<
    TableScan,
    ErrorView,
>
    decreases capped(s.col as int, s.col_count as int) - col_number,
{
    if col_number >= capped(s.col as int, s.col_count as int) {
        Ok(s)
    } else if before_bound(bounds_of(s.sheet.range).col_lower_bound, col_number) || after_bound(
        bounds_of(s.sheet.range).col_upper_bound,
        col_number,
    ) {
        spread_in_row(s, c, row_number, col_number + 1)
    } else if ends_before(c.end_at_empty_row, s.last_row, s.sheet.cells.len() == 0, s.row) {
        Ok(s)
    } else if s.kind == CellType::Error {
        Err(
            ErrorView::CellValueError(
                s.sheet.file_name,
                s.sheet.name,
                index_reference(s.row as nat, s.col as nat),
                s.value,
            ),
        )
    } else {
        spread_in_row(
            TableScan {
                last_row: Some(s.row),
                sheet: if c.is_null(s.value) {
                    s.sheet
                } else {
                    s.sheet.with(
                        CellView {
                            row: row_number as usize,
                            col: col_number as usize,
                            kind: s.kind,
                            value: s.value,
                        },
                    )
                },
                ..s
            },
            c,
            row_number,
            col_number + 1,
        )
    }
}

/// Adds the current cell in all rows and columns it stands for, from `row_number`
/// on. Rows before the range are passed over; behind the wanted rows it ends.
pub open spec fn spread_cell(s: TableScan, c: Criteria, row_number: int) -> Result<
    TableScan,
    ErrorView,
>
    decreases capped(s.row as int, s.row_count as int) - row_number,
{
    if row_number >= capped(s.row as int, s.row_count as int) {
        Ok(s)
    } else if s.sheet.row_before(row_number) {
        spread_cell(s, c, row_number + 1)
    } else if s.sheet.row_after(row_number) {
        Ok(s)
    } else {
        match spread_in_row(s, c, row_number, s.col as int) {
            Err(error) => Err(error),
            Ok(next) => {
                proof {
                    lemma_spread_in_row_keeps(s, c, row_number, s.col as int);
                }
                spread_cell(next, c, row_number + 1)
            },
        }
    }
}

/// Adding a cell to a row changes the sheet and the last row only.
pub proof fn lemma_spread_in_row_keeps(s: TableScan, c: Criteria, row_number: int, col_number: int)
    ensures
        spread_in_row(s, c, row_number, col_number) matches Ok(next) ==> next == (TableScan {
            sheet: next.sheet,
            last_row: next.last_row,
            ..s
        }),
    decreases capped(s.col as int, s.col_count as int) - col_number,
{
    if col_number < capped(s.col as int, s.col_count as int) {
        if before_bound(bounds_of(s.sheet.range).col_lower_bound, col_number) || after_bound(
            bounds_of(s.sheet.range).col_upper_bound,
            col_number,
        ) {
            lemma_spread_in_row_keeps(s, c, row_number, col_number + 1);
        } else {
            let next = TableScan {
                last_row: Some(s.row),
                sheet: if c.is_null(s.value) {
                    s.sheet
                } else {
                    s.sheet.with(
                        CellView {
                            row: row_number as usize,
                            col: col_number as usize,
                            kind: s.kind,
                            value: s.value,
                        },
                    )
                },
                ..s
            };
            lemma_spread_in_row_keeps(next, c, row_number, col_number + 1);
        }
    }
}

/// A cell ends.
pub open spec fn table_end_cell(s: TableScan, c: Criteria) -> Result<TableScan, ErrorView> {
    let spread = if s.kind == CellType::Empty {
        Ok(s)
    } else {
        spread_cell(s, c, s.row as int)
    };
    match spread {
        Err(error) => Err(error),
        Ok(next) => Ok(
            TableScan {
                col: capped(s.col as int, s.col_count as int),
                element_context: false,
                comment_context: false,
                ..next
            },
        ),
    }
}

/// What an event makes of a table's scan. The flag tells whether the table ends.
pub open spec fn table_step(s: TableScan, event: XmlView, c: Criteria) -> Result<
    (TableScan, bool),
    ErrorView,
> {
    let text_counts = s.element_context && !s.comment_context;
    match event {
        XmlView::Fault(message) => Err(ErrorView::Xml(message)),
        XmlView::End(name) => if name == TABLE@ {
            Ok((s, true))
        } else if name == TABLE_ROW@ {
            let row = capped(s.row as int, s.row_count as int);
            Ok((TableScan { row, ..s }, s.sheet.row_after(row as int)))
        } else if name == TABLE_CELL@ || name == TABLE_COVERED_CELL@ {
            match table_end_cell(s, c) {
                Err(error) => Err(error),
                Ok(next) => Ok((next, false)),
            }
        } else if s.element_context && s.comment_context && name == ANNOTATION@ {
            Ok((TableScan { comment_context: false, ..s }, false))
        } else {
            Ok((s, false))
        },
        XmlView::Start(tag) => if tag.name == TABLE_ROW@ {
            match attribute_number(tag.attributes, "table:number-rows-repeated"@) {
                Err(error) => Err(error),
                Ok(repeated) => Ok(
                    (
                        TableScan {
                            row_count: match repeated {
                                Some(count) => count,
                                None => 1,
                            },
                            col: 0,
                            ..s
                        },
                        false,
                    ),
                ),
            }
        } else if tag.name == TABLE_CELL@ || tag.name == TABLE_COVERED_CELL@ {
            match table_start_cell(s, tag.attributes, c) {
                Err(error) => Err(error),
                Ok(next) => Ok((next, false)),
            }
        } else if s.element_context && tag.name == ANNOTATION@ {
            Ok((TableScan { comment_context: true, ..s }, false))
        } else if text_counts && tag.name == PARAGRAPH@ {
            Ok(
                (
                    TableScan {
                        value: if s.value.len() == 0 {
                            s.value
                        } else {
                            s.value.push('\n')
                        },
                        ..s
                    },
                    false,
                ),
            )
        } else if text_counts && tag.name == STRING@ {
            match attribute_number(tag.attributes, "text:c"@) {
                Err(error) => Err(error),
                Ok(repeated) => {
                    let count = match repeated {
                        Some(count) => count as nat,
                        None => 1,
                    };
                    Ok(
                        (
                            TableScan { value: s.value + Seq::new(count, |i: int| ' '), ..s },
                            false,
                        ),
                    )
                },
            }
        } else {
            Ok((s, false))
        },
        XmlView::Text(text) => if !text_counts {
            Ok((s, false))
        } else {
            match text {
                Ok(more) => Ok((TableScan { value: s.value + more, ..s }, false)),
                Err(message) => Err(ErrorView::Xml(message)),
            }
        },
        XmlView::Reference(name) => if !text_counts {
            Ok((s, false))
        } else {
            match reference_char(name) {
                Ok(c) => Ok((TableScan { value: s.value.push(c), ..s }, false)),
                Err(error) => Err(error),
            }
        },
        _ => Ok((s, false)),
    }
}

/// The scan of a table from event `at` on, and the number of the event behind it.
pub open spec fn table_from(events: Seq<XmlView>, at: int, s: TableScan, c: Criteria) -> Result<
    (TableScan, int),
    ErrorView,
>
    decreases events.len() - at,
{
    if at < 0 || at >= events.len() {
        Ok((s, at))
    } else {
        match table_step(s, events[at], c) {
            Err(error) => Err(error),
            Ok((last, true)) => Ok((last, at + 1)),
            Ok((next, false)) => table_from(events, at + 1, next, c),
        }
    }
}

/// A table ends behind its start and within the document.
pub proof fn lemma_table_bounds(events: Seq<XmlView>, at: int, s: TableScan, c: Criteria)
    requires
        0 <= at <= events.len(),
    ensures
        table_from(events, at, s, c) matches Ok((_, end)) ==> at <= end <= events.len(),
    decreases events.len() - at,
{
    if at < events.len() {
        if let Ok((next, false)) = table_step(s, events[at], c) {
            lemma_table_bounds(events, at + 1, next, c);
        }
    }
}

/// Where the search for a table leads.
pub enum TableSearch {
    /// The table with this name goes on at the event with this number.
    Found(Seq<char>, int),
    /// There is no more table to read.
    Done,
}

/// The next table to read, from event `at` on, where `count` tables were read
/// before.
pub open spec fn search_from(
    events: Seq<XmlView>,
    at: int,
    c: Criteria,
    accepted: Seq<bool>,
    count: nat,
) -> Result<TableSearch, ErrorView>
    decreases events.len() - at,
{
    if at < 0 || at >= events.len() {
        Ok(TableSearch::Done)
    } else {
        match events[at] {
            XmlView::Fault(message) => Err(ErrorView::Xml(message)),
            XmlView::End(name) if name == SPREADSHEET@ => Ok(TableSearch::Done),
            XmlView::Start(tag) if tag.name == TABLE@ => match attribute_value(
                tag.attributes,
                "table:name"@,
            ) {
                Err(error) => Err(error),
                Ok(None) => Err(ErrorView::FileError(CONTENT_PART@)),
                Ok(Some(name)) => if c.is_full(count as int) {
                    Ok(TableSearch::Done)
                } else if accepted[at] {
                    Ok(TableSearch::Found(name, at + 1))
                } else {
                    search_from(events, at + 1, c, accepted, count)
                },
            },
            _ => search_from(events, at + 1, c, accepted, count),
        }
    }
}

/// A table that is found starts behind the start of the search and within the
/// document.
pub proof fn lemma_search_bounds(
    events: Seq<XmlView>,
    at: int,
    c: Criteria,
    accepted: Seq<bool>,
    count: nat,
)
    requires
        0 <= at <= events.len(),
    ensures
        search_from(events, at, c, accepted, count) matches Ok(TableSearch::Found(_, next)) ==> at
            < next <= events.len(),
    decreases events.len() - at,
{
    if at < events.len() {
        lemma_search_bounds(events, at + 1, c, accepted, count);
    }
}

/// Whether `accepted` says, for the number of the event that starts a table,
/// whether the table is to be read, as far as that is the same on all platforms.
pub open spec fn is_table_selection(
    c: Criteria,
    events: Seq<XmlView>,
    accepted: Seq<bool>,
) -> bool {
    &&& accepted.len() == events.len()
    &&& forall|i: int|
        0 <= i < events.len() ==> (events[i] matches XmlView::Start(tag) ==> (attribute_value(
            tag.attributes,
            "table:name"@,
        ) matches Ok(Some(name)) ==> (c.decides(name) ==> (#[trigger] accepted[i]) == c.accepts(
            name,
        ))))
}

/// The sheets that are read of a document, from event `at` on, where `count` sheets
/// were read before. The end of the document ends the sheets.
pub open spec fn ods_sheets_from(
    events: Seq<XmlView>,
    at: int,
    file_name: Seq<char>,
    c: Criteria,
    accepted: Seq<bool>,
    count: nat,
) -> Result<Seq<SheetView>, ErrorView>
    decreases events.len() - at,
{
    if at < 0 || at > events.len() {
        Ok(Seq::empty())
    } else {
        match search_from(events, at, c, accepted, count) {
            Err(error) => Err(error),
            Ok(TableSearch::Done) => Ok(Seq::empty()),
            Ok(TableSearch::Found(name, start)) => match table_from(
                events,
                start,
                table_start(file_name, name, c),
                c,
            ) {
                Err(error) => Err(error),
                Ok((s, end)) => {
                    proof {
                        lemma_search_bounds(events, at, c, accepted, count);
                        lemma_table_bounds(events, start, table_start(file_name, name, c), c);
                    }
                    let sheet = s.sheet.complete(c.end_at_empty_row);
                    if c.is_full((count + 1) as int) {
                        Ok(seq![sheet])
                    } else {
                        match ods_sheets_from(events, end, file_name, c, accepted, count + 1) {
                            Err(error) => Err(error),
                            Ok(more) => Ok(seq![sheet] + more),
                        }
                    }
                },
            },
        }
    }
}

fn capped_sum(a: usize, b: usize) -> (res: usize)
    ensures
        res == capped(a as int, b as int),
{
    a.saturating_add(b)
}

fn find_ods_type(tag: &XmlTag, value_type: &Option<String>, error_as_null: bool) -> (res: Result<
    CellType,
    RustySheetError,
>)
    ensures
        match ods_cell_type(
            tag@.attributes,
            match *value_type {
                Some(text) => Some(text@),
                None => None,
            },
            error_as_null,
        ) {
            Ok(kind) => res == Ok::<CellType, RustySheetError>(kind),
            Err(error) => res matches Err(e) && e@ == error,
        },
{
    match value_type {
        None => Ok(CellType::Empty),
        Some(text) => {
            if same_text(text.as_str(), "boolean") {
                Ok(CellType::Boolean)
            } else if same_text(text.as_str(), "date") {
                Ok(CellType::IsoDateTime)
            } else if same_text(text.as_str(), "time") {
                Ok(CellType::IsoDuration)
            } else if same_text(text.as_str(), "string") {
                match tag.get_attribute_value("calcext:value-type") {
                    Err(error) => Err(error),
                    Ok(None) => Ok(CellType::InlineString),
                    Ok(Some(result)) => if !same_text(result.as_str(), "error") {
                        Ok(CellType::InlineString)
                    } else if error_as_null {
                        Ok(CellType::Empty)
                    } else {
                        Ok(CellType::Error)
                    },
                }
            } else {
                Ok(CellType::Number)
            }
        },
    }
}

fn find_ods_value(tag: &XmlTag, value_type: &Option<String>) -> (res: Result<
    String,
    RustySheetError,
>)
    ensures
        match ods_cell_value(
            tag@.attributes,
            match *value_type {
                Some(text) => Some(text@),
                None => None,
            },
        ) {
            Ok(value) => res matches Ok(found) && found@ == value,
            Err(error) => res matches Err(e) && e@ == error,
        },
{
    let mut value = String::new();
    proof {
        assert(value@ =~= Seq::<char>::empty());
    }
    match value_type {
        None => Ok(value),
        Some(text) => {
            if same_text(text.as_str(), "string") {
                Ok(value)
            } else if same_text(text.as_str(), "boolean") {
                let is_true: bool = match tag.get_attribute_value("office:boolean-value") {
                    Err(error) => return Err(error),
                    Ok(None) => false,
                    Ok(Some(found)) => !same_text(found.as_str(), "false") && !same_text(
                        found.as_str(),
                        "0",
                    ),
                };
                value.push(
                    if is_true {
                        '1'
                    } else {
                        '0'
                    },
                );
                proof {
                    assert(value@ =~= if is_true {
                        seq!['1']
                    } else {
                        seq!['0']
                    });
                }
                Ok(value)
            } else {
                let name: &str = if same_text(text.as_str(), "date") {
                    "office:date-value"
                } else if same_text(text.as_str(), "time") {
                    "office:time-value"
                } else {
                    "office:value"
                };
                match tag.get_attribute_value(name) {
                    Err(error) => Err(error),
                    Ok(Some(found)) => Ok(found),
                    Ok(None) => Ok(value),
                }
            }
        },
    }
}

struct TableScanner {
    row: usize,
    col: usize,
    row_count: usize,
    col_count: usize,
    kind: CellType,
    value: String,
    element_context: bool,
    comment_context: bool,
    last_row: Option<usize>,
    sheet: Sheet,
}

impl View for TableScanner {
    type V = TableScan;

    closed spec fn view(&self) -> TableScan {
        TableScan {
            row: self.row,
            col: self.col,
            row_count: self.row_count,
            col_count: self.col_count,
            kind: self.kind,
            value: self.value@,
            element_context: self.element_context,
            comment_context: self.comment_context,
            last_row: self.last_row,
            sheet: self.sheet@,
        }
    }
}

impl TableScanner {
    fn new(file_name: &str, name: &str, criteria: &Criteria) -> (res: TableScanner)
        ensures
            res@ == table_start(file_name@, name@, *criteria),
    {
        let sheet = Sheet::new(
            file_name,
            name,
            criteria.range,
            criteria.rows_limit,
            criteria.skip_empty_rows,
        );
        let scanner = TableScanner {
            row: 0,
            col: 0,
            row_count: 0,
            col_count: 0,
            kind: CellType::Empty,
            value: String::new(),
            element_context: false,
            comment_context: false,
            last_row: sheet.chunk_row_lower,
            sheet,
        };
        proof {
            assert(scanner@.value =~= Seq::<char>::empty());
        }
        scanner
    }

    fn start_cell(&mut self, tag: &XmlTag, criteria: &Criteria) -> (res: Result<
        (),
        RustySheetError,
    >)
        ensures
            match table_start_cell(old(self)@, tag@.attributes, *criteria) {
                Ok(next) => res is Ok && final(self)@ == next,
                Err(error) => res matches Err(e) && e@ == error,
            },
    {
        let repeated = match tag.parse_attribute_value("table:number-columns-repeated") {
            Ok(repeated) => repeated,
            Err(error) => return Err(error),
        };
        let value_type = match tag.get_attribute_value("office:value-type") {
            Ok(value_type) => value_type,
            Err(error) => return Err(error),
        };
        let kind = match find_ods_type(tag, &value_type, criteria.error_as_null) {
            Ok(kind) => kind,
            Err(error) => return Err(error),
        };
        let value = match find_ods_value(tag, &value_type) {
            Ok(value) => value,
            Err(error) => return Err(error),
        };
        self.col_count = match repeated {
            Some(count) => count,
            None => 1,
        };
        self.kind = kind;
        self.value = value;
        if let Some(text) = &value_type {
            if same_text(text.as_str(), "string") {
                self.element_context = kind != CellType::Empty;
            }
        }
        Ok(())
    }

    fn spread_in_row(&mut self, criteria: &Criteria, row_number: usize) -> (res: Result<
        (),
        RustySheetError,
    >)
        ensures
            match spread_in_row(old(self)@, *criteria, row_number as int, old(self)@.col as int) {
                Ok(next) => res is Ok && final(self)@ == next,
                Err(error) => res matches Err(e) && e@ == error,
            },
    {
        let col_end: usize = capped_sum(self.col, self.col_count);
        let mut col_number: usize = self.col;
        while col_number < col_end
            invariant
                col_end == capped(self@.col as int, self@.col_count as int),
                spread_in_row(old(self)@, *criteria, row_number as int, old(self)@.col as int)
                    == spread_in_row(self@, *criteria, row_number as int, col_number as int),
            decreases col_end - col_number,
        {
            if !self.sheet.before_col_lower_bound(col_number) && !self.sheet.after_col_upper_bound(
                col_number,
            ) {
                if sheet_ends(
                    criteria.end_at_empty_row,
                    self.last_row,
                    self.sheet.is_empty(),
                    self.row,
                ) {
                    return Ok(());
                }
                if self.kind == CellType::Error {
                    return Err(
                        RustySheetError::Spreadsheet(
                            SpreadsheetError::CellValueError(
                                self.sheet.file_name.clone(),
                                self.sheet.name.clone(),
                                index_to_reference(self.row, self.col),
                                self.value.clone(),
                            ),
                        ),
                    );
                }
                self.last_row = Some(self.row);
                if !criteria.contains_null(self.value.as_str()) {
                    self.sheet.push(
                        Cell {
                            row: row_number,
                            col: col_number,
                            kind: self.kind,
                            value: self.value.clone(),
                        },
                    );
                }
            }
            col_number = col_number + 1;
        }
        Ok(())
    }

    fn spread_cell(&mut self, criteria: &Criteria) -> (res: Result<(), RustySheetError>)
        ensures
            match spread_cell(old(self)@, *criteria, old(self)@.row as int) {
                Ok(next) => res is Ok && final(self)@ == next,
                Err(error) => res matches Err(e) && e@ == error,
            },
    {
        let row_end: usize = capped_sum(self.row, self.row_count);
        let mut row_number: usize = self.row;
        while row_number < row_end
            invariant
                row_end == capped(self@.row as int, self@.row_count as int),
                spread_cell(old(self)@, *criteria, old(self)@.row as int) == spread_cell(
                    self@,
                    *criteria,
                    row_number as int,
                ),
            decreases row_end - row_number,
        {
            if self.sheet.before_row_lower_bound(row_number) {
                row_number = row_number + 1;
            } else if self.sheet.after_row_upper_bound(row_number) {
                return Ok(());
            } else {
                proof {
                    lemma_spread_in_row_keeps(
                        self@,
                        *criteria,
                        row_number as int,
                        self@.col as int,
                    );
                }
                match self.spread_in_row(criteria, row_number) {
                    Ok(_) => {},
                    Err(error) => {
                        return Err(error);
                    },
                }
                row_number = row_number + 1;
            }
        }
        Ok(())
    }

    fn end_cell(&mut self, criteria: &Criteria) -> (res: Result<(), RustySheetError>)
        ensures
            match table_end_cell(old(self)@, *criteria) {
                Ok(next) => res is Ok && final(self)@ == next,
                Err(error) => res matches Err(e) && e@ == error,
            },
    {
        let col: usize = capped_sum(self.col, self.col_count);
        if self.kind != CellType::Empty {
            match self.spread_cell(criteria) {
                Ok(_) => {},
                Err(error) => {
                    return Err(error);
                },
            }
        }
        self.col = col;
        self.element_context = false;
        self.comment_context = false;
        Ok(())
    }

    fn push_spaces(&mut self, count: usize)
        ensures
            final(self)@ == (TableScan {
                value: old(self)@.value + Seq::new(count as nat, |i: int| ' '),
                ..old(self)@
            }),
    {
        let mut n: usize = 0;
        proof {
            assert(self@.value + Seq::new(0, |i: int| ' ') =~= self@.value);
        }
        while n < count
            invariant
                n <= count,
                self@ == (TableScan {
                    value: old(self)@.value + Seq::new(n as nat, |i: int| ' '),
                    ..old(self)@
                }),
            decreases count - n,
        {
            self.value.push(' ');
            proof {
                assert(self@.value =~= old(self)@.value + Seq::new((n + 1) as nat, |i: int| ' '));
            }
            n = n + 1;
        }
    }

    fn step(&mut self, event: &XmlEvent, criteria: &Criteria) -> (res: Result<
        bool,
        RustySheetError,
    >)
        ensures
            match table_step(old(self)@, event@, *criteria) {
                Ok((next, stop)) => res == Ok::<bool, RustySheetError>(stop) && final(self)@
                    == next,
                Err(error) => res matches Err(e) && e@ == error,
            },
    {
        let text_counts: bool = self.element_context && !self.comment_context;
        match event {
            XmlEvent::Fault(message) => {
                return Err(RustySheetError::Xml(message.clone()));
            },
            XmlEvent::End(name) => {
                if same_text(name.as_str(), TABLE) {
                    return Ok(true);
                } else if same_text(name.as_str(), TABLE_ROW) {
                    self.row = capped_sum(self.row, self.row_count);
                    return Ok(self.sheet.after_row_upper_bound(self.row));
                } else if same_text(name.as_str(), TABLE_CELL) || same_text(
                    name.as_str(),
                    TABLE_COVERED_CELL,
                ) {
                    match self.end_cell(criteria) {
                        Ok(_) => {},
                        Err(error) => {
                            return Err(error);
                        },
                    }
                } else if self.element_context && self.comment_context && same_text(
                    name.as_str(),
                    ANNOTATION,
                ) {
                    self.comment_context = false;
                }
            },
            XmlEvent::Start(tag) => {
                if tag.is(TABLE_ROW) {
                    match tag.parse_attribute_value("table:number-rows-repeated") {
                        Err(error) => {
                            return Err(error);
                        },
                        Ok(repeated) => {
                            self.row_count = match repeated {
                                Some(count) => count,
                                None => 1,
                            };
                            self.col = 0;
                        },
                    }
                } else if tag.is(TABLE_CELL) || tag.is(TABLE_COVERED_CELL) {
                    match self.start_cell(tag, criteria) {
                        Ok(_) => {},
                        Err(error) => {
                            return Err(error);
                        },
                    }
                } else if self.element_context && tag.is(ANNOTATION) {
                    self.comment_context = true;
                } else if text_counts && tag.is(PARAGRAPH) {
                    if self.value.as_str().unicode_len() != 0 {
                        self.value.push('\n');
                    }
                } else if text_counts && tag.is(STRING) {
                    match tag.parse_attribute_value("text:c") {
                        Err(error) => {
                            return Err(error);
                        },
                        Ok(repeated) => {
                            self.push_spaces(
                                match repeated {
                                    Some(count) => count,
                                    None => 1,
                                },
                            );
                        },
                    }
                }
            },
            XmlEvent::Text(text) => {
                if text_counts {
                    match text {
                        Ok(more) => {
                            self.value.push_str(more.as_str());
                        },
                        Err(message) => {
                            return Err(RustySheetError::Xml(message.clone()));
                        },
                    }
                }
            },
            XmlEvent::Reference(name) => {
                if text_counts {
                    match resolve_reference(name) {
                        Ok(c) => {
                            self.value.push(c);
                        },
                        Err(error) => {
                            return Err(error);
                        },
                    }
                }
            },
            _ => {},
        }
        Ok(false)
    }
}

/// Reads the table that starts at event `at`, and returns it with the number of the
/// event behind it.
pub fn read_table(
    events: &[XmlEvent],
    at: usize,
    file_name: &str,
    name: &str,
    criteria: &Criteria,
) -> (res: Result<(Sheet, usize), RustySheetError>)
    requires
        at <= events@.len(),
    ensures
        match table_from(
            event_views(events@),
            at as int,
            table_start(file_name@, name@, *criteria),
            *criteria,
        ) {
            Ok((s, end)) => {
                &&& res matches Ok((sheet, next))
                &&& sheet@ == s.sheet.complete(criteria.end_at_empty_row)
                &&& next == end
                &&& at <= next <= events@.len()
            },
            Err(error) => res matches Err(e) && e@ == error,
        },
{
    let ghost views = event_views(events@);
    let ghost c = *criteria;
    let ghost whole = table_from(views, at as int, table_start(file_name@, name@, c), c);
    let mut scanner = TableScanner::new(file_name, name, criteria);
    let mut i: usize = at;
    let mut going: bool = true;
    while going && i < events.len()
        invariant
            at <= i <= events@.len(),
            views == event_views(events@),
            c == *criteria,
            whole == table_from(views, at as int, table_start(file_name@, name@, c), c),
            going ==> whole == table_from(views, i as int, scanner@, c),
            !going ==> whole == Ok::<(TableScan, int), ErrorView>((scanner@, i as int)),
        decreases events@.len() - i, (if going { 1int } else { 0int }),
    {
        proof {
            assert(views[i as int] == events@[i as int]@);
        }
        match scanner.step(&events[i], criteria) {
            Err(error) => {
                return Err(error);
            },
            Ok(stop) => {
                going = !stop;
            },
        }
        i = i + 1;
    }
    let mut sheet = scanner.sheet;
    sheet.finish(criteria.end_at_empty_row);
    Ok((sheet, i))
}

/// Decides for each event that starts a table whether the table is to be read.
pub fn select_tables(events: &[XmlEvent], criteria: &Criteria) -> (res: Vec<bool>)
    ensures
        is_table_selection(*criteria, event_views(events@), res@),
{
    let ghost views = event_views(events@);
    let mut accepted: Vec<bool> = Vec::new();
    let mut i: usize = 0;
    while i < events.len()
        invariant
            i <= events@.len(),
            views == event_views(events@),
            accepted@.len() == i,
            forall|j: int|
                0 <= j < i ==> (views[j] matches XmlView::Start(tag) ==> (attribute_value(
                    tag.attributes,
                    "table:name"@,
                ) matches Ok(Some(name)) ==> (criteria.decides(name) ==> (#[trigger] accepted@[j])
                    == criteria.accepts(name)))),
        decreases events@.len() - i,
    {
        proof {
            assert(views[i as int] == events@[i as int]@);
        }
        let mut accept: bool = false;
        if let XmlEvent::Start(tag) = &events[i] {
            if let Ok(Some(name)) = tag.get_attribute_value("table:name") {
                accept = criteria.accept(name.as_str());
            }
        }
        accepted.push(accept);
        i = i + 1;
    }
    accepted
}

/// Finds the next table to read, and returns its name and the number of the event
/// behind its start.
pub fn find_table(
    events: &[XmlEvent],
    at: usize,
    criteria: &Criteria,
    accepted: &Vec<bool>,
    sheet_count: usize,
) -> (res: Result<Option<(String, usize)>, RustySheetError>)
    requires
        at <= events@.len(),
        accepted@.len() == events@.len(),
    ensures
        match search_from(
            event_views(events@),
            at as int,
            *criteria,
            accepted@,
            sheet_count as nat,
        ) {
            Ok(TableSearch::Found(name, next)) => {
                &&& res matches Ok(Some((text, start)))
                &&& text@ == name
                &&& start == next
                &&& at < start <= events@.len()
            },
            Ok(TableSearch::Done) => res == Ok::<Option<(String, usize)>, RustySheetError>(None),
            Err(error) => res matches Err(e) && e@ == error,
        },
{
    let ghost views = event_views(events@);
    let mut i: usize = at;
    while i < events.len()
        invariant
            at <= i <= events@.len(),
            views == event_views(events@),
            accepted@.len() == events@.len(),
            search_from(views, at as int, *criteria, accepted@, sheet_count as nat) == search_from(
                views,
                i as int,
                *criteria,
                accepted@,
                sheet_count as nat,
            ),
        decreases events@.len() - i,
    {
        proof {
            assert(views[i as int] == events@[i as int]@);
        }
        match &events[i] {
            XmlEvent::Fault(message) => {
                return Err(RustySheetError::Xml(message.clone()));
            },
            XmlEvent::End(name) => {
                if same_text(name.as_str(), SPREADSHEET) {
                    return Ok(None);
                }
            },
            XmlEvent::Start(tag) => {
                if tag.is(TABLE) {
                    match tag.get_attribute_value("table:name") {
                        Err(error) => {
                            return Err(error);
                        },
                        Ok(None) => {
                            return Err(
                                RustySheetError::Spreadsheet(
                                    SpreadsheetError::FileError(CONTENT_PART.to_owned()),
                                ),
                            );
                        },
                        Ok(Some(name)) => {
                            if criteria.limit_reached(sheet_count) {
                                return Ok(None);
                            } else if accepted[i] {
                                return Ok(Some((name, i + 1)));
                            }
                        },
                    }
                }
            },
            _ => {},
        }
        i = i + 1;
    }
    Ok(None)
}

/// Reads the accepted tables of a document, up to the limit on their number.
pub fn read_tables(
    events: &[XmlEvent],
    file_name: &str,
    criteria: &Criteria,
    accepted: &Vec<bool>,
) -> (res: Result<Vec<Sheet>, RustySheetError>)
    requires
        accepted@.len() == events@.len(),
    ensures
        match ods_sheets_from(event_views(events@), 0, file_name@, *criteria, accepted@, 0) {
            Ok(sheets) => res matches Ok(found) && sheet_views(found@) == sheets,
            Err(error) => res matches Err(e) && e@ == error,
        },
{
    let ghost views = event_views(events@);
    let ghost c = *criteria;
    let ghost all = ods_sheets_from(views, 0, file_name@, c, accepted@, 0);
    let mut sheets: Vec<Sheet> = Vec::new();
    let mut sheet_count: usize = 0;
    let mut at: usize = 0;
    proof {
        if let Ok(found) = all {
            assert(sheet_views(sheets@) + found =~= found);
        }
    }
    loop
        invariant
            at <= events@.len(),
            sheet_count <= at,
            views == event_views(events@),
            c == *criteria,
            accepted@.len() == events@.len(),
            all == ods_sheets_from(views, 0, file_name@, c, accepted@, 0),
            match ods_sheets_from(
                views,
                at as int,
                file_name@,
                c,
                accepted@,
                sheet_count as nat,
            ) {
                Ok(more) => all == Ok::<Seq<SheetView>, ErrorView>(sheet_views(sheets@) + more),
                Err(error) => all == Err::<Seq<SheetView>, ErrorView>(error),
            },
        decreases events@.len() - at,
    {
        match find_table(events, at, criteria, accepted, sheet_count) {
            Err(error) => {
                return Err(error);
            },
            Ok(None) => {
                proof {
                    assert(sheet_views(sheets@) + Seq::<SheetView>::empty() =~= sheet_views(
                        sheets@,
                    ));
                }
                return Ok(sheets);
            },
            Ok(Some((name, start))) => {
                match read_table(events, start, file_name, name.as_str(), criteria) {
                    Err(error) => {
                        return Err(error);
                    },
                    Ok((sheet, end)) => {
                        let ghost before = sheets@;
                        let ghost view = sheet@;
                        sheets.push(sheet);
                        proof {
                            assert(sheet_views(sheets@) =~= sheet_views(before).push(view));
                            assert(sheet_views(before) + seq![view] =~= sheet_views(sheets@));
                            if let Ok(more) = ods_sheets_from(
                                views,
                                end as int,
                                file_name@,
                                c,
                                accepted@,
                                (sheet_count + 1) as nat,
                            ) {
                                assert(sheet_views(before) + (seq![view] + more) =~= sheet_views(
                                    sheets@,
                                ) + more);
                            }
                        }
                        sheet_count = sheet_count + 1;
                        if criteria.limit_reached(sheet_count) {
                            return Ok(sheets);
                        }
                        at = end;
                    },
                }
            },
        }
    }
}

/// An OpenDocument spreadsheet.
pub struct OdsSpreadsheet {
    name: String,
    zip: Archive,
}

impl OdsSpreadsheet {
    /// The name of the file.
    pub closed spec fn file_name(&self) -> Seq<char> {
        self.name@
    }

    /// The bytes of the file.
    pub closed spec fn image(&self) -> Seq<u8> {
        self.zip.image()
    }

    /// Opens the bytes of a file. It has to be a spreadsheet without a password.
    pub fn open(file_name: &str, image: Vec<u8>) -> (res: Result<OdsSpreadsheet, RustySheetError>)
        ensures
            match archive_fault(image@) {
                Some(message) => res matches Err(e) && e@ == ErrorView::Zip(message),
                None => match mime_outcome(image@) {
                    Err(error) => res matches Err(e) && e@ == error,
                    Ok(_) => match protection_outcome(image@) {
                        Err(error) => res matches Err(e) && e@ == error,
                        Ok(true) => res matches Err(e) && e@
                            == ErrorView::SpreadsheetPasswordProtectedError(file_name@),
                        Ok(false) => res matches Ok(file) && file.file_name() == file_name@
                            && file.image() == image@,
                    },
                },
            },
    {
        let mut zip = match Archive::open(image) {
            Ok(zip) => zip,
            Err(error) => return Err(error),
        };
        match check_mime(&mut zip) {
            Ok(_) => {},
            Err(error) => return Err(error),
        }
        match is_password_protected(&mut zip) {
            Err(error) => Err(error),
            Ok(true) => Err(
                RustySheetError::Spreadsheet(
                    SpreadsheetError::SpreadsheetPasswordProtectedError(file_name.to_owned()),
                ),
            ),
            Ok(false) => Ok(OdsSpreadsheet { name: file_name.to_owned(), zip }),
        }
    }

    /// The name of the file.
    pub fn name(&self) -> (res: String)
        ensures
            res@ == self.file_name(),
    {
        self.name.clone()
    }

    /// There are no shared strings in this format.
    pub fn load_shared_strings(&mut self, indexes: Option<HashSet<usize>>) -> (res: Result<
        (Vec<String>, HashMap<usize, usize>),
        RustySheetError,
    >)
        ensures
            *final(self) == *old(self),
            res matches Ok((strings, mappings)) && strings@.len() == 0 && mappings@ == Map::<
                usize,
                usize,
            >::empty(),
    {
        Ok((Vec::new(), HashMap::new()))
    }

    /// Reads the sheets that the criteria ask for.
    pub fn read_sheets(&mut self, criteria: &Criteria) -> (res: Result<Vec<Sheet>, RustySheetError>)
        ensures
            final(self).file_name() == old(self).file_name(),
            final(self).image() == old(self).image(),
            match required_markup(old(self).image(), CONTENT_PART@) {
                Err(error) => res matches Err(e) && e@ == error,
                Ok(events) => exists|accepted: Seq<bool>|
                    {
                        &&& #[trigger] is_table_selection(*criteria, events, accepted)
                        &&& match ods_sheets_from(
                            events,
                            0,
                            old(self).file_name(),
                            *criteria,
                            accepted,
                            0,
                        ) {
                            Ok(sheets) => res matches Ok(found) && sheet_views(found@) == sheets,
                            Err(error) => res matches Err(e) && e@ == error,
                        }
                    },
            },
    {
        match self.zip.required_xml_reader(CONTENT_PART) {
            Err(error) => Err(error),
            Ok(events) => {
                let accepted = select_tables(events.as_slice(), criteria);
                read_tables(events.as_slice(), self.name.as_str(), criteria, &accepted)
            },
        }
    }
}

} // verus!
