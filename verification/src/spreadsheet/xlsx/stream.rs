//! XLSX worksheets that are handed out chunk by chunk while they are read.

use crate::error::ErrorView;
use crate::error::IoError;
use crate::error::RustySheetError;
use crate::error::SpreadsheetError;
use crate::helpers::text::number_value;
use crate::helpers::text::parse_usize;
use crate::helpers::text::same_text;
use crate::helpers::xml::event_views;
use crate::helpers::xml::AttributeView;
use crate::helpers::xml::XmlEvent;
use crate::helpers::xml::XmlTag;
use crate::helpers::xml::XmlView;
use crate::spreadsheet::cell::Cell;
use crate::spreadsheet::cell::CellType;
use crate::spreadsheet::cell::CellView;
use crate::spreadsheet::criteria::Criteria;
use crate::spreadsheet::reference::index_reference;
use crate::spreadsheet::reference::index_to_reference;
use crate::spreadsheet::shared_strings::SharedStringStore;
use crate::spreadsheet::sheet::lemma_chunk_progress;
use crate::spreadsheet::sheet::ready_chunks;
use crate::spreadsheet::sheet::unready_rest;
use crate::spreadsheet::sheet::Sheet;
use crate::spreadsheet::sheet::SheetView;
use crate::spreadsheet::xlsx::cells::cell_position;
use crate::spreadsheet::xlsx::cells::cell_type;
use crate::spreadsheet::xlsx::cells::ends_before;
use crate::spreadsheet::xlsx::cells::find_cell_position;
use crate::spreadsheet::xlsx::cells::find_cell_type;
use crate::spreadsheet::xlsx::cells::sheet_ends;
use crate::spreadsheet::xlsx::cells::TAG_CELL;
use crate::spreadsheet::xlsx::cells::TAG_INLINE_STRING;
use crate::spreadsheet::xlsx::cells::TAG_ROW;
use crate::spreadsheet::xlsx::cells::TAG_VALUE;
use crate::spreadsheet::xlsx::text::lemma_string_value_bounds;
use crate::spreadsheet::xlsx::text::read_string_value;
use crate::spreadsheet::xlsx::text::string_value;
use vstd::prelude::*;

verus! {

/// A list of sheets as mathematical values.
pub open spec fn sheet_views(sheets: Seq<Sheet>) -> Seq<SheetView> {
    sheets.map_values(|sheet: Sheet| sheet@)
}

/// How far a worksheet was handed out.
#[verifier::ext_equal]
pub struct StreamScan {
    /// How many rows ended.
    pub row_count: nat,
    /// How many cells of the row started.
    pub col_count: nat,
    /// The row of the current cell.
    pub row: usize,
    /// The column of the current cell.
    pub col: usize,
    /// The type of the current cell; [`CellType::Empty`] where it does not count.
    pub kind: CellType,
    /// The value of the current cell.
    pub value: Seq<char>,
    /// Whether a cell had a value.
    pub has_data: bool,
    /// The last row with a value, or the first one that is wanted.
    pub last_row: Option<usize>,
    /// The sheet with the cells that were not handed out.
    pub sheet: SheetView,
    /// The chunks that were handed out, of this sheet and those before.
    pub emitted: Seq<SheetView>,
}

/// What an event makes of a stream.
pub enum StreamStep {
    /// Reading goes on at the event with this number.
    Go(StreamScan, int),
    /// Reading ends.
    Stop(StreamScan),
    /// Reading fails.
    Fail(ErrorView),
}

/// The start of a worksheet's stream, where the given chunks were handed out
/// before.
pub open spec fn stream_start(
    file_name: Seq<char>,
    name: Seq<char>,
    c: Criteria,
    emitted: Seq<SheetView>,
) -> StreamScan {
    let sheet = SheetView::empty(file_name, name, c.range, c.rows_limit, c.skip_empty_rows);
    StreamScan {
        row_count: 0,
        col_count: 0,
        row: 0,
        col: 0,
        kind: CellType::Empty,
        value: Seq::empty(),
        has_data: false,
        last_row: sheet.chunk_row_lower,
        sheet,
        emitted,
    }
}

/// A cell starts. A reference that denotes no cell is passed over.
pub open spec fn stream_start_cell(
    s: StreamScan,
    attributes: Seq<Result<AttributeView, Seq<char>>>,
    c: Criteria,
    formats: Seq<CellType>,
) -> Result<(StreamScan, bool), ErrorView> {
    match cell_position(attributes, s.row_count, s.col_count, s.sheet, true) {
        Err(error) => Err(error),
        Ok((row, col)) => {
            let at = StreamScan { row, col, col_count: s.col_count + 1, ..s };
            if s.sheet.row_after(row as int) {
                Ok((at, true))
            } else if !s.sheet.has(row as int, col as int) {
                Ok((StreamScan { kind: CellType::Empty, ..at }, false))
            } else {
                match cell_type(attributes, c.error_as_null, formats, s.sheet, row, col) {
                    Err(error) => Err(error),
                    Ok(kind) => Ok((StreamScan { kind, ..at }, false)),
                }
            }
        },
    }
}

/// The type and value of a cell with its shared string in place, `None` where it
/// counts as no value.
pub open spec fn resolved(
    kind: CellType,
    value: Seq<char>,
    c: Criteria,
    strings: Seq<Seq<char>>,
) -> Result<Option<(CellType, Seq<char>)>, ErrorView> {
    if kind == CellType::SharedString {
        match number_value(value) {
            Err(error) => Err(ErrorView::Number(error)),
            Ok(id) => if id >= strings.len() {
                Err(ErrorView::Io(IoError::IndexOutOfBounds))
            } else if c.is_null(strings[id as int]) {
                Ok(None)
            } else {
                Ok(Some((CellType::InlineString, strings[id as int])))
            },
        }
    } else if c.is_null(value) {
        Ok(None)
    } else {
        Ok(Some((kind, value)))
    }
}

/// A cell ends: it joins the sheet where it has a value, and complete chunks are
/// handed out.
pub open spec fn stream_end_cell(s: StreamScan, c: Criteria, strings: Seq<Seq<char>>) -> Result<
    (StreamScan, bool),
    ErrorView,
> {
    if s.kind == CellType::Empty {
        Ok((StreamScan { value: Seq::empty(), ..s }, false))
    } else if s.kind == CellType::Error {
        Err(
            ErrorView::CellValueError(
                s.sheet.file_name,
                s.sheet.name,
                index_reference(s.row as nat, s.col as nat),
                s.value,
            ),
        )
    } else {
        match resolved(s.kind, s.value, c, strings) {
            Err(error) => Err(error),
            Ok(None) => Ok((StreamScan { value: Seq::empty(), ..s }, false)),
            Ok(Some((kind, value))) => if ends_before(
                c.end_at_empty_row,
                s.last_row,
                !s.has_data,
                s.row,
            ) {
                Ok((s, true))
            } else {
                let grown = s.sheet.with(CellView { row: s.row, col: s.col, kind, value });
                Ok(
                    (
                        StreamScan {
                            last_row: Some(s.row),
                            has_data: true,
                            sheet: unready_rest(grown),
                            emitted: s.emitted + ready_chunks(grown),
                            value: Seq::empty(),
                            ..s
                        },
                        false,
                    ),
                )
            },
        }
    }
}

/// What event `at` makes of a stream.
pub open spec fn stream_step(
    events: Seq<XmlView>,
    at: int,
    s: StreamScan,
    c: Criteria,
    formats: Seq<CellType>,
    strings: Seq<Seq<char>>,
) -> StreamStep {
    match events[at] {
        XmlView::Fault(message) => StreamStep::Fail(ErrorView::Xml(message)),
        XmlView::Start(tag) => if tag.name == TAG_CELL@ {
            match stream_start_cell(s, tag.attributes, c, formats) {
                Err(error) => StreamStep::Fail(error),
                Ok((next, true)) => StreamStep::Stop(next),
                Ok((next, false)) => StreamStep::Go(next, at + 1),
            }
        } else if s.kind != CellType::Empty && (tag.name == TAG_INLINE_STRING@ || tag.name
            == TAG_VALUE@) {
            match string_value(events, at + 1, tag.name, tag.name != TAG_INLINE_STRING@) {
                Err(error) => StreamStep::Fail(error),
                Ok((value, end)) => StreamStep::Go(StreamScan { value, ..s }, end),
            }
        } else {
            StreamStep::Go(s, at + 1)
        },
        XmlView::End(name) => if name == TAG_ROW@ {
            StreamStep::Go(StreamScan { row_count: s.row_count + 1, col_count: 0, ..s }, at + 1)
        } else if name == TAG_CELL@ {
            match stream_end_cell(s, c, strings) {
                Err(error) => StreamStep::Fail(error),
                Ok((next, true)) => StreamStep::Stop(next),
                Ok((next, false)) => StreamStep::Go(next, at + 1),
            }
        } else {
            StreamStep::Go(s, at + 1)
        },
        _ => StreamStep::Go(s, at + 1),
    }
}

/// The stream of a worksheet from event `at` on: where it ends, and the error where
/// it fails.
pub open spec fn stream_from(
    events: Seq<XmlView>,
    at: int,
    s: StreamScan,
    c: Criteria,
    formats: Seq<CellType>,
    strings: Seq<Seq<char>>,
) -> (StreamScan, Option<ErrorView>)
    decreases events.len() - at,
{
    if at < 0 || at >= events.len() {
        (s, None)
    } else {
        match stream_step(events, at, s, c, formats, strings) {
            StreamStep::Fail(error) => (s, Some(error)),
            StreamStep::Stop(last) => (last, None),
            StreamStep::Go(next, then_at) => {
                proof {
                    lemma_stream_step_advances(events, at, s, c, formats, strings);
                }
                stream_from(events, then_at, next, c, formats, strings)
            },
        }
    }
}

/// Every step of a stream moves on, within the document.
pub proof fn lemma_stream_step_advances(
    events: Seq<XmlView>,
    at: int,
    s: StreamScan,
    c: Criteria,
    formats: Seq<CellType>,
    strings: Seq<Seq<char>>,
)
    requires
        0 <= at < events.len(),
    ensures
        stream_step(events, at, s, c, formats, strings) matches StreamStep::Go(_, next) ==> at
            < next <= events.len(),
{
    if let XmlView::Start(tag) = events[at] {
        lemma_string_value_bounds(events, at + 1, tag.name, tag.name != TAG_INLINE_STRING@);
    }
}

/// The chunks that were handed out after a worksheet, the given ones before it, and
/// the error where the stream fails. What was handed out before an error stays so.
pub open spec fn stream_sheet_outcome(
    events: Seq<XmlView>,
    file_name: Seq<char>,
    name: Seq<char>,
    c: Criteria,
    formats: Seq<CellType>,
    strings: Seq<Seq<char>>,
    emitted: Seq<SheetView>,
) -> (Seq<SheetView>, Option<ErrorView>) {
    let (last, fault) = stream_from(
        events,
        0,
        stream_start(file_name, name, c, emitted),
        c,
        formats,
        strings,
    );
    match fault {
        Some(error) => (last.emitted, Some(error)),
        None => (last.emitted + ready_chunks(last.sheet.complete(c.end_at_empty_row)), None),
    }
}

/// Hands out all complete chunks of a sheet.
pub fn take_ready_chunks(sheet: &mut Sheet, out: &mut Vec<Sheet>)
    ensures
        final(sheet)@ == unready_rest(old(sheet)@),
        sheet_views(final(out)@) == sheet_views(old(out)@) + ready_chunks(old(sheet)@),
{
    let ghost before = sheet_views(out@);
    let ghost start = sheet@;
    proof {
        assert(before + ready_chunks(start) =~= sheet_views(out@) + ready_chunks(sheet@));
    }
    loop
        invariant
            unready_rest(start) == unready_rest(sheet@),
            before + ready_chunks(start) == sheet_views(out@) + ready_chunks(sheet@),
            start == old(sheet)@,
            before == sheet_views(old(out)@),
        decreases sheet@.cells.len(), sheet@.chunk_measure(),
    {
        let ghost current = sheet@;
        let ghost chunks = out@;
        proof {
            if current.is_ready() {
                lemma_chunk_progress(current);
            }
        }
        match sheet.take_ready_chunk() {
            None => {
                proof {
                    assert(sheet_views(out@) + ready_chunks(sheet@) =~= sheet_views(out@));
                }
                return;
            },
            Some(chunk) => {
                let ghost view = chunk@;
                out.push(chunk);
                proof {
                    assert(sheet_views(out@) =~= sheet_views(chunks).push(view));
                    assert(sheet_views(chunks) + ready_chunks(current) =~= sheet_views(out@)
                        + ready_chunks(sheet@));
                }
            },
        }
    }
}

struct StreamScanner {
    row_count: usize,
    col_count: usize,
    row: usize,
    col: usize,
    kind: CellType,
    value: String,
    has_data: bool,
    last_row: Option<usize>,
    sheet: Sheet,
}

impl StreamScanner {
    spec fn at(&self, emitted: Seq<SheetView>) -> StreamScan {
        StreamScan {
            row_count: self.row_count as nat,
            col_count: self.col_count as nat,
            row: self.row,
            col: self.col,
            kind: self.kind,
            value: self.value@,
            has_data: self.has_data,
            last_row: self.last_row,
            sheet: self.sheet@,
            emitted,
        }
    }

    fn new(file_name: &str, name: &str, criteria: &Criteria) -> (res: StreamScanner)
        ensures
            forall|emitted: Seq<SheetView>| #[trigger]
                res.at(emitted) == stream_start(file_name@, name@, *criteria, emitted),
            res.row_count == 0,
            res.col_count == 0,
    {
        let sheet = Sheet::new(
            file_name,
            name,
            criteria.range,
            criteria.rows_limit,
            criteria.skip_empty_rows,
        );
        let scanner = StreamScanner {
            row_count: 0,
            col_count: 0,
            row: 0,
            col: 0,
            kind: CellType::Empty,
            value: String::new(),
            has_data: false,
            last_row: sheet.chunk_row_lower,
            sheet,
        };
        proof {
            assert(scanner.value@ =~= Seq::<char>::empty());
        }
        scanner
    }

    fn start_cell(
        &mut self,
        tag: &XmlTag,
        criteria: &Criteria,
        formats: &Vec<CellType>,
        Ghost(emitted): Ghost<Seq<SheetView>>,
    ) -> (res: Result<bool, RustySheetError>)
        requires
            old(self).col_count < usize::MAX,
        ensures
            match stream_start_cell(old(self).at(emitted), tag@.attributes, *criteria, formats@) {
                Ok((next, stop)) => {
                    &&& res == Ok::<bool, RustySheetError>(stop)
                    &&& final(self).at(emitted) == next
                    &&& final(self).row_count == old(self).row_count
                    &&& final(self).col_count == old(self).col_count + 1
                },
                Err(error) => res matches Err(e) && e@ == error,
            },
    {
        let (row, col) = match find_cell_position(
            tag,
            self.row_count,
            self.col_count,
            &self.sheet,
            true,
        ) {
            Ok(position) => position,
            Err(error) => return Err(error),
        };
        self.row = row;
        self.col = col;
        self.col_count = self.col_count + 1;
        if self.sheet.after_row_upper_bound(row) {
            return Ok(true);
        }
        if self.sheet.contains(row, col) {
            match find_cell_type(tag, criteria.error_as_null, formats, &self.sheet, row, col) {
                Ok(kind) => {
                    self.kind = kind;
                },
                Err(error) => {
                    return Err(error);
                },
            }
        } else {
            self.kind = CellType::Empty;
        }
        Ok(false)
    }

    fn end_cell(
        &mut self,
        criteria: &Criteria,
        store: &mut SharedStringStore,
        out: &mut Vec<Sheet>,
    ) -> (res: Result<bool, RustySheetError>)
        requires
            old(store).wf(),
        ensures
            final(store).wf(),
            final(store)@ == old(store)@,
            match stream_end_cell(
                old(self).at(sheet_views(old(out)@)),
                *criteria,
                old(store)@,
            ) {
                Ok((next, stop)) => {
                    &&& res == Ok::<bool, RustySheetError>(stop)
                    &&& final(self).at(sheet_views(final(out)@)) == next
                    &&& final(self).row_count == old(self).row_count
                    &&& final(self).col_count == old(self).col_count
                },
                Err(error) => {
                    &&& res matches Err(e)
                    &&& e@ == error
                    &&& final(out)@ == old(out)@
                },
            },
    {
        if self.kind == CellType::Empty {
            self.value.clear();
            return Ok(false);
        }
        if self.kind == CellType::Error {
            return Err(
                RustySheetError::Spreadsheet(
                    SpreadsheetError::CellValueError(
                        self.sheet.file_name.clone(),
                        self.sheet.name.clone(),
                        index_to_reference(self.row, self.col),
                        self.value.clone(),
                    ),
                ),
            );
        }
        let mut kind: CellType = self.kind;
        let value: String = if self.kind == CellType::SharedString {
            let id: usize = match parse_usize(self.value.as_str()) {
                Ok(id) => id,
                Err(error) => return Err(RustySheetError::Number(error)),
            };
            kind = CellType::InlineString;
            match store.get(id) {
                Ok(text) => text,
                Err(error) => return Err(error),
            }
        } else {
            self.value.clone()
        };
        if !criteria.contains_null(value.as_str()) {
            if sheet_ends(criteria.end_at_empty_row, self.last_row, !self.has_data, self.row) {
                return Ok(true);
            }
            self.last_row = Some(self.row);
            self.has_data = true;
            self.sheet.push(Cell { row: self.row, col: self.col, kind, value });
            take_ready_chunks(&mut self.sheet, out);
        }
        self.value.clear();
        Ok(false)
    }
}

/// Reads a worksheet and appends its chunks to `out` as they are complete. What was
/// appended before an error stays.
pub fn stream_sheet(
    events: &[XmlEvent],
    file_name: &str,
    name: &str,
    criteria: &Criteria,
    formats: &Vec<CellType>,
    store: &mut SharedStringStore,
    out: &mut Vec<Sheet>,
) -> (res: Result<(), RustySheetError>)
    requires
        old(store).wf(),
    ensures
        final(store).wf(),
        final(store)@ == old(store)@,
        ({
            let (emitted, fault) = stream_sheet_outcome(
                event_views(events@),
                file_name@,
                name@,
                *criteria,
                formats@,
                old(store)@,
                sheet_views(old(out)@),
            );
            &&& sheet_views(final(out)@) == emitted
            &&& match fault {
                None => res is Ok,
                Some(error) => res matches Err(e) && e@ == error,
            }
        }),
{
    let ghost views = event_views(events@);
    let ghost c = *criteria;
    let ghost strings = store@;
    let ghost whole = stream_from(
        views,
        0,
        stream_start(file_name@, name@, c, sheet_views(out@)),
        c,
        formats@,
        strings,
    );
    let mut scanner = StreamScanner::new(file_name, name, criteria);
    let mut i: usize = 0;
    let mut going: bool = true;
    proof {
        assert(scanner.at(sheet_views(out@)) == stream_start(
            file_name@,
            name@,
            c,
            sheet_views(out@),
        ));
    }
    while going && i < events.len()
        invariant
            i <= events@.len(),
            views == event_views(events@),
            c == *criteria,
            store.wf(),
            store@ == strings,
            strings == old(store)@,
            whole == stream_from(
                views,
                0,
                stream_start(file_name@, name@, c, sheet_views(old(out)@)),
                c,
                formats@,
                strings,
            ),
            going ==> whole == stream_from(
                views,
                i as int,
                scanner.at(sheet_views(out@)),
                c,
                formats@,
                strings,
            ),
            !going ==> whole == (scanner.at(sheet_views(out@)), None::<ErrorView>),
            scanner.row_count <= i,
            scanner.col_count <= i,
        decreases events@.len() - i, (if going { 1int } else { 0int }),
    {
        let ghost emitted = sheet_views(out@);
        proof {
            assert(views[i as int] == events@[i as int]@);
            lemma_stream_step_advances(
                views,
                i as int,
                scanner.at(emitted),
                c,
                formats@,
                strings,
            );
        }
        match &events[i] {
            XmlEvent::Fault(message) => {
                return Err(RustySheetError::Xml(message.clone()));
            },
            XmlEvent::Start(tag) => {
                if tag.is(TAG_CELL) {
                    match scanner.start_cell(tag, criteria, formats, Ghost(emitted)) {
                        Err(error) => {
                            return Err(error);
                        },
                        Ok(stop) => {
                            if stop {
                                going = false;
                            }
                        },
                    }
                    i = i + 1;
                } else if scanner.kind != CellType::Empty && (tag.is(TAG_INLINE_STRING) || tag.is(
                    TAG_VALUE,
                )) {
                    let is_text: bool = !tag.is(TAG_INLINE_STRING);
                    match read_string_value(events, i + 1, tag.name.as_str(), is_text) {
                        Err(error) => {
                            return Err(error);
                        },
                        Ok((value, end)) => {
                            scanner.value = value;
                            i = end;
                        },
                    }
                } else {
                    i = i + 1;
                }
            },
            XmlEvent::End(tag) => {
                if same_text(tag.as_str(), TAG_ROW) {
                    scanner.row_count = scanner.row_count + 1;
                    scanner.col_count = 0;
                } else if same_text(tag.as_str(), TAG_CELL) {
                    match scanner.end_cell(criteria, store, out) {
                        Err(error) => {
                            return Err(error);
                        },
                        Ok(stop) => {
                            if stop {
                                going = false;
                            }
                        },
                    }
                }
                i = i + 1;
            },
            _ => {
                i = i + 1;
            },
        }
    }
    let mut sheet = scanner.sheet;
    sheet.finish(criteria.end_at_empty_row);
    take_ready_chunks(&mut sheet, out);
    Ok(())
}

} // verus!
