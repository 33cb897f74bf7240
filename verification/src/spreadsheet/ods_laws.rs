//! What holds of all sheets that are read from OpenDocument spreadsheets.

use crate::helpers::xml::XmlView;
use crate::spreadsheet::cell::CellType;
use crate::spreadsheet::cell::CellView;
use crate::spreadsheet::criteria::after_bound;
use crate::spreadsheet::criteria::before_bound;
use crate::spreadsheet::criteria::Criteria;
use crate::spreadsheet::ods::capped;
use crate::spreadsheet::ods::lemma_search_bounds;
use crate::spreadsheet::ods::lemma_spread_in_row_keeps;
use crate::spreadsheet::ods::lemma_table_bounds;
use crate::spreadsheet::ods::ods_sheets_from;
use crate::spreadsheet::ods::search_from;
use crate::spreadsheet::ods::spread_cell;
use crate::spreadsheet::ods::spread_in_row;
use crate::spreadsheet::ods::table_end_cell;
use crate::spreadsheet::ods::table_from;
use crate::spreadsheet::ods::table_start;
use crate::spreadsheet::ods::table_step;
use crate::spreadsheet::ods::TableScan;
use crate::spreadsheet::ods::TableSearch;
use crate::spreadsheet::sheet::bounds_of;
use crate::spreadsheet::sheet::SheetView;
use crate::spreadsheet::wanted::is_proper;
use crate::spreadsheet::wanted::is_wanted;
use crate::spreadsheet::wanted::lemma_with_is_proper;
use vstd::prelude::*;

verus! {

/// Whether a row lies in the range and, where a number of rows is wanted at all,
/// within that number.
spec fn is_wanted_row(c: Criteria, sheet: SheetView, row: int) -> bool {
    &&& !before_bound(bounds_of(sheet.range).row_lower_bound, row)
    &&& !after_bound(bounds_of(sheet.range).row_upper_bound, row)
    &&& c.rows_limit != Some(0usize) ==> !sheet.row_after(row)
}

proof fn lemma_spread_in_row_is_proper(s: TableScan, c: Criteria, row: int, col: int)
    requires
        is_proper(c, s.sheet),
        s.kind != CellType::Empty,
        is_wanted_row(c, s.sheet, row),
        0 <= row <= usize::MAX,
        0 <= col,
    ensures
        spread_in_row(s, c, row, col) matches Ok(next) ==> is_proper(c, next.sheet),
    decreases capped(s.col as int, s.col_count as int) - col,
{
    if col < capped(s.col as int, s.col_count as int) {
        if before_bound(bounds_of(s.sheet.range).col_lower_bound, col) || after_bound(
            bounds_of(s.sheet.range).col_upper_bound,
            col,
        ) {
            lemma_spread_in_row_is_proper(s, c, row, col + 1);
        } else if s.kind != CellType::Error {
            let cell = CellView {
                row: row as usize,
                col: col as usize,
                kind: s.kind,
                value: s.value,
            };
            let next = TableScan {
                last_row: Some(s.row),
                sheet: if c.is_null(s.value) {
                    s.sheet
                } else {
                    s.sheet.with(cell)
                },
                ..s
            };
            if !c.is_null(s.value) {
                lemma_with_is_proper(c, s.sheet, cell);
            }
            lemma_spread_in_row_is_proper(next, c, row, col + 1);
        }
    }
}

proof fn lemma_spread_cell_is_proper(s: TableScan, c: Criteria, row: int)
    requires
        is_proper(c, s.sheet),
        s.kind != CellType::Empty,
        0 <= row,
    ensures
        spread_cell(s, c, row) matches Ok(next) ==> is_proper(c, next.sheet),
    decreases capped(s.row as int, s.row_count as int) - row,
{
    if row < capped(s.row as int, s.row_count as int) {
        if s.sheet.row_before(row) {
            lemma_spread_cell_is_proper(s, c, row + 1);
        } else if !s.sheet.row_after(row) {
            lemma_spread_in_row_is_proper(s, c, row, s.col as int);
            lemma_spread_in_row_keeps(s, c, row, s.col as int);
            if let Ok(next) = spread_in_row(s, c, row, s.col as int) {
                lemma_spread_cell_is_proper(next, c, row + 1);
            }
        }
    }
}

proof fn lemma_table_is_proper(events: Seq<XmlView>, at: int, s: TableScan, c: Criteria)
    requires
        0 <= at <= events.len(),
        is_proper(c, s.sheet),
    ensures
        table_from(events, at, s, c) matches Ok((last, _)) ==> is_proper(c, last.sheet),
    decreases events.len() - at,
{
    if at < events.len() {
        if s.kind != CellType::Empty {
            lemma_spread_cell_is_proper(s, c, s.row as int);
        }
        lemma_steps_keep_sheet(s, events[at], c);
        if let Ok((next, false)) = table_step(s, events[at], c) {
            lemma_table_is_proper(events, at + 1, next, c);
        }
    }
}

/// Only the end of a cell changes the sheet of a scan.
pub proof fn lemma_steps_keep_sheet(s: TableScan, event: XmlView, c: Criteria)
    ensures
        table_step(s, event, c) matches Ok((next, _)) ==> next.sheet == s.sheet || (
        table_end_cell(s, c) matches Ok(ended) && next == ended),
{
}

/// Every cell that is read lies in the wanted range and within the wanted number of
/// rows, is neither empty nor an error, and has a value that does not count as
/// none. This holds of repeated rows and columns, too.
pub proof fn lemma_ods_cells_are_wanted(
    events: Seq<XmlView>,
    at: int,
    file_name: Seq<char>,
    c: Criteria,
    accepted: Seq<bool>,
    count: nat,
)
    ensures
        ods_sheets_from(events, at, file_name, c, accepted, count) matches Ok(sheets) ==> forall|
            i: int,
        |
            0 <= i < sheets.len() ==> is_proper(c, #[trigger] sheets[i]),
    decreases events.len() - at,
{
    if 0 <= at <= events.len() {
        lemma_search_bounds(events, at, c, accepted, count);
        if let Ok(TableSearch::Found(name, start)) = search_from(events, at, c, accepted, count) {
            let first = table_start(file_name, name, c);
            lemma_table_bounds(events, start, first, c);
            lemma_table_is_proper(events, start, first, c);
            if let Ok((s, end)) = table_from(events, start, first, c) {
                let sheet = s.sheet.complete(c.end_at_empty_row);
                assert forall|i: int| 0 <= i < sheet.cells.len() implies is_wanted(
                    c,
                    sheet,
                    #[trigger] sheet.cells[i],
                ) by {
                    assert(is_wanted(c, s.sheet, s.sheet.cells[i]));
                }
                lemma_ods_cells_are_wanted(events, end, file_name, c, accepted, count + 1);
                if let Ok(sheets) = ods_sheets_from(events, at, file_name, c, accepted, count) {
                    assert forall|i: int| 0 <= i < sheets.len() implies is_proper(
                        c,
                        #[trigger] sheets[i],
                    ) by {
                        if i > 0 {
                            let more = ods_sheets_from(
                                events,
                                end,
                                file_name,
                                c,
                                accepted,
                                count + 1,
                            )->Ok_0;
                            assert(sheets[i] == more[i - 1]);
                        }
                    }
                }
            }
        }
    }
}

/// The number of sheets that are read does not exceed the limit.
pub proof fn lemma_ods_sheet_limit(
    events: Seq<XmlView>,
    at: int,
    file_name: Seq<char>,
    c: Criteria,
    accepted: Seq<bool>,
    count: nat,
)
    ensures
        ods_sheets_from(events, at, file_name, c, accepted, count) matches Ok(sheets) ==> (
        c.sheet_limit matches Some(limit) ==> sheets.len() == 0 || count + sheets.len() <= limit),
    decreases events.len() - at,
{
    if 0 <= at <= events.len() {
        lemma_search_bounds(events, at, c, accepted, count);
        lemma_search_respects_limit(events, at, c, accepted, count);
        if let Ok(TableSearch::Found(name, start)) = search_from(events, at, c, accepted, count) {
            let first = table_start(file_name, name, c);
            lemma_table_bounds(events, start, first, c);
            if let Ok((s, end)) = table_from(events, start, first, c) {
                lemma_ods_sheet_limit(events, end, file_name, c, accepted, count + 1);
            }
        }
    }
}

proof fn lemma_search_respects_limit(
    events: Seq<XmlView>,
    at: int,
    c: Criteria,
    accepted: Seq<bool>,
    count: nat,
)
    ensures
        search_from(events, at, c, accepted, count) matches Ok(TableSearch::Found(_, _))
            ==> !c.is_full(count as int),
    decreases events.len() - at,
{
    if 0 <= at < events.len() {
        lemma_search_respects_limit(events, at + 1, c, accepted, count);
    }
}

} // verus!
