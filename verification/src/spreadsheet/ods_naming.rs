//! The sheets that are read of an OpenDocument spreadsheet bear the names of tables
//! that were asked for.

use crate::helpers::xml::attribute_value;
use crate::helpers::xml::XmlView;
use crate::spreadsheet::cell::CellView;
use crate::spreadsheet::criteria::after_bound;
use crate::spreadsheet::criteria::before_bound;
use crate::spreadsheet::criteria::Criteria;
use crate::spreadsheet::ods::capped;
use crate::spreadsheet::ods::lemma_search_bounds;
use crate::spreadsheet::ods::lemma_spread_in_row_keeps;
use crate::spreadsheet::ods::lemma_table_bounds;
use crate::spreadsheet::ods::ods_sheets_from;
use crate::spreadsheet::ods::search_from;
use crate::spreadsheet::ods::spread_cell;
use crate::spreadsheet::ods::spread_in_row;
use crate::spreadsheet::ods::table_from;
use crate::spreadsheet::ods::table_start;
use crate::spreadsheet::ods::table_step;
use crate::spreadsheet::ods::TableScan;
use crate::spreadsheet::ods::TableSearch;
use crate::spreadsheet::ods::SPREADSHEET;
use crate::spreadsheet::ods::TABLE;
use crate::spreadsheet::ods_laws::lemma_steps_keep_sheet;
use crate::spreadsheet::sheet::bounds_of;
use crate::spreadsheet::sheet::SheetView;
use crate::spreadsheet::wanted::is_read_for;
use vstd::prelude::*;

verus! {

/// Whether an event starts a table.
pub open spec fn starts_table(event: XmlView) -> bool {
    event matches XmlView::Start(tag) && tag.name == TABLE@
}

/// Whether a table ends between two events.
pub open spec fn table_ends_between(events: Seq<XmlView>, i: int, j: int) -> bool {
    exists|k: int| i < k < j && #[trigger] events[k] == XmlView::End(TABLE@)
}

/// Whether no table holds another one, nor the end of the spreadsheet.
pub open spec fn tables_are_flat(events: Seq<XmlView>) -> bool {
    forall|i: int, j: int|
        #![trigger starts_table(events[i]), events[j]]
        0 <= i < j < events.len() && starts_table(events[i]) && (starts_table(events[j])
            || events[j] == XmlView::End(SPREADSHEET@)) ==> table_ends_between(events, i, j)
}

/// The names of the tables that were accepted, from event `at` to the end of the
/// spreadsheet.
pub open spec fn accepted_tables(events: Seq<XmlView>, at: int, accepted: Seq<bool>) -> Seq<
    Seq<char>,
>
    decreases events.len() - at,
{
    if at < 0 || at >= events.len() || events[at] == XmlView::End(SPREADSHEET@) {
        Seq::empty()
    } else {
        let more = accepted_tables(events, at + 1, accepted);
        match events[at] {
            XmlView::Start(tag) if tag.name == TABLE@ && accepted[at] => match attribute_value(
                tag.attributes,
                "table:name"@,
            ) {
                Ok(Some(name)) => seq![name] + more,
                _ => more,
            },
            _ => more,
        }
    }
}

/// Whether two sheets have the same name in the same file, and are for the same cells.
pub open spec fn same_name(a: SheetView, b: SheetView) -> bool {
    &&& a.file_name == b.file_name
    &&& a.name == b.name
    &&& a.range == b.range
    &&& a.rows_limit == b.rows_limit
    &&& a.skip_empty_rows == b.skip_empty_rows
}

proof fn lemma_spread_in_row_keeps_name(s: TableScan, c: Criteria, row: int, col: int)
    ensures
        spread_in_row(s, c, row, col) matches Ok(next) ==> same_name(next.sheet, s.sheet),
    decreases capped(s.col as int, s.col_count as int) - col,
{
    if col < capped(s.col as int, s.col_count as int) {
        if before_bound(bounds_of(s.sheet.range).col_lower_bound, col) || after_bound(
            bounds_of(s.sheet.range).col_upper_bound,
            col,
        ) {
            lemma_spread_in_row_keeps_name(s, c, row, col + 1);
        } else {
            let cell = CellView {
                row: row as usize,
                col: col as usize,
                kind: s.kind,
                value: s.value,
            };
            let next = TableScan {
                last_row: Some(s.row),
                sheet: if c.is_null(s.value) {
                    s.sheet
                } else {
                    s.sheet.with(cell)
                },
                ..s
            };
            lemma_spread_in_row_keeps_name(next, c, row, col + 1);
        }
    }
}

proof fn lemma_spread_cell_keeps_name(s: TableScan, c: Criteria, row: int)
    ensures
        spread_cell(s, c, row) matches Ok(next) ==> same_name(next.sheet, s.sheet),
    decreases capped(s.row as int, s.row_count as int) - row,
{
    if row < capped(s.row as int, s.row_count as int) {
        if s.sheet.row_before(row) {
            lemma_spread_cell_keeps_name(s, c, row + 1);
        } else if !s.sheet.row_after(row) {
            lemma_spread_in_row_keeps_name(s, c, row, s.col as int);
            lemma_spread_in_row_keeps(s, c, row, s.col as int);
            if let Ok(next) = spread_in_row(s, c, row, s.col as int) {
                lemma_spread_cell_keeps_name(next, c, row + 1);
            }
        }
    }
}

/// Reading a table keeps the names of the sheet and its file.
pub proof fn lemma_table_keeps_name(events: Seq<XmlView>, at: int, s: TableScan, c: Criteria)
    requires
        0 <= at <= events.len(),
    ensures
        table_from(events, at, s, c) matches Ok((last, _)) ==> same_name(last.sheet, s.sheet),
    decreases events.len() - at,
{
    if at < events.len() {
        lemma_spread_cell_keeps_name(s, c, s.row as int);
        lemma_steps_keep_sheet(s, events[at], c);
        if let Ok((next, false)) = table_step(s, events[at], c) {
            lemma_table_keeps_name(events, at + 1, next, c);
        }
    }
}

/// A table that is read ends no later than at the first end of a table.
proof fn lemma_table_stops_at_end(
    events: Seq<XmlView>,
    at: int,
    s: TableScan,
    c: Criteria,
    k: int,
)
    requires
        0 <= at <= k < events.len(),
        events[k] == XmlView::End(TABLE@),
        table_from(events, at, s, c) is Ok,
    ensures
        table_from(events, at, s, c)->Ok_0.1 <= k + 1,
    decreases k - at,
{
    if at < k {
        if let Ok((next, false)) = table_step(s, events[at], c) {
            lemma_table_stops_at_end(events, at + 1, next, c, k);
        }
    }
}

proof fn lemma_tables_are_passed(events: Seq<XmlView>, from: int, to: int, accepted: Seq<bool>)
    requires
        0 <= from <= to <= events.len(),
        forall|k: int|
            from <= k < to ==> !starts_table(#[trigger] events[k]) && events[k] != XmlView::End(
                SPREADSHEET@,
            ),
    ensures
        accepted_tables(events, from, accepted) == accepted_tables(events, to, accepted),
    decreases to - from,
{
    if from < to {
        assert(!starts_table(events[from]));
        lemma_tables_are_passed(events, from + 1, to, accepted);
    }
}

/// A search leads to the first table that was accepted.
proof fn lemma_search_finds_first(
    events: Seq<XmlView>,
    at: int,
    c: Criteria,
    accepted: Seq<bool>,
    count: nat,
)
    requires
        0 <= at <= events.len(),
    ensures
        match search_from(events, at, c, accepted, count) {
            Ok(TableSearch::Found(name, start)) => {
                &&& at < start <= events.len()
                &&& starts_table(events[start - 1])
                &&& accepted_tables(events, at, accepted) == seq![name] + accepted_tables(
                    events,
                    start,
                    accepted,
                )
            },
            Ok(TableSearch::Done) => accepted_tables(events, at, accepted).len() == 0 || c.is_full(
                count as int,
            ),
            Err(_) => true,
        },
    decreases events.len() - at,
{
    if at < events.len() {
        lemma_search_finds_first(events, at + 1, c, accepted, count);
    }
}

/// The sheets that are read are the first of the tables that were accepted, in the
/// order of the document: all of them, or as many as are wanted at most.
pub proof fn lemma_accepted_tables_are_read(
    events: Seq<XmlView>,
    at: int,
    file_name: Seq<char>,
    c: Criteria,
    accepted: Seq<bool>,
    count: nat,
)
    requires
        0 <= at <= events.len(),
        tables_are_flat(events),
    ensures
        ods_sheets_from(events, at, file_name, c, accepted, count) matches Ok(found) ==> {
            let names = accepted_tables(events, at, accepted);
            &&& found.len() <= names.len()
            &&& forall|k: int|
                0 <= k < found.len() ==> (#[trigger] found[k]).name == names[k]
                    && found[k].file_name == file_name && is_read_for(c, found[k])
            &&& found.len() < names.len() ==> c.is_full((count + found.len()) as int)
        },
    decreases events.len() - at,
{
    lemma_search_finds_first(events, at, c, accepted, count);
    lemma_search_bounds(events, at, c, accepted, count);
    if let Ok(TableSearch::Found(name, start)) = search_from(events, at, c, accepted, count) {
        let first = table_start(file_name, name, c);
        lemma_table_bounds(events, start, first, c);
        lemma_table_keeps_name(events, start, first, c);
        if let Ok((s, end)) = table_from(events, start, first, c) {
            assert forall|k: int| start <= k < end implies !starts_table(#[trigger] events[k])
                && events[k] != XmlView::End(SPREADSHEET@) by {
                if starts_table(events[k]) || events[k] == XmlView::End(SPREADSHEET@) {
                    assert(starts_table(events[start - 1]));
                    assert(table_ends_between(events, start - 1, k));
                    let e = choose|e: int|
                        start - 1 < e < k && #[trigger] events[e] == XmlView::End(TABLE@);
                    lemma_table_stops_at_end(events, start, first, c, e);
                }
            }
            lemma_tables_are_passed(events, start, end, accepted);
            lemma_accepted_tables_are_read(events, end, file_name, c, accepted, count + 1);
            if let Ok(found) = ods_sheets_from(events, at, file_name, c, accepted, count) {
                let names = accepted_tables(events, at, accepted);
                assert(names.len() > 0 && names[0] == name);
                assert forall|k: int| 0 <= k < found.len() implies (#[trigger] found[k]).name
                    == names[k] && found[k].file_name == file_name && is_read_for(c, found[k]) by {
                    if k > 0 {
                        let more = ods_sheets_from(
                            events,
                            end,
                            file_name,
                            c,
                            accepted,
                            count + 1,
                        )->Ok_0;
                        assert(found[k] == more[k - 1]);
                        assert(names[k] == accepted_tables(events, end, accepted)[k - 1]);
                    }
                }
            }
        }
    }
}

} // verus!
