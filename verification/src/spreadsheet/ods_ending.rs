//! Where the first empty row ends an OpenDocument table.

use crate::error::ErrorView;
use crate::helpers::xml::XmlView;
use crate::spreadsheet::cell::CellType;
use crate::spreadsheet::cell::CellView;
use crate::spreadsheet::criteria::after_bound;
use crate::spreadsheet::criteria::before_bound;
use crate::spreadsheet::criteria::Criteria;
use crate::spreadsheet::ods::capped;
use crate::spreadsheet::ods::lemma_spread_in_row_keeps;
use crate::spreadsheet::ods::spread_cell;
use crate::spreadsheet::ods::spread_in_row;
use crate::spreadsheet::ods::table_end_cell;
use crate::spreadsheet::ods::table_from;
use crate::spreadsheet::ods::table_start;
use crate::spreadsheet::ods::table_step;
use crate::spreadsheet::ods::TableScan;
use crate::spreadsheet::ods_limits::ends_cell;
use crate::spreadsheet::ods_limits::is_beside;
use crate::spreadsheet::ods_limits::lemma_ending_names;
use crate::spreadsheet::ods_limits::lemma_steps_beside;
use crate::spreadsheet::sheet::bounds_of;
use crate::spreadsheet::sheet::SheetView;
use crate::spreadsheet::xlsx::cells::ends_before;
use crate::spreadsheet::xlsx::document::is_no_value;
use crate::spreadsheet::xlsx::ending::ends_with_gap;
use crate::spreadsheet::xlsx::ending::lemma_nulls_alike;
use crate::spreadsheet::xlsx::ending::without_end;
use vstd::prelude::*;

verus! {

/// Whether every cell that is not empty, from event `at` on, has a value and stands in
/// a row that is not repeated.
pub open spec fn cells_are_single(events: Seq<XmlView>, at: int, t: TableScan, c: Criteria) -> bool
    decreases events.len() - at,
{
    if at < 0 || at >= events.len() {
        true
    } else {
        &&& ends_cell(events[at]) && t.kind != CellType::Empty ==> t.row_count == 1 && !is_no_value(
            c,
            t.value,
        )
        &&& match table_step(t, events[at], without_end(c)) {
            Ok((next, false)) => cells_are_single(events, at + 1, next, c),
            _ => true,
        }
    }
}

/// Whether no empty row stands between the cells or before them.
pub open spec fn is_gapless(cells: Seq<CellView>, c: Criteria) -> bool {
    forall|n: int| !#[trigger] ends_with_gap(cells, n, c)
}

/// Whether a scan met no gap: its last row is that of its last cell, or else the first
/// one of the range.
spec fn is_whole(s: TableScan, c: Criteria) -> bool {
    &&& is_gapless(s.sheet.cells, c)
    &&& s.sheet.range == c.range
    &&& s.last_row == if s.sheet.cells.len() > 0 {
        Some(s.sheet.cells.last().row)
    } else {
        bounds_of(c.range).row_lower_bound
    }
    &&& s.sheet.row_lower is Some <==> (s.sheet.cells.len() > 0 || bounds_of(
        c.range,
    ).row_lower_bound is Some)
    &&& s.sheet.chunk_row_lower is Some <==> s.sheet.row_lower is Some
}

/// Whether `s` ended at a gap and `t` went on: `s` has the first `n` cells, and the row
/// that `t` stands in lies behind the gap.
spec fn has_ended(s: TableScan, t: TableScan, c: Criteria, n: int) -> bool {
    &&& is_beside(s, t)
    &&& s.sheet == (SheetView { cells: s.sheet.cells, ..t.sheet })
    &&& t.sheet.row_lower is Some
    &&& t.sheet.chunk_row_lower is Some
    &&& 0 <= n < t.sheet.cells.len()
    &&& s.sheet.cells == t.sheet.cells.take(n)
    &&& is_gapless(s.sheet.cells, c)
    &&& ends_with_gap(t.sheet.cells, n, c)
    &&& s.last_row matches Some(last)
    &&& if n > 0 {
        last + 1 < t.row
    } else {
        last < t.row
    }
}

proof fn lemma_gap_at_end(cells: Seq<CellView>, cell: CellView, c: Criteria)
    requires
        is_gapless(cells, c),
        !ends_with_gap(cells.push(cell), cells.len() as int, c),
    ensures
        is_gapless(cells.push(cell), c),
{
    let more = cells.push(cell);
    assert forall|n: int| !#[trigger] ends_with_gap(more, n, c) by {
        if ends_with_gap(more, n, c) && n < cells.len() {
            assert(more[n] == cells[n]);
            if n > 0 {
                assert(more[n - 1] == cells[n - 1]);
            }
            assert(ends_with_gap(cells, n, c));
        }
    }
}

/// More cells behind a gap leave it where it is.
proof fn lemma_gap_stays(cells: Seq<CellView>, cell: CellView, c: Criteria, n: int)
    requires
        ends_with_gap(cells, n, c),
    ensures
        ends_with_gap(cells.push(cell), n, c),
        cells.push(cell).take(n) == cells.take(n),
{
    let more = cells.push(cell);
    assert(more[n] == cells[n]);
    if n > 0 {
        assert(more[n - 1] == cells[n - 1]);
    }
    assert(more.take(n) =~= cells.take(n));
}

/// The scan with the current cell in one more column.
spec fn with_cell(t: TableScan, row: int, col: int) -> TableScan {
    TableScan {
        last_row: Some(t.row),
        sheet: t.sheet.with(
            CellView { row: row as usize, col: col as usize, kind: t.kind, value: t.value },
        ),
        ..t
    }
}

/// Behind a gap a row is filled in one scan only.
proof fn lemma_row_behind_gap(s: TableScan, t: TableScan, c: Criteria, n: int, row: int, col: int)
    requires
        c.end_at_empty_row,
        has_ended(s, t, c, n),
        t.kind != CellType::Empty,
        !is_no_value(c, t.value),
        row == t.row,
    ensures
        spread_in_row(s, c, row, col) == Ok::<TableScan, ErrorView>(s),
        spread_in_row(t, without_end(c), row, col) matches Ok(next) ==> has_ended(s, next, c, n),
    decreases capped(t.col as int, t.col_count as int) - col,
{
    let d = without_end(c);
    lemma_nulls_alike(c, t.value);
    if col < capped(t.col as int, t.col_count as int) {
        if before_bound(bounds_of(t.sheet.range).col_lower_bound, col) || after_bound(
            bounds_of(t.sheet.range).col_upper_bound,
            col,
        ) {
            lemma_row_behind_gap(s, t, c, n, row, col + 1);
        } else {
            assert(ends_before(true, s.last_row, s.sheet.cells.len() == 0, s.row));
            if t.kind != CellType::Error {
                let next = with_cell(t, row, col);
                let own = next.sheet.cells.last();
                assert(!d.is_null(t.value));
                lemma_gap_stays(t.sheet.cells, own, c, n);
                assert(has_ended(s, next, c, n));
                lemma_row_behind_gap(s, next, c, n, row, col + 1);
            }
        }
    }
}

/// A row is filled alike up to a gap.
proof fn lemma_row_up_to_gap(t: TableScan, c: Criteria, row: int, col: int)
    requires
        c.end_at_empty_row,
        is_whole(t, c),
        t.kind != CellType::Empty,
        !is_no_value(c, t.value),
        row == t.row,
        !t.sheet.row_before(row),
    ensures
        spread_in_row(t, without_end(c), row, col) matches Ok(next) ==> {
            &&& spread_in_row(t, c, row, col) matches Ok(other)
            &&& (other == next && is_whole(next, c)) || has_ended(
                other,
                next,
                c,
                other.sheet.cells.len() as int,
            )
        },
    decreases capped(t.col as int, t.col_count as int) - col,
{
    let d = without_end(c);
    lemma_nulls_alike(c, t.value);
    if col < capped(t.col as int, t.col_count as int) {
        if before_bound(bounds_of(t.sheet.range).col_lower_bound, col) || after_bound(
            bounds_of(t.sheet.range).col_upper_bound,
            col,
        ) {
            lemma_row_up_to_gap(t, c, row, col + 1);
        } else if t.kind != CellType::Error {
            let next = with_cell(t, row, col);
            let own = next.sheet.cells.last();
            let cells = t.sheet.cells;
            assert(!d.is_null(t.value));
            assert(next.sheet.cells == cells.push(own));
            let n = cells.len() as int;
            if n > 0 {
                assert(next.sheet.cells[n - 1] == cells.last());
            }
            if ends_before(true, t.last_row, n == 0, t.row) {
                assert(ends_with_gap(next.sheet.cells, n, c));
                assert(next.sheet.cells.take(n) =~= cells);
                assert(has_ended(t, next, c, n));
                lemma_row_behind_gap(t, next, c, n, row, col + 1);
            } else {
                lemma_gap_at_end(cells, own, c);
                assert(is_whole(next, c));
                lemma_row_up_to_gap(next, c, row, col + 1);
            }
        }
    }
}

proof fn lemma_table_behind_gap(
    events: Seq<XmlView>,
    at: int,
    s: TableScan,
    t: TableScan,
    c: Criteria,
    n: int,
)
    requires
        0 <= at,
        c.end_at_empty_row,
        has_ended(s, t, c, n),
        cells_are_single(events, at, t, c),
    ensures
        table_from(events, at, t, without_end(c)) matches Ok((all, _)) ==> {
            &&& table_from(events, at, s, c) matches Ok((some, _))
            &&& some.sheet.cells == s.sheet.cells
            &&& n < all.sheet.cells.len()
            &&& all.sheet.cells.take(n) == s.sheet.cells
            &&& ends_with_gap(all.sheet.cells, n, c)
        },
    decreases events.len() - at,
{
    let d = without_end(c);
    if at < events.len() {
        lemma_ending_names();
        let event = events[at];
        if ends_cell(event) {
            if t.kind != CellType::Empty {
                let row = t.row as int;
                lemma_spread_in_row_keeps(t, d, row, t.col as int);
                lemma_row_behind_gap(s, t, c, n, row, t.col as int);
                assert(capped(row, 1) <= row + 1);
                lemma_one_row(t, d);
                lemma_one_row(s, c);
            }
            if table_end_cell(t, d) is Ok {
                let next_t = table_end_cell(t, d)->Ok_0;
                let next_s = table_end_cell(s, c)->Ok_0;
                assert(has_ended(next_s, next_t, c, n));
                lemma_table_behind_gap(events, at + 1, next_s, next_t, c, n);
            }
        } else if event == XmlView::End("table:table-row"@) {
            let row = capped(t.row as int, t.row_count as int);
            let next_t = TableScan { row, ..t };
            let next_s = TableScan { row, ..s };
            let stops = t.sheet.row_after(row as int);
            assert(s.sheet.row_after(row as int) == stops);
            assert(table_step(t, event, d) == Ok::<(TableScan, bool), ErrorView>((next_t, stops)));
            assert(table_step(s, event, c) == Ok::<(TableScan, bool), ErrorView>((next_s, stops)));
            if !stops {
                assert(has_ended(next_s, next_t, c, n));
                lemma_table_behind_gap(events, at + 1, next_s, next_t, c, n);
            }
        } else {
            lemma_steps_beside(s, t, event, c, d);
            if let Ok((next_t, false)) = table_step(t, event, d) {
                let next_s = TableScan { sheet: s.sheet, last_row: s.last_row, ..next_t };
                lemma_table_behind_gap(events, at + 1, next_s, next_t, c, n);
            }
        }
    }
}

/// A cell in a row that is not repeated is added to that row alone.
proof fn lemma_one_row(t: TableScan, d: Criteria)
    requires
        t.row_count == 1,
    ensures
        spread_cell(t, d, t.row as int) == if t.row == usize::MAX || t.sheet.row_before(t.row as int)
            || t.sheet.row_after(t.row as int) {
            Ok::<TableScan, ErrorView>(t)
        } else {
            spread_in_row(t, d, t.row as int, t.col as int)
        },
{
    let row = t.row as int;
    reveal_with_fuel(spread_cell, 3);
    lemma_spread_in_row_keeps(t, d, row, t.col as int);
}

proof fn lemma_table_up_to_gap(events: Seq<XmlView>, at: int, t: TableScan, c: Criteria)
    requires
        0 <= at,
        c.end_at_empty_row,
        is_whole(t, c),
        cells_are_single(events, at, t, c),
    ensures
        table_from(events, at, t, without_end(c)) matches Ok((all, _)) ==> {
            &&& table_from(events, at, t, c) matches Ok((some, _))
            &&& some.sheet.cells.len() <= all.sheet.cells.len()
            &&& some.sheet.cells == all.sheet.cells.take(some.sheet.cells.len() as int)
            &&& some.sheet.cells.len() < all.sheet.cells.len() ==> ends_with_gap(
                all.sheet.cells,
                some.sheet.cells.len() as int,
                c,
            )
            &&& is_gapless(some.sheet.cells, c)
        },
    decreases events.len() - at,
{
    let d = without_end(c);
    assert(t.sheet.cells.take(t.sheet.cells.len() as int) =~= t.sheet.cells);
    if at < events.len() {
        lemma_ending_names();
        let event = events[at];
        if ends_cell(event) {
            if t.kind != CellType::Empty {
                let row = t.row as int;
                lemma_spread_in_row_keeps(t, d, row, t.col as int);
                lemma_one_row(t, d);
                lemma_one_row(t, c);
                if !t.sheet.row_before(row) {
                    lemma_row_up_to_gap(t, c, row, t.col as int);
                }
            }
            if table_end_cell(t, d) is Ok {
                let next_t = table_end_cell(t, d)->Ok_0;
                let next_s = table_end_cell(t, c)->Ok_0;
                let n = next_s.sheet.cells.len() as int;
                if has_ended(next_s, next_t, c, n) {
                    lemma_table_behind_gap(events, at + 1, next_s, next_t, c, n);
                } else {
                    assert(next_s == next_t);
                    lemma_table_up_to_gap(events, at + 1, next_t, c);
                }
            }
        } else if event == XmlView::End("table:table-row"@) {
            let row = capped(t.row as int, t.row_count as int);
            let next = TableScan { row, ..t };
            let stops = t.sheet.row_after(row as int);
            assert(table_step(t, event, d) == Ok::<(TableScan, bool), ErrorView>((next, stops)));
            assert(table_step(t, event, c) == Ok::<(TableScan, bool), ErrorView>((next, stops)));
            if !stops {
                lemma_table_up_to_gap(events, at + 1, next, c);
            }
        } else {
            lemma_steps_beside(t, t, event, c, d);
            if let Ok((next, false)) = table_step(t, event, d) {
                assert(table_step(t, event, c) == Ok::<(TableScan, bool), ErrorView>((next, false)));
                lemma_table_up_to_gap(events, at + 1, next, c);
            }
        }
    }
}

/// Where the first empty row ends a table, what is read is what would be read without
/// that rule up to its first gap: the same cells in the same order, all of them where
/// there is no gap, and none behind one. All cells that are not empty have a value and
/// stand in rows that are not repeated.
pub proof fn lemma_table_ends_at_first_gap(
    events: Seq<XmlView>,
    at: int,
    file_name: Seq<char>,
    name: Seq<char>,
    c: Criteria,
)
    requires
        0 <= at,
        c.end_at_empty_row,
        cells_are_single(events, at, table_start(file_name, name, c), c),
    ensures
        table_from(
            events,
            at,
            table_start(file_name, name, c),
            without_end(c),
        ) matches Ok((all, _)) ==> {
            &&& table_from(events, at, table_start(file_name, name, c), c) matches Ok((some, _))
            &&& some.sheet.cells.len() <= all.sheet.cells.len()
            &&& some.sheet.cells == all.sheet.cells.take(some.sheet.cells.len() as int)
            &&& some.sheet.cells.len() < all.sheet.cells.len() ==> ends_with_gap(
                all.sheet.cells,
                some.sheet.cells.len() as int,
                c,
            )
            &&& is_gapless(some.sheet.cells, c)
        },
{
    lemma_table_up_to_gap(events, at, table_start(file_name, name, c), c);
}

} // verus!
