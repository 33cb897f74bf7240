//! What ends an OpenDocument table before its last row.

use crate::error::ErrorView;
use crate::helpers::xml::XmlView;
use crate::spreadsheet::cell::CellType;
use crate::spreadsheet::cell::CellView;
use crate::spreadsheet::criteria::after_bound;
use crate::spreadsheet::criteria::before_bound;
use crate::spreadsheet::criteria::Criteria;
use crate::spreadsheet::ods::capped;
use crate::spreadsheet::ods::lemma_spread_in_row_keeps;
use crate::spreadsheet::ods::spread_cell;
use crate::spreadsheet::ods::spread_in_row;
use crate::spreadsheet::ods::table_end_cell;
use crate::spreadsheet::ods::table_from;
use crate::spreadsheet::ods::table_start;
use crate::spreadsheet::ods::table_step;
use crate::spreadsheet::ods::TableScan;
use crate::spreadsheet::sheet::bounds_of;
use crate::spreadsheet::sheet::SheetView;
use vstd::prelude::*;

verus! {

/// The criteria without a limit on the number of rows, and the same otherwise.
pub open spec fn without_limit(c: Criteria) -> Criteria {
    Criteria { rows_limit: None, ..c }
}

/// The cells with rows before `bound`.
pub open spec fn cells_before(cells: Seq<CellView>, bound: int) -> Seq<CellView>
    decreases cells.len(),
{
    if cells.len() == 0 {
        Seq::empty()
    } else {
        let front = cells_before(cells.drop_last(), bound);
        if cells.last().row < bound {
            front.push(cells.last())
        } else {
            front
        }
    }
}

proof fn lemma_cells_before_push(cells: Seq<CellView>, cell: CellView, bound: int)
    ensures
        cells_before(cells.push(cell), bound) == if cell.row < bound {
            cells_before(cells, bound).push(cell)
        } else {
            cells_before(cells, bound)
        },
{
    assert(cells.push(cell).drop_last() =~= cells);
}

/// Whether an event ends a cell.
pub open spec fn ends_cell(event: XmlView) -> bool {
    event == XmlView::End("table:table-cell"@) || event == XmlView::End(
        "table:covered-table-cell"@,
    )
}

/// Whether two scans have come equally far, but for their sheets.
pub open spec fn is_beside(s: TableScan, t: TableScan) -> bool {
    s == (TableScan { sheet: s.sheet, last_row: s.last_row, ..t })
}

/// The names of the elements whose ends matter differ.
pub proof fn lemma_ending_names()
    ensures
        "table:table-row"@ != "table:table-cell"@,
        "table:table-row"@ != "table:covered-table-cell"@,
        "table:table-row"@ != "table:table"@,
        "table:table"@ != "table:table-cell"@,
        "table:table"@ != "table:covered-table-cell"@,
{
    reveal_strlit("table:table");
    reveal_strlit("table:table-row");
    reveal_strlit("table:table-cell");
    reveal_strlit("table:covered-table-cell");
    assert("table:table"@.len() == 11);
    assert("table:table-row"@.len() == 15);
    assert("table:table-cell"@.len() == 16);
    assert("table:covered-table-cell"@.len() == 24);
}

/// Events that end neither a cell nor a row leave two scans equally far.
pub proof fn lemma_steps_beside(s: TableScan, t: TableScan, event: XmlView, c: Criteria, d: Criteria)
    requires
        is_beside(s, t),
        c.error_as_null == d.error_as_null,
        !ends_cell(event),
        event != XmlView::End("table:table-row"@),
    ensures
        match table_step(t, event, d) {
            Err(error) => table_step(s, event, c) == Err::<(TableScan, bool), ErrorView>(error),
            Ok((next, stop)) => {
                &&& table_step(s, event, c) == Ok::<(TableScan, bool), ErrorView>(
                    (TableScan { sheet: s.sheet, last_row: s.last_row, ..next }, stop),
                )
                &&& next.sheet == t.sheet
                &&& next.last_row == t.last_row
                &&& next.row == t.row
            },
        },
{
}

/// The first row of a table: that of the range, else that of its first cell.
pub open spec fn table_first_row(cells: Seq<CellView>, c: Criteria) -> Option<usize> {
    if c.range is Some && c.range->Some_0.row_lower_bound is Some {
        c.range->Some_0.row_lower_bound
    } else if cells.len() > 0 {
        Some(cells[0].row)
    } else {
        None
    }
}

/// Whether `s`, with a limit, is as far as `t` without one: it has the cells within
/// the limit.
spec fn is_limited(s: TableScan, t: TableScan, c: Criteria, limit: int) -> bool {
    &&& is_beside(s, t)
    &&& s.sheet == (SheetView {
        rows_limit: c.rows_limit,
        cells: s.sheet.cells,
        ..t.sheet
    })
    &&& t.sheet.range == c.range
    &&& t.sheet.rows_limit is None
    &&& t.sheet.row_lower == table_first_row(t.sheet.cells, c)
    &&& match t.sheet.row_lower {
        Some(lower) => s.sheet.cells == cells_before(t.sheet.cells, lower + limit),
        None => s.sheet.cells.len() == 0 && t.sheet.cells.len() == 0,
    }
}

proof fn lemma_nulls_without_limit(c: Criteria, value: Seq<char>)
    ensures
        c.is_null(value) == without_limit(c).is_null(value),
{
    let d = without_limit(c);
    if c.is_null(value) {
        let i = choose|i: int| 0 <= i < c.nulls@.len() && #[trigger] c.nulls@[i]@ == value;
        assert(d.nulls@[i]@ == value);
    }
    if d.is_null(value) {
        let i = choose|i: int| 0 <= i < d.nulls@.len() && #[trigger] d.nulls@[i]@ == value;
        assert(c.nulls@[i]@ == value);
    }
}

/// A row within the limit is filled alike.
proof fn lemma_row_within_limit(
    s: TableScan,
    t: TableScan,
    c: Criteria,
    limit: int,
    row: int,
    col: int,
)
    requires
        c.rows_limit == Some(limit as usize),
        0 < limit <= usize::MAX,
        !c.end_at_empty_row,
        is_limited(s, t, c, limit),
        0 <= row <= usize::MAX,
        t.sheet.row_lower matches Some(lower) ==> row < lower + limit,
    ensures
        match spread_in_row(t, without_limit(c), row, col) {
            Err(error) => spread_in_row(s, c, row, col) == Err::<TableScan, ErrorView>(error),
            Ok(next) => spread_in_row(s, c, row, col) matches Ok(other) && is_limited(
                other,
                next,
                c,
                limit,
            ),
        },
    decreases capped(t.col as int, t.col_count as int) - col,
{
    let d = without_limit(c);
    lemma_nulls_without_limit(c, t.value);
    if col < capped(t.col as int, t.col_count as int) {
        if before_bound(bounds_of(t.sheet.range).col_lower_bound, col) || after_bound(
            bounds_of(t.sheet.range).col_upper_bound,
            col,
        ) {
            lemma_row_within_limit(s, t, c, limit, row, col + 1);
        } else if t.kind != CellType::Error {
            let own = CellView { row: row as usize, col: col as usize, kind: t.kind, value: t.value };
            let next_s = TableScan {
                last_row: Some(s.row),
                sheet: if c.is_null(s.value) {
                    s.sheet
                } else {
                    s.sheet.with(own)
                },
                ..s
            };
            let next_t = TableScan {
                last_row: Some(t.row),
                sheet: if d.is_null(t.value) {
                    t.sheet
                } else {
                    t.sheet.with(own)
                },
                ..t
            };
            if !d.is_null(t.value) {
                let lower = next_t.sheet.row_lower->Some_0;
                lemma_cells_before_push(t.sheet.cells, own, lower + limit);
                assert(own.row < lower + limit);
                if t.sheet.cells.len() == 0 {
                    assert(cells_before(t.sheet.cells, lower + limit) =~= Seq::<CellView>::empty());
                    assert(s.sheet.cells =~= Seq::<CellView>::empty());
                } else {
                    assert(next_t.sheet.cells[0] == t.sheet.cells[0]);
                }
                assert(next_s.sheet.cells == cells_before(next_t.sheet.cells, lower + limit));
            }
            assert(is_limited(next_s, next_t, c, limit));
            lemma_row_within_limit(next_s, next_t, c, limit, row, col + 1);
        }
    }
}

/// Whether nothing was added to a sheet but cells with rows from `bound` on.
spec fn adds_behind(t: SheetView, next: SheetView, c: Criteria, bound: int) -> bool {
    &&& next == (SheetView { cells: next.cells, ..t })
    &&& cells_before(next.cells, bound) == cells_before(t.cells, bound)
    &&& table_first_row(next.cells, c) == table_first_row(t.cells, c)
}

proof fn lemma_row_behind_limit(t: TableScan, d: Criteria, c: Criteria, bound: int, row: int, col: int)
    requires
        bound <= row <= usize::MAX,
        t.sheet.row_lower is Some,
        t.sheet.chunk_row_lower is Some,
        table_first_row(t.sheet.cells, c) is Some,
    ensures
        spread_in_row(t, d, row, col) matches Ok(next) ==> adds_behind(
            t.sheet,
            next.sheet,
            c,
            bound,
        ),
    decreases capped(t.col as int, t.col_count as int) - col,
{
    if col < capped(t.col as int, t.col_count as int) {
        if before_bound(bounds_of(t.sheet.range).col_lower_bound, col) || after_bound(
            bounds_of(t.sheet.range).col_upper_bound,
            col,
        ) {
            lemma_row_behind_limit(t, d, c, bound, row, col + 1);
        } else {
            let own = CellView { row: row as usize, col: col as usize, kind: t.kind, value: t.value };
            let next = TableScan {
                last_row: Some(t.row),
                sheet: if d.is_null(t.value) {
                    t.sheet
                } else {
                    t.sheet.with(own)
                },
                ..t
            };
            lemma_cells_before_push(t.sheet.cells, own, bound);
            if t.sheet.cells.len() > 0 {
                assert(next.sheet.cells[0] == t.sheet.cells[0]);
            }
            lemma_row_behind_limit(next, d, c, bound, row, col + 1);
        }
    }
}

proof fn lemma_cell_behind_limit(t: TableScan, d: Criteria, c: Criteria, bound: int, row: int)
    requires
        bound <= row,
        t.sheet.row_lower is Some,
        t.sheet.chunk_row_lower is Some,
        table_first_row(t.sheet.cells, c) is Some,
    ensures
        spread_cell(t, d, row) matches Ok(next) ==> adds_behind(t.sheet, next.sheet, c, bound)
            && next == (TableScan { sheet: next.sheet, last_row: next.last_row, ..t }),
    decreases capped(t.row as int, t.row_count as int) - row,
{
    if row < capped(t.row as int, t.row_count as int) {
        if t.sheet.row_before(row) {
            lemma_cell_behind_limit(t, d, c, bound, row + 1);
        } else if !t.sheet.row_after(row) {
            lemma_row_behind_limit(t, d, c, bound, row, t.col as int);
            lemma_spread_in_row_keeps(t, d, row, t.col as int);
            if let Ok(next) = spread_in_row(t, d, row, t.col as int) {
                lemma_cell_behind_limit(next, d, c, bound, row + 1);
            }
        }
    }
}

proof fn lemma_table_behind_limit(
    events: Seq<XmlView>,
    at: int,
    t: TableScan,
    d: Criteria,
    c: Criteria,
    bound: int,
)
    requires
        0 <= at,
        bound <= t.row,
        t.sheet.row_lower is Some,
        t.sheet.chunk_row_lower is Some,
        table_first_row(t.sheet.cells, c) is Some,
    ensures
        table_from(events, at, t, d) matches Ok((last, _)) ==> adds_behind(
            t.sheet,
            last.sheet,
            c,
            bound,
        ),
    decreases events.len() - at,
{
    if at < events.len() {
        lemma_ending_names();
        let event = events[at];
        if ends_cell(event) {
            lemma_cell_behind_limit(t, d, c, bound, t.row as int);
        } else if event != XmlView::End("table:table-row"@) {
            lemma_steps_beside(t, t, event, d, d);
        }
        if let Ok((next, false)) = table_step(t, event, d) {
            assert(adds_behind(t.sheet, next.sheet, c, bound));
            lemma_table_behind_limit(events, at + 1, next, d, c, bound);
        }
    }
}

proof fn lemma_cell_within_limit(s: TableScan, t: TableScan, c: Criteria, limit: int, row: int)
    requires
        c.rows_limit == Some(limit as usize),
        0 < limit <= usize::MAX,
        !c.end_at_empty_row,
        is_limited(s, t, c, limit),
        t.sheet.row_lower is Some ==> t.sheet.chunk_row_lower is Some,
        t.sheet.row_lower is None ==> t.sheet.chunk_row_lower is None,
        0 <= row,
    ensures
        match spread_cell(t, without_limit(c), row) {
            Err(error) => true,
            Ok(next) => {
                &&& spread_cell(s, c, row) matches Ok(other)
                &&& is_limited(other, next, c, limit)
                &&& next.row == t.row
                &&& next.sheet.row_lower is Some ==> next.sheet.chunk_row_lower is Some
                &&& next.sheet.row_lower is None ==> next.sheet.chunk_row_lower is None
            },
        },
    decreases capped(t.row as int, t.row_count as int) - row,
{
    let d = without_limit(c);
    if row < capped(t.row as int, t.row_count as int) {
        if t.sheet.row_before(row) {
            lemma_cell_within_limit(s, t, c, limit, row + 1);
        } else if t.sheet.row_after(row) {
        } else if s.sheet.row_after(row) {
            let lower = t.sheet.row_lower->Some_0;
            lemma_cell_behind_limit(t, d, c, lower + limit, row);
        } else {
            lemma_row_within_limit(s, t, c, limit, row, t.col as int);
            lemma_spread_in_row_keeps(t, d, row, t.col as int);
            lemma_spread_in_row_keeps(s, c, row, s.col as int);
            lemma_lower_bounds_agree(t, d, row, t.col as int);
            if let Ok(next) = spread_in_row(t, d, row, t.col as int) {
                let other = spread_in_row(s, c, row, s.col as int)->Ok_0;
                lemma_cell_within_limit(other, next, c, limit, row + 1);
            }
        }
    }
}

proof fn lemma_lower_bounds_agree(t: TableScan, d: Criteria, row: int, col: int)
    requires
        t.sheet.row_lower is Some <==> t.sheet.chunk_row_lower is Some,
    ensures
        spread_in_row(t, d, row, col) matches Ok(next) ==> (next.sheet.row_lower is Some
            <==> next.sheet.chunk_row_lower is Some),
    decreases capped(t.col as int, t.col_count as int) - col,
{
    if col < capped(t.col as int, t.col_count as int) {
        if before_bound(bounds_of(t.sheet.range).col_lower_bound, col) || after_bound(
            bounds_of(t.sheet.range).col_upper_bound,
            col,
        ) {
            lemma_lower_bounds_agree(t, d, row, col + 1);
        } else {
            let own = CellView { row: row as usize, col: col as usize, kind: t.kind, value: t.value };
            let next = TableScan {
                last_row: Some(t.row),
                sheet: if d.is_null(t.value) {
                    t.sheet
                } else {
                    t.sheet.with(own)
                },
                ..t
            };
            lemma_lower_bounds_agree(next, d, row, col + 1);
        }
    }
}

proof fn lemma_table_within_limit(
    events: Seq<XmlView>,
    at: int,
    s: TableScan,
    t: TableScan,
    c: Criteria,
    limit: int,
)
    requires
        0 <= at,
        c.rows_limit == Some(limit as usize),
        0 < limit <= usize::MAX,
        !c.end_at_empty_row,
        is_limited(s, t, c, limit),
        t.sheet.row_lower is Some <==> t.sheet.chunk_row_lower is Some,
    ensures
        table_from(events, at, t, without_limit(c)) matches Ok((all, _)) ==> {
            &&& table_from(events, at, s, c) matches Ok((some, _))
            &&& match table_first_row(all.sheet.cells, c) {
                Some(first) => some.sheet.cells == cells_before(all.sheet.cells, first + limit),
                None => some.sheet.cells.len() == 0,
            }
        },
    decreases events.len() - at,
{
    let d = without_limit(c);
    if at < events.len() {
        lemma_ending_names();
        let event = events[at];
        if ends_cell(event) {
            lemma_cell_within_limit(s, t, c, limit, t.row as int);
            if table_end_cell(t, d) is Ok {
                let next_t = table_end_cell(t, d)->Ok_0;
                let next_s = table_end_cell(s, c)->Ok_0;
                assert(is_limited(next_s, next_t, c, limit));
                lemma_table_within_limit(events, at + 1, next_s, next_t, c, limit);
            }
        } else if event == XmlView::End("table:table-row"@) {
            let row = capped(t.row as int, t.row_count as int);
            let next_t = TableScan { row, ..t };
            let next_s = TableScan { row, ..s };
            assert(table_step(t, event, d) == Ok::<(TableScan, bool), ErrorView>(
                (next_t, t.sheet.row_after(row as int)),
            ));
            assert(table_step(s, event, c) == Ok::<(TableScan, bool), ErrorView>(
                (next_s, s.sheet.row_after(row as int)),
            ));
            if t.sheet.row_after(row as int) {
                assert(s.sheet.row_after(row as int));
            } else if s.sheet.row_after(row as int) {
                let lower = t.sheet.row_lower->Some_0;
                lemma_table_behind_limit(events, at + 1, next_t, d, c, lower + limit);
            } else {
                lemma_table_within_limit(events, at + 1, next_s, next_t, c, limit);
            }
        } else {
            lemma_steps_beside(s, t, event, c, d);
            if let Ok((next_t, false)) = table_step(t, event, d) {
                let next_s = TableScan { sheet: s.sheet, last_row: s.last_row, ..next_t };
                lemma_table_within_limit(events, at + 1, next_s, next_t, c, limit);
            }
        }
    }
}

/// A limit on the number of rows keeps the first rows of a table and leaves out the
/// others: what is read are the cells that would be read without the limit and stand
/// within that many rows from the first one, in the same order. The first row is that
/// of the range, else that of the first cell.
pub proof fn lemma_limit_keeps_first_rows(
    events: Seq<XmlView>,
    at: int,
    file_name: Seq<char>,
    name: Seq<char>,
    c: Criteria,
    limit: usize,
)
    requires
        0 <= at,
        c.rows_limit == Some(limit),
        limit > 0,
        !c.end_at_empty_row,
    ensures
        table_from(
            events,
            at,
            table_start(file_name, name, without_limit(c)),
            without_limit(c),
        ) matches Ok((all, _)) ==> {
            &&& table_from(events, at, table_start(file_name, name, c), c) matches Ok((some, _))
            &&& match table_first_row(all.sheet.cells, c) {
                Some(first) => some.sheet.cells == cells_before(all.sheet.cells, first + limit),
                None => some.sheet.cells.len() == 0,
            }
        },
{
    let s = table_start(file_name, name, c);
    let t = table_start(file_name, name, without_limit(c));
    if let Some(lower) = t.sheet.row_lower {
        assert(cells_before(t.sheet.cells, lower + limit) =~= s.sheet.cells);
    }
    assert(is_limited(s, t, c, limit as int));
    lemma_table_within_limit(events, at, s, t, c, limit as int);
}

} // verus!
