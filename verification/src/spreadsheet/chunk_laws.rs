//! What holds of the chunks of a sheet and of the rows of their tables.

use crate::spreadsheet::cell::CellView;
use crate::spreadsheet::sheet::cells_below;
use crate::spreadsheet::sheet::cells_in_runs;
use crate::spreadsheet::sheet::lemma_cells_below;
use crate::spreadsheet::sheet::lemma_chunk_progress;
use crate::spreadsheet::sheet::ready_chunks;
use crate::spreadsheet::sheet::row_changes;
use crate::spreadsheet::sheet::unready_rest;
use crate::spreadsheet::sheet::SheetView;
use crate::spreadsheet::sort::is_sorted;
use crate::spreadsheet::table::cell_among;
use crate::spreadsheet::table::lemma_table_cell;
use crate::spreadsheet::table::lemma_table_rows;
use crate::spreadsheet::table::rows_needed;
use crate::spreadsheet::table::table_cell;
use crate::spreadsheet::table::table_row;
use crate::spreadsheet::table::table_rows;
use vstd::prelude::*;

verus! {

/// The first row that was not handed out of a sheet, 0 where none is known.
pub open spec fn window_start(sheet: SheetView) -> int {
    if sheet.chunk_row_lower is Some {
        sheet.chunk_row_lower->Some_0 as int
    } else {
        0
    }
}

/// Where empty rows are kept, the chunks of a sheet whose cells stand in order are its
/// windows of 2048 rows: the next chunk holds exactly the cells with rows in the first
/// one, and what is left starts with the next one. The table of a chunk has all 2048
/// rows as long as cells follow it.
pub proof fn lemma_chunks_are_windows(sheet: SheetView, i: int)
    requires
        sheet.is_ready(),
        !sheet.skip_empty_rows,
        is_sorted(sheet.cells),
        0 <= i < sheet.cells.len(),
        window_start(sheet) + 2048 <= usize::MAX,
    ensures
        ({
            let n = sheet.next_chunk().cells.len();
            &&& i < n <==> sheet.cells[i].row < window_start(sheet) + 2048
            &&& window_start(sheet.next_chunk()) == window_start(sheet)
            &&& n < sheet.cells.len() ==> {
                &&& window_start(sheet.after_chunk()) == window_start(sheet) + 2048
                &&& table_rows(sheet.next_chunk()) == 2048
            }
            &&& n == sheet.cells.len() ==> window_start(sheet.after_chunk()) == window_start(sheet)
        }),
{
    lemma_cells_below(sheet.cells, window_start(sheet) + 2048);
    let n = cells_below(sheet.cells, window_start(sheet) + 2048) as int;
    assert(sheet.chunk_cells() == n);
    if n <= i {
        let (a, b) = (sheet.cells[n], sheet.cells[i]);
        assert(a.row <= b.row);
    }
}

/// A chunk of a sheet that is not finished is complete: no cell that comes later
/// changes it.
pub proof fn lemma_ready_chunk_is_final(sheet: SheetView, cell: CellView)
    requires
        sheet.is_ready(),
        !sheet.finished,
        sheet.row_lower is Some,
        sheet.chunk_row_lower is Some,
    ensures
        sheet.with(cell).is_ready(),
        sheet.with(cell).next_chunk() == sheet.next_chunk(),
{
    let more = sheet.with(cell);
    let n = sheet.chunk_cells();
    if sheet.skip_empty_rows {
        lemma_runs_of_longer(sheet.cells, cell, 2048, 0);
        lemma_runs_count(sheet.cells, 2048, 0);
    } else {
        lemma_below_of_longer(sheet.cells, cell, sheet.first_row() + 2048);
        lemma_cells_below(sheet.cells, sheet.first_row() + 2048);
    }
    assert(more.chunk_cells() == n);
    assert(more.cells.take(n) =~= sheet.cells.take(n));
}

proof fn lemma_below_of_longer(cells: Seq<CellView>, cell: CellView, bound: int)
    ensures
        cells_below(cells, bound) < cells.len() ==> cells_below(cells.push(cell), bound)
            == cells_below(cells, bound),
    decreases cells.len(),
{
    if cells.len() > 0 && cells[0].row < bound {
        assert(cells.push(cell).drop_first() =~= cells.drop_first().push(cell));
        lemma_below_of_longer(cells.drop_first(), cell, bound);
    }
}

proof fn lemma_changes_of_longer(cells: Seq<CellView>, cell: CellView, n: int)
    requires
        n < cells.len(),
    ensures
        row_changes(cells.push(cell), n) == row_changes(cells, n),
    decreases n,
{
    if n > 0 {
        lemma_changes_of_longer(cells, cell, n - 1);
    }
}

proof fn lemma_runs_of_longer(cells: Seq<CellView>, cell: CellView, rows: int, n: int)
    requires
        0 <= n <= cells.len(),
    ensures
        n + cells_in_runs(cells, rows, n) < cells.len() ==> cells_in_runs(
            cells.push(cell),
            rows,
            n,
        ) == cells_in_runs(cells, rows, n),
    decreases cells.len() - n,
{
    if n < cells.len() {
        lemma_changes_of_longer(cells, cell, n);
        lemma_runs_of_longer(cells, cell, rows, n + 1);
    }
}

proof fn lemma_runs_count(cells: Seq<CellView>, rows: int, n: int)
    requires
        0 <= n <= cells.len(),
    ensures
        0 <= cells_in_runs(cells, rows, n) <= cells.len() - n,
        n + cells_in_runs(cells, rows, n) < cells.len() ==> row_changes(
            cells,
            n + cells_in_runs(cells, rows, n),
        ) >= rows,
        cells_in_runs(cells, rows, n) > 0 ==> row_changes(
            cells,
            n + cells_in_runs(cells, rows, n) - 1,
        ) < rows,
    decreases cells.len() - n,
{
    if n < cells.len() && row_changes(cells, n) < rows {
        lemma_runs_count(cells, rows, n + 1);
    }
}

/// The rows in which cells stand.
pub open spec fn rows_of(cells: Seq<CellView>) -> Set<usize>
    decreases cells.len(),
{
    if cells.len() == 0 {
        Set::empty()
    } else {
        rows_of(cells.drop_last()).insert(cells.last().row)
    }
}

proof fn lemma_rows_are_counted(cells: Seq<CellView>, n: int)
    requires
        is_sorted(cells),
        0 < n <= cells.len(),
    ensures
        rows_of(cells.take(n)).finite(),
        rows_of(cells.take(n)).len() == row_changes(cells, n - 1) + 1,
        forall|row: usize| #[trigger]
            rows_of(cells.take(n)).contains(row) ==> row <= cells[n - 1].row,
        rows_of(cells.take(n)).contains(cells[n - 1].row),
    decreases n,
{
    let front = cells.take(n);
    assert(front.drop_last() =~= cells.take(n - 1));
    assert(front.last() == cells[n - 1]);
    if n == 1 {
        assert(rows_of(cells.take(0)) == Set::<usize>::empty());
        assert(rows_of(front) =~= Set::empty().insert(cells[0].row));
    } else {
        lemma_rows_are_counted(cells, n - 1);
        let (a, b) = (cells[n - 2], cells[n - 1]);
        assert(a.row <= b.row);
        if a.row == b.row {
            assert(rows_of(front) =~= rows_of(cells.take(n - 1)));
        }
    }
}

/// Where empty rows are left out, the next chunk of a sheet whose cells stand in order
/// holds the cells of the first 2048 rows that have cells, or all of them where there
/// are no more; and no row is split between two chunks.
pub proof fn lemma_chunks_hold_full_rows(sheet: SheetView)
    requires
        sheet.is_ready(),
        sheet.skip_empty_rows,
        is_sorted(sheet.cells),
    ensures
        ({
            let chunk = sheet.next_chunk().cells;
            let rest = sheet.after_chunk();
            &&& rows_of(chunk).len() <= 2048
            &&& rest.cells.len() > 0 ==> {
                &&& rows_of(chunk).len() == 2048
                &&& chunk.last().row < rest.cells[0].row
                &&& window_start(rest) == rest.cells[0].row
            }
        }),
{
    let n = sheet.chunk_cells();
    assert(row_changes(sheet.cells, 0) == 0);
    lemma_runs_count(sheet.cells, 2048, 0);
    assert(n > 0) by {
        lemma_runs_count(sheet.cells, 2048, 1);
    }
    lemma_rows_are_counted(sheet.cells, n);
    let rest = sheet.after_chunk();
    if rest.cells.len() > 0 {
        assert(rest.cells[0] == sheet.cells[n]);
        let (a, b) = (sheet.cells[n - 1], sheet.cells[n]);
        assert(a.row <= b.row);
    }
}

/// Where empty rows are kept, a cell stands in its own row of the table, counted from
/// the first one of the window.
pub proof fn lemma_kept_rows_keep_distance(sheet: SheetView, k: int)
    requires
        !sheet.skip_empty_rows,
        0 <= k < sheet.cells.len(),
    ensures
        match table_row(sheet, k) {
            Some(row) => 0 <= row < 2048 && sheet.cells[k].row == window_start(sheet) + row,
            None => sheet.cells[k].row < window_start(sheet) || sheet.cells[k].row >= window_start(
                sheet,
            ) + 2048,
        },
{
}

/// Where empty rows are left out, the first cell stands in the first row of the table;
/// and each further one stands in the row of the cell before it where both have the
/// same row, else in the next one.
pub proof fn lemma_filled_rows_are_next_to_each_other(sheet: SheetView, k: int)
    requires
        sheet.skip_empty_rows,
        0 <= k < sheet.cells.len(),
    ensures
        table_row(sheet, 0) == Some(0int),
        k > 0 && sheet.cells[k].row == sheet.cells[k - 1].row ==> table_row(sheet, k) == table_row(
            sheet,
            k - 1,
        ),
        k > 0 && sheet.cells[k].row != sheet.cells[k - 1].row ==> (table_row(
            sheet,
            k,
        ) matches Some(row) ==> table_row(sheet, k - 1) == Some(row - 1)),
        k > 0 && sheet.cells[k].row != sheet.cells[k - 1].row && table_row(sheet, k) is None ==> (
        table_row(sheet, k - 1) matches Some(row) ==> row == 2047),
{
    assert(row_changes(sheet.cells, 0) == 0);
}

/// A table that is as long as its cells need ends with a row that holds a cell.
pub proof fn lemma_last_row_is_needed(sheet: SheetView)
    requires
        sheet.chunk_rows is None,
    ensures
        table_rows(sheet) > 0 ==> exists|k: int|
            0 <= k < sheet.cells.len() && #[trigger] table_row(sheet, k) == Some(
                table_rows(sheet) - 1,
            ),
        forall|k: int|
            0 <= k < sheet.cells.len() ==> (#[trigger] table_row(sheet, k) matches Some(row) ==> row
                < table_rows(sheet)),
{
    lemma_table_rows(sheet);
    lemma_needed_row_has_cell(sheet, sheet.cells.len() as int);
}

proof fn lemma_needed_row_has_cell(sheet: SheetView, n: int)
    requires
        0 <= n <= sheet.cells.len(),
    ensures
        rows_needed(sheet, n) > 0 ==> exists|k: int|
            0 <= k < n && #[trigger] table_row(sheet, k) == Some(rows_needed(sheet, n) - 1),
    decreases n,
{
    if n > 0 {
        lemma_needed_row_has_cell(sheet, n - 1);
        if rows_needed(sheet, n) > rows_needed(sheet, n - 1) {
            assert(table_row(sheet, n - 1) == Some(rows_needed(sheet, n) - 1));
        } else if rows_needed(sheet, n) > 0 {
            let k = choose|k: int|
                0 <= k < n - 1 && #[trigger] table_row(sheet, k) == Some(
                    rows_needed(sheet, n - 1) - 1,
                );
            assert(table_row(sheet, k) == Some(rows_needed(sheet, n) - 1));
        }
    }
}

/// The last cell in a row of a table and a column is the one that is found there.
pub proof fn lemma_last_cell_is_found(sheet: SheetView, k: int, row: int)
    requires
        0 <= k < sheet.cells.len(),
        table_row(sheet, k) == Some(row),
        forall|j: int|
            k < j < sheet.cells.len() && (#[trigger] sheet.cells[j]).col == sheet.cells[k].col
                ==> table_row(sheet, j) != Some(row),
    ensures
        table_cell(sheet, row, sheet.cells[k].col as int) == Some(k),
{
    let col = sheet.cells[k].col as int;
    lemma_table_cell(sheet, sheet.cells.len() as int, row, col);
    match cell_among(sheet, sheet.cells.len() as int, row, col) {
        Some(found) => {
            if found < k {
                assert(table_row(sheet, k) == Some(row) && sheet.cells[k].col == col);
            } else if found > k {
                assert(sheet.cells[found].col == sheet.cells[k].col);
            }
        },
        None => {
            assert(table_row(sheet, k) == Some(row) && sheet.cells[k].col == col);
        },
    }
}

/// Whether a chunk has the name and the settings of a sheet, and holds all its cells.
pub open spec fn is_chunk_of(chunk: SheetView, sheet: SheetView) -> bool {
    &&& chunk.file_name == sheet.file_name
    &&& chunk.name == sheet.name
    &&& chunk.range == sheet.range
    &&& chunk.rows_limit == sheet.rows_limit
    &&& chunk.skip_empty_rows == sheet.skip_empty_rows
    &&& chunk.row_lower == sheet.row_lower
    &&& chunk.end_at_empty_row == sheet.end_at_empty_row
    &&& chunk.finished
}

/// All chunks of a sheet have its name and its settings.
pub proof fn lemma_chunks_keep_name(sheet: SheetView, i: int)
    requires
        0 <= i < ready_chunks(sheet).len(),
    ensures
        is_chunk_of(ready_chunks(sheet)[i], sheet),
    decreases sheet.cells.len(), sheet.chunk_measure(),
{
    if sheet.is_ready() {
        lemma_chunk_progress(sheet);
        if i > 0 {
            lemma_chunks_keep_name(sheet.after_chunk(), i - 1);
            assert(ready_chunks(sheet)[i] == ready_chunks(sheet.after_chunk())[i - 1]);
        }
    }
}

/// What is left behind the chunks of a sheet has its name and its settings.
pub proof fn lemma_rest_keeps_name(sheet: SheetView)
    ensures
        ({
            let rest = unready_rest(sheet);
            &&& rest.file_name == sheet.file_name
            &&& rest.name == sheet.name
            &&& rest.range == sheet.range
            &&& rest.rows_limit == sheet.rows_limit
            &&& rest.skip_empty_rows == sheet.skip_empty_rows
            &&& rest.end_at_empty_row == sheet.end_at_empty_row
            &&& rest.finished == sheet.finished
        }),
    decreases sheet.cells.len(), sheet.chunk_measure(),
{
    if sheet.is_ready() {
        lemma_chunk_progress(sheet);
        lemma_rest_keeps_name(sheet.after_chunk());
    }
}

} // verus!
