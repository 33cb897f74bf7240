//! The arrangement of a sheet's cells in the rows of a table.

use crate::spreadsheet::cell::CellView;
use crate::spreadsheet::sheet::cells_in_runs;
use crate::spreadsheet::sheet::lemma_cells_below;
use crate::spreadsheet::sheet::lemma_chunk_progress;
use crate::spreadsheet::sheet::row_changes;
use crate::spreadsheet::sheet::Sheet;
use crate::spreadsheet::sheet::SheetView;
use crate::spreadsheet::sheet::CHUNK_ROWS;
use vstd::prelude::*;

verus! {

/// The row of a sheet's table that cell `k` stands in. Where empty rows are left
/// out, each run of cells with the same row is a row of the table; else the rows
/// are counted from the first one. Cells before the first row, or behind the rows
/// of a chunk, have no place.
pub open spec fn table_row(sheet: SheetView, k: int) -> Option<int> {
    let row = if sheet.skip_empty_rows {
        row_changes(sheet.cells, k) as int
    } else {
        sheet.cells[k].row - sheet.first_row()
    };
    if 0 <= row < CHUNK_ROWS {
        Some(row)
    } else {
        None
    }
}

/// How many rows the first `n` cells of a sheet need.
pub open spec fn rows_needed(sheet: SheetView, n: int) -> int
    decreases n,
{
    if n <= 0 {
        0
    } else {
        let before = rows_needed(sheet, n - 1);
        match table_row(sheet, n - 1) {
            Some(row) if row >= before => row + 1,
            _ => before,
        }
    }
}

/// How many rows a sheet's table has.
pub open spec fn table_rows(sheet: SheetView) -> int {
    match sheet.chunk_rows {
        Some(rows) if rows <= CHUNK_ROWS => rows as int,
        Some(_) => CHUNK_ROWS as int,
        None => rows_needed(sheet, sheet.cells.len() as int),
    }
}

/// The last of the first `n` cells in a row of the table and a column.
pub open spec fn cell_among(sheet: SheetView, n: int, row: int, col: int) -> Option<int>
    decreases n,
{
    if n <= 0 {
        None
    } else if table_row(sheet, n - 1) == Some(row) && sheet.cells[n - 1].col == col {
        Some(n - 1)
    } else {
        cell_among(sheet, n - 1, row, col)
    }
}

/// The cell in a row of the table and a column.
pub open spec fn table_cell(sheet: SheetView, row: int, col: int) -> Option<int> {
    cell_among(sheet, sheet.cells.len() as int, row, col)
}

proof fn lemma_rows_needed(sheet: SheetView, n: int)
    requires
        0 <= n,
    ensures
        0 <= rows_needed(sheet, n) <= CHUNK_ROWS,
        forall|k: int|
            0 <= k < n ==> (#[trigger] table_row(sheet, k) matches Some(row) ==> row < rows_needed(
                sheet,
                n,
            )),
    decreases n,
{
    if n > 0 {
        lemma_rows_needed(sheet, n - 1);
    }
}

/// A table has no more rows than a chunk; and every cell with a place stands in one
/// of its rows, where the rows are those that the cells need.
pub proof fn lemma_table_rows(sheet: SheetView)
    ensures
        0 <= table_rows(sheet) <= CHUNK_ROWS,
        sheet.chunk_rows is None ==> forall|k: int|
            0 <= k < sheet.cells.len() ==> (#[trigger] table_row(sheet, k) matches Some(row) ==> row
                < table_rows(sheet)),
{
    lemma_rows_needed(sheet, sheet.cells.len() as int);
}

/// A cell that is found stands in the row and column that it was looked for in, and
/// is the last one that does.
pub proof fn lemma_table_cell(sheet: SheetView, n: int, row: int, col: int)
    requires
        0 <= n <= sheet.cells.len(),
    ensures
        match cell_among(sheet, n, row, col) {
            Some(k) => {
                &&& 0 <= k < n
                &&& table_row(sheet, k) == Some(row)
                &&& sheet.cells[k].col == col
                &&& forall|j: int|
                    k < j < n ==> !(#[trigger] table_row(sheet, j) == Some(row)
                        && sheet.cells[j].col == col)
            },
            None => forall|j: int|
                0 <= j < n ==> !(#[trigger] table_row(sheet, j) == Some(row) && sheet.cells[j].col
                    == col),
        },
    decreases n,
{
    if n > 0 {
        lemma_table_cell(sheet, n - 1, row, col);
    }
}

proof fn lemma_chunk_runs(cells: Seq<CellView>, rows: int, n: int, k: int)
    requires
        0 <= n <= k < n + cells_in_runs(cells, rows, n),
    ensures
        k < cells.len(),
        row_changes(cells, k) < rows,
    decreases k - n,
{
    if n < k {
        lemma_chunk_runs(cells, rows, n + 1, k);
    }
}

proof fn lemma_row_changes_of_front(cells: Seq<CellView>, n: int, k: int)
    requires
        k < n <= cells.len(),
    ensures
        row_changes(cells.take(n), k) == row_changes(cells, k),
    decreases k,
{
    if k > 0 {
        lemma_row_changes_of_front(cells, n, k - 1);
    }
}

/// No cell of a chunk is lost in its table: each has a place, in one of the table's
/// rows, where no cell of the sheet lies before its first row.
pub proof fn lemma_chunk_cells_have_places(sheet: SheetView, k: int)
    requires
        sheet.is_ready(),
        forall|i: int|
            0 <= i < sheet.cells.len() ==> (#[trigger] sheet.cells[i]).row >= sheet.first_row(),
        0 <= k < sheet.next_chunk().cells.len(),
    ensures
        table_row(sheet.next_chunk(), k) matches Some(row) && 0 <= row < table_rows(
            sheet.next_chunk(),
        ),
{
    let chunk = sheet.next_chunk();
    lemma_chunk_progress(sheet);
    lemma_table_rows(chunk);
    assert(chunk.cells[k] == sheet.cells[k]);
    if sheet.skip_empty_rows {
        lemma_chunk_runs(sheet.cells, CHUNK_ROWS as int, 0, k);
        lemma_row_changes_of_front(sheet.cells, sheet.chunk_cells(), k);
    } else {
        lemma_cells_below(sheet.cells, sheet.first_row() + CHUNK_ROWS);
    }
}

impl Sheet {
    /// Finds the rows of the table in which the cells stand.
    pub fn find_table_rows(&self) -> (res: Vec<Option<usize>>)
        ensures
            res@.len() == self@.cells.len(),
            forall|k: int|
                0 <= k < res@.len() ==> match #[trigger] res@[k] {
                    Some(row) => table_row(self@, k) == Some(row as int),
                    None => table_row(self@, k) is None,
                },
    {
        let ghost sheet = self@;
        let lower: usize = match self.chunk_row_lower {
            Some(lower) => lower,
            None => 0,
        };
        let mut rows: Vec<Option<usize>> = Vec::new();
        let mut changes: usize = 0;
        let mut k: usize = 0;
        while k < self.cells.len()
            invariant
                sheet == self@,
                lower == sheet.first_row(),
                k <= self.cells@.len(),
                rows@.len() == k,
                changes <= k,
                k > 0 ==> changes == row_changes(sheet.cells, k - 1),
                k == 0 ==> changes == 0,
                forall|j: int|
                    0 <= j < k ==> match #[trigger] rows@[j] {
                        Some(row) => table_row(sheet, j) == Some(row as int),
                        None => table_row(sheet, j) is None,
                    },
            decreases self.cells@.len() - k,
        {
            let row: usize = self.cells[k].row;
            proof {
                assert(sheet.cells[k as int].row == row);
            }
            if k > 0 {
                proof {
                    assert(sheet.cells[k - 1].row == self.cells@[k - 1].row);
                }
                if row != self.cells[k - 1].row {
                    changes = changes + 1;
                }
            }
            if self.skip_empty_rows {
                if changes < CHUNK_ROWS {
                    rows.push(Some(changes));
                } else {
                    rows.push(None);
                }
            } else if row >= lower && row - lower < CHUNK_ROWS {
                rows.push(Some(row - lower));
            } else {
                rows.push(None);
            }
            k = k + 1;
        }
        rows
    }

    /// Counts the rows of the table, given the rows in which the cells stand.
    pub fn count_table_rows(&self, rows: &Vec<Option<usize>>) -> (res: usize)
        requires
            rows@.len() == self@.cells.len(),
            forall|k: int|
                0 <= k < rows@.len() ==> match #[trigger] rows@[k] {
                    Some(row) => table_row(self@, k) == Some(row as int),
                    None => table_row(self@, k) is None,
                },
        ensures
            res == table_rows(self@),
    {
        if let Some(count) = self.chunk_rows {
            return if count <= CHUNK_ROWS {
                count
            } else {
                CHUNK_ROWS
            };
        }
        let ghost sheet = self@;
        let mut count: usize = 0;
        let mut k: usize = 0;
        while k < rows.len()
            invariant
                sheet == self@,
                k <= rows@.len(),
                count == rows_needed(sheet, k as int),
                rows@.len() == sheet.cells.len(),
                forall|j: int|
                    0 <= j < rows@.len() ==> match #[trigger] rows@[j] {
                        Some(row) => table_row(sheet, j) == Some(row as int),
                        None => table_row(sheet, j) is None,
                    },
            decreases rows@.len() - k,
        {
            if let Some(row) = rows[k] {
                if row >= count {
                    count = row + 1;
                }
            }
            k = k + 1;
        }
        count
    }
}

} // verus!
