//! Sheets: the cells that were read, and their arrangement in tables.

use crate::spreadsheet::cell::cell_views;
use crate::spreadsheet::cell::Cell;
use crate::spreadsheet::cell::CellView;
use crate::spreadsheet::criteria::after_bound;
use crate::spreadsheet::criteria::before_bound;
use crate::spreadsheet::criteria::Range;
use vstd::prelude::*;

verus! {

/// The number of rows of a table that is handed out at once.
pub const CHUNK_ROWS: usize = 2048;

/// The cells that were read of a sheet.
#[derive(Debug, PartialEq, Eq)]
pub struct Sheet {
    /// The file that holds the sheet.
    pub file_name: String,
    /// The name of the sheet.
    pub name: String,
    /// The cells that are wanted.
    pub range: Option<Range>,
    /// How many rows are wanted at most.
    pub rows_limit: Option<usize>,
    /// Whether rows without cells are left out of tables.
    pub skip_empty_rows: bool,
    /// The first row: that of the range, else that of the first cell.
    pub row_lower: Option<usize>,
    /// The first row that was not handed out yet.
    pub chunk_row_lower: Option<usize>,
    /// How many rows a table of this sheet has, where that does not depend on its
    /// cells.
    pub chunk_rows: Option<usize>,
    /// The cells that were not handed out yet.
    pub cells: Vec<Cell>,
    /// Whether all cells were read.
    pub finished: bool,
    /// Whether the sheet was read up to its first empty row only.
    pub end_at_empty_row: bool,
}

/// A sheet as a mathematical value.
pub struct SheetView {
    pub file_name: Seq<char>,
    pub name: Seq<char>,
    pub range: Option<Range>,
    pub rows_limit: Option<usize>,
    pub skip_empty_rows: bool,
    pub row_lower: Option<usize>,
    pub chunk_row_lower: Option<usize>,
    pub chunk_rows: Option<usize>,
    pub cells: Seq<CellView>,
    pub finished: bool,
    pub end_at_empty_row: bool,
}

impl View for Sheet {
    type V = SheetView;

    open spec fn view(&self) -> SheetView {
        SheetView {
            file_name: self.file_name@,
            name: self.name@,
            range: self.range,
            rows_limit: self.rows_limit,
            skip_empty_rows: self.skip_empty_rows,
            row_lower: self.row_lower,
            chunk_row_lower: self.chunk_row_lower,
            chunk_rows: self.chunk_rows,
            cells: cell_views(self.cells@),
            finished: self.finished,
            end_at_empty_row: self.end_at_empty_row,
        }
    }
}

/// The bounds of an optional range.
pub open spec fn bounds_of(range: Option<Range>) -> Range {
    match range {
        Some(bounds) => bounds,
        None => Range {
            row_lower_bound: None,
            row_upper_bound: None,
            col_lower_bound: None,
            col_upper_bound: None,
        },
    }
}

/// How many cells at the front have a row below `bound`.
pub open spec fn cells_below(cells: Seq<CellView>, bound: int) -> nat
    decreases cells.len(),
{
    if cells.len() > 0 && cells[0].row < bound {
        1 + cells_below(cells.drop_first(), bound)
    } else {
        0
    }
}

/// How often the row changes among the first `n + 1` cells.
pub open spec fn row_changes(cells: Seq<CellView>, n: int) -> nat
    decreases n,
{
    if n <= 0 {
        0
    } else {
        row_changes(cells, n - 1) + if cells[n].row != cells[n - 1].row {
            1nat
        } else {
            0nat
        }
    }
}

/// How many of the cells, from cell `n` on, lie in one of the first `rows` runs of
/// cells with the same row.
pub open spec fn cells_in_runs(cells: Seq<CellView>, rows: int, n: int) -> int
    decreases cells.len() - n,
{
    if 0 <= n < cells.len() && row_changes(cells, n) < rows {
        1 + cells_in_runs(cells, rows, n + 1)
    } else {
        0
    }
}

impl SheetView {
    /// A sheet without cells.
    pub open spec fn empty(
        file_name: Seq<char>,
        name: Seq<char>,
        range: Option<Range>,
        rows_limit: Option<usize>,
        skip_empty_rows: bool,
    ) -> SheetView {
        SheetView {
            file_name,
            name,
            range,
            rows_limit,
            skip_empty_rows,
            row_lower: bounds_of(range).row_lower_bound,
            chunk_row_lower: bounds_of(range).row_lower_bound,
            chunk_rows: None,
            cells: Seq::empty(),
            finished: false,
            end_at_empty_row: false,
        }
    }

    /// Whether a row lies before the range.
    pub open spec fn row_before(self, row: int) -> bool {
        before_bound(bounds_of(self.range).row_lower_bound, row)
    }

    /// Whether a row lies behind the range or behind the rows that are wanted at
    /// most.
    pub open spec fn row_after(self, row: int) -> bool {
        ||| after_bound(bounds_of(self.range).row_upper_bound, row)
        ||| self.rows_limit matches Some(limit) && self.row_lower matches Some(lower) && row
            >= lower + limit
    }

    /// Whether a cell lies in the range.
    pub open spec fn has(self, row: int, col: int) -> bool {
        let bounds = bounds_of(self.range);
        &&& !before_bound(bounds.row_lower_bound, row)
        &&& !after_bound(bounds.row_upper_bound, row)
        &&& !before_bound(bounds.col_lower_bound, col)
        &&& !after_bound(bounds.col_upper_bound, col)
    }

    /// The sheet with one more cell.
    pub open spec fn with(self, cell: CellView) -> SheetView {
        SheetView {
            row_lower: if self.row_lower is None {
                Some(cell.row)
            } else {
                self.row_lower
            },
            chunk_row_lower: if self.chunk_row_lower is None {
                Some(cell.row)
            } else {
                self.chunk_row_lower
            },
            cells: self.cells.push(cell),
            ..self
        }
    }

    /// The sheet with all cells read.
    pub open spec fn complete(self, end_at_empty_row: bool) -> SheetView {
        SheetView { finished: true, end_at_empty_row, ..self }
    }

    /// The first row that was not handed out yet.
    pub open spec fn first_row(self) -> int {
        match self.chunk_row_lower {
            Some(lower) => lower as int,
            None => 0,
        }
    }

    /// How many cells the next chunk takes.
    pub open spec fn chunk_cells(self) -> int {
        if self.skip_empty_rows {
            cells_in_runs(self.cells, CHUNK_ROWS as int, 0)
        } else {
            cells_below(self.cells, self.first_row() + CHUNK_ROWS) as int
        }
    }

    /// Whether a chunk can be handed out: there are cells, and either all of them
    /// were read or one lies behind the chunk.
    pub open spec fn is_ready(self) -> bool {
        self.cells.len() > 0 && (self.finished || self.chunk_cells() < self.cells.len())
    }

    /// The next chunk.
    pub open spec fn next_chunk(self) -> SheetView {
        SheetView {
            chunk_rows: if !self.skip_empty_rows && self.chunk_cells() < self.cells.len() {
                Some(CHUNK_ROWS)
            } else {
                None
            },
            cells: self.cells.take(self.chunk_cells()),
            finished: true,
            ..self
        }
    }

    /// What is left behind the next chunk.
    pub open spec fn after_chunk(self) -> SheetView {
        SheetView {
            chunk_row_lower: if self.chunk_cells() < self.cells.len() {
                if self.skip_empty_rows {
                    Some(self.cells[self.chunk_cells()].row)
                } else {
                    Some((self.first_row() + CHUNK_ROWS) as usize)
                }
            } else {
                self.chunk_row_lower
            },
            cells: self.cells.skip(self.chunk_cells()),
            ..self
        }
    }

    /// How many chunks can be handed out at most.
    pub open spec fn chunk_measure(self) -> int {
        if self.cells.len() == 0 || self.cells[0].row < self.first_row() {
            0
        } else {
            self.cells[0].row - self.first_row()
        }
    }
}

/// The cells that are counted have rows below the bound, and the next one has not.
pub proof fn lemma_cells_below(cells: Seq<CellView>, bound: int)
    ensures
        cells_below(cells, bound) <= cells.len(),
        forall|i: int| 0 <= i < cells_below(cells, bound) ==> (#[trigger] cells[i]).row < bound,
        cells_below(cells, bound) < cells.len() ==> cells[cells_below(cells, bound) as int].row
            >= bound,
    decreases cells.len(),
{
    if cells.len() > 0 && cells[0].row < bound {
        let rest = cells.drop_first();
        lemma_cells_below(rest, bound);
        assert forall|i: int| 0 <= i < cells_below(cells, bound) implies (#[trigger] cells[i]).row
            < bound by {
            if i > 0 {
                assert(cells[i] == rest[i - 1]);
            }
        }
    }
}

proof fn lemma_cells_in_runs(cells: Seq<CellView>, rows: int, n: int)
    requires
        0 <= n <= cells.len(),
    ensures
        0 <= cells_in_runs(cells, rows, n) <= cells.len() - n,
    decreases cells.len() - n,
{
    if n < cells.len() && row_changes(cells, n) < rows {
        lemma_cells_in_runs(cells, rows, n + 1);
    }
}

/// A chunk takes cells from the front, never more than there are; and where it
/// takes none, the first row moves towards the first cell.
pub proof fn lemma_chunk_progress(sheet: SheetView)
    requires
        sheet.is_ready(),
    ensures
        0 <= sheet.chunk_cells() <= sheet.cells.len(),
        sheet.next_chunk().cells + sheet.after_chunk().cells == sheet.cells,
        sheet.after_chunk().cells.len() < sheet.cells.len() || (sheet.after_chunk().cells
            == sheet.cells && sheet.after_chunk().chunk_measure() < sheet.chunk_measure()),
        sheet.chunk_cells() < sheet.cells.len() && !sheet.skip_empty_rows ==> sheet.first_row()
            + CHUNK_ROWS <= sheet.cells[sheet.chunk_cells()].row,
{
    lemma_cells_below(sheet.cells, sheet.first_row() + CHUNK_ROWS);
    lemma_cells_in_runs(sheet.cells, CHUNK_ROWS as int, 0);
    lemma_cells_in_runs(sheet.cells, CHUNK_ROWS as int, 1);
    let n = sheet.chunk_cells();
    assert(sheet.cells.take(n) + sheet.cells.skip(n) =~= sheet.cells);
    if n == 0 {
        assert(sheet.cells.skip(0) =~= sheet.cells);
        assert(row_changes(sheet.cells, 0) == 0);
        assert(!sheet.skip_empty_rows);
    }
}

/// The chunks that can be handed out of a sheet, in order.
pub open spec fn ready_chunks(sheet: SheetView) -> Seq<SheetView>
    decreases sheet.cells.len(), sheet.chunk_measure(),
{
    if sheet.is_ready() {
        proof {
            lemma_chunk_progress(sheet);
        }
        seq![sheet.next_chunk()] + ready_chunks(sheet.after_chunk())
    } else {
        Seq::empty()
    }
}

/// What is left of a sheet when all ready chunks were handed out.
pub open spec fn unready_rest(sheet: SheetView) -> SheetView
    decreases sheet.cells.len(), sheet.chunk_measure(),
{
    if sheet.is_ready() {
        proof {
            lemma_chunk_progress(sheet);
        }
        unready_rest(sheet.after_chunk())
    } else {
        sheet
    }
}

/// The cells of several sheets one behind the other.
pub open spec fn all_cells(sheets: Seq<SheetView>) -> Seq<CellView>
    decreases sheets.len(),
{
    if sheets.len() == 0 {
        Seq::empty()
    } else {
        sheets[0].cells + all_cells(sheets.drop_first())
    }
}

/// Handing out chunks loses no cell and keeps their order: the cells of the chunks
/// and of the rest are those of the sheet.
pub proof fn lemma_chunks_keep_cells(sheet: SheetView)
    ensures
        all_cells(ready_chunks(sheet)) + unready_rest(sheet).cells == sheet.cells,
        sheet.finished ==> unready_rest(sheet).cells.len() == 0,
    decreases sheet.cells.len(), sheet.chunk_measure(),
{
    if sheet.is_ready() {
        lemma_chunk_progress(sheet);
        let rest = sheet.after_chunk();
        lemma_chunks_keep_cells(rest);
        let chunks = ready_chunks(sheet);
        assert(chunks.drop_first() =~= ready_chunks(rest));
        assert(all_cells(chunks) + unready_rest(sheet).cells =~= sheet.next_chunk().cells
            + rest.cells);
    } else {
        assert(all_cells(ready_chunks(sheet)) + unready_rest(sheet).cells =~= sheet.cells);
    }
}

impl Sheet {
    /// Creates a sheet without cells.
    pub fn new(
        file_name: &str,
        name: &str,
        range: Option<Range>,
        rows_limit: Option<usize>,
        skip_empty_rows: bool,
    ) -> (res: Sheet)
        ensures
            res@ == SheetView::empty(file_name@, name@, range, rows_limit, skip_empty_rows),
    {
        let lower = match range {
            Some(bounds) => bounds.row_lower_bound,
            None => None,
        };
        let sheet = Sheet {
            file_name: file_name.to_owned(),
            name: name.to_owned(),
            range,
            rows_limit,
            skip_empty_rows,
            row_lower: lower,
            chunk_row_lower: lower,
            chunk_rows: None,
            cells: Vec::new(),
            finished: false,
            end_at_empty_row: false,
        };
        proof {
            assert(cell_views(sheet.cells@) =~= Seq::<CellView>::empty());
        }
        sheet
    }

    /// Whether there is no cell.
    pub fn is_empty(&self) -> (res: bool)
        ensures
            res == (self@.cells.len() == 0),
    {
        self.cells.len() == 0
    }

    /// Whether a row lies before the range.
    pub fn before_row_lower_bound(&self, row: usize) -> (res: bool)
        ensures
            res == self@.row_before(row as int),
    {
        match &self.range {
            Some(bounds) => match bounds.row_lower_bound {
                Some(lower) => row < lower,
                None => false,
            },
            None => false,
        }
    }

    /// Whether a row lies behind the range or behind the rows that are wanted at
    /// most.
    pub fn after_row_upper_bound(&self, row: usize) -> (res: bool)
        ensures
            res == self@.row_after(row as int),
    {
        let behind_range = match &self.range {
            Some(bounds) => match bounds.row_upper_bound {
                Some(upper) => row > upper,
                None => false,
            },
            None => false,
        };
        if behind_range {
            return true;
        }
        match (self.rows_limit, self.row_lower) {
            (Some(limit), Some(lower)) => row >= lower && row - lower >= limit,
            _ => false,
        }
    }

    /// Whether a column lies before the range.
    pub fn before_col_lower_bound(&self, col: usize) -> (res: bool)
        ensures
            res == before_bound(bounds_of(self@.range).col_lower_bound, col as int),
    {
        match &self.range {
            Some(bounds) => match bounds.col_lower_bound {
                Some(lower) => col < lower,
                None => false,
            },
            None => false,
        }
    }

    /// Whether a column lies behind the range.
    pub fn after_col_upper_bound(&self, col: usize) -> (res: bool)
        ensures
            res == after_bound(bounds_of(self@.range).col_upper_bound, col as int),
    {
        match &self.range {
            Some(bounds) => match bounds.col_upper_bound {
                Some(upper) => col > upper,
                None => false,
            },
            None => false,
        }
    }

    /// Whether a cell lies in the range.
    pub fn contains(&self, row: usize, col: usize) -> (res: bool)
        ensures
            res == self@.has(row as int, col as int),
    {
        let behind_range = match &self.range {
            Some(bounds) => match bounds.row_upper_bound {
                Some(upper) => row > upper,
                None => false,
            },
            None => false,
        };
        !self.before_row_lower_bound(row) && !behind_range && !self.before_col_lower_bound(col)
            && !self.after_col_upper_bound(col)
    }

    /// Adds a cell.
    pub fn push(&mut self, cell: Cell)
        ensures
            final(self)@ == old(self)@.with(cell@),
    {
        let row: usize = cell.row;
        let ghost view = cell@;
        if self.row_lower.is_none() {
            self.row_lower = Some(row);
        }
        if self.chunk_row_lower.is_none() {
            self.chunk_row_lower = Some(row);
        }
        self.cells.push(cell);
        proof {
            assert(cell_views(self.cells@) =~= old(self)@.cells.push(view));
        }
    }

    /// Marks that all cells were read.
    pub fn finish(&mut self, end_at_empty_row: bool)
        ensures
            final(self)@ == old(self)@.complete(end_at_empty_row),
    {
        self.finished = true;
        self.end_at_empty_row = end_at_empty_row;
    }

    fn count_chunk_cells(&self) -> (res: usize)
        ensures
            res == self@.chunk_cells(),
            res <= self.cells@.len(),
    {
        let ghost cells = self@.cells;
        let mut n: usize = 0;
        if self.skip_empty_rows {
            let mut changes: usize = 0;
            proof {
                lemma_cells_in_runs(cells, CHUNK_ROWS as int, 0);
            }
            while n < self.cells.len()
                invariant
                    cells == self@.cells,
                    self.skip_empty_rows,
                    n <= self.cells@.len(),
                    n < self.cells@.len() ==> changes == row_changes(cells, n as int),
                    changes <= n,
                    changes <= CHUNK_ROWS,
                    cells_in_runs(cells, CHUNK_ROWS as int, 0) == n + cells_in_runs(
                        cells,
                        CHUNK_ROWS as int,
                        n as int,
                    ),
                decreases self.cells@.len() - n,
            {
                if changes >= CHUNK_ROWS {
                    return n;
                }
                n = n + 1;
                if n < self.cells.len() {
                    proof {
                        assert(cells[n as int].row == self.cells@[n as int].row);
                        assert(cells[n - 1].row == self.cells@[n - 1].row);
                    }
                    if self.cells[n].row != self.cells[n - 1].row {
                        changes = changes + 1;
                    }
                }
            }
            n
        } else {
            let lower: usize = match self.chunk_row_lower {
                Some(lower) => lower,
                None => 0,
            };
            let ghost bound = lower + CHUNK_ROWS;
            proof {
                lemma_cells_below(cells, bound);
                assert(cells.skip(0) =~= cells);
            }
            while n < self.cells.len()
                invariant
                    cells == self@.cells,
                    !self.skip_empty_rows,
                    lower == self@.first_row(),
                    bound == lower + CHUNK_ROWS,
                    n <= self.cells@.len(),
                    cells_below(cells, bound) == n + cells_below(cells.skip(n as int), bound),
                decreases self.cells@.len() - n,
            {
                let row: usize = self.cells[n].row;
                proof {
                    assert(cells.skip(n as int)[0].row == row);
                    assert(cells.skip(n as int).drop_first() =~= cells.skip(n + 1));
                }
                if row >= lower && row - lower >= CHUNK_ROWS {
                    return n;
                }
                n = n + 1;
            }
            n
        }
    }

    /// Splits the next chunk off, as soon as it is complete.
    pub fn take_ready_chunk(&mut self) -> (res: Option<Sheet>)
        ensures
            match res {
                Some(chunk) => {
                    &&& old(self)@.is_ready()
                    &&& chunk@ == old(self)@.next_chunk()
                    &&& final(self)@ == old(self)@.after_chunk()
                },
                None => !old(self)@.is_ready() && *final(self) == *old(self),
            },
    {
        if self.cells.len() == 0 {
            return None;
        }
        let n: usize = self.count_chunk_cells();
        let more: bool = n < self.cells.len();
        if !self.finished && !more {
            return None;
        }
        let ghost cells = self@.cells;
        let ghost before = self.cells@;
        proof {
            lemma_chunk_progress(self@);
        }
        let chunk_rows: Option<usize> = if !self.skip_empty_rows && more {
            Some(CHUNK_ROWS)
        } else {
            None
        };
        let lower: Option<usize> = if more {
            if self.skip_empty_rows {
                Some(self.cells[n].row)
            } else {
                match self.chunk_row_lower {
                    Some(lower) => Some(lower + CHUNK_ROWS),
                    None => Some(CHUNK_ROWS),
                }
            }
        } else {
            self.chunk_row_lower
        };
        let rest: Vec<Cell> = self.cells.split_off(n);
        let mut front: Vec<Cell> = rest;
        std::mem::swap(&mut front, &mut self.cells);
        let chunk = Sheet {
            file_name: self.file_name.clone(),
            name: self.name.clone(),
            range: self.range,
            rows_limit: self.rows_limit,
            skip_empty_rows: self.skip_empty_rows,
            row_lower: self.row_lower,
            chunk_row_lower: self.chunk_row_lower,
            chunk_rows,
            cells: front,
            finished: true,
            end_at_empty_row: self.end_at_empty_row,
        };
        self.chunk_row_lower = lower;
        proof {
            assert(cell_views(chunk.cells@) =~= cells.take(n as int));
            assert(cell_views(self.cells@) =~= cells.skip(n as int));
        }
        Some(chunk)
    }
}

} // verus!
