//! Cells and their types.

use crate::spreadsheet::reference::index_reference;
use crate::spreadsheet::reference::index_to_reference;
use vstd::prelude::*;

verus! {

/// What the value of a cell stands for. Dates and times are counted from 1904
/// where the flag is set, else from 1900.
#[derive(Debug, Clone, Copy, PartialEq, Eq, Structural)]
pub enum CellType {
    /// Nothing.
    Empty,
    /// A truth value, `1` or `0`.
    Boolean,
    /// A number.
    Number,
    /// A text.
    InlineString,
    /// The number of a shared string.
    SharedString,
    /// A date and time in ISO notation.
    IsoDateTime,
    /// A duration in ISO notation.
    IsoDuration,
    /// An error.
    Error,
    /// The serial number of a date and time.
    DateTime(bool),
    /// The serial number of a date.
    Date(bool),
    /// The serial number of a time.
    Time(bool),
}

impl Default for CellType {
    fn default() -> (res: CellType)
        ensures
            res == CellType::Empty,
    {
        CellType::Empty
    }
}

/// A cell.
#[derive(Debug, Clone, PartialEq, Eq)]
pub struct Cell {
    /// The row, from 0.
    pub row: usize,
    /// The column, from 0.
    pub col: usize,
    /// What the value stands for.
    pub kind: CellType,
    /// The value.
    pub value: String,
}

/// A cell as a mathematical value.
pub struct CellView {
    pub row: usize,
    pub col: usize,
    pub kind: CellType,
    pub value: Seq<char>,
}

impl View for Cell {
    type V = CellView;

    open spec fn view(&self) -> CellView {
        CellView { row: self.row, col: self.col, kind: self.kind, value: self.value@ }
    }
}

/// A list of cells as mathematical values.
pub open spec fn cell_views(cells: Seq<Cell>) -> Seq<CellView> {
    cells.map_values(|cell: Cell| cell@)
}

impl Cell {
    /// The reference of this cell.
    pub fn reference(&self) -> (res: String)
        ensures
            res@ == index_reference(self.row as nat, self.col as nat),
    {
        index_to_reference(self.row, self.col)
    }

    /// Copies this cell.
    pub fn copy(&self) -> (res: Cell)
        ensures
            res@ == self@,
    {
        Cell { row: self.row, col: self.col, kind: self.kind, value: self.value.clone() }
    }
}

} // verus!
