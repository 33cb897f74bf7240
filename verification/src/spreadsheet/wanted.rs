//! Which cells count and are wanted.

use crate::spreadsheet::cell::CellType;
use crate::spreadsheet::cell::CellView;
use crate::spreadsheet::criteria::Criteria;
use crate::spreadsheet::sheet::SheetView;
use vstd::prelude::*;

verus! {

/// Whether a type and a value are those of a cell that counts: it is neither empty
/// nor an error, and its value does not count as no value.
pub open spec fn has_value(c: Criteria, kind: CellType, value: Seq<char>) -> bool {
    kind != CellType::Empty && kind != CellType::Error && !c.is_null(value)
}

/// Whether a cell counts and is wanted.
pub open spec fn is_wanted(c: Criteria, sheet: SheetView, cell: CellView) -> bool {
    &&& has_value(c, cell.kind, cell.value)
    &&& sheet.has(cell.row as int, cell.col as int)
    &&& c.rows_limit != Some(0usize) ==> !sheet.row_after(cell.row as int)
}

/// Whether a sheet was made for the criteria and holds cells that count and are
/// wanted.
pub open spec fn is_proper(c: Criteria, sheet: SheetView) -> bool {
    &&& sheet.range == c.range
    &&& sheet.rows_limit == c.rows_limit
    &&& sheet.row_lower is None ==> sheet.cells.len() == 0
    &&& forall|i: int| 0 <= i < sheet.cells.len() ==> is_wanted(c, sheet, #[trigger] sheet.cells[i])
}

/// Whether a sheet was read to its end for the criteria: it keeps what they say of its
/// cells and rows.
pub open spec fn is_read_for(c: Criteria, sheet: SheetView) -> bool {
    &&& sheet.range == c.range
    &&& sheet.rows_limit == c.rows_limit
    &&& sheet.skip_empty_rows == c.skip_empty_rows
    &&& sheet.end_at_empty_row == c.end_at_empty_row
    &&& sheet.finished
}

/// A sheet with one more cell that counts and is wanted holds such cells only.
pub proof fn lemma_with_is_proper(c: Criteria, sheet: SheetView, cell: CellView)
    requires
        is_proper(c, sheet),
        has_value(c, cell.kind, cell.value),
        sheet.has(cell.row as int, cell.col as int),
        c.rows_limit != Some(0usize) ==> !sheet.row_after(cell.row as int),
    ensures
        is_proper(c, sheet.with(cell)),
        c.rows_limit != Some(0usize) ==> !sheet.with(cell).row_after(cell.row as int),
{
    let next = sheet.with(cell);
    assert forall|i: int| 0 <= i < next.cells.len() implies is_wanted(
        c,
        next,
        #[trigger] next.cells[i],
    ) by {
        if i < sheet.cells.len() {
            assert(next.cells[i] == sheet.cells[i]);
            assert(is_wanted(c, sheet, sheet.cells[i]));
        }
    }
}

} // verus!
