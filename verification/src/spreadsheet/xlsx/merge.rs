//! Whole XLSX worksheets: the cells that were read, with merged ranges filled.

use crate::error::ErrorView;
use crate::error::RustySheetError;
use crate::helpers::xml::event_views;
use crate::helpers::xml::XmlEvent;
use crate::helpers::xml::XmlView;
use crate::spreadsheet::cell::Cell;
use crate::spreadsheet::cell::CellType;
use crate::spreadsheet::cell::CellView;
use crate::spreadsheet::criteria::Criteria;
use crate::spreadsheet::sheet::Sheet;
use crate::spreadsheet::sheet::SheetView;
use crate::spreadsheet::sort::sort_cells;
use crate::spreadsheet::sort::sorted_cells;
use crate::spreadsheet::xlsx::cells::lemma_see_position;
use crate::spreadsheet::xlsx::cells::make_key;
use crate::spreadsheet::xlsx::cells::positions_of;
use crate::spreadsheet::xlsx::cells::scan_from;
use crate::spreadsheet::xlsx::cells::scan_sheet;
use crate::spreadsheet::xlsx::cells::scan_start;
use crate::spreadsheet::xlsx::cells::values_by_position;
use crate::spreadsheet::xlsx::cells::Merge;
use crate::spreadsheet::xlsx::cells::SheetScan;
use std::collections::HashMap;
use std::collections::HashSet;
use vstd::prelude::*;

verus! {

/// A sheet in which merged ranges are being filled.
#[verifier::ext_equal]
pub struct Filling {
    /// The sheet with the cells so far.
    pub sheet: SheetView,
    /// The positions of its cells.
    pub seen: Set<(usize, usize)>,
}

/// Whether a position of a merged range gets a cell of its own: it is not the top
/// left one, it is wanted, and it has no cell yet.
pub open spec fn is_open(f: Filling, merge: Merge, row: int, col: int) -> bool {
    &&& (row, col) != (merge.0 as int, merge.1 as int)
    &&& f.sheet.has(row, col)
    &&& !f.seen.contains((row as usize, col as usize))
    &&& !f.sheet.row_after(row)
}

/// Fills one position of a merged range.
pub open spec fn fill_cell(
    f: Filling,
    merge: Merge,
    value: (CellType, Seq<char>),
    row: int,
    col: int,
) -> Filling {
    if is_open(f, merge, row, col) {
        Filling {
            sheet: f.sheet.with(
                CellView { row: row as usize, col: col as usize, kind: value.0, value: value.1 },
            ),
            seen: f.seen.insert((row as usize, col as usize)),
        }
    } else {
        f
    }
}

/// Fills a row of a merged range from column `col` on.
pub open spec fn fill_row(
    f: Filling,
    merge: Merge,
    value: (CellType, Seq<char>),
    row: int,
    col: int,
) -> Filling
    decreases merge.3 - col + 1,
{
    if col > merge.3 {
        f
    } else {
        fill_row(fill_cell(f, merge, value, row, col), merge, value, row, col + 1)
    }
}

/// Fills the rows of a merged range from `row` on.
pub open spec fn fill_rows(
    f: Filling,
    merge: Merge,
    value: (CellType, Seq<char>),
    row: int,
) -> Filling
    decreases merge.2 - row + 1,
{
    if row > merge.2 {
        f
    } else {
        fill_rows(fill_row(f, merge, value, row, merge.1 as int), merge, value, row + 1)
    }
}

/// Fills the merged ranges from number `i` on. A range whose top left cell has no
/// value stays empty.
pub open spec fn fill_merges(
    f: Filling,
    merges: Seq<Merge>,
    stored: Map<(usize, usize), (CellType, Seq<char>)>,
    i: int,
) -> Filling
    decreases merges.len() - i,
{
    if i < 0 || i >= merges.len() {
        f
    } else {
        let merge = merges[i];
        let corner = (merge.0, merge.1);
        let filled = if stored.contains_key(corner) {
            fill_rows(f, merge, stored[corner], merge.0 as int)
        } else {
            f
        };
        fill_merges(filled, merges, stored, i + 1)
    }
}

/// The sheet of a scan, with merged ranges filled and the cells in order where that
/// is wanted.
pub open spec fn filled_sheet(s: SheetScan, c: Criteria) -> SheetView {
    if c.spread_merged_cells && s.merges.len() > 0 {
        let filled = fill_merges(
            Filling { sheet: s.sheet, seen: s.seen },
            s.merges,
            s.stored,
            0,
        ).sheet;
        SheetView { cells: sorted_cells(filled.cells), ..filled }
    } else {
        s.sheet
    }
}

/// The sheet that a worksheet document gives.
pub open spec fn read_sheet_outcome(
    events: Seq<XmlView>,
    file_name: Seq<char>,
    name: Seq<char>,
    c: Criteria,
    formats: Seq<CellType>,
) -> Result<SheetView, ErrorView> {
    match scan_from(events, 0, scan_start(file_name, name, c), c, formats) {
        Err(error) => Err(error),
        Ok(s) => Ok(filled_sheet(s, c).complete(c.end_at_empty_row)),
    }
}

fn fill_range(
    sheet: &mut Sheet,
    seen: &mut HashSet<u128>,
    merge: Merge,
    kind: CellType,
    value: &String,
)
    ensures
        (Filling { sheet: final(sheet)@, seen: positions_of(final(seen)@) }) == fill_rows(
            Filling { sheet: old(sheet)@, seen: positions_of(old(seen)@) },
            merge,
            (kind, value@),
            merge.0 as int,
        ),
{
    broadcast use vstd::std_specs::hash::group_hash_axioms;

    let (top_row, top_col, bottom_row, bottom_col) = merge;
    let ghost whole = fill_rows(
        Filling { sheet: sheet@, seen: positions_of(seen@) },
        merge,
        (kind, value@),
        top_row as int,
    );
    if top_row > bottom_row {
        return;
    }
    let mut row: usize = top_row;
    loop
        invariant_except_break
            merge == (top_row, top_col, bottom_row, bottom_col),
            top_row <= row <= bottom_row,
            whole == fill_rows(
                Filling { sheet: sheet@, seen: positions_of(seen@) },
                merge,
                (kind, value@),
                row as int,
            ),
        ensures
            whole == (Filling { sheet: sheet@, seen: positions_of(seen@) }),
        decreases bottom_row - row,
    {
        let ghost filled_row = fill_row(
            Filling { sheet: sheet@, seen: positions_of(seen@) },
            merge,
            (kind, value@),
            row as int,
            top_col as int,
        );
        if top_col <= bottom_col {
            let mut col: usize = top_col;
            loop
                invariant_except_break
                    merge == (top_row, top_col, bottom_row, bottom_col),
                    top_col <= col <= bottom_col,
                    filled_row == fill_row(
                        Filling { sheet: sheet@, seen: positions_of(seen@) },
                        merge,
                        (kind, value@),
                        row as int,
                        col as int,
                    ),
                ensures
                    filled_row == (Filling { sheet: sheet@, seen: positions_of(seen@) }),
                decreases bottom_col - col,
            {
                let ghost before = Filling { sheet: sheet@, seen: positions_of(seen@) };
                let key: u128 = make_key(row, col);
                let corner: bool = row == top_row && col == top_col;
                if !corner && sheet.contains(row, col) && !seen.contains(&key)
                    && !sheet.after_row_upper_bound(row) {
                    proof {
                        lemma_see_position(seen@, row, col);
                    }
                    sheet.push(Cell { row, col, kind, value: value.clone() });
                    seen.insert(key);
                }
                proof {
                    assert((Filling { sheet: sheet@, seen: positions_of(seen@) }) == fill_cell(
                        before,
                        merge,
                        (kind, value@),
                        row as int,
                        col as int,
                    ));
                    reveal_with_fuel(fill_row, 2);
                }
                if col == bottom_col {
                    break;
                }
                col = col + 1;
            }
        }
        proof {
            assert(filled_row == (Filling { sheet: sheet@, seen: positions_of(seen@) }));
            reveal_with_fuel(fill_rows, 2);
        }
        if row == bottom_row {
            break;
        }
        row = row + 1;
    }
}

fn fill_all(
    sheet: &mut Sheet,
    seen: &mut HashSet<u128>,
    merges: &Vec<Merge>,
    stored: &HashMap<u128, (CellType, String)>,
)
    ensures
        final(sheet)@ == fill_merges(
            Filling { sheet: old(sheet)@, seen: positions_of(old(seen)@) },
            merges@,
            values_by_position(stored@),
            0,
        ).sheet,
{
    broadcast use vstd::std_specs::hash::group_hash_axioms;

    let ghost values = values_by_position(stored@);
    let ghost whole = fill_merges(
        Filling { sheet: sheet@, seen: positions_of(seen@) },
        merges@,
        values,
        0,
    );
    let mut i: usize = 0;
    while i < merges.len()
        invariant
            i <= merges@.len(),
            values == values_by_position(stored@),
            whole == fill_merges(
                Filling { sheet: sheet@, seen: positions_of(seen@) },
                merges@,
                values,
                i as int,
            ),
        decreases merges@.len() - i,
    {
        let merge: Merge = merges[i];
        let key: u128 = make_key(merge.0, merge.1);
        proof {
            assert(values.contains_key((merge.0, merge.1)) == stored@.contains_key(key));
        }
        match stored.get(&key) {
            Some(found) => {
                proof {
                    assert(values[(merge.0, merge.1)] == (found.0, found.1@));
                }
                fill_range(sheet, seen, merge, found.0, &found.1);
            },
            None => {},
        }
        i = i + 1;
    }
}

/// Reads a worksheet.
pub fn read_sheet(
    events: &[XmlEvent],
    file_name: &str,
    name: &str,
    criteria: &Criteria,
    formats: &Vec<CellType>,
) -> (res: Result<Sheet, RustySheetError>)
    ensures
        match read_sheet_outcome(
            event_views(events@),
            file_name@,
            name@,
            *criteria,
            formats@,
        ) {
            Ok(sheet) => res matches Ok(found) && found@ == sheet,
            Err(error) => res matches Err(e) && e@ == error,
        },
{
    let mut scanner = match scan_sheet(events, file_name, name, criteria, formats) {
        Ok(scanner) => scanner,
        Err(error) => return Err(error),
    };
    if criteria.spread_merged_cells && scanner.has_merges() {
        let (mut sheet, mut seen, merges, stored) = scanner.into_parts();
        fill_all(&mut sheet, &mut seen, &merges, &stored);
        let ghost filled = sheet@;
        let mut cells: Vec<Cell> = Vec::new();
        std::mem::swap(&mut cells, &mut sheet.cells);
        sheet.cells = sort_cells(cells);
        proof {
            assert(sheet@ == SheetView { cells: sorted_cells(filled.cells), ..filled });
        }
        sheet.finish(criteria.end_at_empty_row);
        Ok(sheet)
    } else {
        let (mut sheet, _, _, _) = scanner.into_parts();
        sheet.finish(criteria.end_at_empty_row);
        Ok(sheet)
    }
}

} // verus!
