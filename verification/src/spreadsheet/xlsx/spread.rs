//! What the cells of merged ranges hold.

use crate::helpers::xml::XmlView;
use crate::spreadsheet::cell::CellType;
use crate::spreadsheet::cell::CellView;
use crate::spreadsheet::criteria::Criteria;
use crate::spreadsheet::sort::in_order;
use crate::spreadsheet::sort::lemma_sorted_cells;
use crate::spreadsheet::sort::lemma_sorting_keeps_cells;
use crate::spreadsheet::sort::lemma_sorting_keeps_positions_apart;
use crate::spreadsheet::sort::positions_differ;
use crate::spreadsheet::sort::sorted_cells;
use crate::spreadsheet::xlsx::cells::lemma_step_advances;
use crate::spreadsheet::xlsx::cells::scan_from;
use crate::spreadsheet::xlsx::cells::scan_start;
use crate::spreadsheet::xlsx::cells::scan_step;
use crate::spreadsheet::xlsx::cells::Merge;
use crate::spreadsheet::xlsx::cells::ScanStep;
use crate::spreadsheet::xlsx::cells::SheetScan;
use crate::spreadsheet::xlsx::merge::fill_cell;
use crate::spreadsheet::xlsx::merge::fill_merges;
use crate::spreadsheet::xlsx::merge::fill_row;
use crate::spreadsheet::xlsx::merge::fill_rows;
use crate::spreadsheet::xlsx::merge::read_sheet_outcome;
use crate::spreadsheet::xlsx::merge::Filling;
use vstd::prelude::*;

verus! {

/// Whether a cell stands in a merged range and holds what its top left cell holds.
pub open spec fn is_spread_by(
    merge: Merge,
    stored: Map<(usize, usize), (CellType, Seq<char>)>,
    cell: CellView,
) -> bool {
    &&& stored.contains_key((merge.0, merge.1))
    &&& merge.0 <= cell.row <= merge.2
    &&& merge.1 <= cell.col <= merge.3
    &&& (cell.kind, cell.value) == stored[(merge.0, merge.1)]
}

/// Whether a cell gets what it holds from one of some merged ranges.
pub open spec fn is_spread(
    merges: Seq<Merge>,
    stored: Map<(usize, usize), (CellType, Seq<char>)>,
    cell: CellView,
) -> bool {
    exists|j: int| 0 <= j < merges.len() && is_spread_by(#[trigger] merges[j], stored, cell)
}

/// Whether cells are those before, followed by cells that hold what the top left
/// cells of merged ranges hold.
pub open spec fn is_grown(
    before: Seq<CellView>,
    after: Seq<CellView>,
    merges: Seq<Merge>,
    stored: Map<(usize, usize), (CellType, Seq<char>)>,
) -> bool {
    &&& before.len() <= after.len()
    &&& forall|i: int| 0 <= i < before.len() ==> (#[trigger] after[i]) == before[i]
    &&& forall|i: int|
        before.len() <= i < after.len() ==> is_spread(merges, stored, #[trigger] after[i])
}

proof fn lemma_fill_row_grows(
    f: Filling,
    merges: Seq<Merge>,
    stored: Map<(usize, usize), (CellType, Seq<char>)>,
    j: int,
    row: int,
    col: int,
)
    requires
        0 <= j < merges.len(),
        stored.contains_key((merges[j].0, merges[j].1)),
        merges[j].0 <= row <= merges[j].2,
        merges[j].1 <= col,
    ensures
        is_grown(
            f.sheet.cells,
            fill_row(f, merges[j], stored[(merges[j].0, merges[j].1)], row, col).sheet.cells,
            merges,
            stored,
        ),
    decreases merges[j].3 - col + 1,
{
    let merge = merges[j];
    let value = stored[(merge.0, merge.1)];
    if col <= merge.3 {
        let next = fill_cell(f, merge, value, row, col);
        lemma_fill_row_grows(next, merges, stored, j, row, col + 1);
        if next.sheet.cells != f.sheet.cells {
            assert(is_spread_by(merges[j], stored, next.sheet.cells.last()));
            assert(is_spread(merges, stored, next.sheet.cells.last()));
        }
        let last = fill_row(next, merge, value, row, col + 1).sheet.cells;
        assert(forall|i: int|
            0 <= i < next.sheet.cells.len() ==> (#[trigger] last[i]) == next.sheet.cells[i]);
    }
}

proof fn lemma_fill_rows_grows(
    f: Filling,
    merges: Seq<Merge>,
    stored: Map<(usize, usize), (CellType, Seq<char>)>,
    j: int,
    row: int,
)
    requires
        0 <= j < merges.len(),
        stored.contains_key((merges[j].0, merges[j].1)),
        merges[j].0 <= row,
    ensures
        is_grown(
            f.sheet.cells,
            fill_rows(f, merges[j], stored[(merges[j].0, merges[j].1)], row).sheet.cells,
            merges,
            stored,
        ),
    decreases merges[j].2 - row + 1,
{
    let merge = merges[j];
    let value = stored[(merge.0, merge.1)];
    if row <= merge.2 {
        let next = fill_row(f, merge, value, row, merge.1 as int);
        lemma_fill_row_grows(f, merges, stored, j, row, merge.1 as int);
        lemma_fill_rows_grows(next, merges, stored, j, row + 1);
        let last = fill_rows(next, merge, value, row + 1).sheet.cells;
        assert(forall|i: int|
            0 <= i < next.sheet.cells.len() ==> (#[trigger] last[i]) == next.sheet.cells[i]);
    }
}

proof fn lemma_fill_merges_grows(
    f: Filling,
    merges: Seq<Merge>,
    stored: Map<(usize, usize), (CellType, Seq<char>)>,
    j: int,
)
    requires
        0 <= j,
    ensures
        is_grown(
            f.sheet.cells,
            fill_merges(f, merges, stored, j).sheet.cells,
            merges,
            stored,
        ),
    decreases merges.len() - j,
{
    if j < merges.len() {
        let merge = merges[j];
        let corner = (merge.0, merge.1);
        let filled = if stored.contains_key(corner) {
            lemma_fill_rows_grows(f, merges, stored, j, merge.0 as int);
            fill_rows(f, merge, stored[corner], merge.0 as int)
        } else {
            f
        };
        lemma_fill_merges_grows(filled, merges, stored, j + 1);
        let last = fill_merges(filled, merges, stored, j + 1).sheet.cells;
        assert(forall|i: int|
            0 <= i < filled.sheet.cells.len() ==> (#[trigger] last[i]) == filled.sheet.cells[i]);
    }
}

/// Spreading merged ranges keeps every cell of the document, and every other cell
/// holds what the top left cell of a merged range around it holds.
pub proof fn lemma_spread_cells_hold_corner_values(
    events: Seq<XmlView>,
    file_name: Seq<char>,
    name: Seq<char>,
    c: Criteria,
    formats: Seq<CellType>,
    cell: CellView,
)
    requires
        c.spread_merged_cells,
    ensures
        scan_from(events, 0, scan_start(file_name, name, c), c, formats) matches Ok(s) ==> {
            &&& read_sheet_outcome(events, file_name, name, c, formats) matches Ok(sheet)
            &&& s.sheet.cells.contains(cell) ==> sheet.cells.contains(cell)
            &&& sheet.cells.contains(cell) ==> s.sheet.cells.contains(cell) || is_spread(
                s.merges,
                s.stored,
                cell,
            )
        },
{
    if let Ok(s) = scan_from(events, 0, scan_start(file_name, name, c), c, formats) {
        let f = Filling { sheet: s.sheet, seen: s.seen };
        let filled = fill_merges(f, s.merges, s.stored, 0).sheet.cells;
        lemma_fill_merges_grows(f, s.merges, s.stored, 0);
        lemma_sorting_keeps_cells(filled, cell);
        if s.sheet.cells.contains(cell) {
            let i = choose|i: int| 0 <= i < s.sheet.cells.len() && s.sheet.cells[i] == cell;
            assert(filled[i] == cell);
            assert(filled.contains(cell));
        }
        if filled.contains(cell) {
            let i = choose|i: int| 0 <= i < filled.len() && filled[i] == cell;
            if i < s.sheet.cells.len() {
                assert(s.sheet.cells[i] == cell);
            }
        }
    }
}

/// Whether the position of each cell is among those seen.
pub open spec fn cells_are_seen(f: Filling) -> bool {
    forall|i: int|
        0 <= i < f.sheet.cells.len() ==> {
            let cell = #[trigger] f.sheet.cells[i];
            f.seen.contains((cell.row, cell.col))
        }
}

proof fn lemma_scan_sees_cells(
    events: Seq<XmlView>,
    at: int,
    s: SheetScan,
    c: Criteria,
    formats: Seq<CellType>,
)
    requires
        c.spread_merged_cells,
        0 <= at <= events.len(),
        cells_are_seen(Filling { sheet: s.sheet, seen: s.seen }),
    ensures
        scan_from(events, at, s, c, formats) matches Ok(last) ==> cells_are_seen(
            Filling { sheet: last.sheet, seen: last.seen },
        ),
    decreases events.len() - at,
{
    if at < events.len() {
        lemma_step_advances(events, at, s, c, formats);
        if let ScanStep::Go(next, then_at) = scan_step(events, at, s, c, formats) {
            assert(cells_are_seen(Filling { sheet: next.sheet, seen: next.seen }));
            lemma_scan_sees_cells(events, then_at, next, c, formats);
        }
    }
}

/// Whether no two cells share a position and the position of each is among those
/// seen.
pub open spec fn is_apart(f: Filling) -> bool {
    positions_differ(f.sheet.cells) && cells_are_seen(f)
}

proof fn lemma_fill_row_keeps_apart(
    f: Filling,
    merge: Merge,
    value: (CellType, Seq<char>),
    row: int,
    col: int,
)
    requires
        is_apart(f),
        0 <= row <= usize::MAX,
        0 <= col,
    ensures
        is_apart(fill_row(f, merge, value, row, col)),
    decreases merge.3 - col + 1,
{
    if col <= merge.3 {
        lemma_fill_row_keeps_apart(
            fill_cell(f, merge, value, row, col),
            merge,
            value,
            row,
            col + 1,
        );
    }
}

proof fn lemma_fill_rows_keeps_apart(
    f: Filling,
    merge: Merge,
    value: (CellType, Seq<char>),
    row: int,
)
    requires
        is_apart(f),
        0 <= row,
    ensures
        is_apart(fill_rows(f, merge, value, row)),
    decreases merge.2 - row + 1,
{
    if row <= merge.2 {
        lemma_fill_row_keeps_apart(f, merge, value, row, merge.1 as int);
        lemma_fill_rows_keeps_apart(
            fill_row(f, merge, value, row, merge.1 as int),
            merge,
            value,
            row + 1,
        );
    }
}

proof fn lemma_fill_merges_keeps_apart(
    f: Filling,
    merges: Seq<Merge>,
    stored: Map<(usize, usize), (CellType, Seq<char>)>,
    i: int,
)
    requires
        is_apart(f),
    ensures
        is_apart(fill_merges(f, merges, stored, i)),
    decreases merges.len() - i,
{
    if 0 <= i < merges.len() {
        let merge = merges[i];
        let corner = (merge.0, merge.1);
        let filled = if stored.contains_key(corner) {
            lemma_fill_rows_keeps_apart(f, merge, stored[corner], merge.0 as int);
            fill_rows(f, merge, stored[corner], merge.0 as int)
        } else {
            f
        };
        lemma_fill_merges_keeps_apart(filled, merges, stored, i + 1);
    }
}

/// Where no two cells of a document share a position, none do so in the sheet that
/// is read, merged ranges filled or not. The cells of a sheet with filled ranges
/// then stand in strict order.
pub proof fn lemma_spread_cells_are_apart(
    events: Seq<XmlView>,
    file_name: Seq<char>,
    name: Seq<char>,
    c: Criteria,
    formats: Seq<CellType>,
)
    ensures
        scan_from(events, 0, scan_start(file_name, name, c), c, formats) matches Ok(s) ==> {
            &&& read_sheet_outcome(events, file_name, name, c, formats) matches Ok(sheet)
            &&& positions_differ(s.sheet.cells) ==> {
                &&& positions_differ(sheet.cells)
                &&& c.spread_merged_cells && s.merges.len() > 0 ==> forall|i: int, j: int|
                    0 <= i < j < sheet.cells.len() ==> !in_order(
                        #[trigger] sheet.cells[j],
                        #[trigger] sheet.cells[i],
                    )
            }
        },
{
    let start = scan_start(file_name, name, c);
    if c.spread_merged_cells {
        lemma_scan_sees_cells(events, 0, start, c, formats);
    }
    if let Ok(s) = scan_from(events, 0, start, c, formats) {
        if positions_differ(s.sheet.cells) && c.spread_merged_cells && s.merges.len() > 0 {
            let f = Filling { sheet: s.sheet, seen: s.seen };
            lemma_fill_merges_keeps_apart(f, s.merges, s.stored, 0);
            let filled = fill_merges(f, s.merges, s.stored, 0).sheet.cells;
            lemma_sorting_keeps_positions_apart(filled);
            lemma_sorted_cells(filled);
            let sheet = read_sheet_outcome(events, file_name, name, c, formats)->Ok_0;
            assert(sheet.cells == sorted_cells(filled));
            assert forall|i: int, j: int| 0 <= i < j < sheet.cells.len() implies !in_order(
                #[trigger] sheet.cells[j],
                #[trigger] sheet.cells[i],
            ) by {
                assert(in_order(sheet.cells[i], sheet.cells[j]));
            }
        }
    }
}

} // verus!
