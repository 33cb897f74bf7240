//! What holds of all sheets that are read from XLSX worksheets.

use crate::error::ErrorView;
use crate::helpers::xml::XmlView;
use crate::spreadsheet::cell::CellType;
use crate::spreadsheet::cell::CellView;
use crate::spreadsheet::criteria::Criteria;
use crate::spreadsheet::sheet::bounds_of;
use crate::spreadsheet::sheet::SheetView;
use crate::spreadsheet::sort::in_order;
use crate::spreadsheet::sort::lemma_sorted_cells;
use crate::spreadsheet::sort::lemma_sorting_keeps_cells;
use crate::spreadsheet::sort::sorted_cells;
use crate::spreadsheet::wanted::has_value;
use crate::spreadsheet::wanted::is_proper;
use crate::spreadsheet::wanted::is_wanted;
use crate::spreadsheet::wanted::lemma_with_is_proper;
use crate::spreadsheet::xlsx::cells::end_cell;
use crate::spreadsheet::xlsx::cells::lemma_step_advances;
use crate::spreadsheet::xlsx::cells::scan_from;
use crate::spreadsheet::xlsx::cells::scan_start;
use crate::spreadsheet::xlsx::cells::scan_step;
use crate::spreadsheet::xlsx::cells::Merge;
use crate::spreadsheet::xlsx::cells::ScanStep;
use crate::spreadsheet::xlsx::cells::SheetScan;
use crate::spreadsheet::xlsx::merge::fill_cell;
use crate::spreadsheet::xlsx::merge::fill_merges;
use crate::spreadsheet::xlsx::merge::fill_row;
use crate::spreadsheet::xlsx::merge::fill_rows;
use crate::spreadsheet::xlsx::merge::filled_sheet;
use crate::spreadsheet::xlsx::merge::read_sheet_outcome;
use crate::spreadsheet::xlsx::merge::Filling;
use vstd::prelude::*;

verus! {

/// What every step of a scan keeps.
pub open spec fn scan_is_proper(c: Criteria, s: SheetScan) -> bool {
    &&& is_proper(c, s.sheet)
    &&& s.kind != CellType::Empty && c.rows_limit != Some(0usize) ==> !s.sheet.row_after(
        s.row as int,
    )
    &&& forall|at: (usize, usize)| #[trigger]
        s.stored.contains_key(at) ==> has_value(c, s.stored[at].0, s.stored[at].1)
}

proof fn lemma_step_is_proper(
    events: Seq<XmlView>,
    at: int,
    s: SheetScan,
    c: Criteria,
    formats: Seq<CellType>,
)
    requires
        0 <= at < events.len(),
        scan_is_proper(c, s),
    ensures
        match scan_step(events, at, s, c, formats) {
            ScanStep::Go(next, _) => scan_is_proper(c, next),
            ScanStep::Stop(last) => is_proper(c, last.sheet) && forall|p: (usize, usize)| #[trigger]
                last.stored.contains_key(p) ==> has_value(c, last.stored[p].0, last.stored[p].1),
            ScanStep::Fail(_) => true,
        },
{
    if let XmlView::End(name) = events[at] {
        if s.kind != CellType::Empty && s.kind != CellType::Error && !c.is_null(s.value)
            && s.sheet.has(s.row as int, s.col as int) {
            lemma_with_is_proper(
                c,
                s.sheet,
                CellView { row: s.row, col: s.col, kind: s.kind, value: s.value },
            );
        }
    }
}

proof fn lemma_scan_is_proper(
    events: Seq<XmlView>,
    at: int,
    s: SheetScan,
    c: Criteria,
    formats: Seq<CellType>,
)
    requires
        0 <= at <= events.len(),
        scan_is_proper(c, s),
    ensures
        scan_from(events, at, s, c, formats) matches Ok(last) ==> {
            &&& is_proper(c, last.sheet)
            &&& forall|p: (usize, usize)| #[trigger]
                last.stored.contains_key(p) ==> has_value(c, last.stored[p].0, last.stored[p].1)
        },
    decreases events.len() - at,
{
    if at < events.len() {
        lemma_step_is_proper(events, at, s, c, formats);
        lemma_step_advances(events, at, s, c, formats);
        if let ScanStep::Go(next, then_at) = scan_step(events, at, s, c, formats) {
            lemma_scan_is_proper(events, then_at, next, c, formats);
        }
    }
}

proof fn lemma_fill_row_is_proper(
    c: Criteria,
    f: Filling,
    merge: Merge,
    value: (CellType, Seq<char>),
    row: int,
    col: int,
)
    requires
        is_proper(c, f.sheet),
        has_value(c, value.0, value.1),
        0 <= row <= merge.2,
        0 <= col,
    ensures
        is_proper(c, fill_row(f, merge, value, row, col).sheet),
    decreases merge.3 - col + 1,
{
    if col <= merge.3 {
        let next = fill_cell(f, merge, value, row, col);
        if next != f {
            lemma_with_is_proper(
                c,
                f.sheet,
                CellView { row: row as usize, col: col as usize, kind: value.0, value: value.1 },
            );
        }
        lemma_fill_row_is_proper(c, next, merge, value, row, col + 1);
    }
}

proof fn lemma_fill_rows_is_proper(
    c: Criteria,
    f: Filling,
    merge: Merge,
    value: (CellType, Seq<char>),
    row: int,
)
    requires
        is_proper(c, f.sheet),
        has_value(c, value.0, value.1),
        0 <= row,
    ensures
        is_proper(c, fill_rows(f, merge, value, row).sheet),
    decreases merge.2 - row + 1,
{
    if row <= merge.2 {
        lemma_fill_row_is_proper(c, f, merge, value, row, merge.1 as int);
        lemma_fill_rows_is_proper(
            c,
            fill_row(f, merge, value, row, merge.1 as int),
            merge,
            value,
            row + 1,
        );
    }
}

proof fn lemma_fill_merges_is_proper(
    c: Criteria,
    f: Filling,
    merges: Seq<Merge>,
    stored: Map<(usize, usize), (CellType, Seq<char>)>,
    i: int,
)
    requires
        0 <= i,
        is_proper(c, f.sheet),
        forall|p: (usize, usize)| #[trigger]
            stored.contains_key(p) ==> has_value(c, stored[p].0, stored[p].1),
    ensures
        is_proper(c, fill_merges(f, merges, stored, i).sheet),
    decreases merges.len() - i,
{
    if i < merges.len() {
        let merge = merges[i];
        let corner = (merge.0, merge.1);
        let filled = if stored.contains_key(corner) {
            lemma_fill_rows_is_proper(c, f, merge, stored[corner], merge.0 as int);
            fill_rows(f, merge, stored[corner], merge.0 as int)
        } else {
            f
        };
        lemma_fill_merges_is_proper(c, filled, merges, stored, i + 1);
    }
}

proof fn lemma_sorted_is_proper(c: Criteria, sheet: SheetView)
    requires
        is_proper(c, sheet),
    ensures
        is_proper(c, (SheetView { cells: sorted_cells(sheet.cells), ..sheet })),
{
    let sorted = SheetView { cells: sorted_cells(sheet.cells), ..sheet };
    lemma_sorted_cells(sheet.cells);
    assert forall|i: int| 0 <= i < sorted.cells.len() implies is_wanted(
        c,
        sorted,
        #[trigger] sorted.cells[i],
    ) by {
        let cell = sorted.cells[i];
        assert(sorted.cells.contains(cell));
        lemma_sorting_keeps_cells(sheet.cells, cell);
        let j = choose|j: int| 0 <= j < sheet.cells.len() && sheet.cells[j] == cell;
        assert(is_wanted(c, sheet, sheet.cells[j]));
    }
    if sheet.row_lower is None && sorted.cells.len() > 0 {
        assert(sorted.cells.contains(sorted.cells[0]));
        lemma_sorting_keeps_cells(sheet.cells, sorted.cells[0]);
    }
}

/// Every cell that is read lies in the wanted range and within the wanted number
/// of rows, is neither empty nor an error, and has a value that does not count as
/// none. This holds of cells that merged ranges give, too.
pub proof fn lemma_read_cells_are_wanted(
    events: Seq<XmlView>,
    file_name: Seq<char>,
    name: Seq<char>,
    c: Criteria,
    formats: Seq<CellType>,
)
    ensures
        read_sheet_outcome(events, file_name, name, c, formats) matches Ok(sheet) ==> is_proper(
            c,
            sheet,
        ),
{
    let start = scan_start(file_name, name, c);
    lemma_scan_is_proper(events, 0, start, c, formats);
    if let Ok(s) = scan_from(events, 0, start, c, formats) {
        let f = Filling { sheet: s.sheet, seen: s.seen };
        lemma_fill_merges_is_proper(c, f, s.merges, s.stored, 0);
        let filled = fill_merges(f, s.merges, s.stored, 0).sheet;
        lemma_sorted_is_proper(c, filled);
        let sheet = filled_sheet(s, c);
        assert(is_proper(c, sheet));
        let done = sheet.complete(c.end_at_empty_row);
        assert forall|i: int| 0 <= i < done.cells.len() implies is_wanted(
            c,
            done,
            #[trigger] done.cells[i],
        ) by {
            assert(is_wanted(c, sheet, sheet.cells[i]));
        }
    }
}

/// Whether a sheet has no gap: it starts in the first wanted row where one is given,
/// and no row is more than one behind the row of the cell before.
pub open spec fn has_no_gap(sheet: SheetView) -> bool {
    &&& bounds_of(sheet.range).row_lower_bound matches Some(lower) ==> (sheet.cells.len() > 0
        ==> sheet.cells[0].row == lower)
    &&& forall|i: int| 0 < i < sheet.cells.len() ==> #[trigger] follows(sheet.cells, i)
}

/// Whether the row of cell `i` is at most one behind the row of the cell before.
pub open spec fn follows(cells: Seq<CellView>, i: int) -> bool {
    cells[i].row <= cells[i - 1].row + 1
}

/// What every step of a scan that ends at an empty row keeps.
pub open spec fn scan_has_no_gap(c: Criteria, s: SheetScan) -> bool {
    &&& has_no_gap(s.sheet)
    &&& if s.sheet.cells.len() == 0 {
        s.last_row == bounds_of(s.sheet.range).row_lower_bound
    } else {
        s.last_row == Some(s.sheet.cells.last().row)
    }
}

proof fn lemma_end_cell_has_no_gap(s: SheetScan, c: Criteria)
    requires
        c.end_at_empty_row,
        scan_has_no_gap(c, s),
    ensures
        end_cell(s, c) matches Ok((next, stop)) ==> {
            &&& has_no_gap(next.sheet)
            &&& !stop ==> scan_has_no_gap(c, next)
        },
{
    if let Ok((next, stop)) = end_cell(s, c) {
        if next.sheet != s.sheet {
            let cell = CellView { row: s.row, col: s.col, kind: s.kind, value: s.value };
            assert(next.sheet == s.sheet.with(cell));
            let cells = next.sheet.cells;
            assert(cells == s.sheet.cells.push(cell));
            assert forall|i: int| 0 < i < cells.len() implies #[trigger] follows(cells, i) by {
                if i < s.sheet.cells.len() {
                    assert(follows(s.sheet.cells, i));
                    assert(cells[i] == s.sheet.cells[i]);
                    assert(cells[i - 1] == s.sheet.cells[i - 1]);
                } else {
                    assert(cells[i - 1] == s.sheet.cells.last());
                }
            }
            assert(cells.last() == cell);
        }
    }
}

proof fn lemma_other_steps_keep_sheet(
    events: Seq<XmlView>,
    at: int,
    s: SheetScan,
    c: Criteria,
    formats: Seq<CellType>,
)
    requires
        0 <= at < events.len(),
    ensures
        match scan_step(events, at, s, c, formats) {
            ScanStep::Go(next, _) => (next.sheet == s.sheet && next.last_row == s.last_row)
                || end_cell(s, c) == Ok::<(SheetScan, bool), ErrorView>((next, false)),
            ScanStep::Stop(last) => last.sheet == s.sheet || end_cell(s, c) == Ok::<
                (SheetScan, bool),
                ErrorView,
            >((last, true)),
            ScanStep::Fail(_) => true,
        },
{
}

proof fn lemma_scan_has_no_gap(
    events: Seq<XmlView>,
    at: int,
    s: SheetScan,
    c: Criteria,
    formats: Seq<CellType>,
)
    requires
        0 <= at <= events.len(),
        c.end_at_empty_row,
        scan_has_no_gap(c, s),
    ensures
        scan_from(events, at, s, c, formats) matches Ok(last) ==> has_no_gap(last.sheet),
    decreases events.len() - at,
{
    if at < events.len() {
        lemma_step_advances(events, at, s, c, formats);
        lemma_other_steps_keep_sheet(events, at, s, c, formats);
        lemma_end_cell_has_no_gap(s, c);
        let step = scan_step(events, at, s, c, formats);
        if let ScanStep::Go(next, then_at) = step {
            assert(scan_has_no_gap(c, next));
            lemma_scan_has_no_gap(events, then_at, next, c, formats);
        }
    }
}

/// Where the first empty row ends a sheet and merged ranges are not spread, the
/// sheet that is read has no gap.
pub proof fn lemma_end_at_empty_row_leaves_no_gap(
    events: Seq<XmlView>,
    file_name: Seq<char>,
    name: Seq<char>,
    c: Criteria,
    formats: Seq<CellType>,
)
    requires
        c.end_at_empty_row,
        !c.spread_merged_cells,
    ensures
        read_sheet_outcome(events, file_name, name, c, formats) matches Ok(sheet) ==> has_no_gap(
            sheet,
        ),
{
    let start = scan_start(file_name, name, c);
    lemma_scan_has_no_gap(events, 0, start, c, formats);
    if let Ok(s) = scan_from(events, 0, start, c, formats) {
        let done = s.sheet.complete(c.end_at_empty_row);
        assert(done.cells == s.sheet.cells);
        assert forall|i: int| 0 < i < done.cells.len() implies #[trigger] follows(
            done.cells,
            i,
        ) by {
            assert(follows(s.sheet.cells, i));
        }
    }
}

/// Whether each seen position has a cell.
pub open spec fn seen_have_cells(f: Filling) -> bool {
    forall|p: (usize, usize)| #[trigger]
        f.seen.contains(p) ==> exists|i: int|
            0 <= i < f.sheet.cells.len() && (#[trigger] f.sheet.cells[i]).row == p.0
                && f.sheet.cells[i].col == p.1
}

/// Whether `g` comes from `f` by filling merged ranges: nothing is lost, and the
/// first row is known once it is known.
pub open spec fn fills(f: Filling, g: Filling) -> bool {
    &&& f.seen.subset_of(g.seen)
    &&& f.sheet.range == g.sheet.range
    &&& f.sheet.rows_limit == g.sheet.rows_limit
    &&& f.sheet.row_lower matches Some(lower) ==> g.sheet.row_lower == Some(lower)
}

proof fn lemma_fill_row_covers(
    f: Filling,
    merge: Merge,
    value: (CellType, Seq<char>),
    row: int,
    col: int,
)
    requires
        seen_have_cells(f),
        0 <= row <= merge.2,
        0 <= col,
    ensures
        ({
            let g = fill_row(f, merge, value, row, col);
            &&& seen_have_cells(g)
            &&& fills(f, g)
            &&& forall|k: int|
                col <= k <= merge.3 && (row, k) != (merge.0 as int, merge.1 as int) && g.sheet.has(
                    row,
                    k,
                ) && !g.sheet.row_after(row) ==> #[trigger] g.seen.contains(
                    (row as usize, k as usize),
                )
        }),
    decreases merge.3 - col + 1,
{
    if col <= merge.3 {
        let next = fill_cell(f, merge, value, row, col);
        if next != f {
            let cell = CellView {
                row: row as usize,
                col: col as usize,
                kind: value.0,
                value: value.1,
            };
            assert(next.sheet.cells == f.sheet.cells.push(cell));
            assert forall|p: (usize, usize)| #[trigger] next.seen.contains(p) implies exists|i: int|
                0 <= i < next.sheet.cells.len() && (#[trigger] next.sheet.cells[i]).row == p.0
                    && next.sheet.cells[i].col == p.1 by {
                if f.seen.contains(p) {
                    let i = choose|i: int|
                        0 <= i < f.sheet.cells.len() && (#[trigger] f.sheet.cells[i]).row == p.0
                            && f.sheet.cells[i].col == p.1;
                    assert(next.sheet.cells[i] == f.sheet.cells[i]);
                } else {
                    assert(next.sheet.cells[next.sheet.cells.len() - 1] == cell);
                }
            }
        }
        lemma_fill_row_covers(next, merge, value, row, col + 1);
        let g = fill_row(f, merge, value, row, col);
        assert forall|k: int|
            col <= k <= merge.3 && (row, k) != (merge.0 as int, merge.1 as int) && g.sheet.has(
                row,
                k,
            ) && !g.sheet.row_after(row) implies #[trigger] g.seen.contains(
            (row as usize, k as usize),
        ) by {
            if k == col {
                assert(next.seen.contains((row as usize, k as usize)));
            }
        }
    }
}

/// Whether all wanted positions of a merged range from `row` on, but for the top
/// left one, were seen.
pub open spec fn covers(f: Filling, merge: Merge, row: int) -> bool {
    forall|r: int, k: int|
        row <= r <= merge.2 && merge.1 <= k <= merge.3 && (r, k) != (
            merge.0 as int,
            merge.1 as int,
        ) && f.sheet.has(r, k) && !f.sheet.row_after(r) ==> #[trigger] f.seen.contains(
            (r as usize, k as usize),
        )
}

proof fn lemma_fill_rows_covers(f: Filling, merge: Merge, value: (CellType, Seq<char>), row: int)
    requires
        seen_have_cells(f),
        0 <= row,
    ensures
        seen_have_cells(fill_rows(f, merge, value, row)),
        fills(f, fill_rows(f, merge, value, row)),
        covers(fill_rows(f, merge, value, row), merge, row),
    decreases merge.2 - row + 1,
{
    if row <= merge.2 {
        let next = fill_row(f, merge, value, row, merge.1 as int);
        lemma_fill_row_covers(f, merge, value, row, merge.1 as int);
        lemma_fill_rows_covers(next, merge, value, row + 1);
        let g = fill_rows(f, merge, value, row);
        assert forall|r: int, k: int|
            row <= r <= merge.2 && merge.1 <= k <= merge.3 && (r, k) != (
                merge.0 as int,
                merge.1 as int,
            ) && g.sheet.has(r, k) && !g.sheet.row_after(r) implies #[trigger] g.seen.contains(
            (r as usize, k as usize),
        ) by {
            if r == row {
                assert(next.seen.contains((r as usize, k as usize)));
            }
        }
    }
}

proof fn lemma_fill_merges_covers(
    f: Filling,
    merges: Seq<Merge>,
    stored: Map<(usize, usize), (CellType, Seq<char>)>,
    i: int,
)
    requires
        0 <= i,
        seen_have_cells(f),
    ensures
        seen_have_cells(fill_merges(f, merges, stored, i)),
        fills(f, fill_merges(f, merges, stored, i)),
        forall|j: int|
            i <= j < merges.len() && stored.contains_key((merges[j].0, merges[j].1)) ==> covers(
                fill_merges(f, merges, stored, i),
                #[trigger] merges[j],
                merges[j].0 as int,
            ),
    decreases merges.len() - i,
{
    if i < merges.len() {
        let merge = merges[i];
        let corner = (merge.0, merge.1);
        let filled = if stored.contains_key(corner) {
            lemma_fill_rows_covers(f, merge, stored[corner], merge.0 as int);
            fill_rows(f, merge, stored[corner], merge.0 as int)
        } else {
            f
        };
        lemma_fill_merges_covers(filled, merges, stored, i + 1);
        let g = fill_merges(f, merges, stored, i);
        assert forall|j: int|
            i <= j < merges.len() && stored.contains_key((merges[j].0, merges[j].1)) implies covers(
            g,
            #[trigger] merges[j],
            merges[j].0 as int,
        ) by {
            if j == i {
                assert forall|r: int, k: int|
                    merge.0 <= r <= merge.2 && merge.1 <= k <= merge.3 && (r, k) != (
                        merge.0 as int,
                        merge.1 as int,
                    ) && g.sheet.has(r, k) && !g.sheet.row_after(
                        r,
                    ) implies #[trigger] g.seen.contains((r as usize, k as usize)) by {
                    assert(filled.seen.contains((r as usize, k as usize)));
                }
            }
        }
    }
}

/// Whether a sheet has a cell at a position.
pub open spec fn has_cell_at(sheet: SheetView, row: int, col: int) -> bool {
    exists|i: int|
        0 <= i < sheet.cells.len() && (#[trigger] sheet.cells[i]).row == row && sheet.cells[i].col
            == col
}

/// The positions of a scan's cells were noted where they are wanted for merged
/// ranges.
pub proof fn lemma_scan_notes_positions(
    events: Seq<XmlView>,
    at: int,
    s: SheetScan,
    c: Criteria,
    formats: Seq<CellType>,
)
    requires
        0 <= at <= events.len(),
        seen_have_cells(Filling { sheet: s.sheet, seen: s.seen }),
    ensures
        scan_from(events, at, s, c, formats) matches Ok(last) ==> seen_have_cells(
            Filling { sheet: last.sheet, seen: last.seen },
        ),
    decreases events.len() - at,
{
    if at < events.len() {
        lemma_step_advances(events, at, s, c, formats);
        match scan_step(events, at, s, c, formats) {
            ScanStep::Go(next, then_at) => {
                let f = Filling { sheet: s.sheet, seen: s.seen };
                let g = Filling { sheet: next.sheet, seen: next.seen };
                assert forall|p: (usize, usize)| #[trigger] g.seen.contains(p) implies exists|i: int|
                    0 <= i < g.sheet.cells.len() && (#[trigger] g.sheet.cells[i]).row == p.0
                        && g.sheet.cells[i].col == p.1 by {
                    if f.seen.contains(p) {
                        let i = choose|i: int|
                            0 <= i < f.sheet.cells.len() && (#[trigger] f.sheet.cells[i]).row == p.0
                                && f.sheet.cells[i].col == p.1;
                        assert(g.sheet.cells[i] == f.sheet.cells[i]);
                    } else {
                        let last = g.sheet.cells.len() - 1;
                        assert(g.sheet.cells[last].row == p.0 && g.sheet.cells[last].col == p.1);
                    }
                }
                lemma_scan_notes_positions(events, then_at, next, c, formats);
            },
            _ => {},
        }
    }
}

/// Where merged ranges are spread, every wanted position of a merged range whose
/// top left cell has a value has a cell, and all cells stand in order.
pub proof fn lemma_merged_ranges_are_filled(
    events: Seq<XmlView>,
    file_name: Seq<char>,
    name: Seq<char>,
    c: Criteria,
    formats: Seq<CellType>,
    merge: Merge,
    row: int,
    col: int,
)
    requires
        c.spread_merged_cells,
        merge.0 <= row <= merge.2,
        merge.1 <= col <= merge.3,
        (row, col) != (merge.0 as int, merge.1 as int),
    ensures
        scan_from(events, 0, scan_start(file_name, name, c), c, formats) matches Ok(s) ==> {
            let sheet = read_sheet_outcome(events, file_name, name, c, formats)->Ok_0;
            &&& s.merges.contains(merge) && s.stored.contains_key((merge.0, merge.1)) && sheet.has(
                row,
                col,
            ) && !sheet.row_after(row) ==> has_cell_at(sheet, row, col)
            &&& s.merges.len() > 0 ==> forall|i: int, j: int|
                0 <= i <= j < sheet.cells.len() ==> in_order(
                    #[trigger] sheet.cells[i],
                    #[trigger] sheet.cells[j],
                )
        },
{
    let start = scan_start(file_name, name, c);
    lemma_scan_notes_positions(events, 0, start, c, formats);
    if let Ok(s) = scan_from(events, 0, start, c, formats) {
        let f = Filling { sheet: s.sheet, seen: s.seen };
        lemma_fill_merges_covers(f, s.merges, s.stored, 0);
        let g = fill_merges(f, s.merges, s.stored, 0);
        let sheet = read_sheet_outcome(events, file_name, name, c, formats)->Ok_0;
        lemma_sorted_cells(g.sheet.cells);
        if s.merges.contains(merge) && s.stored.contains_key((merge.0, merge.1)) && sheet.has(
            row,
            col,
        ) && !sheet.row_after(row) {
            let j = choose|j: int| 0 <= j < s.merges.len() && s.merges[j] == merge;
            assert(covers(g, s.merges[j], merge.0 as int));
            assert(g.sheet.has(row, col) && !g.sheet.row_after(row));
            assert(g.seen.contains((row as usize, col as usize)));
            let i = choose|i: int|
                0 <= i < g.sheet.cells.len() && (#[trigger] g.sheet.cells[i]).row == row
                    && g.sheet.cells[i].col == col;
            let cell = g.sheet.cells[i];
            assert(g.sheet.cells.contains(cell));
            lemma_sorting_keeps_cells(g.sheet.cells, cell);
            let k = choose|k: int| 0 <= k < sheet.cells.len() && sheet.cells[k] == cell;
            assert(sheet.cells[k].row == row && sheet.cells[k].col == col);
        }
    }
}

/// A cell fails at its end only where it holds an error; so where errors count as
/// no value, none fails at its end.
pub proof fn lemma_only_errors_fail_at_the_end(s: SheetScan, c: Criteria)
    ensures
        end_cell(s, c) is Err <==> s.kind == CellType::Error && !c.is_null(s.value),
{
}

/// Where errors count as no value and no style is one for errors, no cell has the
/// type of an error while it is read.
pub proof fn lemma_errors_as_null(
    events: Seq<XmlView>,
    at: int,
    s: SheetScan,
    c: Criteria,
    formats: Seq<CellType>,
)
    requires
        0 <= at < events.len(),
        c.error_as_null,
        !formats.contains(CellType::Error),
        s.kind != CellType::Error,
    ensures
        match scan_step(events, at, s, c, formats) {
            ScanStep::Go(next, _) => next.kind != CellType::Error,
            ScanStep::Stop(last) => last.kind != CellType::Error,
            ScanStep::Fail(_) => true,
        },
{
}

} // verus!
