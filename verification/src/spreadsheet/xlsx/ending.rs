//! Which part of an XLSX workbook each sheet comes from, and where a sheet ends.

use crate::error::ErrorView;
use crate::helpers::xml::XmlView;
use crate::helpers::zip::required_markup;
use crate::spreadsheet::cell::CellType;
use crate::spreadsheet::cell::CellView;
use crate::spreadsheet::criteria::Criteria;
use crate::spreadsheet::sheet::SheetView;
use crate::spreadsheet::xlsx::cells::current_cell;
use crate::spreadsheet::xlsx::cells::lemma_step_advances;
use crate::spreadsheet::xlsx::cells::scan_from;
use crate::spreadsheet::xlsx::cells::scan_start;
use crate::spreadsheet::xlsx::cells::scan_step;
use crate::spreadsheet::xlsx::cells::start_cell;
use crate::spreadsheet::xlsx::cells::ScanStep;
use crate::spreadsheet::xlsx::cells::SheetScan;
use crate::spreadsheet::xlsx::laws::follows;
use crate::spreadsheet::xlsx::laws::lemma_end_at_empty_row_leaves_no_gap;
use crate::spreadsheet::xlsx::laws::lemma_read_cells_are_wanted;
use crate::spreadsheet::xlsx::merge::read_sheet_outcome;
use crate::spreadsheet::xlsx::sheets_from;
use vstd::prelude::*;

verus! {

/// How many sheets from number `i` up to number `j` were accepted.
pub open spec fn accepted_between(accepted: Seq<bool>, i: int, j: int) -> nat
    decreases j - i,
{
    if i >= j {
        0
    } else {
        accepted_between(accepted, i, j - 1) + if accepted[j - 1] {
            1nat
        } else {
            0nat
        }
    }
}

proof fn lemma_accepted_between(accepted: Seq<bool>, i: int, j: int)
    requires
        i < j,
    ensures
        accepted_between(accepted, i, j) == accepted_between(accepted, i + 1, j) + if accepted[i] {
            1nat
        } else {
            0nat
        },
    decreases j - i,
{
    if i + 1 < j {
        lemma_accepted_between(accepted, i, j - 1);
    } else {
        reveal_with_fuel(accepted_between, 2);
    }
}

/// Each accepted sheet that is read comes from the part at its own path and has its
/// own name, and it comes behind the accepted sheets that the workbook lists before it.
pub proof fn lemma_sheets_come_from_their_parts(
    image: Seq<u8>,
    file_name: Seq<char>,
    sheets: Seq<(Seq<char>, Seq<char>)>,
    accepted: Seq<bool>,
    i: int,
    count: nat,
    c: Criteria,
    formats: Seq<CellType>,
    j: int,
)
    requires
        0 <= i <= j < sheets.len(),
        accepted[j],
    ensures
        sheets_from(image, file_name, sheets, accepted, i, count, c, formats) matches Ok(
            found,
        ) ==> {
            let k = accepted_between(accepted, i, j) as int;
            &&& k < found.len() ==> {
                &&& required_markup(image, sheets[j].1) matches Ok(events)
                &&& read_sheet_outcome(events, file_name, sheets[j].0, c, formats) == Ok::<
                    SheetView,
                    ErrorView,
                >(found[k])
            }
            &&& k >= found.len() ==> c.sheet_limit is Some && count + found.len()
                >= c.sheet_limit->Some_0
        },
    decreases sheets.len() - i,
{
    if !c.is_full(count as int) {
        if i < j {
            lemma_accepted_between(accepted, i, j);
        } else {
            assert(accepted_between(accepted, i, j) == 0);
        }
        if accepted[i] {
            if i < j {
                lemma_sheets_come_from_their_parts(
                    image,
                    file_name,
                    sheets,
                    accepted,
                    i + 1,
                    count + 1,
                    c,
                    formats,
                    j,
                );
            }
        } else {
            lemma_sheets_come_from_their_parts(
                image,
                file_name,
                sheets,
                accepted,
                i + 1,
                count,
                c,
                formats,
                j,
            );
        }
    }
}

proof fn lemma_scan_appends(
    events: Seq<XmlView>,
    at: int,
    s: SheetScan,
    c: Criteria,
    formats: Seq<CellType>,
)
    requires
        0 <= at <= events.len(),
    ensures
        scan_from(events, at, s, c, formats) matches Ok(last) ==> {
            &&& s.sheet.cells.len() <= last.sheet.cells.len()
            &&& last.sheet.cells.take(s.sheet.cells.len() as int) == s.sheet.cells
        },
    decreases events.len() - at,
{
    if at < events.len() {
        lemma_step_advances(events, at, s, c, formats);
        let n = s.sheet.cells.len() as int;
        match scan_step(events, at, s, c, formats) {
            ScanStep::Go(next, then_at) => {
                lemma_scan_appends(events, then_at, next, c, formats);
                assert(next.sheet.cells.take(n) =~= s.sheet.cells);
                if let Ok(last) = scan_from(events, at, s, c, formats) {
                    let m = next.sheet.cells.len() as int;
                    assert(last.sheet.cells.take(n) =~= last.sheet.cells.take(m).take(n));
                }
            },
            ScanStep::Stop(last) => {
                assert(last.sheet.cells.take(n) =~= s.sheet.cells);
            },
            ScanStep::Fail(_) => {},
        }
    } else {
        assert(s.sheet.cells.take(s.sheet.cells.len() as int) =~= s.sheet.cells);
    }
}

/// The criteria by which empty rows end no sheet and which are the same otherwise.
pub open spec fn without_end(c: Criteria) -> Criteria {
    Criteria { end_at_empty_row: false, ..c }
}

/// Whether the first `n` cells are followed by an empty row: the next one stands more
/// than one row below the one before it, or where there is none before it, not in the
/// first row of the range.
pub open spec fn ends_with_gap(cells: Seq<CellView>, n: int, c: Criteria) -> bool {
    &&& 0 <= n < cells.len()
    &&& if n > 0 {
        cells[n].row > cells[n - 1].row + 1
    } else {
        c.range matches Some(bounds) && bounds.row_lower_bound matches Some(lower) && cells[0].row
            != lower
    }
}

/// Whether the last row that a scan knows is that of its last cell, or the first one
/// of the range.
spec fn knows_last_row(s: SheetScan, c: Criteria) -> bool {
    s.last_row == if s.sheet.cells.len() > 0 {
        Some(s.sheet.cells.last().row)
    } else {
        match c.range {
            Some(bounds) => bounds.row_lower_bound,
            None => None,
        }
    }
}

/// Empty rows make no difference to what counts as no value.
pub proof fn lemma_nulls_alike(c: Criteria, value: Seq<char>)
    ensures
        c.is_null(value) == without_end(c).is_null(value),
{
    let d = without_end(c);
    if c.is_null(value) {
        let i = choose|i: int| 0 <= i < c.nulls@.len() && #[trigger] c.nulls@[i]@ == value;
        assert(d.nulls@[i]@ == value);
    }
    if d.is_null(value) {
        let i = choose|i: int| 0 <= i < d.nulls@.len() && #[trigger] d.nulls@[i]@ == value;
        assert(c.nulls@[i]@ == value);
    }
}

proof fn lemma_steps_alike(
    events: Seq<XmlView>,
    at: int,
    s: SheetScan,
    c: Criteria,
    formats: Seq<CellType>,
)
    requires
        0 <= at < events.len(),
        c.end_at_empty_row,
        !c.spread_merged_cells,
        knows_last_row(s, c),
    ensures
        ({
            let free = scan_step(events, at, s, without_end(c), formats);
            match scan_step(events, at, s, c, formats) {
                ScanStep::Go(next, then_at) => free == ScanStep::Go(next, then_at)
                    && knows_last_row(next, c),
                ScanStep::Stop(last) => free == ScanStep::Stop(last) || {
                    &&& last.sheet == s.sheet
                    &&& free is Go
                    &&& free->Go_0.sheet.cells == s.sheet.cells.push(current_cell(s))
                    &&& ends_with_gap(
                        s.sheet.cells.push(current_cell(s)),
                        s.sheet.cells.len() as int,
                        c,
                    )
                },
                ScanStep::Fail(error) => free == ScanStep::Fail(error),
            }
        }),
{
    let d = without_end(c);
    lemma_nulls_alike(c, s.value);
    match events[at] {
        XmlView::Start(tag) => {
            assert(start_cell(s, tag.attributes, c, formats) == start_cell(
                s,
                tag.attributes,
                d,
                formats,
            ));
        },
        XmlView::End(name) => {
            assert(c.is_null(s.value) == d.is_null(s.value));
            let cells = s.sheet.cells.push(current_cell(s));
            if s.sheet.cells.len() > 0 {
                assert(cells[cells.len() - 2] == s.sheet.cells.last());
            }
            assert(cells[cells.len() - 1] == current_cell(s));
        },
        _ => {},
    }
}

proof fn lemma_scan_ends_at_gap(
    events: Seq<XmlView>,
    at: int,
    s: SheetScan,
    c: Criteria,
    formats: Seq<CellType>,
)
    requires
        0 <= at <= events.len(),
        c.end_at_empty_row,
        !c.spread_merged_cells,
        knows_last_row(s, c),
    ensures
        scan_from(events, at, s, without_end(c), formats) matches Ok(all) ==> {
            &&& scan_from(events, at, s, c, formats) matches Ok(last)
            &&& last.sheet.cells.len() <= all.sheet.cells.len()
            &&& last.sheet.cells == all.sheet.cells.take(last.sheet.cells.len() as int)
            &&& last.sheet.cells.len() < all.sheet.cells.len() ==> ends_with_gap(
                all.sheet.cells,
                last.sheet.cells.len() as int,
                c,
            )
        },
    decreases events.len() - at,
{
    let d = without_end(c);
    if at < events.len() {
        lemma_step_advances(events, at, s, c, formats);
        lemma_step_advances(events, at, s, d, formats);
        lemma_steps_alike(events, at, s, c, formats);
        match scan_step(events, at, s, c, formats) {
            ScanStep::Go(next, then_at) => {
                lemma_scan_ends_at_gap(events, then_at, next, c, formats);
            },
            ScanStep::Stop(last) => {
                match scan_step(events, at, s, d, formats) {
                    ScanStep::Go(next, then_at) => {
                        lemma_scan_appends(events, then_at, next, d, formats);
                        if let Ok(all) = scan_from(events, at, s, d, formats) {
                            let n = s.sheet.cells.len() as int;
                            let front = all.sheet.cells.take(n + 1);
                            assert(front == s.sheet.cells.push(current_cell(s)));
                            assert(all.sheet.cells.take(n) =~= front.take(n));
                            assert(front.take(n) =~= s.sheet.cells);
                            assert(all.sheet.cells[n] == front[n]);
                            if n > 0 {
                                assert(all.sheet.cells[n - 1] == front[n - 1]);
                            }
                        }
                    },
                    _ => {
                        assert(last.sheet.cells.take(last.sheet.cells.len() as int)
                            =~= last.sheet.cells);
                    },
                }
            },
            ScanStep::Fail(_) => {},
        }
    } else {
        assert(s.sheet.cells.take(s.sheet.cells.len() as int) =~= s.sheet.cells);
    }
}

/// Where the first empty row ends a sheet, what is read is what would be read without
/// that rule up to its first gap: the same cells in the same order, all of them where
/// there is no gap, and none behind one. Merged ranges are not spread.
pub proof fn lemma_sheet_ends_at_first_gap(
    events: Seq<XmlView>,
    file_name: Seq<char>,
    name: Seq<char>,
    c: Criteria,
    formats: Seq<CellType>,
)
    requires
        c.end_at_empty_row,
        !c.spread_merged_cells,
    ensures
        read_sheet_outcome(events, file_name, name, without_end(c), formats) matches Ok(all) ==> {
            &&& read_sheet_outcome(events, file_name, name, c, formats) matches Ok(sheet)
            &&& sheet.cells.len() <= all.cells.len()
            &&& sheet.cells == all.cells.take(sheet.cells.len() as int)
            &&& sheet.cells.len() < all.cells.len() ==> ends_with_gap(
                all.cells,
                sheet.cells.len() as int,
                c,
            )
            &&& forall|n: int| #[trigger]
                ends_with_gap(all.cells, n, c) ==> sheet.cells.len() <= n
        },
{
    let start = scan_start(file_name, name, c);
    assert(start == scan_start(file_name, name, without_end(c)));
    lemma_scan_ends_at_gap(events, 0, start, c, formats);
    lemma_end_at_empty_row_leaves_no_gap(events, file_name, name, c, formats);
    if let Ok(all) = read_sheet_outcome(events, file_name, name, without_end(c), formats) {
        let sheet = read_sheet_outcome(events, file_name, name, c, formats)->Ok_0;
        lemma_read_cells_are_wanted(events, file_name, name, c, formats);
        assert forall|n: int| #[trigger] ends_with_gap(all.cells, n, c) implies sheet.cells.len()
            <= n by {
            if n < sheet.cells.len() {
                assert(sheet.cells[n] == all.cells[n]);
                if n > 0 {
                    assert(sheet.cells[n - 1] == all.cells[n - 1]);
                    assert(follows(sheet.cells, n));
                }
            }
        }
    }
}

} // verus!
