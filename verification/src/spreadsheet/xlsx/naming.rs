//! The sheets that are read bear the names of sheets that were asked for.

use crate::helpers::xml::XmlView;
use crate::helpers::zip::required_markup;
use crate::spreadsheet::cell::CellType;
use crate::spreadsheet::criteria::Criteria;
use crate::spreadsheet::sheet::SheetView;
use crate::spreadsheet::wanted::is_read_for;
use crate::spreadsheet::xlsx::cells::lemma_step_advances;
use crate::spreadsheet::xlsx::cells::scan_from;
use crate::spreadsheet::xlsx::cells::scan_start;
use crate::spreadsheet::xlsx::cells::scan_step;
use crate::spreadsheet::xlsx::cells::Merge;
use crate::spreadsheet::xlsx::cells::ScanStep;
use crate::spreadsheet::xlsx::cells::SheetScan;
use crate::spreadsheet::xlsx::merge::fill_cell;
use crate::spreadsheet::xlsx::merge::fill_merges;
use crate::spreadsheet::xlsx::merge::fill_row;
use crate::spreadsheet::xlsx::merge::fill_rows;
use crate::spreadsheet::xlsx::merge::read_sheet_outcome;
use crate::spreadsheet::xlsx::merge::Filling;
use crate::spreadsheet::xlsx::sheets_from;
use vstd::prelude::*;

verus! {

/// Whether two sheets have the same name in the same file, and are for the same cells.
pub open spec fn same_name(a: SheetView, b: SheetView) -> bool {
    &&& a.file_name == b.file_name
    &&& a.name == b.name
    &&& a.range == b.range
    &&& a.rows_limit == b.rows_limit
    &&& a.skip_empty_rows == b.skip_empty_rows
}

proof fn lemma_scan_keeps_name(
    events: Seq<XmlView>,
    at: int,
    s: SheetScan,
    c: Criteria,
    formats: Seq<CellType>,
)
    requires
        0 <= at <= events.len(),
    ensures
        scan_from(events, at, s, c, formats) matches Ok(last) ==> same_name(last.sheet, s.sheet),
    decreases events.len() - at,
{
    if at < events.len() {
        lemma_step_advances(events, at, s, c, formats);
        if let ScanStep::Go(next, then_at) = scan_step(events, at, s, c, formats) {
            assert(same_name(next.sheet, s.sheet));
            lemma_scan_keeps_name(events, then_at, next, c, formats);
        }
    }
}

proof fn lemma_fill_row_keeps_name(
    f: Filling,
    merge: Merge,
    value: (CellType, Seq<char>),
    row: int,
    col: int,
)
    ensures
        same_name(fill_row(f, merge, value, row, col).sheet, f.sheet),
    decreases merge.3 - col + 1,
{
    if col <= merge.3 {
        lemma_fill_row_keeps_name(fill_cell(f, merge, value, row, col), merge, value, row, col + 1);
    }
}

proof fn lemma_fill_rows_keeps_name(
    f: Filling,
    merge: Merge,
    value: (CellType, Seq<char>),
    row: int,
)
    ensures
        same_name(fill_rows(f, merge, value, row).sheet, f.sheet),
    decreases merge.2 - row + 1,
{
    if row <= merge.2 {
        lemma_fill_row_keeps_name(f, merge, value, row, merge.1 as int);
        lemma_fill_rows_keeps_name(
            fill_row(f, merge, value, row, merge.1 as int),
            merge,
            value,
            row + 1,
        );
    }
}

proof fn lemma_fill_merges_keeps_name(
    f: Filling,
    merges: Seq<Merge>,
    stored: Map<(usize, usize), (CellType, Seq<char>)>,
    i: int,
)
    requires
        0 <= i,
    ensures
        same_name(fill_merges(f, merges, stored, i).sheet, f.sheet),
    decreases merges.len() - i,
{
    if i < merges.len() {
        let merge = merges[i];
        let corner = (merge.0, merge.1);
        if stored.contains_key(corner) {
            lemma_fill_rows_keeps_name(f, merge, stored[corner], merge.0 as int);
            let filled = fill_rows(f, merge, stored[corner], merge.0 as int);
            lemma_fill_merges_keeps_name(filled, merges, stored, i + 1);
        } else {
            lemma_fill_merges_keeps_name(f, merges, stored, i + 1);
        }
    }
}

/// A sheet that is read has the name that it is read under, and keeps what it was read
/// for.
pub proof fn lemma_read_sheet_has_name(
    events: Seq<XmlView>,
    file_name: Seq<char>,
    name: Seq<char>,
    c: Criteria,
    formats: Seq<CellType>,
)
    ensures
        read_sheet_outcome(events, file_name, name, c, formats) matches Ok(sheet) ==> sheet.name
            == name && sheet.file_name == file_name && is_read_for(c, sheet),
{
    let start = scan_start(file_name, name, c);
    lemma_scan_keeps_name(events, 0, start, c, formats);
    if let Ok(s) = scan_from(events, 0, start, c, formats) {
        lemma_fill_merges_keeps_name(
            Filling { sheet: s.sheet, seen: s.seen },
            s.merges,
            s.stored,
            0,
        );
    }
}

/// The names of the sheets that were accepted, from sheet `i` on.
pub open spec fn accepted_names(
    sheets: Seq<(Seq<char>, Seq<char>)>,
    accepted: Seq<bool>,
    i: int,
) -> Seq<Seq<char>>
    decreases sheets.len() - i,
{
    if i < 0 || i >= sheets.len() {
        Seq::empty()
    } else if accepted[i] {
        seq![sheets[i].0] + accepted_names(sheets, accepted, i + 1)
    } else {
        accepted_names(sheets, accepted, i + 1)
    }
}

/// The sheets that are read are the first of those that were accepted, in the
/// order of the workbook: all of them, or as many as are wanted at most.
pub proof fn lemma_accepted_sheets_are_read(
    image: Seq<u8>,
    file_name: Seq<char>,
    sheets: Seq<(Seq<char>, Seq<char>)>,
    accepted: Seq<bool>,
    i: int,
    count: nat,
    c: Criteria,
    formats: Seq<CellType>,
)
    requires
        0 <= i <= sheets.len(),
    ensures
        sheets_from(image, file_name, sheets, accepted, i, count, c, formats) matches Ok(
            found,
        ) ==> {
            let names = accepted_names(sheets, accepted, i);
            &&& found.len() <= names.len()
            &&& forall|k: int|
                0 <= k < found.len() ==> (#[trigger] found[k]).name == names[k]
                    && found[k].file_name == file_name && is_read_for(c, found[k])
            &&& found.len() < names.len() ==> c.is_full((count + found.len()) as int)
        },
    decreases sheets.len() - i,
{
    if i < sheets.len() && !c.is_full(count as int) {
        if accepted[i] {
            lemma_accepted_sheets_are_read(
                image,
                file_name,
                sheets,
                accepted,
                i + 1,
                count + 1,
                c,
                formats,
            );
            if let Ok(events) = required_markup(image, sheets[i].1) {
                lemma_read_sheet_has_name(events, file_name, sheets[i].0, c, formats);
            }
        } else {
            lemma_accepted_sheets_are_read(
                image,
                file_name,
                sheets,
                accepted,
                i + 1,
                count,
                c,
                formats,
            );
        }
    }
}

} // verus!
