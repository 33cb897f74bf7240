//! Handing a worksheet out chunk by chunk and reading it at once give the same
//! cells.

use crate::helpers::text::number_value;
use crate::helpers::xml::AttributeView;
use crate::helpers::xml::XmlView;
use crate::spreadsheet::cell::CellType;
use crate::spreadsheet::cell::CellView;
use crate::spreadsheet::criteria::Criteria;
use crate::spreadsheet::sheet::all_cells;
use crate::spreadsheet::sheet::bounds_of;
use crate::spreadsheet::sheet::lemma_chunk_progress;
use crate::spreadsheet::sheet::lemma_chunks_keep_cells;
use crate::spreadsheet::sheet::ready_chunks;
use crate::spreadsheet::sheet::unready_rest;
use crate::spreadsheet::sheet::SheetView;
use crate::spreadsheet::xlsx::cells::end_cell;
use crate::spreadsheet::xlsx::cells::lemma_step_advances;
use crate::spreadsheet::xlsx::cells::scan_from;
use crate::spreadsheet::xlsx::cells::scan_start;
use crate::spreadsheet::xlsx::cells::scan_step;
use crate::spreadsheet::xlsx::cells::start_cell;
use crate::spreadsheet::xlsx::cells::ScanStep;
use crate::spreadsheet::xlsx::cells::SheetScan;
use crate::spreadsheet::xlsx::merge::read_sheet_outcome;
use crate::spreadsheet::xlsx::stream::lemma_stream_step_advances;
use crate::spreadsheet::xlsx::stream::stream_end_cell;
use crate::spreadsheet::xlsx::stream::stream_from;
use crate::spreadsheet::xlsx::stream::stream_sheet_outcome;
use crate::spreadsheet::xlsx::stream::stream_start;
use crate::spreadsheet::xlsx::stream::stream_start_cell;
use crate::spreadsheet::xlsx::stream::stream_step;
use crate::spreadsheet::xlsx::stream::StreamScan;
use crate::spreadsheet::xlsx::stream::StreamStep;
use vstd::prelude::*;

verus! {

/// A cell with its shared string in place.
pub open spec fn with_string(cell: CellView, strings: Seq<Seq<char>>) -> CellView {
    if cell.kind == CellType::SharedString {
        match number_value(cell.value) {
            Ok(id) if id < strings.len() => CellView {
                kind: CellType::InlineString,
                value: strings[id as int],
                ..cell
            },
            _ => cell,
        }
    } else {
        cell
    }
}

/// Cells with their shared strings in place.
pub open spec fn with_strings(cells: Seq<CellView>, strings: Seq<Seq<char>>) -> Seq<CellView> {
    cells.map_values(|cell: CellView| with_string(cell, strings))
}

/// Whether what counts as no value is neither a number nor a shared string.
pub open spec fn nulls_are_apart(c: Criteria, strings: Seq<Seq<char>>) -> bool {
    &&& forall|i: int| 0 <= i < strings.len() ==> !c.is_null(#[trigger] strings[i])
    &&& forall|value: Seq<char>| #[trigger] c.is_null(value) ==> number_value(value) is Err
}

/// Whether a scan and a stream have come equally far.
pub open spec fn in_step(s: SheetScan, t: StreamScan, strings: Seq<Seq<char>>) -> bool {
    &&& s.row_count == t.row_count
    &&& s.col_count == t.col_count
    &&& s.row == t.row
    &&& s.col == t.col
    &&& s.kind == t.kind
    &&& s.value == t.value
    &&& s.last_row == t.last_row
    &&& same_bounds(s.sheet, t.sheet)
    &&& t.has_data == (s.sheet.cells.len() > 0)
    &&& all_cells(t.emitted) + t.sheet.cells == with_strings(s.sheet.cells, strings)
}

/// Whether two sheets have the same name and want the same cells.
pub open spec fn same_bounds(a: SheetView, b: SheetView) -> bool {
    &&& a.file_name == b.file_name
    &&& a.name == b.name
    &&& a.range == b.range
    &&& a.rows_limit == b.rows_limit
    &&& a.row_lower == b.row_lower
}

/// The cells of two lists of sheets are those of the first and then those of the second.
pub proof fn lemma_all_cells_concat(a: Seq<SheetView>, b: Seq<SheetView>)
    ensures
        all_cells(a + b) == all_cells(a) + all_cells(b),
    decreases a.len(),
{
    if a.len() == 0 {
        assert(a + b =~= b);
        assert(all_cells(a) + all_cells(b) =~= all_cells(b));
    } else {
        assert((a + b).drop_first() =~= a.drop_first() + b);
        lemma_all_cells_concat(a.drop_first(), b);
        assert(all_cells(a + b) =~= all_cells(a) + all_cells(b));
    }
}

proof fn lemma_rest_same_bounds(sheet: SheetView)
    ensures
        same_bounds(sheet, unready_rest(sheet)),
    decreases sheet.cells.len(), sheet.chunk_measure(),
{
    if sheet.is_ready() {
        lemma_chunk_progress(sheet);
        lemma_rest_same_bounds(sheet.after_chunk());
    }
}

/// The end of a cell leaves a scan and a stream equally far.
pub proof fn lemma_end_cell_in_step(s: SheetScan, t: StreamScan, c: Criteria, strings: Seq<Seq<char>>)
    requires
        in_step(s, t, strings),
        !c.spread_merged_cells,
        nulls_are_apart(c, strings),
        s.kind != CellType::Empty ==> s.sheet.has(s.row as int, s.col as int),
        end_cell(s, c) is Ok,
        stream_end_cell(t, c, strings) is Ok,
    ensures
        end_cell(s, c)->Ok_0.1 == stream_end_cell(t, c, strings)->Ok_0.1,
        in_step(end_cell(s, c)->Ok_0.0, stream_end_cell(t, c, strings)->Ok_0.0, strings),
{
    let (next_s, stop) = end_cell(s, c)->Ok_0;
    let (next_t, _) = stream_end_cell(t, c, strings)->Ok_0;
    if s.kind != CellType::Empty && !c.is_null(s.value) && !stop {
        let cell = CellView { row: s.row, col: s.col, kind: s.kind, value: s.value };
        let other = with_string(cell, strings);
        assert(next_s.sheet == s.sheet.with(cell));
        let grown = t.sheet.with(other);
        assert(next_t.sheet == unready_rest(grown));
        assert(next_t.emitted == t.emitted + ready_chunks(grown));
        lemma_chunks_keep_cells(grown);
        lemma_rest_same_bounds(grown);
        lemma_all_cells_concat(t.emitted, ready_chunks(grown));
        assert(with_strings(next_s.sheet.cells, strings) =~= with_strings(
            s.sheet.cells,
            strings,
        ).push(other));
        assert(all_cells(next_t.emitted) + next_t.sheet.cells =~= all_cells(t.emitted)
            + grown.cells);
        assert(all_cells(t.emitted) + grown.cells =~= (all_cells(t.emitted) + t.sheet.cells).push(
            other,
        ));
    }
}

/// The start of a cell leaves a scan and a stream equally far.
pub proof fn lemma_start_cell_in_step(
    s: SheetScan,
    t: StreamScan,
    attributes: Seq<Result<AttributeView, Seq<char>>>,
    c: Criteria,
    formats: Seq<CellType>,
    strings: Seq<Seq<char>>,
)
    requires
        in_step(s, t, strings),
        !c.spread_merged_cells,
        start_cell(s, attributes, c, formats) is Ok,
        stream_start_cell(t, attributes, c, formats) is Ok,
    ensures
        start_cell(s, attributes, c, formats)->Ok_0.1 == stream_start_cell(
            t,
            attributes,
            c,
            formats,
        )->Ok_0.1,
        in_step(
            start_cell(s, attributes, c, formats)->Ok_0.0,
            stream_start_cell(t, attributes, c, formats)->Ok_0.0,
            strings,
        ),
{
}

proof fn lemma_scans_in_step(
    events: Seq<XmlView>,
    at: int,
    s: SheetScan,
    t: StreamScan,
    c: Criteria,
    formats: Seq<CellType>,
    strings: Seq<Seq<char>>,
)
    requires
        0 <= at <= events.len(),
        in_step(s, t, strings),
        !c.spread_merged_cells,
        nulls_are_apart(c, strings),
        s.kind != CellType::Empty ==> s.sheet.has(s.row as int, s.col as int),
        scan_from(events, at, s, c, formats) is Ok,
        stream_from(events, at, t, c, formats, strings).1 is None,
    ensures
        in_step(
            scan_from(events, at, s, c, formats)->Ok_0,
            stream_from(events, at, t, c, formats, strings).0,
            strings,
        ),
    decreases events.len() - at,
{
    if at < events.len() {
        lemma_step_advances(events, at, s, c, formats);
        lemma_stream_step_advances(events, at, t, c, formats, strings);
        match events[at] {
            XmlView::Start(tag) => {
                if start_cell(s, tag.attributes, c, formats) is Ok && stream_start_cell(
                    t,
                    tag.attributes,
                    c,
                    formats,
                ) is Ok {
                    lemma_start_cell_in_step(s, t, tag.attributes, c, formats, strings);
                }
            },
            XmlView::End(_) => {
                if end_cell(s, c) is Ok && stream_end_cell(t, c, strings) is Ok {
                    lemma_end_cell_in_step(s, t, c, strings);
                }
            },
            _ => {},
        }
        let a = scan_step(events, at, s, c, formats);
        let b = stream_step(events, at, t, c, formats, strings);
        assert(!(a is Fail) && !(b is Fail));
        if let (ScanStep::Go(next_s, p), StreamStep::Go(next_t, q)) = (a, b) {
            assert(p == q);
            lemma_scans_in_step(events, p, next_s, next_t, c, formats, strings);
        }
    }
}

/// Where both a read at once and a stream of a worksheet succeed, the chunks hold
/// the cells of the sheet in the same order, with shared strings in place; as long
/// as merged ranges are not spread, and what counts as no value is neither a number
/// nor a shared string.
pub proof fn lemma_stream_agrees_with_read(
    events: Seq<XmlView>,
    file_name: Seq<char>,
    name: Seq<char>,
    c: Criteria,
    formats: Seq<CellType>,
    strings: Seq<Seq<char>>,
)
    requires
        !c.spread_merged_cells,
        nulls_are_apart(c, strings),
    ensures
        ({
            let read = read_sheet_outcome(events, file_name, name, c, formats);
            let (chunks, fault) = stream_sheet_outcome(
                events,
                file_name,
                name,
                c,
                formats,
                strings,
                Seq::empty(),
            );
            read is Ok && fault is None ==> all_cells(chunks) == with_strings(
                read->Ok_0.cells,
                strings,
            )
        }),
{
    let s = scan_start(file_name, name, c);
    let t = stream_start(file_name, name, c, Seq::empty());
    assert(all_cells(t.emitted) + t.sheet.cells =~= with_strings(s.sheet.cells, strings));
    let scan = scan_from(events, 0, s, c, formats);
    let (last, fault) = stream_from(events, 0, t, c, formats, strings);
    if scan is Ok && fault is None {
        lemma_scans_in_step(events, 0, s, t, c, formats, strings);
        let done = last.sheet.complete(c.end_at_empty_row);
        lemma_chunks_keep_cells(done);
        lemma_all_cells_concat(last.emitted, ready_chunks(done));
        assert(all_cells(ready_chunks(done)) =~= done.cells);
    }
}

/// The cells with a value that does not count as none.
pub open spec fn visible_cells(cells: Seq<CellView>, c: Criteria) -> Seq<CellView>
    decreases cells.len(),
{
    if cells.len() == 0 {
        cells
    } else if c.is_null(cells.last().value) {
        visible_cells(cells.drop_last(), c)
    } else {
        visible_cells(cells.drop_last(), c).push(cells.last())
    }
}

/// Whether the rows that are read do not depend on which cells have a value: no
/// empty row ends the sheet, and where there is a limit the first row is given.
pub open spec fn rows_are_fixed(c: Criteria) -> bool {
    &&& !c.end_at_empty_row
    &&& c.rows_limit is Some ==> bounds_of(c.range).row_lower_bound is Some
}

/// Whether a scan and a stream have come equally far, the stream without the cells
/// whose shared strings count as no value.
pub open spec fn in_view(s: SheetScan, t: StreamScan, c: Criteria, strings: Seq<Seq<char>>) -> bool {
    &&& s.row_count == t.row_count
    &&& s.col_count == t.col_count
    &&& s.row == t.row
    &&& s.col == t.col
    &&& s.kind == t.kind
    &&& s.value == t.value
    &&& s.sheet.file_name == t.sheet.file_name
    &&& s.sheet.name == t.sheet.name
    &&& s.sheet.range == c.range
    &&& t.sheet.range == c.range
    &&& s.sheet.rows_limit == c.rows_limit
    &&& t.sheet.rows_limit == c.rows_limit
    &&& c.rows_limit is Some ==> s.sheet.row_lower is Some && s.sheet.row_lower
        == t.sheet.row_lower
    &&& all_cells(t.emitted) + t.sheet.cells == visible_cells(
        with_strings(s.sheet.cells, strings),
        c,
    )
}

proof fn lemma_end_cell_in_view(s: SheetScan, t: StreamScan, c: Criteria, strings: Seq<Seq<char>>)
    requires
        in_view(s, t, c, strings),
        !c.spread_merged_cells,
        rows_are_fixed(c),
        forall|value: Seq<char>| #[trigger] c.is_null(value) ==> number_value(value) is Err,
        s.kind != CellType::Empty ==> s.sheet.has(s.row as int, s.col as int),
        end_cell(s, c) is Ok,
        stream_end_cell(t, c, strings) is Ok,
    ensures
        !end_cell(s, c)->Ok_0.1,
        !stream_end_cell(t, c, strings)->Ok_0.1,
        in_view(end_cell(s, c)->Ok_0.0, stream_end_cell(t, c, strings)->Ok_0.0, c, strings),
{
    let (next_s, _) = end_cell(s, c)->Ok_0;
    let (next_t, _) = stream_end_cell(t, c, strings)->Ok_0;
    if s.kind != CellType::Empty && !c.is_null(s.value) {
        let cell = CellView { row: s.row, col: s.col, kind: s.kind, value: s.value };
        let other = with_string(cell, strings);
        let before = with_strings(s.sheet.cells, strings);
        assert(next_s.sheet == s.sheet.with(cell));
        assert(with_strings(next_s.sheet.cells, strings) =~= before.push(other));
        assert(before.push(other).drop_last() =~= before);
        if !c.is_null(other.value) {
            let grown = t.sheet.with(other);
            assert(next_t.sheet == unready_rest(grown));
            assert(next_t.emitted == t.emitted + ready_chunks(grown));
            lemma_chunks_keep_cells(grown);
            lemma_rest_same_bounds(grown);
            lemma_all_cells_concat(t.emitted, ready_chunks(grown));
            assert(all_cells(next_t.emitted) + next_t.sheet.cells =~= all_cells(t.emitted)
                + grown.cells);
            assert(all_cells(t.emitted) + grown.cells =~= (all_cells(t.emitted)
                + t.sheet.cells).push(other));
        }
    }
}

proof fn lemma_start_cell_in_view(
    s: SheetScan,
    t: StreamScan,
    attributes: Seq<Result<AttributeView, Seq<char>>>,
    c: Criteria,
    formats: Seq<CellType>,
    strings: Seq<Seq<char>>,
)
    requires
        in_view(s, t, c, strings),
        !c.spread_merged_cells,
        start_cell(s, attributes, c, formats) is Ok,
        stream_start_cell(t, attributes, c, formats) is Ok,
    ensures
        start_cell(s, attributes, c, formats)->Ok_0.1 == stream_start_cell(
            t,
            attributes,
            c,
            formats,
        )->Ok_0.1,
        in_view(
            start_cell(s, attributes, c, formats)->Ok_0.0,
            stream_start_cell(t, attributes, c, formats)->Ok_0.0,
            c,
            strings,
        ),
{
}

proof fn lemma_scans_in_view(
    events: Seq<XmlView>,
    at: int,
    s: SheetScan,
    t: StreamScan,
    c: Criteria,
    formats: Seq<CellType>,
    strings: Seq<Seq<char>>,
)
    requires
        0 <= at <= events.len(),
        in_view(s, t, c, strings),
        !c.spread_merged_cells,
        rows_are_fixed(c),
        forall|value: Seq<char>| #[trigger] c.is_null(value) ==> number_value(value) is Err,
        s.kind != CellType::Empty ==> s.sheet.has(s.row as int, s.col as int),
        scan_from(events, at, s, c, formats) is Ok,
        stream_from(events, at, t, c, formats, strings).1 is None,
    ensures
        in_view(
            scan_from(events, at, s, c, formats)->Ok_0,
            stream_from(events, at, t, c, formats, strings).0,
            c,
            strings,
        ),
    decreases events.len() - at,
{
    if at < events.len() {
        lemma_step_advances(events, at, s, c, formats);
        lemma_stream_step_advances(events, at, t, c, formats, strings);
        match events[at] {
            XmlView::Start(tag) => {
                if start_cell(s, tag.attributes, c, formats) is Ok && stream_start_cell(
                    t,
                    tag.attributes,
                    c,
                    formats,
                ) is Ok {
                    lemma_start_cell_in_view(s, t, tag.attributes, c, formats, strings);
                }
            },
            XmlView::End(_) => {
                if end_cell(s, c) is Ok && stream_end_cell(t, c, strings) is Ok {
                    lemma_end_cell_in_view(s, t, c, strings);
                }
            },
            _ => {},
        }
        let a = scan_step(events, at, s, c, formats);
        let b = stream_step(events, at, t, c, formats, strings);
        assert(!(a is Fail) && !(b is Fail));
        if let (ScanStep::Go(next_s, p), StreamStep::Go(next_t, q)) = (a, b) {
            assert(p == q);
            lemma_scans_in_view(events, p, next_s, next_t, c, formats, strings);
        }
    }
}

/// Where both a read at once and a stream of a worksheet succeed, the chunks hold
/// the cells of the sheet in the same order, with shared strings in place and
/// without the cells whose shared strings count as no value; as long as merged
/// ranges are not spread, the rows that are read do not depend on which cells have
/// a value, and no number counts as no value.
pub proof fn lemma_stream_shows_what_is_read(
    events: Seq<XmlView>,
    file_name: Seq<char>,
    name: Seq<char>,
    c: Criteria,
    formats: Seq<CellType>,
    strings: Seq<Seq<char>>,
)
    requires
        !c.spread_merged_cells,
        rows_are_fixed(c),
        forall|value: Seq<char>| #[trigger] c.is_null(value) ==> number_value(value) is Err,
    ensures
        ({
            let read = read_sheet_outcome(events, file_name, name, c, formats);
            let (chunks, fault) = stream_sheet_outcome(
                events,
                file_name,
                name,
                c,
                formats,
                strings,
                Seq::empty(),
            );
            read is Ok && fault is None ==> all_cells(chunks) == visible_cells(
                with_strings(read->Ok_0.cells, strings),
                c,
            )
        }),
{
    let s = scan_start(file_name, name, c);
    let t = stream_start(file_name, name, c, Seq::empty());
    assert(with_strings(s.sheet.cells, strings) =~= Seq::<CellView>::empty());
    assert(all_cells(t.emitted) + t.sheet.cells =~= Seq::<CellView>::empty());
    let scan = scan_from(events, 0, s, c, formats);
    let (last, fault) = stream_from(events, 0, t, c, formats, strings);
    if scan is Ok && fault is None {
        lemma_scans_in_view(events, 0, s, t, c, formats, strings);
        let done = last.sheet.complete(c.end_at_empty_row);
        lemma_chunks_keep_cells(done);
        lemma_all_cells_concat(last.emitted, ready_chunks(done));
        assert(all_cells(ready_chunks(done)) =~= done.cells);
    }
}

} // verus!
