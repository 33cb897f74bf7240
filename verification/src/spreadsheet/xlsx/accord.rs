//! A stream of a workbook succeeds where a read at once does, and gives the same
//! cells.

use crate::helpers::text::number_value;
use crate::helpers::xml::XmlView;
use crate::helpers::zip::required_markup;
use crate::spreadsheet::cell::CellType;
use crate::spreadsheet::cell::CellView;
use crate::spreadsheet::criteria::Criteria;
use crate::spreadsheet::sheet::all_cells;
use crate::spreadsheet::sheet::lemma_chunks_keep_cells;
use crate::spreadsheet::sheet::ready_chunks;
use crate::spreadsheet::sheet::SheetView;
use crate::spreadsheet::xlsx::agreement::in_step;
use crate::spreadsheet::xlsx::agreement::lemma_all_cells_concat;
use crate::spreadsheet::xlsx::agreement::lemma_end_cell_in_step;
use crate::spreadsheet::xlsx::agreement::lemma_start_cell_in_step;
use crate::spreadsheet::xlsx::agreement::nulls_are_apart;
use crate::spreadsheet::xlsx::agreement::with_string;
use crate::spreadsheet::xlsx::agreement::with_strings;
use crate::spreadsheet::xlsx::cells::end_cell;
use crate::spreadsheet::xlsx::cells::lemma_step_advances;
use crate::spreadsheet::xlsx::cells::scan_from;
use crate::spreadsheet::xlsx::cells::scan_start;
use crate::spreadsheet::xlsx::cells::scan_step;
use crate::spreadsheet::xlsx::cells::start_cell;
use crate::spreadsheet::xlsx::cells::ScanStep;
use crate::spreadsheet::xlsx::cells::SheetScan;
use crate::spreadsheet::xlsx::cells::TAG_CELL;
use crate::spreadsheet::xlsx::cells::TAG_ROW;
use crate::spreadsheet::xlsx::chunks_from;
use crate::spreadsheet::xlsx::is_selection;
use crate::spreadsheet::xlsx::merge::read_sheet_outcome;
use crate::spreadsheet::xlsx::sheets_from;
use crate::spreadsheet::xlsx::stream::lemma_stream_step_advances;
use crate::spreadsheet::xlsx::stream::stream_end_cell;
use crate::spreadsheet::xlsx::stream::stream_from;
use crate::spreadsheet::xlsx::stream::stream_sheet_outcome;
use crate::spreadsheet::xlsx::stream::stream_start;
use crate::spreadsheet::xlsx::stream::stream_start_cell;
use crate::spreadsheet::xlsx::stream::stream_step;
use crate::spreadsheet::xlsx::stream::StreamScan;
use crate::spreadsheet::xlsx::stream::StreamStep;
use vstd::prelude::*;

verus! {

/// Whether a value is the number of a shared string.
pub open spec fn names_string(value: Seq<char>, strings: Seq<Seq<char>>) -> bool {
    number_value(value) matches Ok(id) && id < strings.len()
}

/// Whether a cell that ends is no error, and refers to a shared string that there is
/// where it refers to one.
pub open spec fn is_sound_cell(s: SheetScan, strings: Seq<Seq<char>>) -> bool {
    &&& s.kind != CellType::Error
    &&& s.kind == CellType::SharedString ==> names_string(s.value, strings)
}

/// Whether all cells that end in a worksheet, from event `at` on, are no errors and
/// refer to shared strings that there are.
pub open spec fn cells_are_sound(
    events: Seq<XmlView>,
    at: int,
    s: SheetScan,
    c: Criteria,
    formats: Seq<CellType>,
    strings: Seq<Seq<char>>,
) -> bool
    decreases events.len() - at,
{
    if at < 0 || at >= events.len() {
        true
    } else {
        &&& events[at] == XmlView::End(TAG_CELL@) ==> is_sound_cell(s, strings)
        &&& match scan_step(events, at, s, c, formats) {
            ScanStep::Go(next, then_at) => {
                proof {
                    lemma_step_advances(events, at, s, c, formats);
                }
                cells_are_sound(events, then_at, next, c, formats, strings)
            },
            _ => true,
        }
    }
}

/// Whether all cells of a worksheet are no errors and refer to shared strings that
/// there are.
pub open spec fn is_sound_sheet(
    events: Seq<XmlView>,
    file_name: Seq<char>,
    name: Seq<char>,
    c: Criteria,
    formats: Seq<CellType>,
    strings: Seq<Seq<char>>,
) -> bool {
    cells_are_sound(events, 0, scan_start(file_name, name, c), c, formats, strings)
}

/// Whether no cell refers to a shared string.
pub open spec fn has_no_numbers_of_strings(cells: Seq<CellView>) -> bool {
    forall|i: int| 0 <= i < cells.len() ==> (#[trigger] cells[i]).kind != CellType::SharedString
}

proof fn lemma_stream_keeps_step(
    events: Seq<XmlView>,
    at: int,
    s: SheetScan,
    t: StreamScan,
    c: Criteria,
    formats: Seq<CellType>,
    strings: Seq<Seq<char>>,
)
    requires
        0 <= at <= events.len(),
        in_step(s, t, strings),
        !c.spread_merged_cells,
        nulls_are_apart(c, strings),
        s.kind != CellType::Empty ==> s.sheet.has(s.row as int, s.col as int),
        scan_from(events, at, s, c, formats) is Ok,
        cells_are_sound(events, at, s, c, formats, strings),
        has_no_numbers_of_strings(with_strings(s.sheet.cells, strings)),
    ensures
        stream_from(events, at, t, c, formats, strings).1 is None,
        in_step(
            scan_from(events, at, s, c, formats)->Ok_0,
            stream_from(events, at, t, c, formats, strings).0,
            strings,
        ),
        has_no_numbers_of_strings(
            with_strings(scan_from(events, at, s, c, formats)->Ok_0.sheet.cells, strings),
        ),
    decreases events.len() - at,
{
    if at < events.len() {
        lemma_step_advances(events, at, s, c, formats);
        lemma_stream_step_advances(events, at, t, c, formats, strings);
        let a = scan_step(events, at, s, c, formats);
        let b = stream_step(events, at, t, c, formats, strings);
        match events[at] {
            XmlView::Start(tag) => {
                if tag.name == TAG_CELL@ {
                    assert(start_cell(s, tag.attributes, c, formats) is Ok);
                    assert(stream_start_cell(t, tag.attributes, c, formats) is Ok);
                    lemma_start_cell_in_step(s, t, tag.attributes, c, formats, strings);
                }
            },
            XmlView::End(name) => {
                if name == TAG_CELL@ {
                    reveal_strlit("row");
                    reveal_strlit("c");
                    assert(TAG_ROW@.len() != TAG_CELL@.len());
                    assert(is_sound_cell(s, strings));
                    assert(end_cell(s, c) is Ok);
                    assert(stream_end_cell(t, c, strings) is Ok);
                    lemma_end_cell_in_step(s, t, c, strings);
                    let (next, _) = end_cell(s, c)->Ok_0;
                    if next.sheet.cells.len() > s.sheet.cells.len() {
                        let cell = CellView { row: s.row, col: s.col, kind: s.kind, value: s.value };
                        assert(next.sheet.cells == s.sheet.cells.push(cell));
                        assert(with_strings(next.sheet.cells, strings) =~= with_strings(
                            s.sheet.cells,
                            strings,
                        ).push(with_string(cell, strings)));
                    } else {
                        assert(next.sheet.cells == s.sheet.cells);
                    }
                }
            },
            _ => {},
        }
        assert(!(a is Fail) && !(b is Fail));
        if let (ScanStep::Go(next_s, p), StreamStep::Go(next_t, q)) = (a, b) {
            assert(p == q);
            lemma_stream_keeps_step(events, p, next_s, next_t, c, formats, strings);
        }
    }
}

/// Where a read at once of a worksheet succeeds, and all its cells refer to shared
/// strings that there are and none is an error, a stream of it succeeds too: the
/// chunks hold the cells of the sheet in the same order, with shared strings in place.
/// Merged ranges are not spread, and what counts as no value is neither a number nor
/// a shared string.
pub proof fn lemma_stream_succeeds(
    events: Seq<XmlView>,
    file_name: Seq<char>,
    name: Seq<char>,
    c: Criteria,
    formats: Seq<CellType>,
    strings: Seq<Seq<char>>,
)
    requires
        !c.spread_merged_cells,
        nulls_are_apart(c, strings),
        read_sheet_outcome(events, file_name, name, c, formats) is Ok,
        is_sound_sheet(events, file_name, name, c, formats, strings),
    ensures
        ({
            let read = read_sheet_outcome(events, file_name, name, c, formats)->Ok_0;
            let (chunks, fault) = stream_sheet_outcome(
                events,
                file_name,
                name,
                c,
                formats,
                strings,
                Seq::empty(),
            );
            &&& fault is None
            &&& all_cells(chunks) == with_strings(read.cells, strings)
            &&& has_no_numbers_of_strings(all_cells(chunks))
        }),
{
    let s = scan_start(file_name, name, c);
    let t = stream_start(file_name, name, c, Seq::empty());
    assert(all_cells(t.emitted) + t.sheet.cells =~= with_strings(s.sheet.cells, strings));
    lemma_stream_keeps_step(events, 0, s, t, c, formats, strings);
    let (last, _) = stream_from(events, 0, t, c, formats, strings);
    let done = last.sheet.complete(c.end_at_empty_row);
    lemma_chunks_keep_cells(done);
    lemma_all_cells_concat(last.emitted, ready_chunks(done));
    assert(all_cells(ready_chunks(done)) =~= done.cells);
}

/// What was handed out before a worksheet makes no difference to it.
proof fn lemma_stream_keeps_front(
    events: Seq<XmlView>,
    at: int,
    t: StreamScan,
    front: Seq<SheetView>,
    c: Criteria,
    formats: Seq<CellType>,
    strings: Seq<Seq<char>>,
)
    requires
        0 <= at <= events.len(),
    ensures
        ({
            let u = StreamScan { emitted: front + t.emitted, ..t };
            let (last, fault) = stream_from(events, at, t, c, formats, strings);
            stream_from(events, at, u, c, formats, strings) == (
                StreamScan { emitted: front + last.emitted, ..last },
                fault,
            )
        }),
    decreases events.len() - at,
{
    let u = StreamScan { emitted: front + t.emitted, ..t };
    if at < events.len() {
        lemma_stream_step_advances(events, at, t, c, formats, strings);
        match stream_step(events, at, t, c, formats, strings) {
            StreamStep::Go(next, then_at) => {
                let other = StreamScan { emitted: front + next.emitted, ..next };
                assert(stream_step(events, at, u, c, formats, strings) == StreamStep::Go(
                    other,
                    then_at,
                )) by {
                    lemma_step_keeps_front(events, at, t, front, c, formats, strings);
                }
                lemma_stream_keeps_front(events, then_at, next, front, c, formats, strings);
            },
            _ => {
                lemma_step_keeps_front(events, at, t, front, c, formats, strings);
            },
        }
    }
}

proof fn lemma_step_keeps_front(
    events: Seq<XmlView>,
    at: int,
    t: StreamScan,
    front: Seq<SheetView>,
    c: Criteria,
    formats: Seq<CellType>,
    strings: Seq<Seq<char>>,
)
    requires
        0 <= at < events.len(),
    ensures
        ({
            let u = StreamScan { emitted: front + t.emitted, ..t };
            stream_step(events, at, u, c, formats, strings) == match stream_step(
                events,
                at,
                t,
                c,
                formats,
                strings,
            ) {
                StreamStep::Go(next, then_at) => StreamStep::Go(
                    StreamScan { emitted: front + next.emitted, ..next },
                    then_at,
                ),
                StreamStep::Stop(last) => StreamStep::Stop(
                    StreamScan { emitted: front + last.emitted, ..last },
                ),
                StreamStep::Fail(error) => StreamStep::Fail(error),
            }
        }),
{
    let u = StreamScan { emitted: front + t.emitted, ..t };
    if let XmlView::End(name) = events[at] {
        if let Ok((next, _)) = stream_end_cell(t, c, strings) {
            let (other, _) = stream_end_cell(u, c, strings)->Ok_0;
            assert(other.emitted =~= front + next.emitted);
        }
    }
}

proof fn lemma_sheet_keeps_front(
    events: Seq<XmlView>,
    file_name: Seq<char>,
    name: Seq<char>,
    c: Criteria,
    formats: Seq<CellType>,
    strings: Seq<Seq<char>>,
    front: Seq<SheetView>,
)
    ensures
        ({
            let (chunks, fault) = stream_sheet_outcome(
                events,
                file_name,
                name,
                c,
                formats,
                strings,
                Seq::empty(),
            );
            stream_sheet_outcome(events, file_name, name, c, formats, strings, front) == (
                front + chunks,
                fault,
            )
        }),
{
    let t = stream_start(file_name, name, c, Seq::empty());
    lemma_stream_keeps_front(events, 0, t, front, c, formats, strings);
    assert(front + t.emitted =~= front);
    let (last, fault) = stream_from(events, 0, t, c, formats, strings);
    let more = ready_chunks(last.sheet.complete(c.end_at_empty_row));
    assert((front + last.emitted) + more =~= front + (last.emitted + more));
}

proof fn lemma_with_strings_concat(
    a: Seq<CellView>,
    b: Seq<CellView>,
    strings: Seq<Seq<char>>,
)
    ensures
        with_strings(a + b, strings) == with_strings(a, strings) + with_strings(b, strings),
{
    assert(with_strings(a + b, strings) =~= with_strings(a, strings) + with_strings(b, strings));
}

/// Where a read at once of a workbook succeeds, and all cells of its accepted sheets
/// refer to shared strings that there are and none is an error, a stream of the
/// workbook succeeds too: behind the chunks before, the chunks hold the cells of all
/// sheets in the same order, with shared strings in place, so that no cell refers to
/// one any more. Merged ranges are not spread, and what counts as no value is neither
/// a number nor a shared string.
pub proof fn lemma_workbook_stream_agrees(
    image: Seq<u8>,
    file_name: Seq<char>,
    sheets: Seq<(Seq<char>, Seq<char>)>,
    accepted: Seq<bool>,
    i: int,
    count: nat,
    c: Criteria,
    formats: Seq<CellType>,
    strings: Seq<Seq<char>>,
    emitted: Seq<SheetView>,
)
    requires
        0 <= i <= sheets.len(),
        !c.spread_merged_cells,
        nulls_are_apart(c, strings),
        sheets_from(image, file_name, sheets, accepted, i, count, c, formats) is Ok,
        forall|j: int|
            i <= j < sheets.len() && accepted[j] ==> (required_markup(
                image,
                (#[trigger] sheets[j]).1,
            ) matches Ok(events) ==> is_sound_sheet(
                events,
                file_name,
                sheets[j].0,
                c,
                formats,
                strings,
            )),
    ensures
        ({
            let found = sheets_from(
                image,
                file_name,
                sheets,
                accepted,
                i,
                count,
                c,
                formats,
            )->Ok_0;
            let (chunks, fault) = chunks_from(
                image,
                file_name,
                sheets,
                accepted,
                i,
                count,
                c,
                formats,
                strings,
                emitted,
            );
            &&& fault is None
            &&& all_cells(chunks) == all_cells(emitted) + with_strings(all_cells(found), strings)
            &&& has_no_numbers_of_strings(with_strings(all_cells(found), strings))
        }),
    decreases sheets.len() - i,
{
    if i < sheets.len() && !c.is_full(count as int) {
        if accepted[i] {
            let name = sheets[i].0;
            let events = required_markup(image, sheets[i].1)->Ok_0;
            let sheet = read_sheet_outcome(events, file_name, name, c, formats)->Ok_0;
            assert(is_sound_sheet(events, file_name, sheets[i].0, c, formats, strings));
            lemma_stream_succeeds(events, file_name, name, c, formats, strings);
            lemma_sheet_keeps_front(events, file_name, name, c, formats, strings, emitted);
            let (chunks, _) = stream_sheet_outcome(
                events,
                file_name,
                name,
                c,
                formats,
                strings,
                Seq::empty(),
            );
            lemma_all_cells_concat(emitted, chunks);
            lemma_workbook_stream_agrees(
                image,
                file_name,
                sheets,
                accepted,
                i + 1,
                count + 1,
                c,
                formats,
                strings,
                emitted + chunks,
            );
            let more = sheets_from(
                image,
                file_name,
                sheets,
                accepted,
                i + 1,
                count + 1,
                c,
                formats,
            )->Ok_0;
            assert((seq![sheet] + more).drop_first() =~= more);
            lemma_with_strings_concat(sheet.cells, all_cells(more), strings);
            assert(all_cells(emitted) + with_strings(sheet.cells, strings) + with_strings(
                all_cells(more),
                strings,
            ) =~= all_cells(emitted) + with_strings(sheet.cells + all_cells(more), strings));
        } else {
            lemma_workbook_stream_agrees(
                image,
                file_name,
                sheets,
                accepted,
                i + 1,
                count,
                c,
                formats,
                strings,
                emitted,
            );
        }
    } else {
        assert(all_cells(emitted) + with_strings(
            all_cells(Seq::<SheetView>::empty()),
            strings,
        ) =~= all_cells(emitted));
    }
}

/// Where the names of all sheets are matched alike on all platforms, there is one
/// selection of sheets: reads and streams with the same criteria take the same ones.
pub proof fn lemma_selection_is_unique(
    c: Criteria,
    sheets: Seq<(Seq<char>, Seq<char>)>,
    a: Seq<bool>,
    b: Seq<bool>,
)
    requires
        is_selection(c, sheets, a),
        is_selection(c, sheets, b),
        forall|i: int| 0 <= i < sheets.len() ==> c.decides((#[trigger] sheets[i]).0),
    ensures
        a == b,
{
    assert forall|i: int| 0 <= i < a.len() implies a[i] == b[i] by {
        assert(c.decides(sheets[i].0));
    }
    assert(a =~= b);
}

/// Where only the empty value counts as none, and no shared string is empty, what
/// counts as no value is neither a number nor a shared string.
pub proof fn lemma_empty_value_is_apart(c: Criteria, strings: Seq<Seq<char>>)
    requires
        forall|value: Seq<char>| #[trigger] c.is_null(value) ==> value.len() == 0,
        forall|i: int| 0 <= i < strings.len() ==> (#[trigger] strings[i]).len() > 0,
    ensures
        nulls_are_apart(c, strings),
{
}

} // verus!
