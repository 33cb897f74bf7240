//! Where handing a worksheet out chunk by chunk fails.

use crate::error::ErrorView;
use crate::error::IoError;
use crate::helpers::text::decimal;
use crate::helpers::xml::AttributeView;
use crate::helpers::xml::XmlView;
use crate::helpers::xml_laws::lemma_attribute_value;
use crate::helpers::xml_laws::lemma_number_round_trip;
use crate::helpers::xml_laws::says;
use crate::helpers::zip::archive_markup;
use crate::spreadsheet::cell::CellType;
use crate::spreadsheet::cell::CellView;
use crate::spreadsheet::chunk_laws::lemma_chunks_keep_name;
use crate::spreadsheet::chunk_laws::lemma_rest_keeps_name;
use crate::spreadsheet::criteria::Criteria;
use crate::spreadsheet::reference::index_reference;
use crate::spreadsheet::reference::lemma_reference_characters_are_plain;
use crate::spreadsheet::sheet::all_cells;
use crate::spreadsheet::sheet::lemma_chunks_keep_cells;
use crate::spreadsheet::sheet::ready_chunks;
use crate::spreadsheet::sheet::SheetView;
use crate::spreadsheet::xlsx::agreement::in_step;
use crate::spreadsheet::xlsx::agreement::lemma_all_cells_concat;
use crate::spreadsheet::xlsx::agreement::lemma_end_cell_in_step;
use crate::spreadsheet::xlsx::agreement::lemma_start_cell_in_step;
use crate::spreadsheet::xlsx::agreement::nulls_are_apart;
use crate::spreadsheet::xlsx::agreement::with_strings;
use crate::spreadsheet::xlsx::cells::end_cell;
use crate::spreadsheet::xlsx::cells::lemma_step_advances;
use crate::spreadsheet::xlsx::cells::scan_from;
use crate::spreadsheet::xlsx::cells::scan_start;
use crate::spreadsheet::xlsx::cells::scan_step;
use crate::spreadsheet::xlsx::cells::start_cell;
use crate::spreadsheet::xlsx::cells::ScanStep;
use crate::spreadsheet::xlsx::cells::SheetScan;
use crate::spreadsheet::xlsx::chunks_from;
use crate::spreadsheet::xlsx::chunks_of_sheets;
use crate::spreadsheet::xlsx::merge::read_sheet_outcome;
use crate::spreadsheet::xlsx::sheets_from;
use crate::spreadsheet::xlsx::stream::lemma_stream_step_advances;
use crate::spreadsheet::xlsx::stream::resolved;
use crate::spreadsheet::xlsx::stream::stream_end_cell;
use crate::spreadsheet::xlsx::stream::stream_from;
use crate::spreadsheet::xlsx::stream::stream_sheet_outcome;
use crate::spreadsheet::xlsx::stream::stream_start;
use crate::spreadsheet::xlsx::stream::stream_start_cell;
use crate::spreadsheet::xlsx::stream::stream_step;
use crate::spreadsheet::xlsx::stream::StreamScan;
use crate::spreadsheet::xlsx::stream::StreamStep;
use vstd::prelude::*;

verus! {

proof fn lemma_stream_fails_in_step(
    events: Seq<XmlView>,
    at: int,
    s: SheetScan,
    t: StreamScan,
    c: Criteria,
    formats: Seq<CellType>,
    strings: Seq<Seq<char>>,
)
    requires
        0 <= at <= events.len(),
        in_step(s, t, strings),
        !c.spread_merged_cells,
        nulls_are_apart(c, strings),
        s.kind != CellType::Empty ==> s.sheet.has(s.row as int, s.col as int),
        scan_from(events, at, s, c, formats) matches Err(e) && !(e is CellReferenceError),
    ensures
        stream_from(events, at, t, c, formats, strings).1 is Some,
    decreases events.len() - at,
{
    if at < events.len() {
        lemma_step_advances(events, at, s, c, formats);
        lemma_stream_step_advances(events, at, t, c, formats, strings);
        match events[at] {
            XmlView::Start(tag) => {
                if start_cell(s, tag.attributes, c, formats) is Ok && stream_start_cell(
                    t,
                    tag.attributes,
                    c,
                    formats,
                ) is Ok {
                    lemma_start_cell_in_step(s, t, tag.attributes, c, formats, strings);
                }
            },
            XmlView::End(_) => {
                if end_cell(s, c) is Ok && stream_end_cell(t, c, strings) is Ok {
                    lemma_end_cell_in_step(s, t, c, strings);
                }
            },
            _ => {},
        }
        let a = scan_step(events, at, s, c, formats);
        let b = stream_step(events, at, t, c, formats, strings);
        assert(a is Fail ==> b is Fail);
        if let (ScanStep::Go(next_s, p), StreamStep::Go(next_t, q)) = (a, b) {
            assert(p == q);
            lemma_stream_fails_in_step(events, p, next_s, next_t, c, formats, strings);
        }
    }
}

/// Where a worksheet cannot be read at once, handing it out fails too: errors in cells,
/// styles that are not defined and faults of the markup are reported, and not passed
/// over. Only references that denote no cell are. Merged ranges are not spread, and
/// what counts as no value is neither a number nor a shared string.
pub proof fn lemma_stream_fails_where_read_fails(
    events: Seq<XmlView>,
    file_name: Seq<char>,
    name: Seq<char>,
    c: Criteria,
    formats: Seq<CellType>,
    strings: Seq<Seq<char>>,
)
    requires
        !c.spread_merged_cells,
        nulls_are_apart(c, strings),
        read_sheet_outcome(events, file_name, name, c, formats) matches Err(e) && !(
        e is CellReferenceError),
    ensures
        stream_sheet_outcome(
            events,
            file_name,
            name,
            c,
            formats,
            strings,
            Seq::empty(),
        ).1 is Some,
{
    let s = scan_start(file_name, name, c);
    let t = stream_start(file_name, name, c, Seq::empty());
    assert(all_cells(t.emitted) + t.sheet.cells =~= with_strings(s.sheet.cells, strings));
    lemma_stream_fails_in_step(events, 0, s, t, c, formats, strings);
}

/// A cell that is handed out shows the shared string with its number, as a text, or
/// nothing where that one counts as no value; and a number without a string fails.
pub proof fn lemma_stream_puts_strings(c: Criteria, strings: Seq<Seq<char>>, n: nat)
    requires
        n <= usize::MAX,
    ensures
        ({
            let found = resolved(CellType::SharedString, decimal(n), c, strings);
            if n >= strings.len() {
                found == Err::<Option<(CellType, Seq<char>)>, ErrorView>(
                    ErrorView::Io(IoError::IndexOutOfBounds),
                )
            } else if exists|i: int|
                0 <= i < c.nulls@.len() && (#[trigger] c.nulls@[i])@ == strings[n as int] {
                found == Ok::<Option<(CellType, Seq<char>)>, ErrorView>(None)
            } else {
                found == Ok::<Option<(CellType, Seq<char>)>, ErrorView>(
                    Some((CellType::InlineString, strings[n as int])),
                )
            }
        }),
{
    lemma_number_round_trip(n);
}

/// A cell of any other type keeps its type and its value, unless the value counts as
/// none.
pub proof fn lemma_stream_keeps_values(
    kind: CellType,
    value: Seq<char>,
    c: Criteria,
    strings: Seq<Seq<char>>,
)
    requires
        kind != CellType::SharedString,
    ensures
        resolved(kind, value, c, strings) == if exists|i: int|
            0 <= i < c.nulls@.len() && (#[trigger] c.nulls@[i])@ == value {
            Ok::<Option<(CellType, Seq<char>)>, ErrorView>(None)
        } else {
            Ok::<Option<(CellType, Seq<char>)>, ErrorView>(Some((kind, value)))
        },
{
}

/// A cell that is handed out and whose attribute `r` denotes no cell takes the place
/// behind the cell before it.
pub proof fn lemma_stream_passes_over_references(
    s: StreamScan,
    attributes: Seq<Result<AttributeView, Seq<char>>>,
    text: Seq<char>,
    t: Option<Seq<char>>,
    c: Criteria,
    formats: Seq<CellType>,
    i: int,
)
    requires
        says(attributes, "r"@, Some(text)),
        says(attributes, "t"@, t),
        says(attributes, "s"@, None),
        text.len() == 0 || !('A' <= text[0] <= 'Z' || 'a' <= text[0] <= 'z') || !('0'
            <= text.last() <= '9') || (0 <= i < text.len() && !('A' <= text[i] <= 'Z' || 'a'
            <= text[i] <= 'z' || '0' <= text[i] <= '9')),
        s.row_count <= usize::MAX,
        s.col_count <= usize::MAX,
    ensures
        stream_start_cell(s, attributes, c, formats) matches Ok((next, _)) && next.row
            == s.row_count && next.col == s.col_count,
{
    lemma_attribute_value(attributes, "r"@, Some(text));
    lemma_attribute_value(attributes, "t"@, t);
    lemma_attribute_value(attributes, "s"@, None);
    lemma_reference_characters_are_plain(text, i);
}

/// Whether a chunk has the name of a worksheet and of its file, and is for the wanted
/// cells.
pub open spec fn is_chunk_for(
    chunk: SheetView,
    file_name: Seq<char>,
    name: Seq<char>,
    c: Criteria,
) -> bool {
    &&& chunk.file_name == file_name
    &&& chunk.name == name
    &&& chunk.range == c.range
    &&& chunk.rows_limit == c.rows_limit
    &&& chunk.skip_empty_rows == c.skip_empty_rows
    &&& chunk.finished
}

/// Whether a stream has the name of its worksheet, and so have its chunks behind the
/// first `n`.
spec fn is_named(
    t: StreamScan,
    file_name: Seq<char>,
    name: Seq<char>,
    c: Criteria,
    n: int,
) -> bool {
    &&& t.sheet.file_name == file_name
    &&& t.sheet.name == name
    &&& t.sheet.range == c.range
    &&& t.sheet.rows_limit == c.rows_limit
    &&& t.sheet.skip_empty_rows == c.skip_empty_rows
    &&& n <= t.emitted.len()
    &&& forall|i: int|
        n <= i < t.emitted.len() ==> is_chunk_for(#[trigger] t.emitted[i], file_name, name, c)
}

proof fn lemma_more_chunks_are_named(
    chunks: Seq<SheetView>,
    sheet: SheetView,
    file_name: Seq<char>,
    name: Seq<char>,
    c: Criteria,
    n: int,
)
    requires
        0 <= n <= chunks.len(),
        forall|i: int| n <= i < chunks.len() ==> is_chunk_for(#[trigger] chunks[i], file_name, name, c),
        sheet.file_name == file_name,
        sheet.name == name,
        sheet.range == c.range,
        sheet.rows_limit == c.rows_limit,
        sheet.skip_empty_rows == c.skip_empty_rows,
    ensures
        forall|i: int|
            n <= i < (chunks + ready_chunks(sheet)).len() ==> is_chunk_for(
                #[trigger] (chunks + ready_chunks(sheet))[i],
                file_name,
                name,
                c,
            ),
{
    let all = chunks + ready_chunks(sheet);
    assert forall|i: int| n <= i < all.len() implies is_chunk_for(
        #[trigger] all[i],
        file_name,
        name,
        c,
    ) by {
        if i >= chunks.len() {
            lemma_chunks_keep_name(sheet, i - chunks.len());
        } else {
            assert(all[i] == chunks[i]);
        }
    }
}

proof fn lemma_stream_is_named(
    events: Seq<XmlView>,
    at: int,
    t: StreamScan,
    file_name: Seq<char>,
    name: Seq<char>,
    c: Criteria,
    formats: Seq<CellType>,
    strings: Seq<Seq<char>>,
    n: int,
)
    requires
        0 <= at <= events.len(),
        0 <= n,
        is_named(t, file_name, name, c, n),
    ensures
        is_named(stream_from(events, at, t, c, formats, strings).0, file_name, name, c, n),
    decreases events.len() - at,
{
    if at < events.len() {
        lemma_stream_step_advances(events, at, t, c, formats, strings);
        if let Ok(Some((kind, value))) = resolved(t.kind, t.value, c, strings) {
            let grown = t.sheet.with(CellView { row: t.row, col: t.col, kind, value });
            lemma_rest_keeps_name(grown);
            lemma_more_chunks_are_named(t.emitted, grown, file_name, name, c, n);
        }
        if let StreamStep::Go(next, then_at) = stream_step(events, at, t, c, formats, strings) {
            assert(is_named(next, file_name, name, c, n));
            lemma_stream_is_named(
                events,
                then_at,
                next,
                file_name,
                name,
                c,
                formats,
                strings,
                n,
            );
        }
    }
}

/// All chunks that are handed out of a worksheet have its name and the name of its
/// file; and the chunks that were handed out before it stay as they are.
pub proof fn lemma_streamed_chunks_have_name(
    events: Seq<XmlView>,
    file_name: Seq<char>,
    name: Seq<char>,
    c: Criteria,
    formats: Seq<CellType>,
    strings: Seq<Seq<char>>,
    i: int,
)
    ensures
        ({
            let chunks = stream_sheet_outcome(
                events,
                file_name,
                name,
                c,
                formats,
                strings,
                Seq::empty(),
            ).0;
            0 <= i < chunks.len() ==> is_chunk_for(chunks[i], file_name, name, c)
        }),
{
    let t = stream_start(file_name, name, c, Seq::empty());
    lemma_stream_is_named(events, 0, t, file_name, name, c, formats, strings, 0);
    let (last, fault) = stream_from(events, 0, t, c, formats, strings);
    let done = last.sheet.complete(c.end_at_empty_row);
    lemma_more_chunks_are_named(last.emitted, done, file_name, name, c, 0);
}

proof fn lemma_all_cells_push(sheets: Seq<SheetView>)
    requires
        sheets.len() > 0,
    ensures
        all_cells(sheets) == all_cells(sheets.drop_last()) + sheets.last().cells,
{
    let last = seq![sheets.last()];
    assert(sheets =~= sheets.drop_last() + last);
    lemma_all_cells_concat(sheets.drop_last(), last);
    assert(last.drop_first() =~= Seq::<SheetView>::empty());
    assert(all_cells(last.drop_first()) == Seq::<CellView>::empty());
    assert(all_cells(last) =~= sheets.last().cells);
}

/// Sheets that were read to their ends are handed out whole: their chunks hold all
/// their cells, sheet by sheet and in the same order.
pub proof fn lemma_chunks_of_sheets_keep_cells(sheets: Seq<SheetView>)
    requires
        forall|i: int| 0 <= i < sheets.len() ==> (#[trigger] sheets[i]).finished,
    ensures
        all_cells(chunks_of_sheets(sheets)) == all_cells(sheets),
    decreases sheets.len(),
{
    if sheets.len() > 0 {
        let front = sheets.drop_last();
        assert forall|i: int| 0 <= i < front.len() implies (#[trigger] front[i]).finished by {
            assert(front[i] == sheets[i]);
        }
        lemma_chunks_of_sheets_keep_cells(front);
        let last = sheets.last();
        assert(last.finished) by {
            assert(sheets[sheets.len() - 1].finished);
        }
        lemma_chunks_keep_cells(last);
        assert(all_cells(ready_chunks(last)) =~= last.cells);
        lemma_all_cells_concat(chunks_of_sheets(front), ready_chunks(last));
        lemma_all_cells_push(sheets);
    }
}

/// An error that is handed out fails, whatever its value is.
pub proof fn lemma_stream_reports_errors(s: StreamScan, c: Criteria, strings: Seq<Seq<char>>)
    requires
        s.kind == CellType::Error,
    ensures
        stream_end_cell(s, c, strings) == Err::<(StreamScan, bool), ErrorView>(
            ErrorView::CellValueError(
                s.sheet.file_name,
                s.sheet.name,
                index_reference(s.row as nat, s.col as nat),
                s.value,
            ),
        ),
{
}

/// A sheet whose part is missing makes the file one that is missing or corrupted, at
/// once or chunk by chunk; what was handed out before stays so.
pub proof fn lemma_missing_sheet_is_reported(
    image: Seq<u8>,
    file_name: Seq<char>,
    sheets: Seq<(Seq<char>, Seq<char>)>,
    accepted: Seq<bool>,
    i: int,
    count: nat,
    c: Criteria,
    formats: Seq<CellType>,
    strings: Seq<Seq<char>>,
    emitted: Seq<SheetView>,
)
    requires
        0 <= i < sheets.len(),
        accepted[i],
        c.sheet_limit matches Some(limit) ==> count < limit,
        archive_markup(image, sheets[i].1) == Ok::<Option<Seq<XmlView>>, Seq<char>>(None),
    ensures
        sheets_from(image, file_name, sheets, accepted, i, count, c, formats) == Err::<
            Seq<SheetView>,
            ErrorView,
        >(ErrorView::FileError(sheets[i].1)),
        chunks_from(
            image,
            file_name,
            sheets,
            accepted,
            i,
            count,
            c,
            formats,
            strings,
            emitted,
        ) == (emitted, Some(ErrorView::FileError(sheets[i].1))),
{
    assert(!c.is_full(count as int));
}

/// A sheet that cannot be read is reported, and no other sheet takes its place.
pub proof fn lemma_unreadable_sheet_is_reported(
    image: Seq<u8>,
    file_name: Seq<char>,
    sheets: Seq<(Seq<char>, Seq<char>)>,
    accepted: Seq<bool>,
    i: int,
    count: nat,
    c: Criteria,
    formats: Seq<CellType>,
    events: Seq<XmlView>,
    error: ErrorView,
)
    requires
        0 <= i < sheets.len(),
        accepted[i],
        c.sheet_limit matches Some(limit) ==> count < limit,
        archive_markup(image, sheets[i].1) == Ok::<Option<Seq<XmlView>>, Seq<char>>(Some(events)),
        read_sheet_outcome(events, file_name, sheets[i].0, c, formats) == Err::<
            SheetView,
            ErrorView,
        >(error),
    ensures
        sheets_from(image, file_name, sheets, accepted, i, count, c, formats) == Err::<
            Seq<SheetView>,
            ErrorView,
        >(error),
{
    assert(!c.is_full(count as int));
}

/// A sheet that is not accepted is passed over, whatever its part holds.
pub proof fn lemma_other_sheet_is_passed_over(
    image: Seq<u8>,
    file_name: Seq<char>,
    sheets: Seq<(Seq<char>, Seq<char>)>,
    accepted: Seq<bool>,
    i: int,
    count: nat,
    c: Criteria,
    formats: Seq<CellType>,
    strings: Seq<Seq<char>>,
    emitted: Seq<SheetView>,
)
    requires
        0 <= i < sheets.len(),
        !accepted[i],
    ensures
        sheets_from(image, file_name, sheets, accepted, i, count, c, formats) == sheets_from(
            image,
            file_name,
            sheets,
            accepted,
            i + 1,
            count,
            c,
            formats,
        ),
        chunks_from(
            image,
            file_name,
            sheets,
            accepted,
            i,
            count,
            c,
            formats,
            strings,
            emitted,
        ) == chunks_from(
            image,
            file_name,
            sheets,
            accepted,
            i + 1,
            count,
            c,
            formats,
            strings,
            emitted,
        ),
{
    if i + 1 < sheets.len() {
        assert(c.is_full(count as int) ==> sheets_from(
            image,
            file_name,
            sheets,
            accepted,
            i + 1,
            count,
            c,
            formats,
        ) == Ok::<Seq<SheetView>, ErrorView>(Seq::empty()));
    }
}

} // verus!
