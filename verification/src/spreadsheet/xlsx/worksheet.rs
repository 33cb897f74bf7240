//! Whole worksheet documents and the sheets that are read of them.

use crate::error::ErrorView;
use crate::helpers::text::decimal;
use crate::helpers::xml::AttributeView;
use crate::helpers::xml::XmlView;
use crate::helpers::xml_laws::has_at;
use crate::helpers::xml_laws::lemma_attribute_value;
use crate::helpers::xml_laws::lemma_has_both;
use crate::helpers::xml_laws::lemma_has_one;
use crate::helpers::xml_laws::opening;
use crate::helpers::xml_laws::says;
use crate::spreadsheet::cell::CellType;
use crate::spreadsheet::cell::CellView;
use crate::spreadsheet::criteria::Criteria;
use crate::spreadsheet::reference::index_reference;
use crate::spreadsheet::sheet::SheetView;
use crate::spreadsheet::reference::lemma_merge_range_round_trip;
use crate::spreadsheet::reference::lemma_reference_round_trip;
use crate::spreadsheet::xlsx::cells::merge_place;
use crate::spreadsheet::xlsx::cells::scan_from;
use crate::spreadsheet::xlsx::cells::scan_start;
use crate::spreadsheet::xlsx::cells::scan_step;
use crate::spreadsheet::xlsx::cells::start_cell;
use crate::spreadsheet::xlsx::cells::with_merge;
use crate::spreadsheet::xlsx::cells::Merge;
use crate::spreadsheet::xlsx::cells::ScanStep;
use crate::spreadsheet::xlsx::cells::SheetScan;
use crate::spreadsheet::xlsx::document::has_value;
use crate::spreadsheet::xlsx::document::is_between_cells;
use crate::spreadsheet::xlsx::document::is_passive;
use crate::spreadsheet::xlsx::document::is_shown;
use crate::spreadsheet::xlsx::document::is_faulty;
use crate::spreadsheet::xlsx::document::is_no_value;
use crate::spreadsheet::xlsx::document::lemma_bad_reference_fails;
use crate::spreadsheet::xlsx::document::lemma_cell_element;
use crate::spreadsheet::xlsx::document::lemma_error_cell_fails;
use crate::spreadsheet::xlsx::document::lemma_unknown_style_fails;
use crate::spreadsheet::xlsx::document::lies_behind;
use crate::spreadsheet::xlsx::document::lies_in;
use crate::spreadsheet::xlsx::document::names_type;
use crate::spreadsheet::xlsx::document::CellElement;
use crate::spreadsheet::xlsx::laws::has_cell_at;
use crate::spreadsheet::xlsx::laws::lemma_merged_ranges_are_filled;
use crate::spreadsheet::xlsx::laws::lemma_read_cells_are_wanted;
use crate::spreadsheet::xlsx::merge::read_sheet_outcome;
use crate::spreadsheet::xlsx::naming::lemma_read_sheet_has_name;
use crate::spreadsheet::xlsx::spread::is_spread_by;
use crate::spreadsheet::xlsx::spread::lemma_spread_cells_hold_corner_values;
use vstd::prelude::*;

verus! {

/// An element for a merged range.
pub struct MergeElement {
    /// The attributes.
    pub attributes: Seq<Result<AttributeView, Seq<char>>>,
    /// The range.
    pub range: Merge,
}

impl MergeElement {
    /// The events of this element.
    pub open spec fn events(self) -> Seq<XmlView> {
        seq![opening("mergeCell"@, self.attributes), XmlView::End("mergeCell"@)]
    }

    /// Whether the attribute `ref` holds the references of the range's top left and
    /// bottom right cells.
    pub open spec fn is_sound(self) -> bool {
        &&& self.range.0 < 1048576
        &&& self.range.1 < 16384
        &&& self.range.2 < 1048576
        &&& self.range.3 < 16384
        &&& says(
            self.attributes,
            "ref"@,
            Some(
                index_reference(self.range.0 as nat, self.range.1 as nat) + seq![':']
                    + index_reference(self.range.2 as nat, self.range.3 as nat),
            ),
        )
    }
}

/// A part of a worksheet's document.
pub enum SheetPart {
    /// A cell.
    Cell(CellElement),
    /// The end of a row.
    RowEnd,
    /// A list of merged ranges, with its attributes.
    Merges(Seq<Result<AttributeView, Seq<char>>>, Seq<MergeElement>),
    /// Any other event outside of cells.
    Other(XmlView),
}

/// The events of merged ranges.
pub open spec fn merge_events(merges: Seq<MergeElement>) -> Seq<XmlView>
    decreases merges.len(),
{
    if merges.len() == 0 {
        Seq::empty()
    } else {
        merges[0].events() + merge_events(merges.drop_first())
    }
}

/// The ranges of elements.
pub open spec fn ranges_of(merges: Seq<MergeElement>) -> Seq<Merge> {
    merges.map_values(|merge: MergeElement| merge.range)
}

impl SheetPart {
    /// The events of this part.
    pub open spec fn events(self) -> Seq<XmlView> {
        match self {
            SheetPart::Cell(cell) => cell.events(),
            SheetPart::RowEnd => seq![XmlView::End("row"@)],
            SheetPart::Merges(attributes, merges) => seq![opening("mergeCells"@, attributes)] + (
            merge_events(merges) + seq![XmlView::End("mergeCells"@)]),
            SheetPart::Other(event) => seq![event],
        }
    }
}

/// The events of a worksheet's document.
pub open spec fn sheet_events(parts: Seq<SheetPart>) -> Seq<XmlView>
    decreases parts.len(),
{
    if parts.len() == 0 {
        Seq::empty()
    } else {
        parts[0].events() + sheet_events(parts.drop_first())
    }
}

/// Whether the parts say what is noted beside them, where the first of them comes
/// after `rows` rows and after `cols` cells of its row.
pub open spec fn is_sound_sheet(
    parts: Seq<SheetPart>,
    rows: nat,
    cols: nat,
    formats: Seq<CellType>,
    error_as_null: bool,
) -> bool
    decreases parts.len(),
{
    parts.len() > 0 ==> match parts[0] {
        SheetPart::Cell(cell) => cell.is_sound(rows, cols, formats, error_as_null) && is_sound_sheet(
            parts.drop_first(),
            rows,
            cols + 1,
            formats,
            error_as_null,
        ),
        SheetPart::RowEnd => is_sound_sheet(
            parts.drop_first(),
            rows + 1,
            0,
            formats,
            error_as_null,
        ),
        SheetPart::Merges(_, merges) => (forall|i: int|
            0 <= i < merges.len() ==> (#[trigger] merges[i]).is_sound()) && is_sound_sheet(
            parts.drop_first(),
            rows,
            cols,
            formats,
            error_as_null,
        ),
        SheetPart::Other(event) => {
            &&& is_passive(event)
            &&& event matches XmlView::Start(tag) ==> tag.name != "v"@ && tag.name != "is"@
            &&& is_sound_sheet(parts.drop_first(), rows, cols, formats, error_as_null)
        },
    }
}

/// The cells of a worksheet's document, in order.
pub open spec fn cells_of(parts: Seq<SheetPart>) -> Seq<CellElement>
    decreases parts.len(),
{
    if parts.len() == 0 {
        Seq::empty()
    } else {
        match parts[0] {
            SheetPart::Cell(cell) => seq![cell] + cells_of(parts.drop_first()),
            _ => cells_of(parts.drop_first()),
        }
    }
}

/// The merged ranges of a worksheet's document, in order.
pub open spec fn merges_of(parts: Seq<SheetPart>) -> Seq<Merge>
    decreases parts.len(),
{
    if parts.len() == 0 {
        Seq::empty()
    } else {
        match parts[0] {
            SheetPart::Merges(_, merges) => ranges_of(merges) + merges_of(parts.drop_first()),
            _ => merges_of(parts.drop_first()),
        }
    }
}

/// The row of the first cell that is shown.
pub open spec fn first_shown(cells: Seq<CellElement>, c: Criteria) -> Option<usize>
    decreases cells.len(),
{
    if cells.len() == 0 {
        None
    } else if is_shown(c, cells[0]) {
        Some(cells[0].row)
    } else {
        first_shown(cells.drop_first(), c)
    }
}

/// The first wanted row: that of the range, or else that of the first cell that is
/// shown.
pub open spec fn first_wanted(cells: Seq<CellElement>, c: Criteria) -> Option<usize> {
    match c.range {
        Some(bounds) if bounds.row_lower_bound is Some => bounds.row_lower_bound,
        _ => first_shown(cells, c),
    }
}

/// The cells that are wanted: those that have a value, lie in the range and come
/// within the wanted number of rows.
pub open spec fn wanted_cells(cells: Seq<CellElement>, c: Criteria, first: Option<usize>) -> Seq<
    CellView,
> {
    cells.filter(
        |cell: CellElement| is_shown(c, cell) && !lies_behind(c, first, cell.row as int),
    ).map_values(|cell: CellElement| cell.cell())
}

/// Whether no row comes before one that stands above it.
pub open spec fn rows_ascend(cells: Seq<CellElement>) -> bool {
    forall|i: int, j: int|
        0 <= i <= j < cells.len() ==> (#[trigger] cells[i]).row <= (#[trigger] cells[j]).row
}

/// The ranges with further ones added one after the other.
spec fn merged(merges: Seq<Merge>, more: Seq<Merge>) -> Seq<Merge>
    decreases more.len(),
{
    if more.len() == 0 {
        merges
    } else {
        merged(with_merge(merges, more[0]), more.drop_first())
    }
}

proof fn lemma_merged_joins(merges: Seq<Merge>, a: Seq<Merge>, b: Seq<Merge>)
    ensures
        merged(merges, a + b) == merged(merged(merges, a), b),
    decreases a.len(),
{
    if a.len() > 0 {
        assert((a + b)[0] == a[0]);
        assert((a + b).drop_first() =~= a.drop_first() + b);
        lemma_merged_joins(with_merge(merges, a[0]), a.drop_first(), b);
    } else {
        assert(a + b =~= b);
    }
}

/// The values of cells by position, with those of further cells.
spec fn stored_with(
    stored: Map<(usize, usize), (CellType, Seq<char>)>,
    cells: Seq<CellElement>,
    c: Criteria,
) -> Map<(usize, usize), (CellType, Seq<char>)>
    decreases cells.len(),
{
    if cells.len() == 0 {
        stored
    } else {
        let cell = cells[0];
        let now = if c.spread_merged_cells && has_value(c, cell) {
            stored.insert((cell.row, cell.col), (cell.kind, cell.content.text()))
        } else {
            stored
        };
        stored_with(now, cells.drop_first(), c)
    }
}

proof fn lemma_sheet_names_differ()
    ensures
        "c"@ != "row"@,
        "row"@ != "mergeCells"@,
        "mergeCell"@ != "mergeCells"@,
        "mergeCell"@ != "c"@,
        "mergeCell"@ != "v"@,
        "mergeCell"@ != "is"@,
        "mergeCell"@ != "row"@,
        "mergeCells"@ != "c"@,
        "mergeCells"@ != "v"@,
        "mergeCells"@ != "is"@,
{
    reveal_strlit("c");
    reveal_strlit("v");
    reveal_strlit("is");
    reveal_strlit("row");
    reveal_strlit("mergeCells");
    reveal_strlit("mergeCell");
    assert("c"@.len() == 1 && "v"@.len() == 1 && "is"@.len() == 2 && "row"@.len() == 3);
    assert("mergeCells"@.len() == 10 && "mergeCell"@.len() == 9);
}

proof fn lemma_merges_are_met(
    events: Seq<XmlView>,
    at: int,
    merges: Seq<MergeElement>,
    s: SheetScan,
    c: Criteria,
    formats: Seq<CellType>,
)
    requires
        has_at(events, at, merge_events(merges)),
        forall|i: int| 0 <= i < merges.len() ==> (#[trigger] merges[i]).is_sound(),
        c.spread_merged_cells ==> s.in_merge_cells,
    ensures
        scan_from(events, at, s, c, formats) == scan_from(
            events,
            at + merge_events(merges).len(),
            if c.spread_merged_cells {
                SheetScan {
                    merges: merged(s.merges, ranges_of(merges)),
                    ..s
                }
            } else {
                s
            },
            c,
            formats,
        ),
    decreases merges.len(),
{
    lemma_sheet_names_differ();
    let ranges = ranges_of(merges);
    if merges.len() > 0 {
        let merge = merges[0];
        let rest = merges.drop_first();
        assert(merges[0].is_sound());
        lemma_has_both(events, at, merge.events(), merge_events(rest));
        assert(merge.events()[0] == opening("mergeCell"@, merge.attributes));
        assert(merge.events()[1] == XmlView::End("mergeCell"@));
        assert(events[at + 0] == opening("mergeCell"@, merge.attributes));
        assert(events[at + 1] == XmlView::End("mergeCell"@));
        let range = merge.range;
        let text = index_reference(range.0 as nat, range.1 as nat) + seq![':'] + index_reference(
            range.2 as nat,
            range.3 as nat,
        );
        lemma_attribute_value(merge.attributes, "ref"@, Some(text));
        lemma_merge_range_round_trip(
            range.0 as nat,
            range.1 as nat,
            range.2 as nat,
            range.3 as nat,
        );
        let next = if c.spread_merged_cells {
            SheetScan { merges: with_merge(s.merges, range), ..s }
        } else {
            s
        };
        assert(scan_step(events, at, s, c, formats) == ScanStep::Go(next, at + 1));
        assert(scan_step(events, at + 1, next, c, formats) == ScanStep::Go(next, at + 2));
        assert(scan_from(events, at, s, c, formats) == scan_from(
            events,
            at + 1,
            next,
            c,
            formats,
        ));
        assert(scan_from(events, at + 1, next, c, formats) == scan_from(
            events,
            at + 2,
            next,
            c,
            formats,
        ));
        assert forall|i: int| 0 <= i < rest.len() implies (#[trigger] rest[i]).is_sound() by {
            assert(rest[i] == merges[i + 1]);
        }
        lemma_merges_are_met(events, at + 2, rest, next, c, formats);
        assert(ranges[0] == range);
        assert(ranges.drop_first() =~= ranges_of(rest));
        assert(merge_events(merges).len() == 2 + merge_events(rest).len());
        assert(at + 2 + merge_events(rest).len() == at + merge_events(merges).len());
        assert(merged(s.merges, ranges) == merged(with_merge(s.merges, range), ranges_of(rest)));
    } else {
        assert(ranges.len() == 0);
        assert(SheetScan { merges: merged(s.merges, ranges), ..s } == s);
    }
}

/// Whether the first row that a scan knows is the first wanted one, or is yet to be
/// found among cells.
spec fn knows_first(s: SheetScan, cells: Seq<CellElement>, c: Criteria, first: Option<usize>) -> bool {
    match s.sheet.row_lower {
        Some(_) => first == s.sheet.row_lower,
        None => first == first_shown(cells, c),
    }
}

proof fn lemma_sheet_is_scanned(
    events: Seq<XmlView>,
    at: int,
    parts: Seq<SheetPart>,
    s: SheetScan,
    c: Criteria,
    formats: Seq<CellType>,
    first: Option<usize>,
)
    requires
        has_at(events, at, sheet_events(parts)),
        at + sheet_events(parts).len() == events.len(),
        is_sound_sheet(parts, s.row_count, s.col_count, formats, c.error_as_null),
        forall|i: int|
            0 <= i < cells_of(parts).len() ==> !is_faulty(c, #[trigger] cells_of(parts)[i]),
        rows_ascend(cells_of(parts)),
        is_between_cells(s, c),
        !s.in_merge_cells,
        !c.end_at_empty_row,
        c.rows_limit != Some(0usize),
        knows_first(s, cells_of(parts), c, first),
    ensures
        scan_from(events, at, s, c, formats) matches Ok(last) && {
            &&& last.sheet.cells == s.sheet.cells + wanted_cells(cells_of(parts), c, first)
            &&& (forall|i: int|
                0 <= i < cells_of(parts).len() ==> !lies_behind(
                    c,
                    first,
                    (#[trigger] cells_of(parts)[i]).row as int,
                )) && c.spread_merged_cells ==> {
                &&& last.merges == merged(s.merges, merges_of(parts))
                &&& last.stored == stored_with(s.stored, cells_of(parts), c)
            }
        },
    decreases parts.len(),
{
    lemma_sheet_names_differ();
    let cells = cells_of(parts);
    if parts.len() > 0 {
        let part = parts[0];
        let rest = parts.drop_first();
        lemma_has_both(events, at, part.events(), sheet_events(rest));
        let then_at = at + part.events().len();
        match part {
            SheetPart::Cell(cell) => {
                let later = cells_of(rest);
                assert(cells[0] == cell);
                assert(cells.drop_first() =~= later);
                assert forall|i: int| 0 <= i < later.len() implies !is_faulty(
                    c,
                    #[trigger] later[i],
                ) && cell.row <= later[i].row by {
                    assert(later[i] == cells[i + 1]);
                }
                assert forall|i: int, j: int| 0 <= i <= j < later.len() implies (
                #[trigger] later[i]).row <= (#[trigger] later[j]).row by {
                    assert(later[i] == cells[i + 1]);
                    assert(later[j] == cells[j + 1]);
                }
                lemma_wanted_first(cell, later, c, first);
                assert(seq![cell] + later =~= cells);
                if lies_behind(c, s.sheet.row_lower, cell.row as int) {
                    lemma_cell_behind(events, at, cell, s, c, formats);
                    assert forall|i: int| 0 <= i < cells.len() implies lies_behind(
                        c,
                        first,
                        (#[trigger] cells[i]).row as int,
                    ) by {
                        if i > 0 {
                            assert(cells[i] == later[i - 1]);
                        }
                    }
                    lemma_wanted_none(cells, c, first);
                    assert(s.sheet.cells + wanted_cells(cells, c, first) =~= s.sheet.cells);
                    assert(lies_behind(c, first, cells[0].row as int));
                } else {
                    let next = lemma_cell_element(events, at, cell, s, c, formats);
                    assert(is_shown(c, cell) ==> !lies_behind(c, first, cell.row as int));
                    lemma_sheet_is_scanned(events, then_at, rest, next, c, formats, first);
                    assert(s.sheet.cells + wanted_cells(cells, c, first) =~= next.sheet.cells
                        + wanted_cells(later, c, first));
                    if forall|i: int|
                        0 <= i < cells.len() ==> !lies_behind(
                            c,
                            first,
                            (#[trigger] cells[i]).row as int,
                        ) {
                        assert forall|i: int| 0 <= i < later.len() implies !lies_behind(
                            c,
                            first,
                            (#[trigger] later[i]).row as int,
                        ) by {
                            assert(later[i] == cells[i + 1]);
                        }
                    }
                }
            },
            SheetPart::RowEnd => {
                lemma_has_one(events, at, XmlView::End("row"@));
                let next = SheetScan { row_count: s.row_count + 1, col_count: 0, ..s };
                assert(scan_step(events, at, s, c, formats) == ScanStep::Go(next, at + 1));
                lemma_sheet_is_scanned(events, then_at, rest, next, c, formats, first);
            },
            SheetPart::Merges(attributes, merges) => {
                let start = opening("mergeCells"@, attributes);
                let end = XmlView::End("mergeCells"@);
                let inner = merge_events(merges);
                lemma_has_both(events, at, seq![start], inner + seq![end]);
                lemma_has_one(events, at, start);
                lemma_has_both(events, at + 1, inner, seq![end]);
                lemma_has_one(events, at + 1 + inner.len(), end);
                let ranges = ranges_of(merges);
                let open = SheetScan { in_merge_cells: c.spread_merged_cells, ..s };
                assert(scan_step(events, at, s, c, formats) == ScanStep::Go(open, at + 1));
                lemma_merges_are_met(events, at + 1, merges, open, c, formats);
                let met = if c.spread_merged_cells {
                    SheetScan { merges: merged(s.merges, ranges), ..open }
                } else {
                    open
                };
                let next = SheetScan { in_merge_cells: false, ..met };
                assert(scan_step(events, at + 1 + inner.len(), met, c, formats) == ScanStep::Go(
                    next,
                    at + 2 + inner.len(),
                ));
                assert(then_at == at + 2 + inner.len());
                lemma_merged_joins(s.merges, ranges, merges_of(rest));
                lemma_sheet_is_scanned(events, then_at, rest, next, c, formats, first);
            },
            SheetPart::Other(event) => {
                lemma_has_one(events, at, event);
                assert(scan_step(events, at, s, c, formats) == ScanStep::Go(s, at + 1));
                lemma_sheet_is_scanned(events, then_at, rest, s, c, formats, first);
            },
        }
    } else {
        lemma_wanted_none(cells, c, first);
        assert(s.sheet.cells + wanted_cells(cells, c, first) =~= s.sheet.cells);
    }
}

proof fn lemma_wanted_first(
    cell: CellElement,
    later: Seq<CellElement>,
    c: Criteria,
    first: Option<usize>,
)
    ensures
        wanted_cells(seq![cell] + later, c, first) == (if is_shown(c, cell) && !lies_behind(
            c,
            first,
            cell.row as int,
        ) {
            seq![cell.cell()]
        } else {
            Seq::<CellView>::empty()
        }) + wanted_cells(later, c, first),
{
    let shows = |cell: CellElement| is_shown(c, cell) && !lies_behind(c, first, cell.row as int);
    Seq::filter_distributes_over_add(seq![cell], later, shows);
    reveal_with_fuel(Seq::filter, 2);
    assert(seq![cell].drop_last() =~= Seq::<CellElement>::empty());
    assert(seq![cell].filter(shows) =~= if shows(cell) {
        seq![cell]
    } else {
        Seq::<CellElement>::empty()
    });
}

proof fn lemma_wanted_none(cells: Seq<CellElement>, c: Criteria, first: Option<usize>)
    requires
        forall|i: int|
            0 <= i < cells.len() ==> lies_behind(c, first, (#[trigger] cells[i]).row as int),
    ensures
        wanted_cells(cells, c, first) == Seq::<CellView>::empty(),
    decreases cells.len(),
{
    if cells.len() > 0 {
        let rest = cells.drop_first();
        assert(seq![cells[0]] + rest =~= cells);
        assert forall|i: int| 0 <= i < rest.len() implies lies_behind(
            c,
            first,
            (#[trigger] rest[i]).row as int,
        ) by {
            assert(rest[i] == cells[i + 1]);
        }
        lemma_wanted_none(rest, c, first);
        lemma_wanted_first(cells[0], rest, c, first);
        assert(lies_behind(c, first, cells[0].row as int));
    } else {
        reveal(Seq::filter);
        assert(wanted_cells(cells, c, first) =~= Seq::<CellView>::empty());
    }
}

proof fn lemma_cell_behind(
    events: Seq<XmlView>,
    at: int,
    cell: CellElement,
    s: SheetScan,
    c: Criteria,
    formats: Seq<CellType>,
)
    requires
        has_at(events, at, cell.events()),
        cell.is_placed(s.row_count, s.col_count),
        is_between_cells(s, c),
        lies_behind(c, s.sheet.row_lower, cell.row as int),
    ensures
        scan_from(events, at, s, c, formats) matches Ok(last) && last.sheet == s.sheet,
{
    lemma_sheet_names_differ();
    let start = opening("c"@, cell.attributes);
    let inner = cell.content.events() + seq![XmlView::End("c"@)];
    lemma_has_both(events, at, seq![start], inner);
    lemma_has_one(events, at, start);
    lemma_attribute_value(
        cell.attributes,
        "r"@,
        Some(index_reference(cell.row as nat, cell.col as nat)),
    );
    lemma_attribute_value(cell.attributes, "r"@, None);
    if cell.row < 1048576 && cell.col < 16384 {
        lemma_reference_round_trip(cell.row as nat, cell.col as nat);
    }
    assert(s.sheet.row_after(cell.row as int));
    let stopped = SheetScan { row: cell.row, col: cell.col, col_count: s.col_count + 1, ..s };
    assert(start_cell(s, cell.attributes, c, formats) == Ok::<(SheetScan, bool), ErrorView>(
        (stopped, true),
    ));
    assert(scan_step(events, at, s, c, formats) == ScanStep::Stop(stopped));
}

/// Reading a worksheet gives back the cells of its document, in their order: those that
/// have a value, lie in the range and come within the wanted number of rows. Each has
/// the position of its reference, or the next one where it has none, the type that
/// its attribute `t` or its style names, and the text of its content.
pub proof fn lemma_worksheet_is_read(
    parts: Seq<SheetPart>,
    file_name: Seq<char>,
    name: Seq<char>,
    c: Criteria,
    formats: Seq<CellType>,
)
    requires
        is_sound_sheet(parts, 0, 0, formats, c.error_as_null),
        forall|i: int|
            0 <= i < cells_of(parts).len() ==> !is_faulty(c, #[trigger] cells_of(parts)[i]),
        rows_ascend(cells_of(parts)),
        !c.end_at_empty_row,
        !c.spread_merged_cells,
        c.rows_limit != Some(0usize),
    ensures
        read_sheet_outcome(sheet_events(parts), file_name, name, c, formats) matches Ok(sheet) && {
            &&& sheet.cells == wanted_cells(cells_of(parts), c, first_wanted(cells_of(parts), c))
            &&& sheet.file_name == file_name
            &&& sheet.name == name
        },
{
    let events = sheet_events(parts);
    let start = scan_start(file_name, name, c);
    let first = first_wanted(cells_of(parts), c);
    assert(has_at(events, 0, events));
    lemma_sheet_is_scanned(events, 0, parts, start, c, formats, first);
    lemma_read_sheet_has_name(events, file_name, name, c, formats);
    let last = scan_from(events, 0, start, c, formats)->Ok_0;
    assert(last.sheet.cells =~= wanted_cells(cells_of(parts), c, first));
}

/// Whether two merged ranges have the same top left corner.
pub open spec fn share_corner(a: Merge, b: Merge) -> bool {
    a.0 == b.0 && a.1 == b.1
}

/// Whether no range behind range `i` has the same top left corner.
pub open spec fn is_last_merge(merges: Seq<Merge>, i: int) -> bool {
    &&& 0 <= i < merges.len()
    &&& forall|j: int|
        i < j < merges.len() ==> !share_corner(merges[i], #[trigger] merges[j])
}

/// Whether cell `k` is the last one with a value at its position.
pub open spec fn is_last_value_at(
    cells: Seq<CellElement>,
    c: Criteria,
    k: int,
    row: usize,
    col: usize,
) -> bool {
    &&& 0 <= k < cells.len()
    &&& cells[k].row == row
    &&& cells[k].col == col
    &&& has_value(c, cells[k])
    &&& forall|j: int|
        k < j < cells.len() && (#[trigger] cells[j]).row == row && cells[j].col == col
            ==> !has_value(c, cells[j])
}

spec fn corners_differ(merges: Seq<Merge>) -> bool {
    forall|i: int, j: int|
        0 <= i < j < merges.len() ==> !share_corner(#[trigger] merges[i], #[trigger] merges[j])
}

proof fn lemma_merge_place(merges: Seq<Merge>, row: usize, col: usize)
    ensures
        match merge_place(merges, row, col) {
            Some(place) => 0 <= place < merges.len() && merges[place].0 == row && merges[place].1
                == col,
            None => forall|i: int|
                0 <= i < merges.len() ==> (#[trigger] merges[i]).0 != row || merges[i].1 != col,
        },
    decreases merges.len(),
{
    if merges.len() > 0 && !(merges.last().0 == row && merges.last().1 == col) {
        let rest = merges.drop_last();
        lemma_merge_place(rest, row, col);
        if merge_place(rest, row, col) is None {
            assert forall|i: int| 0 <= i < merges.len() implies (#[trigger] merges[i]).0 != row
                || merges[i].1 != col by {
                if i < rest.len() {
                    assert(merges[i] == rest[i]);
                }
            }
        }
    }
}

proof fn lemma_with_merge(merges: Seq<Merge>, merge: Merge)
    requires
        corners_differ(merges),
    ensures
        corners_differ(with_merge(merges, merge)),
        forall|m: Merge| #[trigger]
            with_merge(merges, merge).contains(m) <==> m == merge || (merges.contains(m)
                && !share_corner(m, merge)),
{
    lemma_merge_place(merges, merge.0, merge.1);
    let now = with_merge(merges, merge);
    match merge_place(merges, merge.0, merge.1) {
        Some(place) => {
            assert(now[place] == merge);
            assert forall|m: Merge| #[trigger] now.contains(m) <==> m == merge || (
            merges.contains(m) && !share_corner(m, merge)) by {
                if now.contains(m) && m != merge {
                    let i = choose|i: int| 0 <= i < now.len() && now[i] == m;
                    assert(merges[i] == m);
                    assert(share_corner(merges[place], merge));
                    if i < place {
                        assert(!share_corner(merges[i], merges[place]));
                    } else {
                        assert(!share_corner(merges[place], merges[i]));
                    }
                }
                if merges.contains(m) && !share_corner(m, merge) {
                    let i = choose|i: int| 0 <= i < merges.len() && merges[i] == m;
                    assert(now[i] == m);
                }
            }
        },
        None => {
            assert(now.last() == merge);
            assert(now[merges.len() as int] == merge);
            assert forall|m: Merge| #[trigger] now.contains(m) <==> m == merge || (
            merges.contains(m) && !share_corner(m, merge)) by {
                if now.contains(m) && m != merge {
                    let i = choose|i: int| 0 <= i < now.len() && now[i] == m;
                    assert(merges[i] == m);
                }
                if merges.contains(m) && !share_corner(m, merge) {
                    let i = choose|i: int| 0 <= i < merges.len() && merges[i] == m;
                    assert(now[i] == m);
                }
            }
        },
    }
}

spec fn is_kept(merges: Seq<Merge>, list: Seq<Merge>, m: Merge) -> bool {
    ||| exists|i: int| #[trigger] is_last_merge(list, i) && list[i] == m
    ||| merges.contains(m) && forall|j: int|
        0 <= j < list.len() ==> !share_corner(m, #[trigger] list[j])
}

proof fn lemma_merged(merges: Seq<Merge>, list: Seq<Merge>)
    requires
        corners_differ(merges),
    ensures
        forall|m: Merge| #[trigger]
            merged(merges, list).contains(m) <==> is_kept(merges, list, m),
    decreases list.len(),
{
    if list.len() > 0 {
        let head = list[0];
        let rest = list.drop_first();
        lemma_with_merge(merges, head);
        lemma_merged(with_merge(merges, head), rest);
        assert forall|m: Merge| #[trigger] merged(merges, list).contains(m) <==> is_kept(
            merges,
            list,
            m,
        ) by {
            let now = with_merge(merges, head);
            assert(now.contains(m) <==> m == head || (merges.contains(m) && !share_corner(
                m,
                head,
            )));
            assert(merged(now, rest).contains(m) <==> is_kept(now, rest, m));
            if is_kept(now, rest, m) {
                if exists|i: int| #[trigger] is_last_merge(rest, i) && rest[i] == m {
                    let i = choose|i: int| #[trigger] is_last_merge(rest, i) && rest[i] == m;
                    assert forall|j: int| i + 1 < j < list.len() implies !share_corner(
                        list[i + 1],
                        #[trigger] list[j],
                    ) by {
                        assert(list[j] == rest[j - 1]);
                    }
                    assert(is_last_merge(list, i + 1));
                } else if m == head {
                    assert forall|j: int| 0 < j < list.len() implies !share_corner(
                        list[0],
                        #[trigger] list[j],
                    ) by {
                        assert(list[j] == rest[j - 1]);
                    }
                    assert(is_last_merge(list, 0));
                } else {
                    assert forall|j: int| 0 <= j < list.len() implies !share_corner(
                        m,
                        #[trigger] list[j],
                    ) by {
                        if j > 0 {
                            assert(list[j] == rest[j - 1]);
                        }
                    }
                }
            }
            if is_kept(merges, list, m) {
                if exists|i: int| #[trigger] is_last_merge(list, i) && list[i] == m {
                    let i = choose|i: int| #[trigger] is_last_merge(list, i) && list[i] == m;
                    if i > 0 {
                        assert(rest[i - 1] == m);
                        assert forall|j: int| i - 1 < j < rest.len() implies !share_corner(
                            rest[i - 1],
                            #[trigger] rest[j],
                        ) by {
                            assert(rest[j] == list[j + 1]);
                        }
                        assert(is_last_merge(rest, i - 1));
                    } else {
                        assert forall|j: int| 0 <= j < rest.len() implies !share_corner(
                            m,
                            #[trigger] rest[j],
                        ) by {
                            assert(rest[j] == list[j + 1]);
                        }
                    }
                } else {
                    assert(!share_corner(m, list[0]));
                    assert forall|j: int| 0 <= j < rest.len() implies !share_corner(
                        m,
                        #[trigger] rest[j],
                    ) by {
                        assert(rest[j] == list[j + 1]);
                    }
                }
            }
        }
    } else {
        assert forall|m: Merge| #[trigger] merged(merges, list).contains(m) <==> is_kept(
            merges,
            list,
            m,
        ) by {}
    }
}

proof fn lemma_stored_with(
    stored: Map<(usize, usize), (CellType, Seq<char>)>,
    cells: Seq<CellElement>,
    c: Criteria,
    row: usize,
    col: usize,
)
    requires
        c.spread_merged_cells,
    ensures
        ({
            let all = stored_with(stored, cells, c);
            &&& forall|k: int| #[trigger]
                is_last_value_at(cells, c, k, row, col) ==> all.contains_key((row, col)) && all[(
                row,
                col,
            )] == (cells[k].kind, cells[k].content.text())
            &&& (all.contains_key((row, col)) && !stored.contains_key((row, col))) ==> exists|
                k: int,
            | #[trigger] is_last_value_at(cells, c, k, row, col)
            &&& (forall|k: int|
                0 <= k < cells.len() && (#[trigger] cells[k]).row == row && cells[k].col == col
                    ==> !has_value(c, cells[k])) ==> all.contains_key((row, col))
                == stored.contains_key((row, col)) && all[(row, col)] == stored[(row, col)]
        }),
    decreases cells.len(),
{
    let all = stored_with(stored, cells, c);
    if cells.len() > 0 {
        let cell = cells[0];
        let rest = cells.drop_first();
        let now = if has_value(c, cell) {
            stored.insert((cell.row, cell.col), (cell.kind, cell.content.text()))
        } else {
            stored
        };
        lemma_stored_with(now, rest, c, row, col);
        assert forall|k: int| #[trigger] is_last_value_at(cells, c, k, row, col) implies (
        all.contains_key((row, col)) && all[(row, col)] == (
            cells[k].kind,
            cells[k].content.text(),
        )) by {
            if k > 0 {
                assert(rest[k - 1] == cells[k]);
                assert forall|j: int|
                    k - 1 < j < rest.len() && (#[trigger] rest[j]).row == row && rest[j].col
                        == col implies !has_value(c, rest[j]) by {
                    assert(rest[j] == cells[j + 1]);
                }
                assert(is_last_value_at(rest, c, k - 1, row, col));
            } else {
                assert forall|j: int|
                    0 <= j < rest.len() && (#[trigger] rest[j]).row == row && rest[j].col
                        == col implies !has_value(c, rest[j]) by {
                    assert(rest[j] == cells[j + 1]);
                }
            }
        }
        if all.contains_key((row, col)) && !stored.contains_key((row, col)) {
            if exists|k: int| #[trigger] is_last_value_at(rest, c, k, row, col) {
                let k = choose|k: int| #[trigger] is_last_value_at(rest, c, k, row, col);
                assert(cells[k + 1] == rest[k]);
                assert forall|j: int|
                    k + 1 < j < cells.len() && (#[trigger] cells[j]).row == row && cells[j].col
                        == col implies !has_value(c, cells[j]) by {
                    assert(cells[j] == rest[j - 1]);
                }
                assert(is_last_value_at(cells, c, k + 1, row, col));
            } else {
                assert(now.contains_key((row, col)));
                assert(cell.row == row && cell.col == col && has_value(c, cell));
                if exists|k: int|
                    0 <= k < rest.len() && (#[trigger] rest[k]).row == row && rest[k].col == col
                        && has_value(c, rest[k]) {
                    lemma_some_value_is_last(rest, c, row, col, rest.len() as int);
                }
                assert forall|j: int|
                    0 < j < cells.len() && (#[trigger] cells[j]).row == row && cells[j].col
                        == col implies !has_value(c, cells[j]) by {
                    assert(cells[j] == rest[j - 1]);
                }
                assert(is_last_value_at(cells, c, 0, row, col));
            }
        }
        if forall|k: int|
            0 <= k < cells.len() && (#[trigger] cells[k]).row == row && cells[k].col == col
                ==> !has_value(c, cells[k]) {
            assert(!(cells[0].row == row && cells[0].col == col && has_value(c, cells[0])));
            assert forall|k: int|
                0 <= k < rest.len() && (#[trigger] rest[k]).row == row && rest[k].col
                    == col implies !has_value(c, rest[k]) by {
                assert(rest[k] == cells[k + 1]);
            }
        }
    }
}

proof fn lemma_some_value_is_last(
    cells: Seq<CellElement>,
    c: Criteria,
    row: usize,
    col: usize,
    n: int,
)
    requires
        0 <= n <= cells.len(),
        exists|k: int|
            0 <= k < n && (#[trigger] cells[k]).row == row && cells[k].col == col && has_value(
                c,
                cells[k],
            ),
        forall|k: int|
            n <= k < cells.len() && (#[trigger] cells[k]).row == row && cells[k].col == col
                ==> !has_value(c, cells[k]),
    ensures
        exists|k: int| #[trigger] is_last_value_at(cells, c, k, row, col),
    decreases n,
{
    let cell = cells[n - 1];
    if cell.row == row && cell.col == col && has_value(c, cell) {
        assert(is_last_value_at(cells, c, n - 1, row, col));
    } else {
        lemma_some_value_is_last(cells, c, row, col, n - 1);
    }
}

/// Whether a worksheet's document can be read with merged ranges spread up to its end.
pub open spec fn is_spreadable(
    parts: Seq<SheetPart>,
    c: Criteria,
    formats: Seq<CellType>,
) -> bool {
    &&& c.spread_merged_cells
    &&& !c.end_at_empty_row
    &&& c.rows_limit is None
    &&& is_sound_sheet(parts, 0, 0, formats, c.error_as_null)
    &&& rows_ascend(cells_of(parts))
    &&& forall|i: int|
        0 <= i < cells_of(parts).len() ==> {
            let cell = #[trigger] cells_of(parts)[i];
            !is_faulty(c, cell) && !lies_behind(c, None, cell.row as int)
        }
}

proof fn lemma_spreadable_scan(
    parts: Seq<SheetPart>,
    file_name: Seq<char>,
    name: Seq<char>,
    c: Criteria,
    formats: Seq<CellType>,
) -> (s: SheetScan)
    requires
        is_spreadable(parts, c, formats),
    ensures
        scan_from(sheet_events(parts), 0, scan_start(file_name, name, c), c, formats) == Ok::<
            SheetScan,
            ErrorView,
        >(s),
        s.sheet.cells == wanted_cells(cells_of(parts), c, None),
        s.merges == merged(Seq::empty(), merges_of(parts)),
        s.stored == stored_with(Map::empty(), cells_of(parts), c),
{
    let events = sheet_events(parts);
    let start = scan_start(file_name, name, c);
    let cells = cells_of(parts);
    let first = first_wanted(cells, c);
    assert(has_at(events, 0, events));
    assert forall|row: int| #[trigger] lies_behind(c, first, row) == lies_behind(c, None, row) by {}
    assert forall|i: int| 0 <= i < cells.len() implies !lies_behind(
        c,
        first,
        (#[trigger] cells[i]).row as int,
    ) by {}
    lemma_sheet_is_scanned(events, 0, parts, start, c, formats, first);
    let s = scan_from(events, 0, start, c, formats)->Ok_0;
    assert(s.sheet.cells =~= wanted_cells(cells, c, first));
    lemma_wanted_alike(cells, c, first);
    s
}

proof fn lemma_wanted_alike(cells: Seq<CellElement>, c: Criteria, first: Option<usize>)
    requires
        c.rows_limit is None,
    ensures
        wanted_cells(cells, c, first) == wanted_cells(cells, c, None),
    decreases cells.len(),
{
    if cells.len() > 0 {
        let rest = cells.drop_first();
        assert(seq![cells[0]] + rest =~= cells);
        lemma_wanted_first(cells[0], rest, c, first);
        lemma_wanted_first(cells[0], rest, c, None);
        lemma_wanted_alike(rest, c, first);
    } else {
        lemma_wanted_none(cells, c, first);
        lemma_wanted_none(cells, c, None);
    }
}

/// Where merged ranges are spread, every position in the wanted range that lies in
/// a merged range of the document has a cell, as long as the top left cell of the
/// range has a value. Of ranges with the same top left cell the last one counts. It
/// makes no difference how many rows and columns a range has.
pub proof fn lemma_document_ranges_are_filled(
    parts: Seq<SheetPart>,
    file_name: Seq<char>,
    name: Seq<char>,
    c: Criteria,
    formats: Seq<CellType>,
    i: int,
    k: int,
    row: int,
    col: int,
)
    requires
        is_spreadable(parts, c, formats),
        is_last_merge(merges_of(parts), i),
        is_last_value_at(
            cells_of(parts),
            c,
            k,
            merges_of(parts)[i].0,
            merges_of(parts)[i].1,
        ),
        merges_of(parts)[i].0 <= row <= merges_of(parts)[i].2,
        merges_of(parts)[i].1 <= col <= merges_of(parts)[i].3,
        lies_in(c.range, row, col),
    ensures
        read_sheet_outcome(sheet_events(parts), file_name, name, c, formats) matches Ok(sheet)
            && has_cell_at(sheet, row, col),
{
    let events = sheet_events(parts);
    let merge = merges_of(parts)[i];
    let s = lemma_spreadable_scan(parts, file_name, name, c, formats);
    lemma_merged(Seq::empty(), merges_of(parts));
    assert(is_kept(Seq::empty(), merges_of(parts), merge));
    assert(s.merges.contains(merge));
    lemma_stored_with(Map::empty(), cells_of(parts), c, merge.0, merge.1);
    lemma_read_cells_are_wanted(events, file_name, name, c, formats);
    let sheet = read_sheet_outcome(events, file_name, name, c, formats)->Ok_0;
    assert(sheet.range == c.range && sheet.rows_limit == c.rows_limit);
    if (row, col) != (merge.0 as int, merge.1 as int) {
        lemma_merged_ranges_are_filled(
            events,
            file_name,
            name,
            c,
            formats,
            merge,
            row,
            col,
        );
    } else {
        let cell = cells_of(parts)[k];
        assert(is_shown(c, cell) && !lies_behind(c, None, cell.row as int));
        lemma_wanted_contains(cells_of(parts), c, None, k);
        lemma_spread_cells_hold_corner_values(events, file_name, name, c, formats, cell.cell());
        let n = choose|n: int| 0 <= n < sheet.cells.len() && sheet.cells[n] == cell.cell();
        assert(sheet.cells[n].row == row && sheet.cells[n].col == col);
    }
}

proof fn lemma_wanted_contains(
    cells: Seq<CellElement>,
    c: Criteria,
    first: Option<usize>,
    k: int,
)
    requires
        0 <= k < cells.len(),
        is_shown(c, cells[k]),
        !lies_behind(c, first, cells[k].row as int),
    ensures
        wanted_cells(cells, c, first).contains(cells[k].cell()),
    decreases cells.len(),
{
    let rest = cells.drop_first();
    assert(seq![cells[0]] + rest =~= cells);
    lemma_wanted_first(cells[0], rest, c, first);
    let all = wanted_cells(cells, c, first);
    if k > 0 {
        assert(rest[k - 1] == cells[k]);
        lemma_wanted_contains(rest, c, first, k - 1);
        let later = wanted_cells(rest, c, first);
        let n = choose|n: int| 0 <= n < later.len() && later[n] == cells[k].cell();
        assert(all[all.len() - later.len() + n] == cells[k].cell());
    } else {
        assert(all[0] == cells[0].cell());
    }
}

proof fn lemma_wanted_origin(
    cells: Seq<CellElement>,
    c: Criteria,
    first: Option<usize>,
    n: int,
) -> (k: int)
    requires
        0 <= n < wanted_cells(cells, c, first).len(),
    ensures
        0 <= k < cells.len(),
        is_shown(c, cells[k]),
        wanted_cells(cells, c, first)[n] == cells[k].cell(),
    decreases cells.len(),
{
    if cells.len() == 0 {
        lemma_wanted_none(cells, c, first);
        0
    } else {
        let rest = cells.drop_first();
        assert(seq![cells[0]] + rest =~= cells);
        lemma_wanted_first(cells[0], rest, c, first);
        let all = wanted_cells(cells, c, first);
        let later = wanted_cells(rest, c, first);
        let skipped = all.len() - later.len();
        if n < skipped {
            0
        } else {
            assert(all[n] == later[n - skipped]);
            let k = lemma_wanted_origin(rest, c, first, n - skipped);
            assert(rest[k] == cells[k + 1]);
            k + 1
        }
    }
}

/// Where merged ranges are spread, every cell of the sheet is one of the document's, or
/// lies in a merged range of the document and holds the type and the value of the
/// range's top left cell; and no cell of the document that is shown is lost.
pub proof fn lemma_document_cells_are_spread(
    parts: Seq<SheetPart>,
    file_name: Seq<char>,
    name: Seq<char>,
    c: Criteria,
    formats: Seq<CellType>,
    cell: CellView,
)
    requires
        is_spreadable(parts, c, formats),
    ensures
        read_sheet_outcome(sheet_events(parts), file_name, name, c, formats) matches Ok(sheet) && {
            &&& sheet.cells.contains(cell) ==> (exists|k: int|
                0 <= k < cells_of(parts).len() && is_shown(c, #[trigger] cells_of(parts)[k])
                    && cells_of(parts)[k].cell() == cell) || (exists|i: int, k: int| #[trigger]
                is_filled_by(parts, c, i, k, cell))
            &&& (exists|k: int|
                0 <= k < cells_of(parts).len() && is_shown(c, #[trigger] cells_of(parts)[k])
                    && cells_of(parts)[k].cell() == cell) ==> sheet.cells.contains(cell)
        },
{
    let events = sheet_events(parts);
    let s = lemma_spreadable_scan(parts, file_name, name, c, formats);
    lemma_spread_cells_hold_corner_values(events, file_name, name, c, formats, cell);
    let sheet = read_sheet_outcome(events, file_name, name, c, formats)->Ok_0;
    if exists|k: int|
        0 <= k < cells_of(parts).len() && is_shown(c, #[trigger] cells_of(parts)[k])
            && cells_of(parts)[k].cell() == cell {
        let k = choose|k: int|
            0 <= k < cells_of(parts).len() && is_shown(c, #[trigger] cells_of(parts)[k])
                && cells_of(parts)[k].cell() == cell;
        lemma_wanted_contains(cells_of(parts), c, None, k);
    }
    if sheet.cells.contains(cell) {
        if s.sheet.cells.contains(cell) {
            let n = choose|n: int| 0 <= n < s.sheet.cells.len() && s.sheet.cells[n] == cell;
            let k = lemma_wanted_origin(cells_of(parts), c, None, n);
            assert(is_shown(c, cells_of(parts)[k]));
        } else {
            let j = choose|j: int|
                0 <= j < s.merges.len() && is_spread_by(#[trigger] s.merges[j], s.stored, cell);
            let merge = s.merges[j];
            lemma_merged(Seq::empty(), merges_of(parts));
            assert(s.merges.contains(merge));
            let i = choose|i: int|
                #[trigger] is_last_merge(merges_of(parts), i) && merges_of(parts)[i] == merge;
            lemma_stored_with(Map::empty(), cells_of(parts), c, merge.0, merge.1);
            let k = choose|k: int| #[trigger]
                is_last_value_at(cells_of(parts), c, k, merge.0, merge.1);
            assert(is_filled_by(parts, c, i, k, cell));
        }
    }
}

/// Whether a cell lies in merged range `i` of a document and holds the type and the
/// value of cell `k`, which is the last one with a value in its top left corner.
pub open spec fn is_filled_by(
    parts: Seq<SheetPart>,
    c: Criteria,
    i: int,
    k: int,
    cell: CellView,
) -> bool {
    let merge = merges_of(parts)[i];
    &&& is_last_merge(merges_of(parts), i)
    &&& is_last_value_at(cells_of(parts), c, k, merge.0, merge.1)
    &&& merge.0 <= cell.row <= merge.2
    &&& merge.1 <= cell.col <= merge.3
    &&& cell.kind == cells_of(parts)[k].kind
    &&& cell.value == cells_of(parts)[k].content.text()
}

/// How many rows ended and how many cells of the last row came, behind some parts of
/// a document.
pub open spec fn place_behind(parts: Seq<SheetPart>, rows: nat, cols: nat) -> (nat, nat)
    decreases parts.len(),
{
    if parts.len() == 0 {
        (rows, cols)
    } else {
        match parts[0] {
            SheetPart::Cell(_) => place_behind(parts.drop_first(), rows, cols + 1),
            SheetPart::RowEnd => place_behind(parts.drop_first(), rows + 1, 0),
            _ => place_behind(parts.drop_first(), rows, cols),
        }
    }
}

/// Reading passes over parts of a document without an end or an error, where all their
/// cells come within the wanted rows and none is an error.
pub proof fn lemma_front_is_scanned(
    events: Seq<XmlView>,
    at: int,
    parts: Seq<SheetPart>,
    s: SheetScan,
    c: Criteria,
    formats: Seq<CellType>,
) -> (next: SheetScan)
    requires
        has_at(events, at, sheet_events(parts)),
        is_sound_sheet(parts, s.row_count, s.col_count, formats, c.error_as_null),
        forall|i: int|
            0 <= i < cells_of(parts).len() ==> {
                let cell = #[trigger] cells_of(parts)[i];
                !is_faulty(c, cell) && !lies_behind(c, None, cell.row as int)
            },
        is_between_cells(s, c),
        !s.in_merge_cells,
        !c.end_at_empty_row,
        c.rows_limit is None,
    ensures
        scan_from(events, at, s, c, formats) == scan_from(
            events,
            at + sheet_events(parts).len(),
            next,
            c,
            formats,
        ),
        is_between_cells(next, c),
        !next.in_merge_cells,
        next.sheet.file_name == s.sheet.file_name,
        next.sheet.name == s.sheet.name,
        (next.row_count, next.col_count) == place_behind(parts, s.row_count, s.col_count),
    decreases parts.len(),
{
    lemma_sheet_names_differ();
    let cells = cells_of(parts);
    if parts.len() > 0 {
        let part = parts[0];
        let rest = parts.drop_first();
        lemma_has_both(events, at, part.events(), sheet_events(rest));
        let then_at = at + part.events().len();
        let next = match part {
            SheetPart::Cell(cell) => {
                assert(cells[0] == cell);
                assert forall|i: int| 0 <= i < cells_of(rest).len() implies {
                    let cell = #[trigger] cells_of(rest)[i];
                    !is_faulty(c, cell) && !lies_behind(c, None, cell.row as int)
                } by {
                    assert(cells_of(rest)[i] == cells[i + 1]);
                }
                lemma_cell_element(events, at, cell, s, c, formats)
            },
            SheetPart::RowEnd => {
                lemma_has_one(events, at, XmlView::End("row"@));
                let next = SheetScan { row_count: s.row_count + 1, col_count: 0, ..s };
                assert(scan_step(events, at, s, c, formats) == ScanStep::Go(next, at + 1));
                next
            },
            SheetPart::Merges(attributes, merges) => {
                let start = opening("mergeCells"@, attributes);
                let end = XmlView::End("mergeCells"@);
                let inner = merge_events(merges);
                lemma_has_both(events, at, seq![start], inner + seq![end]);
                lemma_has_one(events, at, start);
                lemma_has_both(events, at + 1, inner, seq![end]);
                lemma_has_one(events, at + 1 + inner.len(), end);
                let open = SheetScan { in_merge_cells: c.spread_merged_cells, ..s };
                assert(scan_step(events, at, s, c, formats) == ScanStep::Go(open, at + 1));
                lemma_merges_are_met(events, at + 1, merges, open, c, formats);
                let met = if c.spread_merged_cells {
                    SheetScan { merges: merged(s.merges, ranges_of(merges)), ..open }
                } else {
                    open
                };
                let next = SheetScan { in_merge_cells: false, ..met };
                assert(scan_step(events, at + 1 + inner.len(), met, c, formats) == ScanStep::Go(
                    next,
                    at + 2 + inner.len(),
                ));
                assert(then_at == at + 2 + inner.len());
                next
            },
            SheetPart::Other(event) => {
                lemma_has_one(events, at, event);
                assert(scan_step(events, at, s, c, formats) == ScanStep::Go(s, at + 1));
                s
            },
        };
        lemma_front_is_scanned(events, then_at, rest, next, c, formats)
    } else {
        s
    }
}

/// Whether the cells in front of a faulty one are read without an error: they are
/// sound, no error is among them, and none ends the reading.
pub open spec fn is_front(front: Seq<SheetPart>, c: Criteria, formats: Seq<CellType>) -> bool {
    &&& is_sound_sheet(front, 0, 0, formats, c.error_as_null)
    &&& !c.end_at_empty_row
    &&& c.rows_limit is None
    &&& forall|i: int|
        0 <= i < cells_of(front).len() ==> {
            let cell = #[trigger] cells_of(front)[i];
            !is_faulty(c, cell) && !lies_behind(c, None, cell.row as int)
        }
}

proof fn lemma_front_is_passed(
    front: Seq<SheetPart>,
    rest: Seq<XmlView>,
    file_name: Seq<char>,
    name: Seq<char>,
    c: Criteria,
    formats: Seq<CellType>,
) -> (next: SheetScan)
    requires
        is_front(front, c, formats),
    ensures
        ({
            let events = sheet_events(front) + rest;
            let at = sheet_events(front).len() as int;
            &&& scan_from(events, 0, scan_start(file_name, name, c), c, formats) == scan_from(
                events,
                at,
                next,
                c,
                formats,
            )
            &&& has_at(events, at, rest)
        }),
        is_between_cells(next, c),
        next.sheet.file_name == file_name,
        next.sheet.name == name,
        (next.row_count, next.col_count) == place_behind(front, 0, 0),
{
    let events = sheet_events(front) + rest;
    let at = sheet_events(front).len() as int;
    assert(events.subrange(0, at) =~= sheet_events(front));
    assert(events.subrange(at, at + rest.len()) =~= rest);
    lemma_front_is_scanned(events, 0, front, scan_start(file_name, name, c), c, formats)
}

/// A worksheet with an error in a cell is not read: the first one in the range is
/// reported, with its file, its sheet, its reference and its value, unless errors or
/// that value count as no value.
pub proof fn lemma_first_error_is_reported(
    front: Seq<SheetPart>,
    cell: CellElement,
    rest: Seq<XmlView>,
    file_name: Seq<char>,
    name: Seq<char>,
    c: Criteria,
    formats: Seq<CellType>,
)
    requires
        is_front(front, c, formats),
        cell.is_sound(
            place_behind(front, 0, 0).0,
            place_behind(front, 0, 0).1,
            formats,
            c.error_as_null,
        ),
        cell.kind == CellType::Error,
        lies_in(c.range, cell.row as int, cell.col as int),
        !is_no_value(c, cell.content.text()),
    ensures
        read_sheet_outcome(
            sheet_events(front) + (cell.events() + rest),
            file_name,
            name,
            c,
            formats,
        ) == Err::<SheetView, ErrorView>(
            ErrorView::CellValueError(
                file_name,
                name,
                index_reference(cell.row as nat, cell.col as nat),
                cell.content.text(),
            ),
        ),
{
    let next = lemma_front_is_passed(front, cell.events() + rest, file_name, name, c, formats);
    let events = sheet_events(front) + (cell.events() + rest);
    let at = sheet_events(front).len() as int;
    lemma_has_both(events, at, cell.events(), rest);
    lemma_error_cell_fails(events, at, cell, next, c, formats);
}

/// A worksheet with a cell whose style the workbook does not define is not read, where
/// the attribute `t` of the cell names no type.
pub proof fn lemma_undefined_style_is_reported(
    front: Seq<SheetPart>,
    cell: CellElement,
    style: nat,
    rest: Seq<XmlView>,
    file_name: Seq<char>,
    name: Seq<char>,
    c: Criteria,
    formats: Seq<CellType>,
)
    requires
        is_front(front, c, formats),
        cell.is_placed(place_behind(front, 0, 0).0, place_behind(front, 0, 0).1),
        says(cell.attributes, "t"@, cell.t),
        !names_type(cell.t),
        says(cell.attributes, "s"@, Some(decimal(style))),
        formats.len() <= style <= usize::MAX,
        lies_in(c.range, cell.row as int, cell.col as int),
    ensures
        read_sheet_outcome(
            sheet_events(front) + (cell.events() + rest),
            file_name,
            name,
            c,
            formats,
        ) == Err::<SheetView, ErrorView>(
            ErrorView::CellValueError(
                file_name,
                name,
                index_reference(cell.row as nat, cell.col as nat),
                "invalid style index "@ + decimal(style) + ": workbook defines "@ + decimal(
                    formats.len(),
                ) + " styles"@,
            ),
        ),
{
    let next = lemma_front_is_passed(front, cell.events() + rest, file_name, name, c, formats);
    let events = sheet_events(front) + (cell.events() + rest);
    let at = sheet_events(front).len() as int;
    lemma_has_both(events, at, cell.events(), rest);
    lemma_unknown_style_fails(events, at, cell, style, next, c, formats);
}

/// A worksheet with a cell whose attribute `r` denotes no cell is not read: the text
/// is reported with the file and the sheet.
pub proof fn lemma_invalid_reference_is_reported(
    front: Seq<SheetPart>,
    attributes: Seq<Result<AttributeView, Seq<char>>>,
    text: Seq<char>,
    rest: Seq<XmlView>,
    file_name: Seq<char>,
    name: Seq<char>,
    c: Criteria,
    formats: Seq<CellType>,
    i: int,
)
    requires
        is_front(front, c, formats),
        says(attributes, "r"@, Some(text)),
        text.len() == 0 || !('A' <= text[0] <= 'Z' || 'a' <= text[0] <= 'z') || !('0'
            <= text.last() <= '9') || (0 <= i < text.len() && !('A' <= text[i] <= 'Z' || 'a'
            <= text[i] <= 'z' || '0' <= text[i] <= '9')),
    ensures
        read_sheet_outcome(
            sheet_events(front) + (seq![opening("c"@, attributes)] + rest),
            file_name,
            name,
            c,
            formats,
        ) == Err::<SheetView, ErrorView>(ErrorView::CellReferenceError(file_name, name, text)),
{
    let start = seq![opening("c"@, attributes)];
    let next = lemma_front_is_passed(front, start + rest, file_name, name, c, formats);
    let events = sheet_events(front) + (start + rest);
    let at = sheet_events(front).len() as int;
    lemma_has_both(events, at, start, rest);
    lemma_has_one(events, at, opening("c"@, attributes));
    lemma_bad_reference_fails(events, at, attributes, text, next, c, formats, i);
}

/// A worksheet whose markup has a fault is not read: the message of the fault is
/// reported.
pub proof fn lemma_fault_is_reported(
    front: Seq<SheetPart>,
    message: Seq<char>,
    rest: Seq<XmlView>,
    file_name: Seq<char>,
    name: Seq<char>,
    c: Criteria,
    formats: Seq<CellType>,
)
    requires
        is_front(front, c, formats),
    ensures
        read_sheet_outcome(
            sheet_events(front) + (seq![XmlView::Fault(message)] + rest),
            file_name,
            name,
            c,
            formats,
        ) == Err::<SheetView, ErrorView>(ErrorView::Xml(message)),
{
    let fault = seq![XmlView::Fault(message)];
    let next = lemma_front_is_passed(front, fault + rest, file_name, name, c, formats);
    let events = sheet_events(front) + (fault + rest);
    let at = sheet_events(front).len() as int;
    lemma_has_both(events, at, fault, rest);
    lemma_has_one(events, at, XmlView::Fault(message));
    assert(scan_step(events, at, next, c, formats) == ScanStep::Fail(ErrorView::Xml(message)));
}

} // verus!
