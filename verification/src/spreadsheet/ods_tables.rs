//! Whole OpenDocument tables and the sheets that are read of them.

use crate::error::ErrorView;
use crate::helpers::text::decimal;
use crate::helpers::xml::AttributeView;
use crate::helpers::xml::XmlView;
use crate::helpers::xml_laws::has_at;
use crate::helpers::xml_laws::lemma_attribute_number;
use crate::helpers::xml_laws::lemma_attribute_value;
use crate::helpers::xml_laws::lemma_has_both;
use crate::helpers::xml_laws::lemma_has_one;
use crate::helpers::xml_laws::opening;
use crate::helpers::xml_laws::says;
use crate::spreadsheet::cell::CellType;
use crate::spreadsheet::cell::CellView;
use crate::spreadsheet::criteria::Criteria;
use crate::spreadsheet::ods::lemma_table_bounds;
use crate::spreadsheet::ods::ods_sheets_from;
use crate::spreadsheet::ods::search_from;
use crate::spreadsheet::ods::table_from;
use crate::spreadsheet::ods::table_start;
use crate::spreadsheet::ods::table_step;
use crate::spreadsheet::ods::TableScan;
use crate::spreadsheet::ods::TableSearch;
use crate::spreadsheet::ods_document::block_cells;
use crate::spreadsheet::ods_document::is_aside;
use crate::spreadsheet::ods_document::is_between_table_cells;
use crate::spreadsheet::ods_document::is_in_block;
use crate::spreadsheet::ods_document::lemma_no_block_cells;
use crate::spreadsheet::ods_document::lemma_table_cell_element;
use crate::spreadsheet::ods_document::TableCell;
use crate::spreadsheet::ods_naming::lemma_table_keeps_name;
use crate::spreadsheet::sheet::SheetView;
use vstd::prelude::*;

verus! {

/// A row element.
pub struct RowElement {
    /// The attributes.
    pub attributes: Seq<Result<AttributeView, Seq<char>>>,
    /// The number of rows that are given as repeated.
    pub repeated: Option<nat>,
    /// The cell elements.
    pub cells: Seq<TableCell>,
}

/// The events of cell elements.
pub open spec fn cells_events(cells: Seq<TableCell>) -> Seq<XmlView>
    decreases cells.len(),
{
    if cells.len() == 0 {
        Seq::empty()
    } else {
        cells[0].events() + cells_events(cells.drop_first())
    }
}

/// How many columns cell elements stand for.
pub open spec fn width(cells: Seq<TableCell>) -> nat
    decreases cells.len(),
{
    if cells.len() == 0 {
        0
    } else {
        cells[0].columns() + width(cells.drop_first())
    }
}

/// Whether all cell elements say what is noted beside them and none is an error.
pub open spec fn are_sound_cells(cells: Seq<TableCell>, error_as_null: bool) -> bool {
    forall|i: int|
        0 <= i < cells.len() ==> (#[trigger] cells[i]).is_sound(error_as_null) && cells[i].kind
            != CellType::Error
}

impl RowElement {
    /// The events of this element.
    pub open spec fn events(self) -> Seq<XmlView> {
        seq![opening("table:table-row"@, self.attributes)] + (cells_events(self.cells) + seq![
            XmlView::End("table:table-row"@),
        ])
    }

    /// How many rows this element stands for.
    pub open spec fn rows(self) -> nat {
        match self.repeated {
            Some(count) => count,
            None => 1,
        }
    }

    /// Whether the attributes and the cells say what is noted beside them.
    pub open spec fn is_sound(self, error_as_null: bool) -> bool {
        &&& self.repeated matches Some(count) ==> count <= usize::MAX
        &&& says(
            self.attributes,
            "table:number-rows-repeated"@,
            match self.repeated {
                Some(count) => Some(decimal(count)),
                None => None,
            },
        )
        &&& are_sound_cells(self.cells, error_as_null)
        &&& width(self.cells) <= usize::MAX
    }
}

/// A part of a table.
pub enum TablePart {
    /// A row.
    Row(RowElement),
    /// Any other event outside of rows.
    Other(XmlView),
}

impl TablePart {
    /// The events of this part.
    pub open spec fn events(self) -> Seq<XmlView> {
        match self {
            TablePart::Row(row) => row.events(),
            TablePart::Other(event) => seq![event],
        }
    }

    /// How many rows this part stands for.
    pub open spec fn rows(self) -> nat {
        match self {
            TablePart::Row(row) => row.rows(),
            TablePart::Other(_) => 0,
        }
    }

    /// Whether the events say what is noted beside them.
    pub open spec fn is_sound(self, error_as_null: bool) -> bool {
        match self {
            TablePart::Row(row) => row.is_sound(error_as_null),
            TablePart::Other(event) => is_aside(event),
        }
    }
}

/// The events of a table's parts.
pub open spec fn parts_events(parts: Seq<TablePart>) -> Seq<XmlView>
    decreases parts.len(),
{
    if parts.len() == 0 {
        Seq::empty()
    } else {
        parts[0].events() + parts_events(parts.drop_first())
    }
}

/// How many rows a table's parts stand for.
pub open spec fn height(parts: Seq<TablePart>) -> nat
    decreases parts.len(),
{
    if parts.len() == 0 {
        0
    } else {
        parts[0].rows() + height(parts.drop_first())
    }
}

/// Whether all parts say what is noted beside them.
pub open spec fn is_sound_table(parts: Seq<TablePart>, error_as_null: bool) -> bool {
    forall|i: int| 0 <= i < parts.len() ==> (#[trigger] parts[i]).is_sound(error_as_null)
}

/// Whether a cell is one of those that cell elements, the first of which starts in
/// column `col`, stand for in some rows.
pub open spec fn stands_in_row(
    cells: Seq<TableCell>,
    col: int,
    rows: (int, int),
    c: Criteria,
    cell: CellView,
) -> bool
    decreases cells.len(),
{
    cells.len() > 0 && {
        let next = col + cells[0].columns();
        ||| is_in_block(c, cell, cells[0].kind, cells[0].value, rows, (col, next))
        ||| stands_in_row(cells.drop_first(), next, rows, c, cell)
    }
}

/// Whether a cell is one of those that a table's parts, the first of which starts in
/// row `row`, stand for.
pub open spec fn stands_in_table(
    parts: Seq<TablePart>,
    row: int,
    c: Criteria,
    cell: CellView,
) -> bool
    decreases parts.len(),
{
    parts.len() > 0 && {
        let next = row + parts[0].rows();
        ||| parts[0] matches TablePart::Row(element) && stands_in_row(
            element.cells,
            0,
            (row, next),
            c,
            cell,
        )
        ||| stands_in_table(parts.drop_first(), next, c, cell)
    }
}

/// The cells that cell elements, the first of which starts in column `col`, stand for in
/// some rows: element by element, each of them row by row.
pub open spec fn cells_of_row(
    cells: Seq<TableCell>,
    col: int,
    rows: (int, int),
    c: Criteria,
) -> Seq<CellView>
    decreases cells.len(),
{
    if cells.len() == 0 {
        Seq::empty()
    } else {
        let next = col + cells[0].columns();
        block_cells(c, cells[0].kind, cells[0].value, rows, (col, next)) + cells_of_row(
            cells.drop_first(),
            next,
            rows,
            c,
        )
    }
}

/// The cells that a table's parts, the first of which starts in row `row`, stand for, in
/// the order of the parts.
pub open spec fn cells_of_table(parts: Seq<TablePart>, row: int, c: Criteria) -> Seq<CellView>
    decreases parts.len(),
{
    if parts.len() == 0 {
        Seq::empty()
    } else {
        let next = row + parts[0].rows();
        let more = cells_of_table(parts.drop_first(), next, c);
        match parts[0] {
            TablePart::Row(element) => cells_of_row(element.cells, 0, (row, next), c) + more,
            TablePart::Other(_) => more,
        }
    }
}

proof fn lemma_table_names_differ()
    ensures
        "table:table"@ != "table:table-row"@,
        "table:table-row"@ != "table:table-cell"@,
        "table:table-row"@ != "table:covered-table-cell"@,
        "office:annotation"@ != "table:table-row"@,
        "office:spreadsheet"@ != "table:table"@,
        "office:spreadsheet"@ != "table:table-row"@,
{
    reveal_strlit("table:table");
    reveal_strlit("table:table-row");
    reveal_strlit("table:table-cell");
    reveal_strlit("table:covered-table-cell");
    reveal_strlit("office:annotation");
    reveal_strlit("office:spreadsheet");
    assert("table:table"@.len() == 11);
    assert("table:table-row"@.len() == 15);
    assert("table:table-cell"@.len() == 16);
    assert("table:covered-table-cell"@.len() == 24);
    assert("office:annotation"@.len() == 17);
    assert("office:spreadsheet"@.len() == 18);
}

proof fn lemma_cells_are_read(
    events: Seq<XmlView>,
    at: int,
    cells: Seq<TableCell>,
    s: TableScan,
    c: Criteria,
    cell: CellView,
) -> (next: TableScan)
    requires
        has_at(events, at, cells_events(cells)),
        are_sound_cells(cells, c.error_as_null),
        is_between_table_cells(s, c),
        !c.end_at_empty_row,
        c.rows_limit is None,
        s.row + s.row_count <= usize::MAX,
        s.col + width(cells) <= usize::MAX,
    ensures
        table_from(events, at, s, c) == table_from(events, at + cells_events(cells).len(), next, c),
        is_between_table_cells(next, c),
        next.row == s.row,
        next.row_count == s.row_count,
        next.sheet.cells.contains(cell) <==> s.sheet.cells.contains(cell) || stands_in_row(
            cells,
            s.col as int,
            (s.row as int, s.row + s.row_count),
            c,
            cell,
        ),
        next.sheet.cells == s.sheet.cells + cells_of_row(
            cells,
            s.col as int,
            (s.row as int, s.row + s.row_count),
            c,
        ),
    decreases cells.len(),
{
    if cells.len() > 0 {
        let element = cells[0];
        let rest = cells.drop_first();
        lemma_has_both(events, at, element.events(), cells_events(rest));
        assert(cells[0].is_sound(c.error_as_null));
        let next = lemma_table_cell_element(events, at, element, s, c, cell);
        assert forall|i: int| 0 <= i < rest.len() implies (#[trigger] rest[i]).is_sound(
            c.error_as_null,
        ) && rest[i].kind != CellType::Error by {
            assert(rest[i] == cells[i + 1]);
        }
        let own = block_cells(
            c,
            element.kind,
            element.value,
            (s.row as int, s.row + s.row_count),
            (s.col as int, s.col + element.columns()),
        );
        let more = cells_of_row(rest, next.col as int, (s.row as int, s.row + s.row_count), c);
        assert(s.sheet.cells + own + more =~= s.sheet.cells + (own + more));
        lemma_cells_are_read(events, at + element.events().len(), rest, next, c, cell)
    } else {
        assert(s.sheet.cells + Seq::<CellView>::empty() =~= s.sheet.cells);
        s
    }
}

proof fn lemma_rows_behind(parts: Seq<TablePart>, row: int, c: Criteria, cell: CellView, s: SheetView)
    requires
        s.range == c.range,
        s.rows_limit == c.rows_limit,
        c.rows_limit is None,
        s.row_after(row),
    ensures
        !stands_in_table(parts, row, c, cell),
        cells_of_table(parts, row, c) == Seq::<CellView>::empty(),
    decreases parts.len(),
{
    if parts.len() > 0 {
        let next = row + parts[0].rows();
        assert(s.row_after(next));
        lemma_rows_behind(parts.drop_first(), next, c, cell, s);
        if let TablePart::Row(element) = parts[0] {
            lemma_cells_behind(element.cells, 0, (row, next), c, cell, s);
            assert(Seq::<CellView>::empty() + Seq::<CellView>::empty() =~= Seq::<
                CellView,
            >::empty());
        }
    }
}

proof fn lemma_cells_behind(
    cells: Seq<TableCell>,
    col: int,
    rows: (int, int),
    c: Criteria,
    cell: CellView,
    s: SheetView,
)
    requires
        s.range == c.range,
        s.rows_limit == c.rows_limit,
        c.rows_limit is None,
        s.row_after(rows.0),
    ensures
        !stands_in_row(cells, col, rows, c, cell),
        cells_of_row(cells, col, rows, c) == Seq::<CellView>::empty(),
    decreases cells.len(),
{
    if cells.len() > 0 {
        lemma_cells_behind(
            cells.drop_first(),
            col + cells[0].columns(),
            rows,
            c,
            cell,
            s,
        );
        lemma_no_block_cells(
            c,
            cells[0].kind,
            cells[0].value,
            rows,
            (col, col + cells[0].columns()),
        );
        assert(Seq::<CellView>::empty() + Seq::<CellView>::empty() =~= Seq::<CellView>::empty());
    }
}

proof fn lemma_parts_are_read(
    events: Seq<XmlView>,
    at: int,
    parts: Seq<TablePart>,
    s: TableScan,
    c: Criteria,
    cell: CellView,
)
    requires
        has_at(events, at, parts_events(parts) + seq![XmlView::End("table:table"@)]),
        is_sound_table(parts, c.error_as_null),
        is_between_table_cells(s, c),
        !c.end_at_empty_row,
        c.rows_limit is None,
        s.row + height(parts) <= usize::MAX,
    ensures
        table_from(events, at, s, c) matches Ok((last, end)) && {
            &&& last.sheet.cells.contains(cell) <==> s.sheet.cells.contains(cell)
                || stands_in_table(parts, s.row as int, c, cell)
            &&& last.sheet.cells == s.sheet.cells + cells_of_table(parts, s.row as int, c)
            &&& at < end <= at + parts_events(parts).len() + 1
        },
    decreases parts.len(),
{
    lemma_table_names_differ();
    let end = XmlView::End("table:table"@);
    lemma_has_both(events, at, parts_events(parts), seq![end]);
    if parts.len() > 0 {
        let part = parts[0];
        let rest = parts.drop_first();
        let then_at = at + part.events().len();
        assert(parts_events(parts) + seq![end] =~= part.events() + (parts_events(rest) + seq![
            end,
        ]));
        lemma_has_both(events, at, part.events(), parts_events(rest) + seq![end]);
        assert(parts[0].is_sound(c.error_as_null));
        assert forall|i: int| 0 <= i < rest.len() implies (#[trigger] rest[i]).is_sound(
            c.error_as_null,
        ) by {
            assert(rest[i] == parts[i + 1]);
        }
        match part {
            TablePart::Row(row) => {
                let start = opening("table:table-row"@, row.attributes);
                let row_end = XmlView::End("table:table-row"@);
                let inner = cells_events(row.cells);
                lemma_has_both(events, at, seq![start], inner + seq![row_end]);
                lemma_has_one(events, at, start);
                lemma_has_both(events, at + 1, inner, seq![row_end]);
                lemma_has_one(events, at + 1 + inner.len(), row_end);
                lemma_attribute_number(
                    row.attributes,
                    "table:number-rows-repeated"@,
                    row.repeated,
                );
                let open = TableScan { row_count: row.rows() as usize, col: 0, ..s };
                assert(table_step(s, events[at], c) == Ok::<(TableScan, bool), ErrorView>(
                    (open, false),
                ));
                let full = lemma_cells_are_read(events, at + 1, row.cells, open, c, cell);
                let next = TableScan { row: (s.row + row.rows()) as usize, ..full };
                let stops = full.sheet.row_after(next.row as int);
                assert(table_step(full, events[at + 1 + inner.len()], c) == Ok::<
                    (TableScan, bool),
                    ErrorView,
                >((next, stops)));
                let own = cells_of_row(row.cells, 0, (s.row as int, next.row as int), c);
                let more = cells_of_table(rest, next.row as int, c);
                assert(full.sheet.cells == s.sheet.cells + own);
                assert(s.sheet.cells + own + more =~= s.sheet.cells + (own + more));
                if stops {
                    lemma_rows_behind(rest, next.row as int, c, cell, full.sheet);
                    assert(own + more =~= own);
                } else {
                    lemma_parts_are_read(events, then_at, rest, next, c, cell);
                }
            },
            TablePart::Other(event) => {
                lemma_has_one(events, at, event);
                assert(table_step(s, event, c) == Ok::<(TableScan, bool), ErrorView>((s, false)));
                lemma_parts_are_read(events, then_at, rest, s, c, cell);
            },
        }
    } else {
        assert(parts_events(parts) + seq![end] =~= seq![end]);
        lemma_has_one(events, at, end);
        assert(s.sheet.cells + Seq::<CellView>::empty() =~= s.sheet.cells);
    }
}

/// A table element.
pub struct TableElement {
    /// The attributes.
    pub attributes: Seq<Result<AttributeView, Seq<char>>>,
    /// The name of the table.
    pub name: Seq<char>,
    /// The rows and what stands between them.
    pub parts: Seq<TablePart>,
}

impl TableElement {
    /// The events of this element.
    pub open spec fn events(self) -> Seq<XmlView> {
        seq![opening("table:table"@, self.attributes)] + (parts_events(self.parts) + seq![
            XmlView::End("table:table"@),
        ])
    }

    /// Whether the attributes and the parts say what is noted beside them, and the rows
    /// can be counted.
    pub open spec fn is_sound(self, error_as_null: bool) -> bool {
        &&& says(self.attributes, "table:name"@, Some(self.name))
        &&& is_sound_table(self.parts, error_as_null)
        &&& height(self.parts) <= usize::MAX
        &&& forall|i: int|
            0 <= i < parts_events(self.parts).len() ==> is_inside(
                #[trigger] parts_events(self.parts)[i],
            )
    }
}

/// Whether an event neither starts another table nor ends the spreadsheet.
pub open spec fn is_inside(event: XmlView) -> bool {
    match event {
        XmlView::Fault(_) => false,
        XmlView::Start(tag) => tag.name != "table:table"@,
        XmlView::End(name) => name != "office:spreadsheet"@,
        _ => true,
    }
}

proof fn lemma_search_passes(
    events: Seq<XmlView>,
    at: int,
    n: int,
    c: Criteria,
    accepted: Seq<bool>,
    count: nat,
)
    requires
        0 <= at,
        0 <= n,
        at + n <= events.len(),
        forall|i: int| at <= i < at + n ==> is_inside(#[trigger] events[i]),
    ensures
        search_from(events, at, c, accepted, count) == search_from(
            events,
            at + n,
            c,
            accepted,
            count,
        ),
    decreases n,
{
    if n > 0 {
        assert(is_inside(events[at]));
        lemma_search_passes(events, at + 1, n - 1, c, accepted, count);
    }
}

/// Reading goes on at the start of an accepted table with a sheet that has the table's
/// name and the cells that its elements stand for, and then with the sheets behind
/// the table. A cell stands in every row and column that its elements repeat it to,
/// as far as they lie in the range, with the type and value of its element; and the
/// cells come in the order of their elements, each once.
pub proof fn lemma_table_is_read(
    events: Seq<XmlView>,
    at: int,
    table: TableElement,
    file_name: Seq<char>,
    c: Criteria,
    accepted: Seq<bool>,
    count: nat,
    cell: CellView,
) -> (sheet: SheetView)
    requires
        has_at(events, at, table.events()),
        table.is_sound(c.error_as_null),
        !c.end_at_empty_row,
        c.rows_limit is None,
        accepted[at],
        c.sheet_limit matches Some(limit) ==> count < limit,
    ensures
        sheet.name == table.name,
        sheet.file_name == file_name,
        sheet.cells.contains(cell) <==> stands_in_table(table.parts, 0, c, cell),
        sheet.cells == cells_of_table(table.parts, 0, c),
        ods_sheets_from(events, at, file_name, c, accepted, count) == if c.sheet_limit is Some
            && count + 1 == c.sheet_limit->Some_0 {
            Ok(seq![sheet])
        } else {
            match ods_sheets_from(
                events,
                at + table.events().len(),
                file_name,
                c,
                accepted,
                count + 1,
            ) {
                Ok(more) => Ok(seq![sheet] + more),
                Err(error) => Err(error),
            }
        },
{
    lemma_table_names_differ();
    let start = opening("table:table"@, table.attributes);
    let end = XmlView::End("table:table"@);
    let inner = parts_events(table.parts);
    lemma_has_both(events, at, seq![start], inner + seq![end]);
    lemma_has_one(events, at, start);
    lemma_has_both(events, at + 1, inner, seq![end]);
    lemma_has_one(events, at + 1 + inner.len(), end);
    lemma_attribute_value(table.attributes, "table:name"@, Some(table.name));
    let first = table_start(file_name, table.name, c);
    assert(search_from(events, at, c, accepted, count) == Ok::<TableSearch, ErrorView>(
        TableSearch::Found(table.name, at + 1),
    ));
    lemma_parts_are_read(events, at + 1, table.parts, first, c, cell);
    assert(first.sheet.cells + cells_of_table(table.parts, 0, c) =~= cells_of_table(
        table.parts,
        0,
        c,
    ));
    lemma_table_bounds(events, at + 1, first, c);
    let (s, stop) = table_from(events, at + 1, first, c)->Ok_0;
    let sheet = s.sheet.complete(c.end_at_empty_row);
    let then_at = at + table.events().len();
    assert(then_at == at + inner.len() + 2);
    assert forall|i: int| stop <= i < then_at implies is_inside(#[trigger] events[i]) by {
        if i < at + 1 + inner.len() {
            assert(events[at + 1 + (i - at - 1)] == inner[i - at - 1]);
            assert(is_inside(inner[i - at - 1]));
        }
    }
    lemma_search_passes(events, stop, then_at - stop, c, accepted, count + 1);
    assert(ods_sheets_from(events, stop, file_name, c, accepted, count + 1) == ods_sheets_from(
        events,
        then_at,
        file_name,
        c,
        accepted,
        count + 1,
    ));
    lemma_table_keeps_name(events, at + 1, first, c);
    assert(!c.is_full(count as int));
    sheet
}

/// A table that is not accepted is passed over, and reading goes on behind it.
pub proof fn lemma_other_table_is_passed_over(
    events: Seq<XmlView>,
    at: int,
    table: TableElement,
    file_name: Seq<char>,
    c: Criteria,
    accepted: Seq<bool>,
    count: nat,
)
    requires
        has_at(events, at, table.events()),
        says(table.attributes, "table:name"@, Some(table.name)),
        forall|i: int|
            0 <= i < parts_events(table.parts).len() ==> is_inside(
                #[trigger] parts_events(table.parts)[i],
            ),
        !accepted[at],
        c.sheet_limit matches Some(limit) ==> count < limit,
    ensures
        ods_sheets_from(events, at, file_name, c, accepted, count) == ods_sheets_from(
            events,
            at + table.events().len(),
            file_name,
            c,
            accepted,
            count,
        ),
{
    lemma_table_names_differ();
    let start = opening("table:table"@, table.attributes);
    let end = XmlView::End("table:table"@);
    let inner = parts_events(table.parts);
    lemma_has_both(events, at, seq![start], inner + seq![end]);
    lemma_has_one(events, at, start);
    lemma_has_both(events, at + 1, inner, seq![end]);
    lemma_has_one(events, at + 1 + inner.len(), end);
    lemma_attribute_value(table.attributes, "table:name"@, Some(table.name));
    assert(!c.is_full(count as int));
    assert(search_from(events, at, c, accepted, count) == search_from(
        events,
        at + 1,
        c,
        accepted,
        count,
    ));
    assert forall|i: int| at + 1 <= i < at + 2 + inner.len() implies is_inside(
        #[trigger] events[i],
    ) by {
        if i < at + 1 + inner.len() {
            assert(events[at + 1 + (i - at - 1)] == inner[i - at - 1]);
            assert(is_inside(inner[i - at - 1]));
        }
    }
    lemma_search_passes(events, at + 1, inner.len() as int + 1, c, accepted, count);
}

/// A table without a name makes the part `content.xml` one that is corrupted, and a
/// fault of the markup is reported; the end of the spreadsheet and the end of the
/// document end the sheets, and so does the limit on their number.
pub proof fn lemma_end_of_sheets(
    events: Seq<XmlView>,
    at: int,
    file_name: Seq<char>,
    c: Criteria,
    accepted: Seq<bool>,
    count: nat,
)
    requires
        0 <= at <= events.len(),
    ensures
        at < events.len() && events[at] is Start && events[at]->Start_0.name == "table:table"@
            && says(events[at]->Start_0.attributes, "table:name"@, None) ==> ods_sheets_from(
            events,
            at,
            file_name,
            c,
            accepted,
            count,
        ) == Err::<Seq<SheetView>, ErrorView>(ErrorView::FileError("content.xml"@)),
        at < events.len() && events[at] is Fault ==> ods_sheets_from(
            events,
            at,
            file_name,
            c,
            accepted,
            count,
        ) == Err::<Seq<SheetView>, ErrorView>(ErrorView::Xml(events[at]->Fault_0)),
        at == events.len() || events[at] == XmlView::End("office:spreadsheet"@) ==> ods_sheets_from(
            events,
            at,
            file_name,
            c,
            accepted,
            count,
        ) == Ok::<Seq<SheetView>, ErrorView>(Seq::empty()),
        at < events.len() && events[at] is Start && events[at]->Start_0.name == "table:table"@ && (
        exists|name: Seq<char>| says(events[at]->Start_0.attributes, "table:name"@, Some(name)))
            && c.sheet_limit is Some && count >= c.sheet_limit->Some_0 ==> ods_sheets_from(
            events,
            at,
            file_name,
            c,
            accepted,
            count,
        ) == Ok::<Seq<SheetView>, ErrorView>(Seq::empty()),
{
    lemma_table_names_differ();
    if at < events.len() {
        if let XmlView::Start(tag) = events[at] {
            lemma_attribute_value(tag.attributes, "table:name"@, None);
            if exists|name: Seq<char>| says(tag.attributes, "table:name"@, Some(name)) {
                let name = choose|name: Seq<char>| says(tag.attributes, "table:name"@, Some(name));
                lemma_attribute_value(tag.attributes, "table:name"@, Some(name));
            }
        }
    }
}

} // verus!
