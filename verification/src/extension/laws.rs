//! What holds of the output and of the parameters of the table function.

use crate::error::ErrorView;
use crate::extension::read_sheet::first_column;
use crate::extension::read_sheet::first_invalid;
use crate::extension::read_sheet::next_column;
use crate::extension::read_sheet::output_value;
use crate::extension::read_sheet::scan_range;
use crate::extension::read_sheet::texts;
use crate::extension::read_sheet::with_text_column;
use crate::extension::read_sheet::OutputValue;
use crate::extension::read_sheet::ReadSheetBindData;
use crate::extension::read_sheet::ReadSheetParameters;
use crate::extension::read_sheet::Table;
use crate::extension::writer::cell_output;
use crate::extension::writer::conversion_of;
use crate::extension::writer::ColumnType;
use crate::extension::writer::ColumnView;
use crate::extension::writer::Conversion;
use crate::helpers::text::decimal;
use crate::helpers::text::number_value;
use crate::helpers::xml_laws::lemma_number_round_trip;
use crate::helpers::xml_laws::lemma_only_digits_are_numbers;
use crate::helpers::xml_laws::without_plus;
use crate::spreadsheet::cell::CellType;
use crate::spreadsheet::cell::CellView;
use crate::spreadsheet::chunk_laws::lemma_kept_rows_keep_distance;
use crate::spreadsheet::chunk_laws::lemma_last_cell_is_found;
use crate::spreadsheet::chunk_laws::window_start;
use crate::spreadsheet::criteria::is_glob;
use crate::spreadsheet::criteria::Criteria;
use crate::spreadsheet::reference::index_reference;
use crate::spreadsheet::sheet::Sheet;
use crate::spreadsheet::sheet::SheetView;
use crate::spreadsheet::table::lemma_table_cell;
use crate::spreadsheet::table::table_cell;
use crate::spreadsheet::table::table_row;
use crate::spreadsheet::xlsx::document::lies_in;
use vstd::prelude::*;

verus! {

/// Whether column `col` of a sheet is the one that output column `column` shows.
pub open spec fn shows_column(data: ReadSheetBindData, col: int, column: usize) -> bool {
    match data.criteria.range {
        Some(range) => match range.col_lower_bound {
            Some(lower) => col == lower + column,
            None => col == column,
        },
        None => col == column,
    }
}

/// Whether an output column is one for a name.
pub open spec fn is_name_column(data: ReadSheetBindData, column: usize) -> bool {
    data.file_name_column == Some(column) || data.sheet_name_column == Some(column)
}

/// A cell is found in the output, in its row and its column, where no later cell
/// stands at the same place. Where empty rows are kept, its row is counted from the
/// first one of the window.
pub proof fn lemma_cell_is_in_output(data: ReadSheetBindData, sheet: Sheet, k: int, column: usize)
    requires
        !sheet.skip_empty_rows,
        0 <= k < sheet@.cells.len(),
        sheet@.cells.len() <= usize::MAX,
        window_start(sheet@) <= sheet@.cells[k].row < window_start(sheet@) + 2048,
        shows_column(data, sheet@.cells[k].col as int, column),
        !is_name_column(data, column),
        forall|j: int|
            k < j < sheet@.cells.len() ==> (#[trigger] sheet@.cells[j]).row != sheet@.cells[k].row
                || sheet@.cells[j].col != sheet@.cells[k].col,
    ensures
        output_value(data, sheet, sheet@.cells[k].row - window_start(sheet@), column)
            == OutputValue::Cell(k as usize),
{
    let view = sheet@;
    let row = view.cells[k].row - window_start(view);
    lemma_kept_rows_keep_distance(view, k);
    assert(table_row(view, k) == Some(row));
    assert forall|j: int|
        k < j < view.cells.len() && (#[trigger] view.cells[j]).col
            == view.cells[k].col implies table_row(view, j) != Some(row) by {
        lemma_kept_rows_keep_distance(view, j);
    }
    lemma_last_cell_is_found(view, k, row);
}

/// A place of the output where no cell stands is empty.
pub proof fn lemma_gap_is_null(data: ReadSheetBindData, sheet: Sheet, row: int, column: usize)
    requires
        !sheet.skip_empty_rows,
        sheet@.cells.len() <= usize::MAX,
        !is_name_column(data, column),
        forall|j: int|
            0 <= j < sheet@.cells.len() ==> (#[trigger] sheet@.cells[j]).row != window_start(sheet@)
                + row || !shows_column(data, sheet@.cells[j].col as int, column),
    ensures
        output_value(data, sheet, row, column) == OutputValue::Null,
{
    let view = sheet@;
    let col = first_column(data) + column;
    lemma_table_cell(view, view.cells.len() as int, row, col);
    if let Some(k) = table_cell(view, row, col) {
        lemma_kept_rows_keep_distance(view, k);
    }
}

/// Where empty rows are left out, a cell is found in the output in its row of the
/// table and in its column, where no later cell stands at the same place.
pub proof fn lemma_cell_is_in_packed_output(
    data: ReadSheetBindData,
    sheet: Sheet,
    k: int,
    row: int,
    column: usize,
)
    requires
        0 <= k < sheet@.cells.len(),
        sheet@.cells.len() <= usize::MAX,
        table_row(sheet@, k) == Some(row),
        shows_column(data, sheet@.cells[k].col as int, column),
        !is_name_column(data, column),
        forall|j: int|
            k < j < sheet@.cells.len() && (#[trigger] sheet@.cells[j]).col == sheet@.cells[k].col
                ==> table_row(sheet@, j) != Some(row),
    ensures
        output_value(data, sheet, row, column) == OutputValue::Cell(k as usize),
{
    lemma_last_cell_is_found(sheet@, k, row);
}

/// The columns for names hold nothing but the name, in every row; and where a column
/// is for both names, it holds that of the file.
pub proof fn lemma_name_columns_hold_names(
    data: ReadSheetBindData,
    sheet: Sheet,
    row: int,
    column: usize,
)
    ensures
        data.file_name_column == Some(column) ==> output_value(data, sheet, row, column)
            == OutputValue::FileName,
        data.file_name_column != Some(column) && data.sheet_name_column == Some(column)
            ==> output_value(data, sheet, row, column) == OutputValue::SheetName,
        output_value(data, sheet, row, column) == OutputValue::FileName ==> data.file_name_column
            == Some(column),
        output_value(data, sheet, row, column) == OutputValue::SheetName ==> data.sheet_name_column
            == Some(column),
{
}

/// A further column stands at the number that it gets, under its name and with texts;
/// the columns before it stay as they are.
pub proof fn lemma_further_column(columns: Seq<ColumnView>, name: Option<String>, i: int)
    requires
        columns.len() < usize::MAX,
    ensures
        ({
            let more = with_text_column(columns, name);
            &&& 0 <= i < columns.len() ==> more[i] == columns[i]
            &&& match name {
                Some(text) => {
                    &&& more.len() == columns.len() + 1
                    &&& next_column(columns, name) matches Some(at)
                    &&& at < more.len()
                    &&& more[at as int].name == text@
                    &&& more[at as int].kind == ColumnType::Varchar
                },
                None => more.len() == columns.len() && next_column(columns, name) is None,
            }
        }),
{
}

/// A cell is scanned where it lies in the columns that were found, not before the first
/// row with data and not behind the last wanted row.
pub proof fn lemma_scanned_cells(parameters: ReadSheetParameters, table: Table, row: int, col: int)
    ensures
        lies_in(Some(scan_range(parameters, table)), row, col) <==> {
            &&& table.col_lower_bound <= col <= table.col_upper_bound
            &&& table.row_lower_bound matches Some(lower) ==> lower <= row
            &&& parameters.range matches Some(range) ==> (
            range.row_upper_bound matches Some(upper) ==> row <= upper)
        },
{
}

/// What the parameters say of cells holds of the criteria, and what they do not say is
/// off: only the empty value counts as none, errors are errors, empty rows are kept and
/// do not end the sheet, and merged ranges are not spread. One sheet is read.
pub proof fn lemma_criteria_follow_parameters(
    parameters: ReadSheetParameters,
    c: Criteria,
    value: Seq<char>,
)
    requires
        parameters.shares(c),
    ensures
        c.sheet_limit == Some(1usize),
        match parameters.nulls {
            Some(values) => c.is_null(value) <==> exists|i: int|
                0 <= i < values@.len() && (#[trigger] values@[i])@ == value,
            None => c.is_null(value) <==> value.len() == 0,
        },
        match parameters.error_as_null {
            Some(on) => c.error_as_null == on,
            None => !c.error_as_null,
        },
        match parameters.skip_empty_rows {
            Some(on) => c.skip_empty_rows == on,
            None => !c.skip_empty_rows,
        },
        match parameters.end_at_empty_row {
            Some(on) => c.end_at_empty_row == on,
            None => !c.end_at_empty_row,
        },
        match parameters.spread_merged_cells {
            Some(on) => c.spread_merged_cells == on,
            None => !c.spread_merged_cells,
        },
        parameters.sheet_name is None ==> forall|name: Seq<char>| #[trigger] c.accepts(name),
{
    let nulls = texts(c.nulls@);
    assert(forall|i: int| 0 <= i < c.nulls@.len() ==> nulls[i] == (#[trigger] c.nulls@[i])@);
    match parameters.nulls {
        Some(values) => {
            let given = texts(values@);
            assert(nulls == given);
            assert(forall|i: int| 0 <= i < values@.len() ==> given[i] == (#[trigger] values@[i])@);
            assert(nulls.len() == c.nulls@.len() && given.len() == values@.len());
            if c.is_null(value) {
                let i = choose|i: int|
                    0 <= i < c.nulls@.len() && (#[trigger] c.nulls@[i])@ == value;
                assert(values@[i]@ == value);
            }
            if exists|i: int| 0 <= i < values@.len() && (#[trigger] values@[i])@ == value {
                let i = choose|i: int| 0 <= i < values@.len() && (#[trigger] values@[i])@ == value;
                assert(c.nulls@[i]@ == value);
            }
        },
        None => {
            assert(nulls.len() == 1 && nulls[0] == Seq::<char>::empty());
            assert(c.nulls@[0]@ == Seq::<char>::empty());
            if value.len() == 0 {
                assert(value =~= Seq::<char>::empty());
            }
            if c.is_null(value) {
                let i = choose|i: int|
                    0 <= i < c.nulls@.len() && (#[trigger] c.nulls@[i])@ == value;
                assert(nulls[i] == value);
            }
        },
    }
}

/// The pattern that is refused is the first one that is not valid: it is one of the
/// patterns, all before it are valid; and where none is refused, all are valid.
pub proof fn lemma_first_invalid_pattern(patterns: Seq<Seq<char>>)
    ensures
        match first_invalid(patterns) {
            Some(pattern) => exists|i: int|
                {
                    &&& 0 <= i < patterns.len()
                    &&& #[trigger] patterns[i] == pattern
                    &&& !is_glob(pattern)
                    &&& forall|j: int| 0 <= j < i ==> is_glob(#[trigger] patterns[j])
                },
            None => forall|j: int| 0 <= j < patterns.len() ==> is_glob(#[trigger] patterns[j]),
        },
    decreases patterns.len(),
{
    if patterns.len() > 0 && is_glob(patterns[0]) {
        let rest = patterns.drop_first();
        lemma_first_invalid_pattern(rest);
        match first_invalid(rest) {
            Some(pattern) => {
                let i = choose|i: int|
                    {
                        &&& 0 <= i < rest.len()
                        &&& #[trigger] rest[i] == pattern
                        &&& !is_glob(pattern)
                        &&& forall|j: int| 0 <= j < i ==> is_glob(#[trigger] rest[j])
                    };
                assert(patterns[i + 1] == pattern);
                assert forall|j: int| 0 <= j < i + 1 implies is_glob(#[trigger] patterns[j]) by {
                    if j > 0 {
                        assert(patterns[j] == rest[j - 1]);
                    }
                }
            },
            None => {
                assert forall|j: int| 0 <= j < patterns.len() implies is_glob(
                    #[trigger] patterns[j],
                ) by {
                    if j > 0 {
                        assert(patterns[j] == rest[j - 1]);
                    }
                }
            },
        }
    } else if patterns.len() > 0 {
        assert(patterns[0] == first_invalid(patterns)->Some_0);
    }
}

/// Every pattern of the parameters is looked at: that of the sheet first, and then
/// those of the columns in their order.
pub proof fn lemma_all_patterns(parameters: ReadSheetParameters, i: int)
    ensures
        ({
            let first: int = if parameters.sheet_name is Some {
                1
            } else {
                0
            };
            let count: int = match parameters.columns {
                Some(columns) => columns@.len() as int,
                None => 0,
            };
            &&& parameters.patterns().len() == first + count
            &&& parameters.sheet_name matches Some(pattern) ==> parameters.patterns()[0] == pattern@
            &&& parameters.columns matches Some(columns) ==> (0 <= i < count
                ==> parameters.patterns()[first + i] == columns@[i].0@)
        }),
{
}

/// A cell that refers to a shared string shows the string with its number, or nothing
/// where that one counts as no value, and keeps its place; a number without a string,
/// and a value that is no number, fail with the place of the cell.
pub proof fn lemma_shared_string_is_shown(
    sheet: SheetView,
    kind: ColumnType,
    cell: CellView,
    strings: Seq<Option<Seq<char>>>,
    n: nat,
)
    requires
        cell.kind == CellType::SharedString,
        cell.value == decimal(n),
        n <= usize::MAX,
    ensures
        n < strings.len() ==> match strings[n as int] {
            Some(text) => {
                &&& cell_output(sheet, kind, cell, strings) matches Ok(Some((conversion, shown)))
                &&& conversion == conversion_of(kind)
                &&& shown.value == text
                &&& shown.row == cell.row
                &&& shown.col == cell.col
                &&& shown.kind == cell.kind
            },
            None => cell_output(sheet, kind, cell, strings) == Ok::<
                Option<(Conversion, CellView)>,
                ErrorView,
            >(None),
        },
        n >= strings.len() ==> cell_output(sheet, kind, cell, strings) == Err::<
            Option<(Conversion, CellView)>,
            ErrorView,
        >(
            ErrorView::CellValueError(
                sheet.file_name,
                sheet.name,
                index_reference(cell.row as nat, cell.col as nat),
                "invalid shared string index "@ + cell.value,
            ),
        ),
{
    lemma_number_round_trip(n);
}

/// A value with a character that is no digit refers to no shared string.
pub proof fn lemma_texts_refer_to_no_string(
    sheet: SheetView,
    kind: ColumnType,
    cell: CellView,
    strings: Seq<Option<Seq<char>>>,
    i: int,
)
    requires
        cell.kind == CellType::SharedString,
        cell.value.len() == 0 || (0 < i < cell.value.len() && !('0' <= cell.value[i] <= '9')) || (
        cell.value[0] != '+' && !('0' <= cell.value[0] <= '9')),
    ensures
        cell_output(sheet, kind, cell, strings) is Err,
{
    lemma_only_digits_are_numbers(cell.value);
    let value = cell.value;
    if number_value(value) is Ok {
        let digits = without_plus(value);
        if value[0] == '+' {
            assert(digits[i - 1] == value[i]);
        } else {
            assert('0' <= digits[0] <= '9');
            if 0 < i < value.len() {
                assert('0' <= digits[i] <= '9');
            }
        }
    }
}

/// A cell that refers to no shared string is written as it is, whatever strings there
/// are.
pub proof fn lemma_other_cells_are_kept(
    sheet: SheetView,
    kind: ColumnType,
    cell: CellView,
    strings: Seq<Option<Seq<char>>>,
)
    requires
        cell.kind != CellType::SharedString,
    ensures
        cell_output(sheet, kind, cell, strings) == Ok::<Option<(Conversion, CellView)>, ErrorView>(
            Some((conversion_of(kind), cell)),
        ),
{
}

/// Columns of different types are converted differently; texts to what is shown, dates
/// to days, times to a part of a day, and dates with times to both.
pub proof fn lemma_conversions_fit_columns(a: ColumnType, b: ColumnType)
    ensures
        conversion_of(a) == conversion_of(b) ==> a == b,
        conversion_of(a) == Conversion::DisplayString <==> a == ColumnType::Varchar,
        conversion_of(a) == Conversion::Boolean <==> a == ColumnType::Boolean,
        conversion_of(a) == Conversion::BigInt <==> a == ColumnType::BigInt,
        conversion_of(a) == Conversion::Double <==> a == ColumnType::Double,
        conversion_of(a) == Conversion::DateTime <==> a == ColumnType::Timestamp,
        conversion_of(a) == Conversion::Date <==> a == ColumnType::Date,
        conversion_of(a) == Conversion::Time <==> a == ColumnType::Time,
{
}

} // verus!
