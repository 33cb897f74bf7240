//! The table function for one sheet.

use crate::error::ErrorView;
use crate::error::ExtensionError;
use crate::error::RustySheetError;
use crate::extension::writer::Column;
use crate::extension::writer::ColumnType;
use crate::extension::writer::ColumnView;
use crate::spreadsheet::criteria::is_glob;
use crate::spreadsheet::criteria::is_portable;
use crate::spreadsheet::criteria::is_valid_pattern;
use crate::spreadsheet::criteria::Criteria;
use crate::spreadsheet::criteria::Range;
use crate::spreadsheet::sheet::bounds_of;
use crate::spreadsheet::sheet::Sheet;
use crate::spreadsheet::table::cell_among;
use crate::spreadsheet::table::lemma_table_cell;
use crate::spreadsheet::table::table_cell;
use crate::spreadsheet::table::table_row;
use crate::spreadsheet::table::table_rows;
use vstd::prelude::*;

verus! {

/// How many rows are analyzed where the user does not say.
pub const DEFAULT_ANALYZE_ROWS: usize = 10;

/// What the user asks for.
pub struct ReadSheetParameters {
    /// The path of the spreadsheet file.
    pub file_name: String,
    /// A glob pattern for the name of the sheet.
    pub sheet_name: Option<String>,
    /// The cells that are read.
    pub range: Option<Range>,
    /// Whether the first row holds the names of the columns.
    pub header: Option<bool>,
    /// The types of columns by glob patterns for their names.
    pub columns: Option<Vec<(String, ColumnType)>>,
    /// How many rows are analyzed to find the types of columns.
    pub analyze_rows: Option<usize>,
    /// The values that count as no value.
    pub nulls: Option<Vec<String>>,
    /// Whether an error in a cell counts as no value.
    pub error_as_null: Option<bool>,
    /// Whether rows without values are left out.
    pub skip_empty_rows: Option<bool>,
    /// Whether the first row without values ends a sheet.
    pub end_at_empty_row: Option<bool>,
    /// The name of a column for the name of the file.
    pub file_name_column: Option<String>,
    /// The name of a column for the name of the sheet.
    pub sheet_name_column: Option<String>,
    /// Whether all cells of a merged range get its value.
    pub spread_merged_cells: Option<bool>,
}

/// What the analysis of a sheet found.
pub struct Table {
    /// The columns.
    pub columns: Vec<Column>,
    /// The first row with data.
    pub row_lower_bound: Option<usize>,
    /// The first column.
    pub col_lower_bound: usize,
    /// The last column.
    pub col_upper_bound: usize,
}

/// What a scan needs to know.
pub struct ReadSheetBindData {
    /// The output columns.
    pub columns: Vec<Column>,
    /// The number of the column for the name of the file.
    pub file_name_column: Option<usize>,
    /// The number of the column for the name of the sheet.
    pub sheet_name_column: Option<usize>,
    /// The path of the spreadsheet file.
    pub file_name: String,
    /// What is read.
    pub criteria: Criteria,
}

/// A flag that is off where it is not given.
pub open spec fn flag(value: Option<bool>) -> bool {
    value == Some(true)
}

/// Texts as mathematical values.
pub open spec fn texts(strings: Seq<String>) -> Seq<Seq<char>> {
    strings.map_values(|string: String| string@)
}

/// The first text that is no valid glob pattern, if there is one.
pub open spec fn first_invalid(patterns: Seq<Seq<char>>) -> Option<Seq<char>>
    decreases patterns.len(),
{
    if patterns.len() == 0 {
        None
    } else if !is_glob(patterns[0]) {
        Some(patterns[0])
    } else {
        first_invalid(patterns.drop_first())
    }
}

/// Whether all texts read alike on platforms with different path separators.
pub open spec fn are_portable(patterns: Seq<Seq<char>>) -> bool {
    forall|i: int| 0 <= i < patterns.len() ==> is_portable(#[trigger] patterns[i])
}

/// The error for a text that is no valid glob pattern.
pub open spec fn pattern_error(pattern: Seq<char>) -> ErrorView {
    ErrorView::WithContextError("invalid pattern: "@ + pattern)
}

fn check_pattern(pattern: &String) -> (res: Result<(), RustySheetError>)
    ensures
        is_portable(pattern@) ==> if is_glob(pattern@) {
            res is Ok
        } else {
            res matches Err(e) && e@ == pattern_error(pattern@)
        },
{
    if is_valid_pattern(pattern.as_str()) {
        Ok(())
    } else {
        let mut message = "invalid pattern: ".to_owned();
        message.push_str(pattern.as_str());
        Err(RustySheetError::WithContextError(message))
    }
}

impl ReadSheetParameters {
    /// The glob patterns: that of the sheet, then those of the columns.
    pub open spec fn patterns(self) -> Seq<Seq<char>> {
        let columns = match self.columns {
            Some(columns) => columns@.map_values(|column: (String, ColumnType)| column.0@),
            None => Seq::empty(),
        };
        match self.sheet_name {
            Some(pattern) => seq![pattern@] + columns,
            None => columns,
        }
    }

    /// Refuses the first pattern that is not valid. What holds of patterns with
    /// backslashes depends on the platform.
    pub fn check_patterns(&self) -> (res: Result<(), RustySheetError>)
        ensures
            are_portable(self.patterns()) ==> match first_invalid(self.patterns()) {
                Some(pattern) => res matches Err(e) && e@ == pattern_error(pattern),
                None => res is Ok,
            },
    {
        let ghost all = self.patterns();
        let ghost mut start: int = 0;
        if let Some(pattern) = &self.sheet_name {
            proof {
                assert(all[0] == pattern@);
            }
            match check_pattern(pattern) {
                Ok(_) => {},
                Err(error) => return Err(error),
            }
            proof {
                start = 1;
                assert(all.drop_first() =~= all.skip(1));
            }
        }
        proof {
            assert(all.skip(0) =~= all);
            assert(are_portable(all) ==> first_invalid(all) == first_invalid(all.skip(start)));
        }
        if let Some(columns) = &self.columns {
            let mut i: usize = 0;
            while i < columns.len()
                invariant
                    i <= columns@.len(),
                    0 <= start <= 1,
                    all.len() == start + columns@.len(),
                    forall|j: int|
                        0 <= j < columns@.len() ==> all[start + j] == (#[trigger] columns@[j]).0@,
                    all == self.patterns(),
                    are_portable(all) ==> first_invalid(all) == first_invalid(all.skip(start + i)),
                decreases columns@.len() - i,
            {
                proof {
                    let column = columns@[i as int];
                    assert(all[start + i] == column.0@);
                    assert(all.skip(start + i)[0] == column.0@);
                    assert(all.skip(start + i).drop_first() =~= all.skip(start + i + 1));
                }
                match check_pattern(&columns[i].0) {
                    Ok(_) => {},
                    Err(error) => return Err(error),
                }
                i = i + 1;
            }
        }
        proof {
            assert(all.skip(all.len() as int) =~= Seq::<Seq<char>>::empty());
            assert(are_portable(all) ==> first_invalid(all) == first_invalid(
                all.skip(all.len() as int),
            ));
        }
        Ok(())
    }

    /// The values that count as no value: only the empty one where none are given.
    pub open spec fn null_values(self) -> Seq<Seq<char>> {
        match self.nulls {
            Some(values) => texts(values@),
            None => seq![Seq::empty()],
        }
    }

    /// Whether criteria select the sheet and treat cells as these parameters say.
    pub open spec fn shares(self, c: Criteria) -> bool {
        &&& match self.sheet_name {
            Some(pattern) => c.sheet_name_patterns matches Some(patterns) && texts(patterns@)
                == seq![pattern@],
            None => c.sheet_name_patterns is None,
        }
        &&& c.sheet_limit == Some(1usize)
        &&& texts(c.nulls@) == self.null_values()
        &&& c.error_as_null == flag(self.error_as_null)
        &&& c.skip_empty_rows == flag(self.skip_empty_rows)
        &&& c.end_at_empty_row == flag(self.end_at_empty_row)
        &&& c.spread_merged_cells == flag(self.spread_merged_cells)
    }

    /// Whether the first row holds the names of the columns: yes where it is not
    /// said.
    pub fn has_header(&self) -> (res: bool)
        ensures
            res == (self.header != Some(false)),
    {
        match self.header {
            Some(header) => header,
            None => true,
        }
    }

    fn pattern_list(&self) -> (res: Option<Vec<String>>)
        ensures
            match self.sheet_name {
                Some(pattern) => res matches Some(patterns) && texts(patterns@) == seq![pattern@],
                None => res is None,
            },
    {
        match &self.sheet_name {
            Some(pattern) => {
                let mut patterns: Vec<String> = Vec::new();
                patterns.push(pattern.clone());
                proof {
                    assert(texts(patterns@) =~= seq![pattern@]);
                }
                Some(patterns)
            },
            None => None,
        }
    }

    fn null_list(&self) -> (res: Vec<String>)
        ensures
            texts(res@) == self.null_values(),
    {
        let mut list: Vec<String> = Vec::new();
        match &self.nulls {
            Some(values) => {
                let mut i: usize = 0;
                proof {
                    assert(texts(list@) =~= texts(values@).take(0));
                }
                while i < values.len()
                    invariant
                        i <= values@.len(),
                        texts(list@) == texts(values@).take(i as int),
                    decreases values@.len() - i,
                {
                    let ghost before = list@;
                    list.push(values[i].clone());
                    proof {
                        assert(texts(list@) =~= texts(before).push(values@[i as int]@));
                        assert(texts(values@).take(i + 1) =~= texts(values@).take(i as int).push(
                            values@[i as int]@,
                        ));
                    }
                    i = i + 1;
                }
                proof {
                    assert(texts(values@).take(i as int) =~= texts(values@));
                }
            },
            None => {
                list.push(String::new());
                proof {
                    assert(list@[0]@ =~= Seq::<char>::empty());
                    assert(texts(list@) =~= seq![Seq::empty()]);
                }
            },
        }
        list
    }

    fn off_by_default(value: Option<bool>) -> (res: bool)
        ensures
            res == flag(value),
    {
        match value {
            Some(value) => value,
            None => false,
        }
    }

    fn criteria(&self, range: Option<Range>, rows_limit: Option<usize>) -> (res: Criteria)
        ensures
            self.shares(res),
            res.range == range,
            res.rows_limit == rows_limit,
    {
        Criteria {
            sheet_name_patterns: self.pattern_list(),
            sheet_limit: Some(1),
            range,
            rows_limit,
            nulls: self.null_list(),
            error_as_null: Self::off_by_default(self.error_as_null),
            skip_empty_rows: Self::off_by_default(self.skip_empty_rows),
            end_at_empty_row: Self::off_by_default(self.end_at_empty_row),
            spread_merged_cells: Self::off_by_default(self.spread_merged_cells),
        }
    }

    /// What is read to find out the columns of the sheet: the wanted range, but only
    /// as many rows as are analyzed.
    pub fn analysis_criteria(&self) -> (res: Criteria)
        ensures
            self.shares(res),
            res.range == self.range,
            res.rows_limit == match self.analyze_rows {
                Some(rows) => Some(rows),
                None => Some(DEFAULT_ANALYZE_ROWS),
            },
            self.analyze_rows is None ==> res.rows_limit == Some(10usize),
    {
        let rows_limit = match self.analyze_rows {
            Some(rows) => Some(rows),
            None => Some(DEFAULT_ANALYZE_ROWS),
        };
        self.criteria(self.range, rows_limit)
    }
}

/// A list of columns as mathematical values.
pub open spec fn column_views(columns: Seq<Column>) -> Seq<ColumnView> {
    columns.map_values(|column: Column| column@)
}

/// The columns with one more for text, where it has a name.
pub open spec fn with_text_column(columns: Seq<ColumnView>, name: Option<String>) -> Seq<
    ColumnView,
> {
    match name {
        Some(name) => columns.push(ColumnView { name: name@, kind: ColumnType::Varchar }),
        None => columns,
    }
}

/// The number that a further column gets, where it has a name.
pub open spec fn next_column(columns: Seq<ColumnView>, name: Option<String>) -> Option<usize> {
    match name {
        Some(_) => Some(columns.len() as usize),
        None => None,
    }
}

fn copy_columns(columns: &Vec<Column>) -> (res: Vec<Column>)
    ensures
        column_views(res@) == column_views(columns@),
{
    let mut copy: Vec<Column> = Vec::new();
    let mut i: usize = 0;
    proof {
        assert(column_views(copy@) =~= column_views(columns@).take(0));
    }
    while i < columns.len()
        invariant
            i <= columns@.len(),
            column_views(copy@) == column_views(columns@).take(i as int),
        decreases columns@.len() - i,
    {
        let ghost before = copy@;
        copy.push(Column { name: columns[i].name.clone(), kind: columns[i].kind });
        proof {
            assert(column_views(copy@) =~= column_views(before).push(columns@[i as int]@));
            assert(column_views(columns@).take(i + 1) =~= column_views(columns@).take(
                i as int,
            ).push(columns@[i as int]@));
        }
        i = i + 1;
    }
    proof {
        assert(column_views(columns@).take(i as int) =~= column_views(columns@));
    }
    copy
}

fn add_text_column(columns: &mut Vec<Column>, name: &Option<String>) -> (res: Option<usize>)
    ensures
        res == next_column(column_views(old(columns)@), *name),
        column_views(final(columns)@) == with_text_column(column_views(old(columns)@), *name),
{
    match name {
        Some(name) => {
            let at: usize = columns.len();
            columns.push(Column { name: name.clone(), kind: ColumnType::Varchar });
            proof {
                assert(column_views(columns@) =~= column_views(old(columns)@).push(
                    ColumnView { name: name@, kind: ColumnType::Varchar },
                ));
            }
            Some(at)
        },
        None => None,
    }
}

/// The range of the scan: the rows from the first one with data to the end of the
/// wanted range, and the columns that the analysis found.
pub open spec fn scan_range(parameters: ReadSheetParameters, table: Table) -> Range {
    Range {
        row_lower_bound: table.row_lower_bound,
        row_upper_bound: bounds_of(parameters.range).row_upper_bound,
        col_lower_bound: Some(table.col_lower_bound),
        col_upper_bound: Some(table.col_upper_bound),
    }
}

impl ReadSheetBindData {
    /// Prepares a scan from the tables that the analysis found in a spreadsheet. The
    /// first one is read; the column for the name of the sheet comes before that for
    /// the name of the file.
    pub fn try_from(
        parameters: &ReadSheetParameters,
        spreadsheet_name: &str,
        tables: &Vec<Table>,
    ) -> (res: Result<ReadSheetBindData, RustySheetError>)
        ensures
            if tables@.len() == 0 {
                &&& res matches Err(e)
                &&& e@ == ErrorView::SheetWildcardError(
                    spreadsheet_name@,
                    match parameters.sheet_name {
                        Some(pattern) => pattern@,
                        None => Seq::empty(),
                    },
                )
            } else {
                let found = column_views(tables@[0].columns@);
                let with_sheet = with_text_column(found, parameters.sheet_name_column);
                &&& res matches Ok(data)
                &&& column_views(data.columns@) == with_text_column(
                    with_sheet,
                    parameters.file_name_column,
                )
                &&& data.sheet_name_column == next_column(found, parameters.sheet_name_column)
                &&& data.file_name_column == next_column(with_sheet, parameters.file_name_column)
                &&& data.file_name@ == parameters.file_name@
                &&& parameters.shares(data.criteria)
                &&& data.criteria.range == Some(scan_range(*parameters, tables@[0]))
                &&& data.criteria.rows_limit is None
            },
    {
        if tables.len() == 0 {
            let pattern = match &parameters.sheet_name {
                Some(pattern) => pattern.clone(),
                None => String::new(),
            };
            proof {
                if parameters.sheet_name is None {
                    assert(pattern@ =~= Seq::<char>::empty());
                }
            }
            return Err(
                RustySheetError::Extension(
                    ExtensionError::SheetWildcardError(spreadsheet_name.to_owned(), pattern),
                ),
            );
        }
        let table = &tables[0];
        let mut columns = copy_columns(&table.columns);
        let sheet_name_column = add_text_column(&mut columns, &parameters.sheet_name_column);
        let file_name_column = add_text_column(&mut columns, &parameters.file_name_column);
        let row_upper_bound: Option<usize> = match parameters.range {
            Some(range) => range.row_upper_bound,
            None => None,
        };
        let range = Range {
            row_lower_bound: table.row_lower_bound,
            row_upper_bound,
            col_lower_bound: Some(table.col_lower_bound),
            col_upper_bound: Some(table.col_upper_bound),
        };
        let criteria = parameters.criteria(Some(range), None);
        Ok(
            ReadSheetBindData {
                columns,
                file_name_column,
                sheet_name_column,
                file_name: parameters.file_name.clone(),
                criteria,
            },
        )
    }
}

/// The columns for the names of the sheet and the file come behind those of the
/// table, that of the sheet first; so no two of them are the same.
pub proof fn lemma_name_columns_differ(
    columns: Seq<ColumnView>,
    sheet_name: Option<String>,
    file_name: Option<String>,
)
    requires
        columns.len() + 1 < usize::MAX,
    ensures
        next_column(columns, sheet_name) matches Some(sheet_column) ==> {
            &&& sheet_column >= columns.len()
            &&& next_column(with_text_column(columns, sheet_name), file_name) matches Some(
                file_column,
            ) ==> file_column > sheet_column
        },
{
}

/// What an output column holds in a row.
#[derive(Debug, Clone, Copy, PartialEq, Eq, Structural)]
pub enum OutputValue {
    /// The name of the file.
    FileName,
    /// The name of the sheet.
    SheetName,
    /// The cell with this number.
    Cell(usize),
    /// Nothing.
    Null,
}

/// The column of a sheet that the first output column shows.
pub open spec fn first_column(data: ReadSheetBindData) -> int {
    match bounds_of(data.criteria.range).col_lower_bound {
        Some(lower) => lower as int,
        None => 0,
    }
}

/// What the projected column `column` holds in a row of a chunk's table, as far as
/// the first `n` cells tell.
pub open spec fn output_among(
    data: ReadSheetBindData,
    sheet: Sheet,
    n: int,
    row: int,
    column: usize,
) -> OutputValue {
    if data.file_name_column == Some(column) {
        OutputValue::FileName
    } else if data.sheet_name_column == Some(column) {
        OutputValue::SheetName
    } else {
        match cell_among(sheet@, n, row, first_column(data) + column) {
            Some(k) => OutputValue::Cell(k as usize),
            None => OutputValue::Null,
        }
    }
}

/// What the projected column `column` holds in a row of a chunk's table.
pub open spec fn output_value(
    data: ReadSheetBindData,
    sheet: Sheet,
    row: int,
    column: usize,
) -> OutputValue {
    output_among(data, sheet, sheet@.cells.len() as int, row, column)
}

/// Arranges the cells of a chunk in rows of the projected columns. A chunk without
/// rows gives none.
pub fn arrange_chunk(data: &ReadSheetBindData, projections: &Vec<usize>, sheet: &Sheet) -> (res: Vec<
    Vec<OutputValue>,
>)
    ensures
        res@.len() == table_rows(sheet@),
        forall|row: int|
            0 <= row < res@.len() ==> (#[trigger] res@[row])@.len() == projections@.len(),
        forall|row: int, j: int|
            0 <= row < res@.len() && 0 <= j < projections@.len() ==> (#[trigger] res@[row]@[j])
                == output_value(*data, *sheet, row, projections@[j]),
{
    let rows = sheet.find_table_rows();
    let count: usize = sheet.count_table_rows(&rows);
    let lower: usize = match &data.criteria.range {
        Some(range) => match range.col_lower_bound {
            Some(lower) => lower,
            None => 0,
        },
        None => 0,
    };
    let mut output: Vec<Vec<OutputValue>> = Vec::new();
    let mut row: usize = 0;
    while row < count
        invariant
            row <= count,
            output@.len() == row,
            forall|r: int|
                0 <= r < output@.len() ==> (#[trigger] output@[r])@.len() == projections@.len(),
            forall|r: int, j: int|
                0 <= r < output@.len() && 0 <= j < projections@.len() ==> (
                #[trigger] output@[r]@[j]) == output_among(*data, *sheet, 0, r, projections@[j]),
        decreases count - row,
    {
        let mut record: Vec<OutputValue> = Vec::new();
        let mut j: usize = 0;
        while j < projections.len()
            invariant
                j <= projections@.len(),
                record@.len() == j,
                forall|k: int|
                    0 <= k < j ==> (#[trigger] record@[k]) == output_among(
                        *data,
                        *sheet,
                        0,
                        row as int,
                        projections@[k],
                    ),
            decreases projections@.len() - j,
        {
            record.push(name_or_null(data, projections[j]));
            j = j + 1;
        }
        output.push(record);
        row = row + 1;
    }
    let mut k: usize = 0;
    while k < sheet.cells.len()
        invariant
            k <= sheet.cells@.len(),
            rows@.len() == sheet@.cells.len(),
            sheet@.cells.len() == sheet.cells@.len(),
            lower == first_column(*data),
            forall|i: int|
                0 <= i < rows@.len() ==> match #[trigger] rows@[i] {
                    Some(row) => table_row(sheet@, i) == Some(row as int),
                    None => table_row(sheet@, i) is None,
                },
            output@.len() == count,
            forall|r: int|
                0 <= r < output@.len() ==> (#[trigger] output@[r])@.len() == projections@.len(),
            forall|r: int, j: int|
                0 <= r < output@.len() && 0 <= j < projections@.len() ==> (
                #[trigger] output@[r]@[j]) == output_among(
                    *data,
                    *sheet,
                    k as int,
                    r,
                    projections@[j],
                ),
        decreases sheet.cells@.len() - k,
    {
        let col: usize = sheet.cells[k].col;
        proof {
            assert(sheet@.cells[k as int].col == col);
        }
        let ghost before = output@;
        match rows[k] {
            Some(at) => {
                if at < output.len() {
                    let record = place_cell(
                        data,
                        projections,
                        &output[at],
                        lower,
                        col,
                        k,
                        Ghost(*sheet),
                        Ghost(at as int),
                    );
                    output.set(at, record);
                    proof {
                        assert forall|r: int, j: int|
                            0 <= r < output@.len() && 0 <= j < projections@.len() implies (
                        #[trigger] output@[r]@[j]) == output_among(
                            *data,
                            *sheet,
                            k + 1,
                            r,
                            projections@[j],
                        ) by {
                            if r != at {
                                assert(output@[r] == before[r]);
                                assert(before[r]@[j] == output_among(
                                    *data,
                                    *sheet,
                                    k as int,
                                    r,
                                    projections@[j],
                                ));
                            }
                        }
                    }
                }
            },
            None => {},
        }
        k = k + 1;
    }
    output
}

fn name_or_null(data: &ReadSheetBindData, column: usize) -> (res: OutputValue)
    ensures
        forall|sheet: Sheet, row: int|
            res == #[trigger] output_among(*data, sheet, 0, row, column),
{
    let is_file_name: bool = match data.file_name_column {
        Some(at) => at == column,
        None => false,
    };
    let is_sheet_name: bool = match data.sheet_name_column {
        Some(at) => at == column,
        None => false,
    };
    if is_file_name {
        OutputValue::FileName
    } else if is_sheet_name {
        OutputValue::SheetName
    } else {
        OutputValue::Null
    }
}

fn place_cell(
    data: &ReadSheetBindData,
    projections: &Vec<usize>,
    record: &Vec<OutputValue>,
    lower: usize,
    col: usize,
    k: usize,
    Ghost(sheet): Ghost<Sheet>,
    Ghost(row): Ghost<int>,
) -> (res: Vec<OutputValue>)
    requires
        k < sheet@.cells.len(),
        sheet@.cells[k as int].col == col,
        table_row(sheet@, k as int) == Some(row),
        record@.len() == projections@.len(),
        lower == first_column(*data),
        forall|j: int|
            0 <= j < projections@.len() ==> (#[trigger] record@[j]) == output_among(
                *data,
                sheet,
                k as int,
                row,
                projections@[j],
            ),
    ensures
        res@.len() == projections@.len(),
        forall|j: int|
            0 <= j < projections@.len() ==> (#[trigger] res@[j]) == output_among(
                *data,
                sheet,
                k + 1,
                row,
                projections@[j],
            ),
{
    let mut placed: Vec<OutputValue> = Vec::new();
    let mut j: usize = 0;
    while j < projections.len()
        invariant
            j <= projections@.len(),
            placed@.len() == j,
            k < sheet@.cells.len(),
            sheet@.cells[k as int].col == col,
            table_row(sheet@, k as int) == Some(row),
            record@.len() == projections@.len(),
            lower == first_column(*data),
            forall|i: int|
                0 <= i < projections@.len() ==> (#[trigger] record@[i]) == output_among(
                    *data,
                    sheet,
                    k as int,
                    row,
                    projections@[i],
                ),
            forall|i: int|
                0 <= i < j ==> (#[trigger] placed@[i]) == output_among(
                    *data,
                    sheet,
                    k + 1,
                    row,
                    projections@[i],
                ),
        decreases projections@.len() - j,
    {
        let column: usize = projections[j];
        let named = name_or_null(data, column);
        let here: bool = col >= lower && col - lower == column;
        proof {
            assert(named == output_among(*data, sheet, 0, row, column));
            assert(record@[j as int] == output_among(*data, sheet, k as int, row, column));
        }
        if named == OutputValue::Null && here {
            placed.push(OutputValue::Cell(k));
        } else {
            placed.push(record[j]);
        }
        j = j + 1;
    }
    placed
}

/// What was thrown when the reading of a spreadsheet panicked.
#[derive(Debug, Clone, PartialEq, Eq)]
pub enum PanicPayload {
    /// A literal message.
    Literal(&'static str),
    /// A message that was put together.
    Message(String),
    /// Anything else.
    Other,
}

/// The message of a panic.
pub open spec fn panic_text(payload: PanicPayload) -> Seq<char> {
    match payload {
        PanicPayload::Literal(text) => text@,
        PanicPayload::Message(text) => text@,
        PanicPayload::Other => "unknown panic"@,
    }
}

/// The message of a panic.
pub fn panic_payload_message(payload: &PanicPayload) -> (res: String)
    ensures
        res@ == panic_text(*payload),
{
    match payload {
        PanicPayload::Literal(text) => (*text).to_owned(),
        PanicPayload::Message(text) => text.clone(),
        PanicPayload::Other => "unknown panic".to_owned(),
    }
}

/// How the reading of a spreadsheet ended.
pub enum StreamEnd {
    /// All was read, or no more was wanted.
    Finished,
    /// An error came.
    Failed(RustySheetError),
    /// The reader panicked.
    Panicked(PanicPayload),
}

/// What is sent behind the last chunk, given how the reading of a spreadsheet
/// ended: the message of an error or a panic, or nothing.
pub fn run_stream_worker(end: &StreamEnd) -> (res: Option<String>)
    ensures
        match *end {
            StreamEnd::Finished => res is None,
            StreamEnd::Failed(error) => res matches Some(text) && text@ == error@.message(),
            StreamEnd::Panicked(payload) => res matches Some(text) && text@
                == "spreadsheet stream panicked: "@ + panic_text(payload),
        },
{
    match end {
        StreamEnd::Finished => None,
        StreamEnd::Failed(error) => Some(error.to_string()),
        StreamEnd::Panicked(payload) => {
            let mut text = "spreadsheet stream panicked: ".to_owned();
            let message = panic_payload_message(payload);
            text.push_str(message.as_str());
            Some(text)
        },
    }
}

/// Every cell that a chunk's output refers to is a cell of the chunk, and stands in
/// its row and column.
pub proof fn lemma_output_refers_to_cells(
    data: ReadSheetBindData,
    sheet: Sheet,
    row: int,
    column: usize,
)
    requires
        sheet@.cells.len() <= usize::MAX,
    ensures
        output_value(data, sheet, row, column) matches OutputValue::Cell(k) ==> {
            &&& k < sheet@.cells.len()
            &&& table_row(sheet@, k as int) == Some(row)
            &&& sheet@.cells[k as int].col == first_column(data) + column
            &&& table_cell(sheet@, row, first_column(data) + column) == Some(k as int)
        },
{
    lemma_table_cell(
        sheet@,
        sheet@.cells.len() as int,
        row,
        first_column(data) + column,
    );
}

} // verus!
