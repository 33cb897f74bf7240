use rusty_sheet::error::RustySheetError;
use rusty_sheet::extension::read_sheet::arrange_chunk;
use rusty_sheet::extension::read_sheet::panic_payload_message;
use rusty_sheet::extension::read_sheet::run_stream_worker;
use rusty_sheet::extension::read_sheet::OutputValue;
use rusty_sheet::extension::read_sheet::PanicPayload;
use rusty_sheet::extension::read_sheet::ReadSheetBindData;
use rusty_sheet::extension::read_sheet::ReadSheetParameters;
use rusty_sheet::extension::read_sheet::StreamEnd;
use rusty_sheet::extension::read_sheet::Table;
use rusty_sheet::extension::writer::conversion_error;
use rusty_sheet::extension::writer::write_to_vector;
use rusty_sheet::extension::writer::CellOutput;
use rusty_sheet::extension::writer::Column;
use rusty_sheet::extension::writer::ColumnType;
use rusty_sheet::extension::writer::Conversion;
use rusty_sheet::spreadsheet::cell::Cell;
use rusty_sheet::spreadsheet::cell::CellType;
use rusty_sheet::spreadsheet::criteria::Range;
use rusty_sheet::spreadsheet::sheet::Sheet;

#[test]
fn stream_worker_sends_parser_errors() {
    let end = StreamEnd::Failed(RustySheetError::WithContextError("bad workbook".to_string()));
    assert_eq!(run_stream_worker(&end).unwrap(), "bad workbook");
}

#[test]
fn stream_worker_sends_panic_errors() {
    let end = StreamEnd::Panicked(PanicPayload::Literal("bad workbook"));
    assert_eq!(run_stream_worker(&end).unwrap(), "spreadsheet stream panicked: bad workbook");
}

#[test]
fn finished_streams_send_nothing_more() {
    assert_eq!(run_stream_worker(&StreamEnd::Finished), None);
}

#[test]
fn panics_have_messages() {
    assert_eq!(panic_payload_message(&PanicPayload::Literal("a")), "a");
    assert_eq!(panic_payload_message(&PanicPayload::Message("b".to_string())), "b");
    assert_eq!(panic_payload_message(&PanicPayload::Other), "unknown panic");
}

fn parameters() -> ReadSheetParameters {
    ReadSheetParameters {
        file_name: "dir/book.xlsx".to_string(),
        sheet_name: None,
        range: None,
        header: None,
        columns: None,
        analyze_rows: None,
        nulls: None,
        error_as_null: None,
        skip_empty_rows: None,
        end_at_empty_row: None,
        file_name_column: None,
        sheet_name_column: None,
        spread_merged_cells: None,
    }
}

fn column(name: &str, kind: ColumnType) -> Column {
    Column { name: name.to_string(), kind }
}

fn table() -> Table {
    Table {
        columns: vec![column("a", ColumnType::BigInt), column("b", ColumnType::Date)],
        row_lower_bound: Some(1),
        col_lower_bound: 2,
        col_upper_bound: 3,
    }
}

#[test]
fn analysis_has_defaults() {
    let mut asked = parameters();
    assert!(asked.has_header());
    let criteria = asked.analysis_criteria();
    assert_eq!(criteria.sheet_name_patterns, None);
    assert_eq!(criteria.sheet_limit, Some(1));
    assert_eq!(criteria.rows_limit, Some(10));
    assert_eq!(criteria.nulls, vec![""]);
    assert!(!criteria.error_as_null && !criteria.skip_empty_rows);
    assert!(!criteria.end_at_empty_row && !criteria.spread_merged_cells);
    asked.header = Some(false);
    asked.analyze_rows = Some(3);
    asked.nulls = Some(vec!["x".to_string(), "y".to_string()]);
    asked.sheet_name = Some("S*".to_string());
    asked.error_as_null = Some(true);
    assert!(!asked.has_header());
    let criteria = asked.analysis_criteria();
    assert_eq!(criteria.rows_limit, Some(3));
    assert_eq!(criteria.nulls, vec!["x", "y"]);
    assert_eq!(criteria.sheet_name_patterns, Some(vec!["S*".to_string()]));
    assert!(criteria.error_as_null);
}

#[test]
fn scans_cover_the_analyzed_columns() {
    let mut asked = parameters();
    asked.range = Some(Range {
        row_lower_bound: Some(0),
        row_upper_bound: Some(9),
        col_lower_bound: None,
        col_upper_bound: None,
    });
    asked.sheet_name_column = Some("sheet".to_string());
    asked.file_name_column = Some("file".to_string());
    let data = ReadSheetBindData::try_from(&asked, "book.xlsx", &vec![table()]).unwrap();
    assert_eq!(
        data.columns,
        vec![
            column("a", ColumnType::BigInt),
            column("b", ColumnType::Date),
            column("sheet", ColumnType::Varchar),
            column("file", ColumnType::Varchar),
        ]
    );
    assert_eq!(data.sheet_name_column, Some(2));
    assert_eq!(data.file_name_column, Some(3));
    assert_eq!(data.file_name, "dir/book.xlsx");
    assert_eq!(
        data.criteria.range,
        Some(Range {
            row_lower_bound: Some(1),
            row_upper_bound: Some(9),
            col_lower_bound: Some(2),
            col_upper_bound: Some(3),
        })
    );
    assert_eq!(data.criteria.rows_limit, None);
    assert_eq!(data.criteria.sheet_limit, Some(1));
}

#[test]
fn a_sheet_has_to_match() {
    let mut asked = parameters();
    asked.sheet_name = Some("No*".to_string());
    match ReadSheetBindData::try_from(&asked, "book.xlsx", &Vec::new()) {
        Err(error) => assert_eq!(error.to_string(), "book.xlsx: no sheet matches 'No*'"),
        Ok(_) => panic!("expected an error"),
    }
}

#[test]
fn invalid_patterns_are_refused() {
    let mut asked = parameters();
    assert!(asked.check_patterns().is_ok());
    asked.sheet_name = Some("Sheet[1-3]*".to_string());
    asked.columns = Some(vec![
        ("a?".to_string(), ColumnType::Date),
        ("b[".to_string(), ColumnType::Date),
        ("***".to_string(), ColumnType::Date),
    ]);
    let refused =
        |pattern: &str| RustySheetError::WithContextError(format!("invalid pattern: {}", pattern));
    assert_eq!(asked.check_patterns(), Err(refused("b[")));
    asked.sheet_name = Some("x**".to_string());
    assert_eq!(asked.check_patterns(), Err(refused("x**")));
    asked.sheet_name = None;
    asked.columns = None;
    assert!(asked.check_patterns().is_ok());
}

fn cell(row: usize, col: usize, kind: CellType, value: &str) -> Cell {
    Cell { row, col, kind, value: value.to_string() }
}

fn sheet(skip_empty_rows: bool) -> Sheet {
    let mut sheet = Sheet::new("book.xlsx", "S", None, None, skip_empty_rows);
    sheet.push(cell(1, 2, CellType::Number, "1"));
    sheet.push(cell(1, 3, CellType::Number, "2"));
    sheet.push(cell(3, 3, CellType::Number, "3"));
    sheet.finish(false);
    sheet
}

fn bound() -> ReadSheetBindData {
    let mut asked = parameters();
    asked.sheet_name_column = Some("sheet".to_string());
    asked.file_name_column = Some("file".to_string());
    ReadSheetBindData::try_from(&asked, "book.xlsx", &vec![table()]).unwrap()
}

#[test]
fn cells_are_arranged_in_projected_columns() {
    let rows = arrange_chunk(&bound(), &vec![1, 3, 0, 2], &sheet(false));
    assert_eq!(
        rows,
        vec![
            vec![OutputValue::Cell(1), OutputValue::FileName, OutputValue::Cell(0), OutputValue::SheetName],
            vec![OutputValue::Null, OutputValue::FileName, OutputValue::Null, OutputValue::SheetName],
            vec![OutputValue::Cell(2), OutputValue::FileName, OutputValue::Null, OutputValue::SheetName],
        ]
    );
}

#[test]
fn empty_rows_can_be_left_out() {
    let rows = arrange_chunk(&bound(), &vec![0, 1], &sheet(true));
    assert_eq!(
        rows,
        vec![
            vec![OutputValue::Cell(0), OutputValue::Cell(1)],
            vec![OutputValue::Null, OutputValue::Cell(2)],
        ]
    );
}

#[test]
fn no_cells_give_no_rows() {
    let empty = Sheet::new("f", "S", None, None, false);
    assert!(arrange_chunk(&bound(), &vec![0], &empty).is_empty());
}

#[test]
fn chunks_inside_of_a_sheet_are_full() {
    let mut sheet = Sheet::new("f", "S", None, None, false);
    sheet.push(cell(0, 2, CellType::Number, "1"));
    sheet.push(cell(2048, 2, CellType::Number, "2"));
    sheet.finish(false);
    let first = sheet.take_ready_chunk().unwrap();
    let rows = arrange_chunk(&bound(), &vec![0], &first);
    assert_eq!(rows.len(), 2048);
    assert_eq!(rows[0], vec![OutputValue::Cell(0)]);
    assert_eq!(rows[2047], vec![OutputValue::Null]);
    let second = sheet.take_ready_chunk().unwrap();
    assert_eq!(arrange_chunk(&bound(), &vec![0], &second), vec![vec![OutputValue::Cell(0)]]);
    assert!(sheet.take_ready_chunk().is_none());
}

fn written(kind: ColumnType, cell: &Cell, strings: &Vec<Option<String>>) -> Option<(Conversion, Cell)> {
    match write_to_vector(&sheet(false), &column("c", kind), cell, strings).unwrap() {
        CellOutput::Null => None,
        CellOutput::Converted(conversion, cell) => Some((conversion, cell)),
    }
}

#[test]
fn columns_decide_the_conversion() {
    let number = cell(0, 0, CellType::Number, "5");
    let none = Vec::new();
    for (kind, conversion) in [
        (ColumnType::Varchar, Conversion::DisplayString),
        (ColumnType::Boolean, Conversion::Boolean),
        (ColumnType::BigInt, Conversion::BigInt),
        (ColumnType::Double, Conversion::Double),
        (ColumnType::Timestamp, Conversion::DateTime),
        (ColumnType::Date, Conversion::Date),
        (ColumnType::Time, Conversion::Time),
    ] {
        assert_eq!(written(kind, &number, &none), Some((conversion, number.clone())));
    }
}

#[test]
fn shared_strings_are_put_in_place() {
    let strings = vec![Some("zero".to_string()), None];
    assert_eq!(
        written(ColumnType::Varchar, &cell(4, 1, CellType::SharedString, "0"), &strings),
        Some((Conversion::DisplayString, cell(4, 1, CellType::SharedString, "zero")))
    );
    assert_eq!(written(ColumnType::Varchar, &cell(4, 1, CellType::SharedString, "1"), &strings), None);
}

#[test]
fn conversion_errors_name_the_cell() {
    let error = conversion_error(&sheet(false), &cell(4, 27, CellType::Number, "x"), "bad".to_string());
    assert_eq!(error.to_string(), "book.xlsx: S!AB5: bad");
}
