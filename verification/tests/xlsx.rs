use rusty_sheet::error::IoError;
use rusty_sheet::error::RustySheetError;
use rusty_sheet::extension::writer::write_to_vector;
use rusty_sheet::extension::writer::Column;
use rusty_sheet::extension::writer::ColumnType;
use rusty_sheet::helpers::text::NumberError;
use rusty_sheet::spreadsheet::cell::Cell;
use rusty_sheet::spreadsheet::cell::CellType;
use rusty_sheet::spreadsheet::criteria::Criteria;
use rusty_sheet::spreadsheet::criteria::Range;
use rusty_sheet::spreadsheet::sheet::Sheet;
use rusty_sheet::spreadsheet::xlsx::StreamAction;
use rusty_sheet::spreadsheet::xlsx::XlsxSpreadsheet;
use std::collections::HashSet;
use std::io::Cursor;
use std::io::Write;
use zip::write::SimpleFileOptions;
use zip::ZipWriter;

fn archive(parts: &[(&str, String)]) -> Vec<u8> {
    let mut zip = ZipWriter::new(Cursor::new(Vec::new()));
    let options = SimpleFileOptions::default().compression_method(zip::CompressionMethod::Deflated);
    for (name, content) in parts {
        zip.start_file(*name, options).unwrap();
        zip.write_all(content.as_bytes()).unwrap();
    }
    zip.finish().unwrap().into_inner()
}

fn default_criteria() -> Criteria {
    Criteria {
        sheet_name_patterns: None,
        sheet_limit: None,
        range: None,
        rows_limit: None,
        nulls: vec!["".to_string()],
        error_as_null: false,
        skip_empty_rows: false,
        end_at_empty_row: false,
        spread_merged_cells: false,
    }
}

fn package_parts(overrides: &str, relationships: &str) -> Vec<(&'static str, String)> {
    vec![
        (
            "[Content_Types].xml",
            format!(
                r#"<?xml version="1.0" encoding="UTF-8"?>
<Types xmlns="http://schemas.openxmlformats.org/package/2006/content-types">
  <Default Extension="rels" ContentType="application/vnd.openxmlformats-package.relationships+xml"/>
  <Default Extension="xml" ContentType="application/xml"/>
  <Override PartName="/xl/workbook.xml" ContentType="application/vnd.openxmlformats-officedocument.spreadsheetml.sheet.main+xml"/>
  <Override PartName="/xl/worksheets/sheet1.xml" ContentType="application/vnd.openxmlformats-officedocument.spreadsheetml.worksheet+xml"/>{overrides}
</Types>"#
            ),
        ),
        (
            "_rels/.rels",
            r#"<?xml version="1.0" encoding="UTF-8"?>
<Relationships xmlns="http://schemas.openxmlformats.org/package/2006/relationships">
  <Relationship Id="rId1" Type="http://schemas.openxmlformats.org/officeDocument/2006/relationships/officeDocument" Target="xl/workbook.xml"/>
</Relationships>"#
                .to_string(),
        ),
        (
            "xl/workbook.xml",
            r#"<?xml version="1.0" encoding="UTF-8"?>
<workbook xmlns="http://schemas.openxmlformats.org/spreadsheetml/2006/main" xmlns:r="http://schemas.openxmlformats.org/officeDocument/2006/relationships">
  <sheets><sheet name="Sheet1" sheetId="1" r:id="rId1"/></sheets>
</workbook>"#
                .to_string(),
        ),
        (
            "xl/_rels/workbook.xml.rels",
            format!(
                r#"<?xml version="1.0" encoding="UTF-8"?>
<Relationships xmlns="http://schemas.openxmlformats.org/package/2006/relationships">
  <Relationship Id="rId1" Type="http://schemas.openxmlformats.org/officeDocument/2006/relationships/worksheet" Target="worksheets/sheet1.xml"/>{relationships}
</Relationships>"#
            ),
        ),
    ]
}

fn styles_override() -> &'static str {
    r#"
  <Override PartName="/xl/styles.xml" ContentType="application/vnd.openxmlformats-officedocument.spreadsheetml.styles+xml"/>"#
}

fn styles_relationship() -> &'static str {
    r#"
  <Relationship Id="rId2" Type="http://schemas.openxmlformats.org/officeDocument/2006/relationships/styles" Target="styles.xml"/>"#
}

fn strings_override() -> &'static str {
    r#"
  <Override PartName="/xl/sharedStrings.xml" ContentType="application/vnd.openxmlformats-officedocument.spreadsheetml.sharedStrings+xml"/>"#
}

fn strings_relationship() -> &'static str {
    r#"
  <Relationship Id="rId2" Type="http://schemas.openxmlformats.org/officeDocument/2006/relationships/sharedStrings" Target="sharedStrings.xml"/>"#
}

fn worksheet(rows: &str) -> String {
    format!(
        r#"<?xml version="1.0" encoding="UTF-8"?>
<worksheet xmlns="http://schemas.openxmlformats.org/spreadsheetml/2006/main">
  <sheetData>{rows}</sheetData>
</worksheet>"#
    )
}

fn invalid_style_workbook() -> Vec<u8> {
    let rows = (2..11)
        .map(|row| format!("<row r=\"{row}\"><c r=\"A{row}\"><v>{row}</v></c></row>"))
        .collect::<String>();
    let mut parts = package_parts(styles_override(), styles_relationship());
    parts.push((
        "xl/styles.xml",
        r#"<?xml version="1.0" encoding="UTF-8"?>
<styleSheet xmlns="http://schemas.openxmlformats.org/spreadsheetml/2006/main">
  <cellXfs count="1"><xf numFmtId="0"/></cellXfs>
</styleSheet>"#
            .to_string(),
    ));
    parts.push((
        "xl/worksheets/sheet1.xml",
        worksheet(&format!(
            r#"<row r="1"><c r="A1" t="inlineStr"><is><t>value</t></is></c></row>{rows}<row r="11"><c r="A11" s="999"><v>11</v></c></row>"#
        )),
    ));
    archive(&parts)
}

fn invalid_shared_string_workbook() -> Vec<u8> {
    let mut parts = package_parts(strings_override(), strings_relationship());
    parts.push((
        "xl/sharedStrings.xml",
        r#"<?xml version="1.0" encoding="UTF-8"?>
<sst xmlns="http://schemas.openxmlformats.org/spreadsheetml/2006/main" count="1" uniqueCount="1">
  <si><t>name</t></si>
</sst>"#
            .to_string(),
    ));
    parts.push((
        "xl/worksheets/sheet1.xml",
        worksheet(r#"<row r="1"><c r="A1" t="s"><v>999</v></c></row>"#),
    ));
    archive(&parts)
}

#[test]
fn invalid_style_index_returns_error() {
    let mut spreadsheet = XlsxSpreadsheet::open("style", invalid_style_workbook()).unwrap();
    let result = spreadsheet.read_sheets(&default_criteria());
    let error = match result {
        Ok(_) => panic!("expected invalid style index error"),
        Err(error) => error.to_string(),
    };
    assert!(error.contains("Sheet1!A11"));
    assert!(error.contains("invalid style index 999"));
    assert!(error.contains("workbook defines 1 styles"));
}

#[test]
fn invalid_shared_string_index_returns_error() {
    let mut spreadsheet =
        XlsxSpreadsheet::open("shared-string", invalid_shared_string_workbook()).unwrap();
    let sheets = spreadsheet.read_sheets(&default_criteria()).unwrap();
    let (strings, _) = spreadsheet.load_shared_strings(None).unwrap();
    let loaded: Vec<Option<String>> = strings.into_iter().map(Some).collect();
    let column = Column { name: "name".to_string(), kind: ColumnType::Varchar };
    let result = write_to_vector(&sheets[0], &column, &sheets[0].cells[0], &loaded);
    let error = match result {
        Ok(_) => panic!("expected invalid shared string index error"),
        Err(error) => error.to_string(),
    };
    assert!(error.contains("Sheet1!A1"));
    assert!(error.contains("invalid shared string index 999"));
}

#[test]
fn invalid_cell_reference_returns_error() {
    let mut parts = package_parts("", "");
    parts.push((
        "xl/worksheets/sheet1.xml",
        worksheet(r#"<row r="1"><c r="XFE1" t="inlineStr"><is><t>value</t></is></c></row>"#),
    ));
    let mut spreadsheet = XlsxSpreadsheet::open("cell-reference", archive(&parts)).unwrap();
    let result = spreadsheet.read_sheets(&default_criteria());
    let error = match result {
        Ok(_) => panic!("expected invalid cell reference error"),
        Err(error) => error.to_string(),
    };
    assert!(error.contains("Sheet1"));
    assert!(error.contains("invalid cell reference 'XFE1'"));
}

#[test]
fn missing_sheet_xml_returns_error() {
    let parts = package_parts("", "");
    let mut spreadsheet = XlsxSpreadsheet::open("missing-sheet", archive(&parts)).unwrap();
    let result = spreadsheet.read_sheets(&default_criteria());
    let error = match result {
        Ok(_) => panic!("expected missing sheet XML error"),
        Err(error) => error.to_string(),
    };
    assert!(error.contains("xl/worksheets/sheet1.xml"));
    assert!(error.contains("missing or corrupted"));
}

fn book(sheet: &str) -> XlsxSpreadsheet {
    let mut parts = package_parts("", "");
    parts.push((
        "xl/styles.xml",
        r#"<styleSheet><numFmts><numFmt numFmtId="164" formatCode="hh:mm"/></numFmts><cellXfs><xf numFmtId="0"/><xf numFmtId="14"/><xf numFmtId="164"/></cellXfs></styleSheet>"#
            .to_string(),
    ));
    parts.push((
        "xl/sharedStrings.xml",
        r#"<sst><si><t>zero</t></si><si><r><t>o</t></r><rPh><t>ignored</t></rPh><r><t>ne</t></r></si><si><t>n/a</t></si></sst>"#
            .to_string(),
    ));
    parts.push(("xl/worksheets/sheet1.xml", sheet.to_string()));
    XlsxSpreadsheet::open("book.xlsx", archive(&parts)).unwrap()
}

fn cell(row: usize, col: usize, kind: CellType, value: &str) -> Cell {
    Cell { row, col, kind, value: value.to_string() }
}

fn read_cells(sheet: &str, criteria: &Criteria) -> Vec<Cell> {
    book(sheet).read_sheets(criteria).unwrap().remove(0).cells
}

fn places(cells: &[Cell]) -> Vec<(usize, usize)> {
    cells.iter().map(|cell| (cell.row, cell.col)).collect()
}

#[test]
fn cells_have_their_types_and_values() {
    let rows = r#"<row><c r="A1"><v>1</v></c><c r="B1" t="s"><v>1</v></c><c r="C1" t="b"><v>1</v></c></row><row><c t="str"><v>a&lt;b</v></c><c s="1"><v>2</v></c><c s="2"><v>3</v></c><c t="d"><v>2024-01-02</v></c></row>"#;
    assert_eq!(
        read_cells(&worksheet(rows), &default_criteria()),
        vec![
            cell(0, 0, CellType::Number, "1"),
            cell(0, 1, CellType::SharedString, "1"),
            cell(0, 2, CellType::Boolean, "1"),
            cell(1, 0, CellType::InlineString, "a<b"),
            cell(1, 1, CellType::Date(false), "2"),
            cell(1, 2, CellType::Time(false), "3"),
            cell(1, 3, CellType::IsoDateTime, "2024-01-02"),
        ]
    );
}

#[test]
fn errors_fail_or_count_as_no_value() {
    let rows = r#"<row><c r="B2" t="e"><v>#REF!</v></c><c r="C2"><v>5</v></c></row>"#;
    let error = book(&worksheet(rows)).read_sheets(&default_criteria()).unwrap_err();
    assert_eq!(error.to_string(), "book.xlsx: Sheet1!B2: #REF!");
    let mut criteria = default_criteria();
    criteria.error_as_null = true;
    assert_eq!(read_cells(&worksheet(rows), &criteria), vec![cell(1, 2, CellType::Number, "5")]);
}

#[test]
fn only_wanted_cells_are_read_from_worksheets() {
    let rows = r#"<row><c r="A1"><v>1</v></c></row><row><c r="A2"><v>2</v></c><c r="B2"><v>3</v></c></row><row><c r="A3"><v>4</v></c></row><row><c r="A4"><v>5</v></c></row>"#;
    let mut criteria = default_criteria();
    criteria.range = Some(Range {
        row_lower_bound: Some(1),
        row_upper_bound: None,
        col_lower_bound: None,
        col_upper_bound: Some(0),
    });
    criteria.rows_limit = Some(2);
    assert_eq!(places(&read_cells(&worksheet(rows), &criteria)), vec![(1, 0), (2, 0)]);
}

#[test]
fn an_empty_row_ends_a_worksheet() {
    let rows = r#"<row><c r="A1"><v>1</v></c></row><row><c r="A2"><v>2</v></c></row><row><c r="A4"><v>4</v></c></row>"#;
    let mut criteria = default_criteria();
    criteria.end_at_empty_row = true;
    assert_eq!(places(&read_cells(&worksheet(rows), &criteria)), vec![(0, 0), (1, 0)]);
}

fn merged_sheet() -> &'static str {
    r#"<worksheet><sheetData><row><c r="A1" t="s"><v>1</v></c><c r="C1"><v>9</v></c></row></sheetData><mergeCells><mergeCell ref="A1:B2"/><mergeCell ref="D4:E5"/></mergeCells></worksheet>"#
}

#[test]
fn merged_ranges_are_spread_in_order() {
    let mut criteria = default_criteria();
    criteria.spread_merged_cells = true;
    assert_eq!(
        read_cells(merged_sheet(), &criteria),
        vec![
            cell(0, 0, CellType::SharedString, "1"),
            cell(0, 1, CellType::SharedString, "1"),
            cell(0, 2, CellType::Number, "9"),
            cell(1, 0, CellType::SharedString, "1"),
            cell(1, 1, CellType::SharedString, "1"),
        ]
    );
    assert_eq!(places(&read_cells(merged_sheet(), &default_criteria())), vec![(0, 0), (0, 2)]);
}

#[test]
fn ranges_that_overlap_give_each_position_one_cell() {
    let mut criteria = default_criteria();
    criteria.spread_merged_cells = true;
    let sheet = r#"<worksheet><sheetData><row><c r="A1"><v>1</v></c><c r="B1"><v>2</v></c></row></sheetData><mergeCells><mergeCell ref="A1:B2"/><mergeCell ref="B1:C2"/></mergeCells></worksheet>"#;
    assert_eq!(
        read_cells(sheet, &criteria),
        vec![
            cell(0, 0, CellType::Number, "1"),
            cell(0, 1, CellType::Number, "2"),
            cell(0, 2, CellType::Number, "2"),
            cell(1, 0, CellType::Number, "1"),
            cell(1, 1, CellType::Number, "1"),
            cell(1, 2, CellType::Number, "2"),
        ]
    );
}

#[test]
fn wanted_shared_strings_are_those_of_the_whole_table() {
    let mut spreadsheet = book(&worksheet(""));
    let (all, none) = spreadsheet.load_shared_strings(None).unwrap();
    assert_eq!(all, vec!["zero", "one", "n/a"]);
    assert!(none.is_empty());
    let wanted: HashSet<usize> = [1, 2, 7].into_iter().collect();
    let (some, places) = spreadsheet.load_shared_strings(Some(wanted)).unwrap();
    assert_eq!(some.len(), 2);
    assert_eq!(some[places[&1]], "one");
    assert_eq!(some[places[&2]], "n/a");
    assert!(places[&1] < places[&2]);
    assert_eq!(places.len(), some.len());
    assert!(!places.contains_key(&7) && !places.contains_key(&0));
}

#[test]
fn shared_strings_are_stored_in_order() {
    let mut store = book(&worksheet("")).load_shared_string_store().unwrap();
    assert_eq!(store.len(), 3);
    assert_eq!(store.get(1).unwrap(), "one");
}

fn joined(chunks: &[Sheet]) -> Vec<Cell> {
    chunks.iter().flat_map(|chunk| chunk.cells.clone()).collect()
}

#[test]
fn streams_resolve_shared_strings() {
    let rows = r#"<row><c r="A1" t="s"><v>1</v></c><c r="B1" t="s"><v>2</v></c><c r="C1"><v>8</v></c></row>"#;
    let mut criteria = default_criteria();
    criteria.nulls = vec!["".to_string(), "n/a".to_string()];
    let stream = book(&worksheet(rows)).stream_sheets(&criteria);
    assert!(stream.fault.is_none());
    assert!(stream.shared_strings.is_empty());
    assert_eq!(
        joined(&stream.chunks),
        vec![cell(0, 0, CellType::InlineString, "one"), cell(0, 2, CellType::Number, "8")]
    );
}

#[test]
fn streams_of_merged_sheets_keep_shared_strings() {
    let mut criteria = default_criteria();
    criteria.spread_merged_cells = true;
    criteria.nulls = vec!["zero".to_string()];
    let stream = book(merged_sheet()).stream_sheets(&criteria);
    assert!(stream.fault.is_none());
    assert_eq!(
        stream.shared_strings,
        vec![None, Some("one".to_string()), Some("n/a".to_string())]
    );
    assert_eq!(joined(&stream.chunks).len(), 5);
}

#[test]
fn streams_come_in_chunks_of_rows() {
    let rows: String = (1..=5000).map(|row| format!("<row><c r=\"A{row}\"><v>{row}</v></c></row>")).collect();
    let stream = book(&worksheet(&rows)).stream_sheets(&default_criteria());
    let lengths: Vec<usize> = stream.chunks.iter().map(|chunk| chunk.cells.len()).collect();
    assert_eq!(lengths, vec![2048, 2048, 904]);
    assert_eq!(joined(&stream.chunks), read_cells(&worksheet(&rows), &default_criteria()));
}

#[test]
fn streams_end_with_the_fault() {
    let rows = r#"<row><c r="A1"><v>1</v></c><c r="A2" t="s"><v>3</v></c></row>"#;
    let stream = book(&worksheet(rows)).stream_sheets(&default_criteria());
    assert_eq!(stream.fault, Some(RustySheetError::Io(IoError::IndexOutOfBounds)));
    let rows = r#"<row><c r="A2" t="s"><v>x</v></c></row>"#;
    let stream = book(&worksheet(rows)).stream_sheets(&default_criteria());
    assert_eq!(stream.fault, Some(RustySheetError::Number(NumberError::InvalidDigit)));
}

#[test]
fn sheets_are_chosen_by_name_and_number() {
    let mut parts = package_parts("", "");
    parts[2].1 = r#"<workbook><workbookPr date1904="1"/><sheets><sheet name="In" r:id="a"/><sheet name="Out" r:id="b"/><sheet name="Inner" r:id="a"/><sheet name="Lost" r:id="c"/></sheets></workbook>"#.to_string();
    parts[3].1 = r#"<Relationships><Relationship Id="a" Target="worksheets/one.xml"/><Relationship Id="b" Target="/xl/worksheets/two.xml"/></Relationships>"#.to_string();
    parts.push(("xl/styles.xml", r#"<styleSheet><cellXfs><xf numFmtId="14"/></cellXfs></styleSheet>"#.to_string()));
    parts.push(("xl/worksheets/one.xml", worksheet(r#"<row><c s="0"><v>1</v></c></row>"#)));
    parts.push(("xl/worksheets/two.xml", worksheet(r#"<row><c><v>2</v></c></row>"#)));
    let mut spreadsheet = XlsxSpreadsheet::open("b", archive(&parts)).unwrap();
    assert_eq!(spreadsheet.name(), "b");
    let sheets = spreadsheet.read_sheets(&default_criteria()).unwrap();
    let names: Vec<&str> = sheets.iter().map(|sheet| sheet.name.as_str()).collect();
    assert_eq!(names, vec!["In", "Out", "Inner"]);
    assert_eq!(sheets[0].cells, vec![cell(0, 0, CellType::Date(true), "1")]);
    let mut criteria = default_criteria();
    criteria.sheet_name_patterns = Some(vec!["In*".to_string()]);
    assert_eq!(spreadsheet.read_sheets(&criteria).unwrap().len(), 2);
    criteria.sheet_limit = Some(1);
    assert_eq!(spreadsheet.read_sheets(&criteria).unwrap().len(), 1);
}

#[test]
fn styles_are_indexed_by_number() {
    let mut parts = package_parts(styles_override(), styles_relationship());
    parts.push((
        "xl/styles.xml",
        r#"<styleSheet><cellXfs count="2"><xf fontId="1"/><xf numFmtId="14"/></cellXfs></styleSheet>"#.to_string(),
    ));
    parts.push((
        "xl/worksheets/sheet1.xml",
        worksheet(r#"<row><c s="0"><v>1</v></c><c s="1"><v>2</v></c></row>"#),
    ));
    let mut spreadsheet = XlsxSpreadsheet::open("styles", archive(&parts)).unwrap();
    let sheets = spreadsheet.read_sheets(&default_criteria()).unwrap();
    assert_eq!(
        sheets[0].cells,
        vec![cell(0, 0, CellType::Number, "1"), cell(0, 1, CellType::Date(false), "2")]
    );
}

fn damaged_book() -> XlsxSpreadsheet {
    let rows: String = (1..=3000).map(|row| format!("<row><c r=\"A{row}\"><v>{row}</v></c></row>")).collect();
    let mut zip = ZipWriter::new(Cursor::new(Vec::new()));
    let options = SimpleFileOptions::default().compression_method(zip::CompressionMethod::Stored);
    let mut parts = package_parts("", "");
    parts.push(("xl/worksheets/sheet1.xml", format!("{}<!--mark-->", worksheet(&rows))));
    for (name, content) in parts {
        zip.start_file(name, options).unwrap();
        zip.write_all(content.as_bytes()).unwrap();
    }
    let mut image = zip.finish().unwrap().into_inner();
    let at = image.windows(4).position(|bytes| bytes == b"mark").unwrap();
    image[at] = b'b';
    XlsxSpreadsheet::open("damaged", image).unwrap()
}

#[test]
fn damage_behind_the_wanted_rows_is_not_seen() {
    assert!(damaged_book().read_sheets(&default_criteria()).is_err());
    let mut criteria = default_criteria();
    criteria.rows_limit = Some(2);
    let sheets = damaged_book().read_sheets(&criteria).unwrap();
    assert_eq!(places(&sheets[0].cells), vec![(0, 0), (1, 0)]);
    let stream = damaged_book().stream_sheets(&default_criteria());
    assert_eq!(stream.chunks.len(), 1);
    assert_eq!(stream.chunks[0].cells.len(), 2048);
    assert!(stream.fault.is_some());
}

#[test]
fn streams_agree_with_reads_over_all_sheets() {
    let mut parts = package_parts("", "");
    parts[2].1 = r#"<workbook><sheets><sheet name="A" r:id="a"/><sheet name="B" r:id="b"/></sheets></workbook>"#.to_string();
    parts[3].1 = r#"<Relationships><Relationship Id="a" Target="worksheets/one.xml"/><Relationship Id="b" Target="worksheets/two.xml"/></Relationships>"#.to_string();
    parts.push(("xl/sharedStrings.xml", "<sst><si><t>x</t></si></sst>".to_string()));
    parts.push(("xl/worksheets/one.xml", worksheet(r#"<row><c t="s"><v>0</v></c><c><v>7</v></c></row>"#)));
    parts.push(("xl/worksheets/two.xml", worksheet(r#"<row><c><v>8</v></c><c t="s"><v>0</v></c></row>"#)));
    let mut spreadsheet = XlsxSpreadsheet::open("b", archive(&parts)).unwrap();
    let stream = spreadsheet.stream_sheets(&default_criteria());
    assert!(stream.fault.is_none() && stream.shared_strings.is_empty());
    let read: Vec<Cell> = spreadsheet
        .read_sheets(&default_criteria())
        .unwrap()
        .into_iter()
        .flat_map(|sheet| sheet.cells)
        .map(|found| match found.kind {
            CellType::SharedString => cell(found.row, found.col, CellType::InlineString, "x"),
            _ => found,
        })
        .collect();
    assert_eq!(joined(&stream.chunks), read);
    assert_eq!(read.len(), 4);
}

#[test]
fn streams_stop_when_no_more_is_wanted() {
    let stream = damaged_book().stream_sheets(&default_criteria());
    assert_eq!(stream.next_action(0, true), StreamAction::HandOut(0));
    assert_eq!(stream.next_action(0, false), StreamAction::HandOut(0));
    assert_eq!(stream.next_action(1, true), StreamAction::Fail);
    assert_eq!(stream.next_action(1, false), StreamAction::Finish);
    let stream = book(&worksheet("")).stream_sheets(&default_criteria());
    assert_eq!(stream.next_action(0, true), StreamAction::Finish);
}

#[test]
fn broken_documents_are_errors() {
    let error = book("<worksheet><sheetData></row></worksheet>").read_sheets(&default_criteria());
    assert!(matches!(error, Err(RustySheetError::Xml(_))));
}
