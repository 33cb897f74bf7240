use rusty_sheet::error::OdsError;
use rusty_sheet::error::RustySheetError;
use rusty_sheet::error::SpreadsheetError;
use rusty_sheet::spreadsheet::cell::Cell;
use rusty_sheet::spreadsheet::cell::CellType;
use rusty_sheet::spreadsheet::criteria::Criteria;
use rusty_sheet::spreadsheet::criteria::Range;
use rusty_sheet::spreadsheet::ods::OdsSpreadsheet;
use std::io::Cursor;
use std::io::Write;
use zip::write::SimpleFileOptions;
use zip::ZipWriter;

const MIME_TYPE: &str = "application/vnd.oasis.opendocument.spreadsheet";

fn archive(parts: &[(&str, &str)]) -> Vec<u8> {
    let mut zip = ZipWriter::new(Cursor::new(Vec::new()));
    let options = SimpleFileOptions::default().compression_method(zip::CompressionMethod::Deflated);
    for (name, content) in parts {
        zip.start_file(*name, options).unwrap();
        zip.write_all(content.as_bytes()).unwrap();
    }
    zip.finish().unwrap().into_inner()
}

fn write_ods(include_manifest: bool, content_xml: Option<&str>) -> Vec<u8> {
    let mut parts = vec![("mimetype", MIME_TYPE)];
    if include_manifest {
        parts.push(("META-INF/manifest.xml", manifest_xml()));
    }
    if let Some(content_xml) = content_xml {
        parts.push(("content.xml", content_xml));
    }
    archive(&parts)
}

fn default_criteria() -> Criteria {
    Criteria {
        sheet_name_patterns: None,
        sheet_limit: None,
        range: None,
        rows_limit: None,
        nulls: vec!["".to_string()],
        error_as_null: false,
        skip_empty_rows: false,
        end_at_empty_row: false,
        spread_merged_cells: false,
    }
}

fn manifest_xml() -> &'static str {
    r#"<?xml version="1.0" encoding="UTF-8"?>
<manifest:manifest xmlns:manifest="urn:oasis:names:tc:opendocument:xmlns:manifest:1.0">
  <manifest:file-entry manifest:full-path="/" manifest:media-type="application/vnd.oasis.opendocument.spreadsheet"/>
</manifest:manifest>"#
}

fn valid_content_xml() -> &'static str {
    r#"<?xml version="1.0" encoding="UTF-8"?>
<office:document-content xmlns:office="urn:oasis:names:tc:opendocument:xmlns:office:1.0" xmlns:table="urn:oasis:names:tc:opendocument:xmlns:table:1.0">
  <office:body><office:spreadsheet><table:table table:name="Sheet1"/></office:spreadsheet></office:body>
</office:document-content>"#
}

fn unnamed_table_content_xml() -> &'static str {
    r#"<?xml version="1.0" encoding="UTF-8"?>
<office:document-content xmlns:office="urn:oasis:names:tc:opendocument:xmlns:office:1.0" xmlns:table="urn:oasis:names:tc:opendocument:xmlns:table:1.0">
  <office:body><office:spreadsheet><table:table/></office:spreadsheet></office:body>
</office:document-content>"#
}

fn content(tables: &str) -> String {
    format!(
        "<office:document-content><office:body><office:spreadsheet>{tables}</office:spreadsheet></office:body></office:document-content>"
    )
}

fn open(tables: &str) -> OdsSpreadsheet {
    OdsSpreadsheet::open("book.ods", write_ods(true, Some(&content(tables)))).unwrap()
}

fn cells(tables: &str, criteria: &Criteria) -> Vec<Cell> {
    open(tables).read_sheets(criteria).unwrap().remove(0).cells
}

fn cell(row: usize, col: usize, kind: CellType, value: &str) -> Cell {
    Cell { row, col, kind, value: value.to_string() }
}

#[test]
fn missing_manifest_xml_returns_error() {
    let result = OdsSpreadsheet::open("missing-manifest", write_ods(false, Some(valid_content_xml())));
    let error = match result {
        Ok(_) => panic!("expected missing manifest XML error"),
        Err(error) => error.to_string(),
    };
    assert!(error.contains("META-INF/manifest.xml"));
    assert!(error.contains("missing or corrupted"));
}

#[test]
fn missing_content_xml_returns_error() {
    let mut spreadsheet = OdsSpreadsheet::open("missing-content", write_ods(true, None)).unwrap();
    let result = spreadsheet.read_sheets(&default_criteria());
    let error = match result {
        Ok(_) => panic!("expected missing content XML error"),
        Err(error) => error.to_string(),
    };
    assert!(error.contains("content.xml"));
    assert!(error.contains("missing or corrupted"));
}

#[test]
fn missing_table_name_returns_error() {
    let image = write_ods(true, Some(unnamed_table_content_xml()));
    let mut spreadsheet = OdsSpreadsheet::open("missing-table-name", image).unwrap();
    let result = spreadsheet.read_sheets(&default_criteria());
    let error = match result {
        Ok(_) => panic!("expected missing table name error"),
        Err(error) => error.to_string(),
    };
    assert!(error.contains("content.xml"));
    assert!(error.contains("missing or corrupted"));
}

#[test]
fn other_kinds_of_documents_are_refused() {
    let image = archive(&[
        ("mimetype", "application/vnd.oasis.opendocument.presentation"),
        ("META-INF/manifest.xml", manifest_xml()),
    ]);
    match OdsSpreadsheet::open("slides.odp", image) {
        Err(error) => assert_eq!(error, RustySheetError::Ods(OdsError::MimeTypeError)),
        Ok(_) => panic!("expected an error"),
    }
}

#[test]
fn short_kinds_of_documents_are_refused() {
    let image = archive(&[("mimetype", "text/plain"), ("META-INF/manifest.xml", manifest_xml())]);
    match OdsSpreadsheet::open("note.txt", image) {
        Err(error) => {
            assert_eq!(error, RustySheetError::Ods(OdsError::MimeTypeError));
            assert_eq!(error.to_string(), "Invalid ODS MIME type");
        }
        Ok(_) => panic!("expected an error"),
    }
}

#[test]
fn errors_are_reported_or_left_out() {
    let tables = r#"<table:table table:name="S"><table:table-row><table:table-cell/><table:table-cell office:value-type="string" calcext:value-type="error"><text:p>#DIV/0!</text:p></table:table-cell></table:table-row></table:table>"#;
    let error = open(tables).read_sheets(&default_criteria()).unwrap_err();
    assert_eq!(error.to_string(), "book.ods: S!B1: #DIV/0!");
    let mut criteria = default_criteria();
    criteria.error_as_null = true;
    assert_eq!(cells(tables, &criteria), Vec::new());
}

#[test]
fn paragraphs_and_spaces_are_kept_and_comments_are_not() {
    let tables = r#"<table:table table:name="S"><table:table-row><table:table-cell office:value-type="string"><office:annotation><text:p>note</text:p></office:annotation><text:p>a<text:s text:c="3"/>b</text:p><text:p>c</text:p></table:table-cell></table:table-row></table:table>"#;
    assert_eq!(
        cells(tables, &default_criteria()),
        vec![cell(0, 0, CellType::InlineString, "a   b\nc")]
    );
}

#[test]
fn protected_documents_are_refused() {
    let manifest = "<manifest:manifest><manifest:file-entry><manifest:encryption-data/></manifest:file-entry></manifest:manifest>";
    let image = archive(&[("mimetype", MIME_TYPE), ("META-INF/manifest.xml", manifest)]);
    match OdsSpreadsheet::open("secret.ods", image) {
        Err(error) => assert_eq!(
            error,
            RustySheetError::Spreadsheet(SpreadsheetError::SpreadsheetPasswordProtectedError(
                "secret.ods".to_string()
            ))
        ),
        Ok(_) => panic!("expected an error"),
    }
}

#[test]
fn bytes_that_are_no_archive_are_refused() {
    assert!(matches!(OdsSpreadsheet::open("x", vec![1, 2, 3]), Err(RustySheetError::Zip(_))));
}

#[test]
fn cells_have_the_types_of_their_values() {
    let found = cells(
        r#"<table:table table:name="S"><table:table-row>
<table:table-cell office:value-type="float" office:value="1.5"><text:p>1,5</text:p></table:table-cell>
<table:table-cell office:value-type="string"><text:p>a&amp;b</text:p></table:table-cell>
<table:table-cell office:value-type="boolean" office:boolean-value="true"><text:p>TRUE</text:p></table:table-cell>
<table:table-cell office:value-type="date" office:date-value="2024-01-02"><text:p>x</text:p></table:table-cell>
<table:table-cell office:value-type="time" office:time-value="PT1H"><text:p>y</text:p></table:table-cell>
</table:table-row></table:table>"#,
        &default_criteria(),
    );
    assert_eq!(found.len(), 5);
    assert_eq!(found[0], cell(0, 0, CellType::Number, "1.5"));
    assert_eq!(found[1], cell(0, 1, CellType::InlineString, "a&b"));
    assert_eq!(found[2], cell(0, 2, CellType::Boolean, "1"));
    assert_eq!(found[3], cell(0, 3, CellType::IsoDateTime, "2024-01-02"));
    assert_eq!(found[4], cell(0, 4, CellType::IsoDuration, "PT1H"));
}

#[test]
fn repeated_cells_and_rows_are_repeated() {
    let found = cells(
        r#"<table:table table:name="S"><table:table-row table:number-rows-repeated="2">
<table:table-cell/><table:table-cell table:number-columns-repeated="2" office:value-type="float" office:value="7"/>
</table:table-row></table:table>"#,
        &default_criteria(),
    );
    let places: Vec<(usize, usize)> = found.iter().map(|cell| (cell.row, cell.col)).collect();
    assert_eq!(places, vec![(0, 1), (0, 2), (1, 1), (1, 2)]);
}

#[test]
fn only_wanted_cells_are_read() {
    let mut criteria = default_criteria();
    criteria.range = Some(Range {
        row_lower_bound: Some(1),
        row_upper_bound: Some(2),
        col_lower_bound: Some(0),
        col_upper_bound: Some(0),
    });
    criteria.nulls = vec!["2".to_string()];
    let found = cells(
        r#"<table:table table:name="S">
<table:table-row><table:table-cell office:value-type="float" office:value="1"/></table:table-row>
<table:table-row><table:table-cell office:value-type="float" office:value="2"/><table:table-cell office:value-type="float" office:value="8"/></table:table-row>
<table:table-row><table:table-cell office:value-type="float" office:value="3"/></table:table-row>
<table:table-row><table:table-cell office:value-type="float" office:value="4"/></table:table-row>
</table:table>"#,
        &criteria,
    );
    assert_eq!(found, vec![cell(2, 0, CellType::Number, "3")]);
}

#[test]
fn tables_are_chosen_by_name_and_number() {
    let tables = r#"<table:table table:name="A1"/><table:table table:name="B"/><table:table table:name="A2"/>"#;
    let mut criteria = default_criteria();
    criteria.sheet_name_patterns = Some(vec!["A*".to_string()]);
    let names: Vec<String> =
        open(tables).read_sheets(&criteria).unwrap().into_iter().map(|sheet| sheet.name).collect();
    assert_eq!(names, vec!["A1", "A2"]);
    criteria.sheet_limit = Some(1);
    assert_eq!(open(tables).read_sheets(&criteria).unwrap().len(), 1);
    criteria.sheet_limit = Some(0);
    assert_eq!(open(tables).read_sheets(&criteria).unwrap().len(), 0);
}

#[test]
fn media_types_may_go_on() {
    let longer = format!("{MIME_TYPE}-template");
    let image = archive(&[("mimetype", longer.as_str()), ("META-INF/manifest.xml", manifest_xml())]);
    assert!(OdsSpreadsheet::open("template.ots", image).is_ok());
    assert!(OdsSpreadsheet::open("x.ods", archive(&[("META-INF/manifest.xml", manifest_xml())])).is_ok());
}

#[test]
fn documents_have_no_shared_strings() {
    let mut book = open("");
    assert_eq!(book.name(), "book.ods");
    let (strings, places) = book.load_shared_strings(None).unwrap();
    assert!(strings.is_empty() && places.is_empty());
}
