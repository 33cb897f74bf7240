use rusty_sheet::error::RustySheetError;
use rusty_sheet::helpers::string::to_i32;
use rusty_sheet::helpers::string::to_u16;
use rusty_sheet::helpers::string::to_u32;
use rusty_sheet::helpers::string::to_u64;
use rusty_sheet::helpers::string::to_usize;
use rusty_sheet::helpers::text::decimal_text;
use rusty_sheet::helpers::text::parse_usize;
use rusty_sheet::helpers::text::signed_decimal_text;
use rusty_sheet::helpers::text::NumberError;
use rusty_sheet::helpers::xml::local_name;
use rusty_sheet::helpers::xml::resolve_reference;
use rusty_sheet::helpers::xml::XmlEvent;
use rusty_sheet::helpers::zip::Archive;
use rusty_sheet::spreadsheet::cell::Cell;
use rusty_sheet::spreadsheet::cell::CellType;
use rusty_sheet::spreadsheet::criteria::Criteria;
use rusty_sheet::spreadsheet::reference::index_to_reference;
use rusty_sheet::spreadsheet::reference::parse_merge_range;
use rusty_sheet::spreadsheet::reference::reference_to_index;
use rusty_sheet::spreadsheet::sheet::Sheet;
use rusty_sheet::spreadsheet::sort::sort_cells;
use rusty_sheet::spreadsheet::xlsx::workbook::load_number_formats;
use std::io::Cursor;
use std::io::Write;
use zip::write::SimpleFileOptions;
use zip::ZipWriter;

fn read_markup(document: &[u8]) -> Vec<XmlEvent> {
    let mut zip = ZipWriter::new(Cursor::new(Vec::new()));
    zip.start_file("part.xml", SimpleFileOptions::default()).unwrap();
    zip.write_all(document).unwrap();
    let image = zip.finish().unwrap().into_inner();
    Archive::open(image).unwrap().required_xml_reader("part.xml").unwrap()
}

#[test]
fn numbers_are_little_endian() {
    let bytes = [1, 2, 3, 0x84, 5, 6, 7, 8];
    assert_eq!(to_u16(&bytes), 0x0201);
    assert_eq!(to_u32(&bytes), 0x8403_0201);
    assert_eq!(to_i32(&bytes), 0x8403_0201_u32 as i32);
    assert_eq!(to_usize(&bytes), 0x8403_0201);
    assert_eq!(to_u64(&bytes), 0x0807_0605_8403_0201);
}

#[test]
fn decimal_numbers_are_written_and_read() {
    assert_eq!(decimal_text(0), "0");
    assert_eq!(decimal_text(12045), "12045");
    assert_eq!(signed_decimal_text(i64::MIN), "-9223372036854775808");
    assert_eq!(parse_usize("+12045"), Ok(12045));
    assert_eq!(parse_usize(""), Err(NumberError::Empty));
    assert_eq!(parse_usize("-"), Err(NumberError::InvalidDigit));
    assert_eq!(parse_usize("1x"), Err(NumberError::InvalidDigit));
    assert_eq!(parse_usize("99999999999999999999999"), Err(NumberError::TooLarge));
}

#[test]
fn references_go_both_ways() {
    assert_eq!(reference_to_index("A1"), Some((0, 0)));
    assert_eq!(reference_to_index("AB12"), Some((11, 27)));
    assert_eq!(reference_to_index("XFD1048576"), Some((1048575, 16383)));
    assert_eq!(reference_to_index("XFE1"), None);
    assert_eq!(reference_to_index("A0"), None);
    assert_eq!(reference_to_index("12"), None);
    assert_eq!(index_to_reference(11, 27), "AB12");
    assert_eq!(index_to_reference(1048575, 16383), "XFD1048576");
}

#[test]
fn merge_ranges_have_two_ends() {
    assert_eq!(parse_merge_range("A1:B2"), Some((0, 0, 1, 1)));
    assert_eq!(parse_merge_range(" A1 : C3 "), Some((0, 0, 2, 2)));
    assert_eq!(parse_merge_range("A1"), None);
    assert_eq!(parse_merge_range("A1:B2:C3"), None);
    assert_eq!(parse_merge_range("A1:?"), None);
}

#[test]
fn markup_is_read_event_by_event() {
    let events = read_markup(b"<a k='1&lt;2'>x&amp;<b/><![CDATA[<y>]]></a>");
    match &events[0] {
        XmlEvent::Start(tag) => {
            assert!(tag.is("a"));
            assert_eq!(tag.get_attribute_value("k").unwrap(), Some("1<2".to_string()));
            assert_eq!(tag.get_attribute_value("m").unwrap(), None);
        }
        _ => panic!("expected a start"),
    }
    assert!(matches!(&events[1], XmlEvent::Text(Ok(text)) if text == "x"));
    assert!(matches!(&events[2], XmlEvent::Reference(Ok(name)) if name == "amp"));
    assert!(matches!(&events[3], XmlEvent::Start(tag) if tag.name == "b"));
    assert!(matches!(&events[4], XmlEvent::End(name) if name == "b"));
    assert!(matches!(&events[5], XmlEvent::CData(Ok(text)) if text == "<y>"));
    assert!(matches!(&events[6], XmlEvent::End(name) if name == "a"));
    assert_eq!(events.len(), 7);
}

#[test]
fn attributes_can_be_numbers() {
    let events = read_markup(b"<a n='12' m='x'/>");
    match &events[0] {
        XmlEvent::Start(tag) => {
            assert_eq!(tag.parse_attribute_value("n").unwrap(), Some(12));
            assert_eq!(
                tag.parse_attribute_value("m").unwrap_err(),
                RustySheetError::Number(NumberError::InvalidDigit)
            );
        }
        _ => panic!("expected a start"),
    }
}

#[test]
fn references_stand_for_characters() {
    assert_eq!(resolve_reference(&Ok("lt".to_string())).unwrap(), '<');
    assert_eq!(resolve_reference(&Ok("#x41".to_string())).unwrap(), 'A');
    assert_eq!(resolve_reference(&Ok("#66".to_string())).unwrap(), 'B');
    assert!(resolve_reference(&Ok("nothing".to_string())).is_err());
    assert_eq!(local_name("r:id"), "id");
    assert_eq!(local_name("id"), "id");
}

fn criteria(patterns: Option<Vec<String>>) -> Criteria {
    Criteria {
        sheet_name_patterns: patterns,
        sheet_limit: Some(2),
        range: None,
        rows_limit: None,
        nulls: vec!["".to_string(), "-".to_string()],
        error_as_null: false,
        skip_empty_rows: false,
        end_at_empty_row: false,
        spread_merged_cells: false,
    }
}

#[test]
fn names_match_patterns() {
    assert!(criteria(None).accept("any"));
    let some = criteria(Some(vec!["A?".to_string(), "*z".to_string()]));
    assert!(some.accept("A1"));
    assert!(some.accept("xyz"));
    assert!(!some.accept("B1"));
    assert!(!criteria(Some(Vec::new())).accept("any"));
    assert!(some.contains_null("-"));
    assert!(!some.contains_null("--"));
    assert!(!some.limit_reached(1));
    assert!(some.limit_reached(2));
}

fn cell(row: usize, col: usize, value: &str) -> Cell {
    Cell { row, col, kind: CellType::Number, value: value.to_string() }
}

#[test]
fn cells_are_sorted_by_row_and_column() {
    let sorted = sort_cells(vec![cell(1, 0, "a"), cell(0, 2, "b"), cell(0, 1, "c"), cell(0, 2, "d")]);
    let values: Vec<&str> = sorted.iter().map(|cell| cell.value.as_str()).collect();
    assert_eq!(values, vec!["c", "b", "d", "a"]);
}

#[test]
fn chunks_keep_all_cells() {
    for skip_empty_rows in [false, true] {
        let mut sheet = Sheet::new("f", "S", None, None, skip_empty_rows);
        for row in 0..3000 {
            sheet.push(cell(row * 2, 0, "v"));
        }
        let mut seen = 0;
        while let Some(chunk) = sheet.take_ready_chunk() {
            seen += chunk.cells.len();
        }
        assert!(!sheet.is_empty());
        sheet.finish(false);
        while let Some(chunk) = sheet.take_ready_chunk() {
            seen += chunk.cells.len();
        }
        assert_eq!(seen, 3000);
        assert!(sheet.is_empty());
    }
}

#[test]
fn number_formats_decide_types() {
    assert_eq!(CellType::parse_custom_number_format("yyyy-mm-dd", false), CellType::Date(false));
    assert_eq!(CellType::parse_custom_number_format("hh:mm", true), CellType::Time(true));
    assert_eq!(
        CellType::parse_custom_number_format("yyyy-mm-dd hh:mm", false),
        CellType::DateTime(false)
    );
    assert_eq!(CellType::parse_custom_number_format("0.00", false), CellType::Number);
    let events = read_markup(
        b"<s><numFmts><numFmt numFmtId='200' formatCode='d/m'/></numFmts><cellXfs><xf numFmtId='200'/><xf/><xf numFmtId='22'/><xf fontId='1'/></cellXfs></s>",
    );
    assert_eq!(
        load_number_formats(&events, false).unwrap(),
        vec![CellType::Date(false), CellType::Number, CellType::DateTime(false), CellType::Number]
    );
}
