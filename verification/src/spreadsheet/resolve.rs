//! Looking up what cells refer to.

use crate::error::ErrorView;
use crate::error::RustySheetError;
use crate::error::SpreadsheetError;
use crate::helpers::text::decimal;
use crate::helpers::text::decimal_text;
use crate::helpers::text::number_value;
use crate::helpers::text::parse_usize;
use crate::spreadsheet::cell::Cell;
use crate::spreadsheet::cell::CellType;
use crate::spreadsheet::cell::CellView;
use crate::spreadsheet::reference::index_reference;
use crate::spreadsheet::reference::index_to_reference;
use vstd::prelude::*;

verus! {

/// The type that a style gives to numbers, or the error for a style that the
/// workbook does not define.
pub open spec fn style_type(
    formats: Seq<CellType>,
    file_name: Seq<char>,
    sheet_name: Seq<char>,
    row: nat,
    col: nat,
    index: nat,
) -> Result<CellType, ErrorView> {
    if index < formats.len() {
        Ok(formats[index as int])
    } else {
        Err(
            ErrorView::CellValueError(
                file_name,
                sheet_name,
                index_reference(row, col),
                "invalid style index "@ + decimal(index) + ": workbook defines "@ + decimal(
                    formats.len(),
                ) + " styles"@,
            ),
        )
    }
}

/// Looks up the type that a style gives to numbers.
pub fn resolve_number_format(
    number_formats: &Vec<CellType>,
    file_name: &str,
    sheet_name: &str,
    row: usize,
    col: usize,
    index: usize,
) -> (res: Result<CellType, RustySheetError>)
    ensures
        match style_type(
            number_formats@,
            file_name@,
            sheet_name@,
            row as nat,
            col as nat,
            index as nat,
        ) {
            Ok(kind) => res == Ok::<CellType, RustySheetError>(kind),
            Err(error) => res matches Err(e) && e@ == error,
        },
{
    if index < number_formats.len() {
        Ok(number_formats[index])
    } else {
        let mut message = "invalid style index ".to_owned();
        message.push_str(decimal_text(index as u128).as_str());
        message.push_str(": workbook defines ");
        message.push_str(decimal_text(number_formats.len() as u128).as_str());
        message.push_str(" styles");
        Err(
            RustySheetError::Spreadsheet(
                SpreadsheetError::CellValueError(
                    file_name.to_owned(),
                    sheet_name.to_owned(),
                    index_to_reference(row, col),
                    message,
                ),
            ),
        )
    }
}

/// The texts of optional strings.
pub open spec fn option_texts(strings: Seq<Option<String>>) -> Seq<Option<Seq<char>>> {
    strings.map_values(
        |string: Option<String>|
            match string {
                Some(text) => Some(text@),
                None => None,
            },
    )
}

/// The shared string that a cell refers to by its number, `None` where the string
/// counts as no value, or the error for a number without a string.
pub open spec fn shared_string(
    strings: Seq<Option<Seq<char>>>,
    file_name: Seq<char>,
    sheet_name: Seq<char>,
    cell: CellView,
) -> Result<Option<Seq<char>>, ErrorView> {
    match number_value(cell.value) {
        Ok(index) if index < strings.len() => Ok(strings[index as int]),
        _ => Err(
            ErrorView::CellValueError(
                file_name,
                sheet_name,
                index_reference(cell.row as nat, cell.col as nat),
                "invalid shared string index "@ + cell.value,
            ),
        ),
    }
}

/// Looks up the shared string that a cell refers to by its number.
pub fn resolve_loaded_shared_string(
    shared_strings: &Vec<Option<String>>,
    file_name: &str,
    sheet_name: &str,
    cell: &Cell,
) -> (res: Result<Option<String>, RustySheetError>)
    ensures
        match shared_string(option_texts(shared_strings@), file_name@, sheet_name@, cell@) {
            Ok(Some(text)) => res matches Ok(Some(found)) && found@ == text,
            Ok(None) => res == Ok::<Option<String>, RustySheetError>(None),
            Err(error) => res matches Err(e) && e@ == error,
        },
{
    if let Ok(index) = parse_usize(cell.value.as_str()) {
        if index < shared_strings.len() {
            return match &shared_strings[index] {
                Some(text) => Ok(Some(text.clone())),
                None => Ok(None),
            };
        }
    }
    let mut message = "invalid shared string index ".to_owned();
    message.push_str(cell.value.as_str());
    Err(
        RustySheetError::Spreadsheet(
            SpreadsheetError::CellValueError(
                file_name.to_owned(),
                sheet_name.to_owned(),
                cell.reference(),
                message,
            ),
        ),
    )
}

} // verus!
