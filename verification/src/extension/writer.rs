//! What is written for a cell.

use crate::error::ErrorView;
use crate::error::RustySheetError;
use crate::error::SpreadsheetError;
use crate::spreadsheet::cell::Cell;
use crate::spreadsheet::cell::CellType;
use crate::spreadsheet::cell::CellView;
use crate::spreadsheet::reference::index_reference;
use crate::spreadsheet::resolve::option_texts;
use crate::spreadsheet::resolve::resolve_loaded_shared_string;
use crate::spreadsheet::resolve::shared_string;
use crate::spreadsheet::sheet::Sheet;
use crate::spreadsheet::sheet::SheetView;
use vstd::prelude::*;

verus! {

/// The types of output columns.
#[derive(Debug, Clone, Copy, PartialEq, Eq, Structural)]
pub enum ColumnType {
    /// Text.
    Varchar,
    /// Truth values.
    Boolean,
    /// Integers.
    BigInt,
    /// Floating point numbers.
    Double,
    /// Dates with times.
    Timestamp,
    /// Dates.
    Date,
    /// Times.
    Time,
}

/// An output column.
#[derive(Debug, Clone, PartialEq, Eq)]
pub struct Column {
    /// The name of the column.
    pub name: String,
    /// The type of the column.
    pub kind: ColumnType,
}

/// An output column as a mathematical value.
pub struct ColumnView {
    pub name: Seq<char>,
    pub kind: ColumnType,
}

impl View for Column {
    type V = ColumnView;

    open spec fn view(&self) -> ColumnView {
        ColumnView { name: self.name@, kind: self.kind }
    }
}

/// Which conversion a cell goes through before it is written.
#[derive(Debug, Clone, Copy, PartialEq, Eq, Structural)]
pub enum Conversion {
    /// To the text that is shown.
    DisplayString,
    /// To a truth value, which cannot fail.
    Boolean,
    /// To an integer.
    BigInt,
    /// To a floating point number.
    Double,
    /// To microseconds since the epoch.
    DateTime,
    /// To days since the epoch.
    Date,
    /// To microseconds since midnight.
    Time,
}

/// The conversion for a type of column.
pub open spec fn conversion_of(kind: ColumnType) -> Conversion {
    match kind {
        ColumnType::Varchar => Conversion::DisplayString,
        ColumnType::Boolean => Conversion::Boolean,
        ColumnType::BigInt => Conversion::BigInt,
        ColumnType::Double => Conversion::Double,
        ColumnType::Timestamp => Conversion::DateTime,
        ColumnType::Date => Conversion::Date,
        ColumnType::Time => Conversion::Time,
    }
}

/// What is written for a cell.
pub enum CellOutput {
    /// No value.
    Null,
    /// The cell after this conversion.
    Converted(Conversion, Cell),
}

/// What is written for a cell of a sheet in a column: a shared string takes the
/// place of its number, and one that counts as no value gives none.
pub open spec fn cell_output(
    sheet: SheetView,
    kind: ColumnType,
    cell: CellView,
    strings: Seq<Option<Seq<char>>>,
) -> Result<Option<(Conversion, CellView)>, ErrorView> {
    if cell.kind == CellType::SharedString {
        match shared_string(strings, sheet.file_name, sheet.name, cell) {
            Err(error) => Err(error),
            Ok(None) => Ok(None),
            Ok(Some(value)) => Ok(Some((conversion_of(kind), CellView { value, ..cell }))),
        }
    } else {
        Ok(Some((conversion_of(kind), cell)))
    }
}

/// Decides what is written for a cell of a sheet in a column.
pub fn write_to_vector(
    sheet: &Sheet,
    column: &Column,
    cell: &Cell,
    shared_strings: &Vec<Option<String>>,
) -> (res: Result<CellOutput, RustySheetError>)
    ensures
        match cell_output(sheet@, column@.kind, cell@, option_texts(shared_strings@)) {
            Ok(None) => res matches Ok(CellOutput::Null),
            Ok(Some((conversion, view))) => {
                &&& res matches Ok(CellOutput::Converted(found, converted))
                &&& found == conversion
                &&& converted@ == view
            },
            Err(error) => res matches Err(e) && e@ == error,
        },
{
    let resolved: Cell = if cell.kind == CellType::SharedString {
        match resolve_loaded_shared_string(
            shared_strings,
            sheet.file_name.as_str(),
            sheet.name.as_str(),
            cell,
        ) {
            Err(error) => return Err(error),
            Ok(None) => return Ok(CellOutput::Null),
            Ok(Some(value)) => Cell { row: cell.row, col: cell.col, kind: cell.kind, value },
        }
    } else {
        cell.copy()
    };
    let conversion = match column.kind {
        ColumnType::Varchar => Conversion::DisplayString,
        ColumnType::Boolean => Conversion::Boolean,
        ColumnType::BigInt => Conversion::BigInt,
        ColumnType::Double => Conversion::Double,
        ColumnType::Timestamp => Conversion::DateTime,
        ColumnType::Date => Conversion::Date,
        ColumnType::Time => Conversion::Time,
    };
    Ok(CellOutput::Converted(conversion, resolved))
}

/// The error for a cell of a sheet whose conversion fails with a message.
pub fn conversion_error(sheet: &Sheet, cell: &Cell, message: String) -> (res: RustySheetError)
    ensures
        res@ == ErrorView::CellValueError(
            sheet@.file_name,
            sheet@.name,
            index_reference(cell.row as nat, cell.col as nat),
            message@,
        ),
{
    RustySheetError::Spreadsheet(
        SpreadsheetError::CellValueError(
            sheet.file_name.clone(),
            sheet.name.clone(),
            cell.reference(),
            message,
        ),
    )
}

} // verus!
