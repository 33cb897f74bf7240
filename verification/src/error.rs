//! The errors of the library and their messages.

use crate::helpers::text::decimal;
use crate::helpers::text::decimal_text;
use crate::helpers::text::NumberError;
use vstd::prelude::*;

verus! {

/// Errors of the BIFF8 record reader.
#[derive(Debug, Clone, Copy, PartialEq, Eq, Structural)]
pub enum Biff8Error {
    /// The current record holds fewer bytes than were asked for.
    NoEnoughDataError(usize),
}

/// Errors of the BIFF12 record reader.
#[derive(Debug, Clone, Copy, PartialEq, Eq, Structural)]
pub enum Biff12Error {
    /// A read up to the first position does not fit a record of the second length.
    NoEnoughData(usize, usize),
}

/// Errors of the OpenDocument reader.
#[derive(Debug, Clone, Copy, PartialEq, Eq, Structural)]
pub enum OdsError {
    /// The `mimetype` entry names another kind of document.
    MimeTypeError,
}

/// Errors of byte streams and stored strings.
#[derive(Debug, Clone, Copy, PartialEq, Eq, Structural)]
pub enum IoError {
    /// The stream ended before the bytes that were asked for.
    UnexpectedEof,
    /// A string was added after the first one was read.
    AppendAfterRead,
    /// There is no shared string with that number.
    IndexOutOfBounds,
}

/// Errors in the contents of a workbook.
#[derive(Debug, Clone, PartialEq, Eq)]
pub enum SpreadsheetError {
    /// A part of the archive, given by its path, is missing or unusable.
    FileError(String),
    /// A cell of a file and sheet, given by its reference, has an unusable value.
    CellValueError(String, String, String, String),
    /// A sheet of a file holds an unusable cell reference.
    CellReferenceError(String, String, String),
    /// The file is protected by a password.
    SpreadsheetPasswordProtectedError(String),
}

/// Errors of the table function.
#[derive(Debug, Clone, PartialEq, Eq)]
pub enum ExtensionError {
    /// No sheet of the file matches the pattern.
    SheetWildcardError(String, String),
}

/// Any error of the library.
#[derive(Debug, Clone, PartialEq, Eq)]
pub enum RustySheetError {
    /// An error that is already described in full.
    WithContextError(String),
    /// See [`Biff8Error`].
    Biff8(Biff8Error),
    /// See [`Biff12Error`].
    Biff12(Biff12Error),
    /// See [`OdsError`].
    Ods(OdsError),
    /// See [`IoError`].
    Io(IoError),
    /// See [`NumberError`].
    Number(NumberError),
    /// See [`SpreadsheetError`].
    Spreadsheet(SpreadsheetError),
    /// See [`ExtensionError`].
    Extension(ExtensionError),
    /// The XML parser's message.
    Xml(String),
    /// The archive reader's message.
    Zip(String),
    /// The compound file reader's message.
    Compound(String),
}

/// What a [`RustySheetError`] says, with texts as character sequences.
pub enum ErrorView {
    WithContextError(Seq<char>),
    Biff8(Biff8Error),
    Biff12(Biff12Error),
    Ods(OdsError),
    Io(IoError),
    Number(NumberError),
    FileError(Seq<char>),
    CellValueError(Seq<char>, Seq<char>, Seq<char>, Seq<char>),
    CellReferenceError(Seq<char>, Seq<char>, Seq<char>),
    SpreadsheetPasswordProtectedError(Seq<char>),
    SheetWildcardError(Seq<char>, Seq<char>),
    Xml(Seq<char>),
    Zip(Seq<char>),
    Compound(Seq<char>),
}

impl View for RustySheetError {
    type V = ErrorView;

    open spec fn view(&self) -> ErrorView {
        match *self {
            RustySheetError::WithContextError(text) => ErrorView::WithContextError(text@),
            RustySheetError::Biff8(error) => ErrorView::Biff8(error),
            RustySheetError::Biff12(error) => ErrorView::Biff12(error),
            RustySheetError::Ods(error) => ErrorView::Ods(error),
            RustySheetError::Io(error) => ErrorView::Io(error),
            RustySheetError::Number(error) => ErrorView::Number(error),
            RustySheetError::Spreadsheet(SpreadsheetError::FileError(path)) => ErrorView::FileError(
                path@,
            ),
            RustySheetError::Spreadsheet(
                SpreadsheetError::CellValueError(file, sheet, reference, text),
            ) => ErrorView::CellValueError(file@, sheet@, reference@, text@),
            RustySheetError::Spreadsheet(
                SpreadsheetError::CellReferenceError(file, sheet, reference),
            ) => ErrorView::CellReferenceError(file@, sheet@, reference@),
            RustySheetError::Spreadsheet(
                SpreadsheetError::SpreadsheetPasswordProtectedError(file),
            ) => ErrorView::SpreadsheetPasswordProtectedError(file@),
            RustySheetError::Extension(
                ExtensionError::SheetWildcardError(file, pattern),
            ) => ErrorView::SheetWildcardError(file@, pattern@),
            RustySheetError::Xml(text) => ErrorView::Xml(text@),
            RustySheetError::Zip(text) => ErrorView::Zip(text@),
            RustySheetError::Compound(text) => ErrorView::Compound(text@),
        }
    }
}

impl ErrorView {
    /// The message that a user sees.
    pub open spec fn message(self) -> Seq<char> {
        match self {
            ErrorView::WithContextError(text) => text,
            ErrorView::Biff8(Biff8Error::NoEnoughDataError(n)) => "Fewer than "@ + decimal(
                n as nat,
            ) + " bytes remaining"@,
            ErrorView::Biff12(
                Biff12Error::NoEnoughData(expected, actual),
            ) => "No enough data: expect '"@ + decimal(expected as nat) + "' bytes, actual '"@
                + decimal(actual as nat) + "' bytes"@,
            ErrorView::Ods(OdsError::MimeTypeError) => "Invalid ODS MIME type"@,
            ErrorView::Io(IoError::UnexpectedEof) => "failed to fill whole buffer"@,
            ErrorView::Io(
                IoError::AppendAfterRead,
            ) => "cannot append after reading shared strings"@,
            ErrorView::Io(IoError::IndexOutOfBounds) => "shared string index out of bounds"@,
            ErrorView::Number(error) => error.message(),
            ErrorView::FileError(path) => "file '"@ + path + "' is missing or corrupted"@,
            ErrorView::CellValueError(file, sheet, reference, text) => file + ": "@ + sheet + "!"@
                + reference + ": "@ + text,
            ErrorView::CellReferenceError(file, sheet, reference) => file + ": "@ + sheet
                + ": invalid cell reference '"@ + reference + "'"@,
            ErrorView::SpreadsheetPasswordProtectedError(file) => file
                + ": the spreadsheet is password protected"@,
            ErrorView::SheetWildcardError(file, pattern) => file + ": no sheet matches '"@ + pattern
                + "'"@,
            ErrorView::Xml(text) => text,
            ErrorView::Zip(text) => text,
            ErrorView::Compound(text) => text,
        }
    }
}

impl RustySheetError {
    /// Renders the message of this error.
    pub fn to_string(&self) -> (res: String)
        ensures
            res@ == self@.message(),
    {
        match self {
            RustySheetError::WithContextError(text) => text.clone(),
            RustySheetError::Biff8(Biff8Error::NoEnoughDataError(n)) => {
                let mut res = "Fewer than ".to_owned();
                res.push_str(decimal_text(*n as u128).as_str());
                res.push_str(" bytes remaining");
                res
            },
            RustySheetError::Biff12(Biff12Error::NoEnoughData(expected, actual)) => {
                let mut res = "No enough data: expect '".to_owned();
                res.push_str(decimal_text(*expected as u128).as_str());
                res.push_str("' bytes, actual '");
                res.push_str(decimal_text(*actual as u128).as_str());
                res.push_str("' bytes");
                res
            },
            RustySheetError::Ods(OdsError::MimeTypeError) => "Invalid ODS MIME type".to_owned(),
            RustySheetError::Io(IoError::UnexpectedEof) => "failed to fill whole buffer".to_owned(),
            RustySheetError::Io(
                IoError::AppendAfterRead,
            ) => "cannot append after reading shared strings".to_owned(),
            RustySheetError::Io(
                IoError::IndexOutOfBounds,
            ) => "shared string index out of bounds".to_owned(),
            RustySheetError::Number(error) => error.to_text(),
            RustySheetError::Spreadsheet(SpreadsheetError::FileError(path)) => {
                let mut res = "file '".to_owned();
                res.push_str(path.as_str());
                res.push_str("' is missing or corrupted");
                res
            },
            RustySheetError::Spreadsheet(
                SpreadsheetError::CellValueError(file, sheet, reference, text),
            ) => {
                let mut res = file.clone();
                res.push_str(": ");
                res.push_str(sheet.as_str());
                res.push_str("!");
                res.push_str(reference.as_str());
                res.push_str(": ");
                res.push_str(text.as_str());
                res
            },
            RustySheetError::Spreadsheet(
                SpreadsheetError::CellReferenceError(file, sheet, reference),
            ) => {
                let mut res = file.clone();
                res.push_str(": ");
                res.push_str(sheet.as_str());
                res.push_str(": invalid cell reference '");
                res.push_str(reference.as_str());
                res.push_str("'");
                res
            },
            RustySheetError::Spreadsheet(
                SpreadsheetError::SpreadsheetPasswordProtectedError(file),
            ) => {
                let mut res = file.clone();
                res.push_str(": the spreadsheet is password protected");
                res
            },
            RustySheetError::Extension(ExtensionError::SheetWildcardError(file, pattern)) => {
                let mut res = file.clone();
                res.push_str(": no sheet matches '");
                res.push_str(pattern.as_str());
                res.push_str("'");
                res
            },
            RustySheetError::Xml(text) => text.clone(),
            RustySheetError::Zip(text) => text.clone(),
            RustySheetError::Compound(text) => text.clone(),
        }
    }
}

/// Whether a text stands at `at` of a message.
pub open spec fn stands_at(message: Seq<char>, at: int, text: Seq<char>) -> bool {
    0 <= at && at + text.len() <= message.len() && message.subrange(at, at + text.len()) == text
}

/// The message for a cell starts with its file, names the sheet and the reference with
/// an exclamation mark between them, and ends with what is wrong, after a colon.
pub proof fn lemma_message_of_cell(
    file: Seq<char>,
    sheet: Seq<char>,
    reference: Seq<char>,
    text: Seq<char>,
)
    ensures
        ({
            let message = ErrorView::CellValueError(file, sheet, reference, text).message();
            let place = sheet + seq!['!'] + reference;
            &&& stands_at(message, 0, file)
            &&& stands_at(message, file.len() as int, seq![':', ' '])
            &&& stands_at(message, file.len() as int + 2, place)
            &&& stands_at(message, file.len() as int + place.len() + 2, seq![':', ' '])
            &&& stands_at(message, file.len() as int + place.len() + 4, text)
            &&& message.len() == file.len() + place.len() + text.len() + 4
        }),
{
    reveal_strlit(": ");
    reveal_strlit("!");
    let message = ErrorView::CellValueError(file, sheet, reference, text).message();
    let place = sheet + seq!['!'] + reference;
    let colon = seq![':', ' '];
    assert(": "@ =~= colon);
    assert("!"@ =~= seq!['!']);
    assert(message =~= file + colon + place + colon + text);
    assert(message.subrange(0, file.len() as int) =~= file);
    let n = file.len() as int;
    let m = place.len() as int;
    assert(message.subrange(n, n + 2) =~= colon);
    assert(message.subrange(n + 2, n + 2 + m) =~= place);
    assert(message.subrange(n + m + 2, n + m + 4) =~= colon);
    assert(message.subrange(n + m + 4, n + m + 4 + text.len()) =~= text);
}

/// The messages for references, passwords and missing sheets start with the file; that
/// for a reference names the sheet next, and those for references and patterns end with
/// the text in quotes. The message for a part that is missing names its path.
pub proof fn lemma_messages_name_files(file: Seq<char>, sheet: Seq<char>, text: Seq<char>)
    ensures
        ({
            let message = ErrorView::CellReferenceError(file, sheet, text).message();
            &&& stands_at(message, 0, file)
            &&& stands_at(message, file.len() as int + 2, sheet)
            &&& stands_at(message, message.len() - text.len() - 2, seq!['\''] + text + seq!['\''])
        }),
        stands_at(ErrorView::SpreadsheetPasswordProtectedError(file).message(), 0, file),
        ({
            let message = ErrorView::SheetWildcardError(file, text).message();
            &&& stands_at(message, 0, file)
            &&& stands_at(message, message.len() - text.len() - 2, seq!['\''] + text + seq!['\''])
        }),
        stands_at(ErrorView::FileError(text).message(), 6, text),
{
    reveal_strlit(": ");
    reveal_strlit(": invalid cell reference '");
    reveal_strlit("'");
    reveal_strlit(": no sheet matches '");
    reveal_strlit("file '");
    let a = ErrorView::CellReferenceError(file, sheet, text).message();
    let quoted = seq!['\''] + text + seq!['\''];
    assert(a.subrange(0, file.len() as int) =~= file);
    assert(a.subrange(file.len() as int + 2, file.len() as int + 2 + sheet.len()) =~= sheet);
    assert(a.subrange(a.len() - text.len() - 2, a.len() as int) =~= quoted);
    let b = ErrorView::SpreadsheetPasswordProtectedError(file).message();
    assert(b.subrange(0, file.len() as int) =~= file);
    let d = ErrorView::SheetWildcardError(file, text).message();
    assert(d.subrange(0, file.len() as int) =~= file);
    assert(d.subrange(d.len() - text.len() - 2, d.len() as int) =~= quoted);
    let e = ErrorView::FileError(text).message();
    assert(e.subrange(6, 6int + text.len()) =~= text);
}

/// Errors that were described in full and those of outside parsers keep their words.
pub proof fn lemma_messages_are_kept(text: Seq<char>)
    ensures
        ErrorView::WithContextError(text).message() == text,
        ErrorView::Xml(text).message() == text,
        ErrorView::Zip(text).message() == text,
        ErrorView::Compound(text).message() == text,
{
}

} // verus!
