//! What the parts of an archive say of the file.

use crate::error::ErrorView;
use crate::error::OdsError;
use crate::helpers::xml::XmlView;
use crate::helpers::zip::archive_entry;
use crate::helpers::zip::archive_markup;
use crate::helpers::zip::required_markup;
use crate::spreadsheet::cell::CellType;
use crate::spreadsheet::criteria::Criteria;
use crate::spreadsheet::ods::mime_outcome;
use crate::spreadsheet::ods::protected_from;
use crate::spreadsheet::ods::protection_outcome;
use crate::spreadsheet::xlsx::formats_of;
use crate::spreadsheet::xlsx::shared_strings_of;
use crate::spreadsheet::xlsx::text::strings_from;
use crate::spreadsheet::xlsx::visible_strings;
use crate::spreadsheet::xlsx::workbook::number_formats_outcome;
use crate::spreadsheet::xlsx::workbook::relationships_from;
use crate::spreadsheet::xlsx::workbook::workbook_outcome;
use crate::spreadsheet::xlsx::workbook::Workbook;
use crate::spreadsheet::xlsx::workbook_of;
use vstd::prelude::*;

verus! {

/// A part that has to be there and is not makes the file one that is missing or
/// corrupted; one that is there is read.
pub proof fn lemma_required_part(image: Seq<u8>, path: Seq<char>)
    ensures
        match archive_markup(image, path) {
            Ok(Some(events)) => required_markup(image, path) == Ok::<Seq<XmlView>, ErrorView>(events),
            Ok(None) => required_markup(image, path) == Err::<Seq<XmlView>, ErrorView>(
                ErrorView::FileError(path),
            ),
            Err(message) => required_markup(image, path) == Err::<Seq<XmlView>, ErrorView>(
                ErrorView::Zip(message),
            ),
        },
{
}

/// A workbook is read of the part `xl/workbook.xml`, with the relationships of
/// `xl/_rels/workbook.xml.rels`; where one of the two is missing the file is.
pub proof fn lemma_workbook_parts(image: Seq<u8>)
    ensures
        archive_markup(image, "xl/_rels/workbook.xml.rels"@) == Ok::<
            Option<Seq<XmlView>>,
            Seq<char>,
        >(None) ==> workbook_of(image) == Err::<Workbook, ErrorView>(
            ErrorView::FileError("xl/_rels/workbook.xml.rels"@),
        ),
        archive_markup(image, "xl/_rels/workbook.xml.rels"@) matches Ok(Some(links)) ==> {
            relationships_from(links, 0, Seq::empty()) matches Ok(relationships) ==> {
                &&& archive_markup(image, "xl/workbook.xml"@) matches Ok(Some(book)) ==> workbook_of(
                    image,
                ) == workbook_outcome(book, relationships)
                &&& archive_markup(image, "xl/workbook.xml"@) == Ok::<
                    Option<Seq<XmlView>>,
                    Seq<char>,
                >(None) ==> workbook_of(image) == Err::<Workbook, ErrorView>(
                    ErrorView::FileError("xl/workbook.xml"@),
                )
            }
        },
{
}

/// Styles and shared strings are read of `xl/styles.xml` and `xl/sharedStrings.xml`;
/// where one of them is missing there are none, and the file can be read all the same.
pub proof fn lemma_optional_parts(image: Seq<u8>, is_1904: bool)
    ensures
        match archive_markup(image, "xl/styles.xml"@) {
            Ok(Some(events)) => formats_of(image, is_1904) == number_formats_outcome(
                events,
                is_1904,
            ),
            Ok(None) => formats_of(image, is_1904) matches Ok(formats) && formats.len() == 0,
            Err(message) => formats_of(image, is_1904) == Err::<Seq<CellType>, ErrorView>(
                ErrorView::Zip(message),
            ),
        },
        match archive_markup(image, "xl/sharedStrings.xml"@) {
            Ok(Some(events)) => shared_strings_of(image) == strings_from(events, 0),
            Ok(None) => shared_strings_of(image) matches Ok(strings) && strings.len() == 0,
            Err(message) => shared_strings_of(image) == Err::<Seq<Seq<char>>, ErrorView>(
                ErrorView::Zip(message),
            ),
        },
{
}

/// Each shared string keeps its number; those that count as no value are left out, and
/// no others are.
pub proof fn lemma_visible_strings(strings: Seq<Seq<char>>, c: Criteria, i: int)
    requires
        0 <= i < strings.len(),
    ensures
        visible_strings(strings, c).len() == strings.len(),
        visible_strings(strings, c)[i] == if exists|j: int|
            0 <= j < c.nulls@.len() && (#[trigger] c.nulls@[j])@ == strings[i] {
            None::<Seq<char>>
        } else {
            Some(strings[i])
        },
{
}

/// A file whose part `mimetype` starts with the media type of OpenDocument spreadsheets
/// passes, and so does one without that part; one with any other media type does not.
pub proof fn lemma_media_type(image: Seq<u8>)
    ensures
        match archive_entry(image, "mimetype"@, 46) {
            Ok(None) => mime_outcome(image) is Ok,
            Ok(Some(bytes)) => if bytes == vstd::utf8::encode_utf8(
                "application/vnd.oasis.opendocument.spreadsheet"@,
            ) {
                mime_outcome(image) is Ok
            } else {
                mime_outcome(image) == Err::<(), ErrorView>(ErrorView::Ods(OdsError::MimeTypeError))
            },
            Err(message) => mime_outcome(image) == Err::<(), ErrorView>(ErrorView::Zip(message)),
        },
        "application/vnd.oasis.opendocument.spreadsheet"@.len() == 46,
{
    reveal_strlit("application/vnd.oasis.opendocument.spreadsheet");
}

/// Whether an event starts the element with this name.
pub open spec fn opens(event: XmlView, name: Seq<char>) -> bool {
    event is Start && event->Start_0.name == name
}

/// Whether encryption data stands at event `j`, behind the first entry.
pub open spec fn is_encryption(events: Seq<XmlView>, i: int, j: int) -> bool {
    &&& 0 <= i < j < events.len()
    &&& opens(events[i], "manifest:file-entry"@)
    &&& opens(events[j], "manifest:encryption-data"@)
}

proof fn lemma_protected_from(events: Seq<XmlView>, at: int, entered: bool)
    requires
        0 <= at <= events.len(),
        forall|k: int| at <= k < events.len() ==> !(#[trigger] events[k] is Fault),
    ensures
        protected_from(events, at, entered) matches Ok(found) && (found <==> ((entered && exists|
            j: int|
            at <= j < events.len() && opens(#[trigger] events[j], "manifest:encryption-data"@))
            || exists|i: int, j: int| at <= i && #[trigger] is_encryption(events, i, j))),
    decreases events.len() - at,
{
    reveal_strlit("manifest:file-entry");
    reveal_strlit("manifest:encryption-data");
    assert("manifest:file-entry"@.len() == 19);
    assert("manifest:encryption-data"@.len() == 24);
    if at < events.len() {
        assert(!(events[at] is Fault));
        let enters = opens(events[at], "manifest:file-entry"@);
        let shows = opens(events[at], "manifest:encryption-data"@);
        lemma_protected_from(events, at + 1, entered || enters);
        if enters && exists|j: int|
            at + 1 <= j < events.len() && opens(#[trigger] events[j], "manifest:encryption-data"@) {
            let j = choose|j: int|
                at + 1 <= j < events.len() && opens(
                    #[trigger] events[j],
                    "manifest:encryption-data"@,
                );
            assert(is_encryption(events, at, j));
        }
        if exists|i: int, j: int| at <= i && #[trigger] is_encryption(events, i, j) {
            let (i, j) = choose|i: int, j: int| at <= i && #[trigger] is_encryption(events, i, j);
            if i == at {
                assert(opens(events[j], "manifest:encryption-data"@));
            } else {
                assert(at + 1 <= i && is_encryption(events, i, j));
            }
        }
    }
}

/// A file is protected where its list of parts has encryption data behind an entry, and
/// only there.
pub proof fn lemma_protection(image: Seq<u8>, events: Seq<XmlView>)
    requires
        archive_markup(image, "META-INF/manifest.xml"@) == Ok::<Option<Seq<XmlView>>, Seq<char>>(
            Some(events),
        ),
        forall|k: int| 0 <= k < events.len() ==> !(#[trigger] events[k] is Fault),
    ensures
        protection_outcome(image) matches Ok(found) && (found <==> exists|i: int, j: int|
            #[trigger] is_encryption(events, i, j)),
{
    lemma_protected_from(events, 0, false);
    let found = protected_from(events, 0, false)->Ok_0;
    if exists|i: int, j: int| #[trigger] is_encryption(events, i, j) {
        let (i, j) = choose|i: int, j: int| #[trigger] is_encryption(events, i, j);
        assert(0 <= i && is_encryption(events, i, j));
    }
}

} // verus!
