//! XLSX files.

use crate::error::ErrorView;
use crate::error::RustySheetError;
use crate::helpers::xml::XmlView;
use crate::helpers::zip::archive_fault;
use crate::helpers::zip::part_markup;
use crate::helpers::zip::required_markup;
use crate::helpers::zip::Archive;
use crate::spreadsheet::cell::CellType;
use crate::spreadsheet::criteria::Criteria;
use crate::spreadsheet::resolve::option_texts;
use crate::spreadsheet::shared_strings::SharedStringStore;
use crate::spreadsheet::sheet::ready_chunks;
use crate::spreadsheet::sheet::Sheet;
use crate::spreadsheet::sheet::SheetView;
use crate::spreadsheet::xlsx::merge::read_sheet;
use crate::spreadsheet::xlsx::merge::read_sheet_outcome;
use crate::spreadsheet::xlsx::stream::sheet_views;
use crate::spreadsheet::xlsx::stream::stream_sheet;
use crate::spreadsheet::xlsx::stream::stream_sheet_outcome;
use crate::spreadsheet::xlsx::stream::take_ready_chunks;
use crate::spreadsheet::xlsx::text::load_shared_strings;
use crate::spreadsheet::xlsx::text::loaded_strings;
use crate::spreadsheet::xlsx::text::store_shared_strings;
use crate::spreadsheet::xlsx::text::strings_from;
use crate::spreadsheet::xlsx::text::texts_of;
use crate::spreadsheet::xlsx::workbook::load_number_formats;
use crate::spreadsheet::xlsx::workbook::load_relationships;
use crate::spreadsheet::xlsx::workbook::load_workbook;
use crate::spreadsheet::xlsx::workbook::number_formats_outcome;
use crate::spreadsheet::xlsx::workbook::pair_views;
use crate::spreadsheet::xlsx::workbook::relationships_from;
use crate::spreadsheet::xlsx::workbook::workbook_outcome;
use crate::spreadsheet::xlsx::workbook::Workbook;
use std::collections::HashMap;
use std::collections::HashSet;
use vstd::prelude::*;

pub mod accord;
pub mod agreement;
pub mod cells;
pub mod document;
pub mod ending;
pub mod laws;
pub mod merge;
pub mod naming;
pub mod picking;
pub mod spread;
pub mod stream;
pub mod stream_faults;
pub mod style_laws;
pub mod text;
pub mod text_laws;
pub mod workbook;
pub mod worksheet;
pub mod workbook_laws;

verus! {

/// The part with the relationships of the workbook.
pub const RELATIONSHIPS_PART: &'static str = "xl/_rels/workbook.xml.rels";

/// The part with the workbook.
pub const WORKBOOK_PART: &'static str = "xl/workbook.xml";

/// The part with the styles.
pub const STYLES_PART: &'static str = "xl/styles.xml";

/// The part with the shared strings.
pub const SHARED_STRINGS_PART: &'static str = "xl/sharedStrings.xml";

/// What the workbook of an archive says.
pub open spec fn workbook_of(image: Seq<u8>) -> Result<Workbook, ErrorView> {
    match required_markup(image, RELATIONSHIPS_PART@) {
        Err(error) => Err(error),
        Ok(events) => match relationships_from(events, 0, Seq::empty()) {
            Err(error) => Err(error),
            Ok(relationships) => match required_markup(image, WORKBOOK_PART@) {
                Err(error) => Err(error),
                Ok(events) => workbook_outcome(events, relationships),
            },
        },
    }
}

/// The types that the styles of an archive give to numbers. There are none where
/// the part is missing.
pub open spec fn formats_of(image: Seq<u8>, is_1904: bool) -> Result<Seq<CellType>, ErrorView> {
    match part_markup(image, STYLES_PART@) {
        Err(error) => Err(error),
        Ok(None) => Ok(Seq::empty()),
        Ok(Some(events)) => number_formats_outcome(events, is_1904),
    }
}

/// The events of the shared strings of an archive. There are none where the part
/// is missing.
pub open spec fn shared_string_markup(image: Seq<u8>) -> Result<Seq<XmlView>, ErrorView> {
    match part_markup(image, SHARED_STRINGS_PART@) {
        Err(error) => Err(error),
        Ok(None) => Ok(Seq::empty()),
        Ok(Some(events)) => Ok(events),
    }
}

/// The shared strings of an archive.
pub open spec fn shared_strings_of(image: Seq<u8>) -> Result<Seq<Seq<char>>, ErrorView> {
    match shared_string_markup(image) {
        Err(error) => Err(error),
        Ok(events) => strings_from(events, 0),
    }
}

/// Whether `accepted` says which sheets are to be read, as far as that is the same
/// on all platforms.
pub open spec fn is_selection(
    c: Criteria,
    sheets: Seq<(Seq<char>, Seq<char>)>,
    accepted: Seq<bool>,
) -> bool {
    &&& accepted.len() == sheets.len()
    &&& forall|i: int|
        0 <= i < sheets.len() && c.decides(sheets[i].0) ==> (#[trigger] accepted[i]) == c.accepts(
            sheets[i].0,
        )
}

/// The sheets that are read of an archive, from sheet `i` on, where `count` sheets
/// were read before.
pub open spec fn sheets_from(
    image: Seq<u8>,
    file_name: Seq<char>,
    sheets: Seq<(Seq<char>, Seq<char>)>,
    accepted: Seq<bool>,
    i: int,
    count: nat,
    c: Criteria,
    formats: Seq<CellType>,
) -> Result<Seq<SheetView>, ErrorView>
    decreases sheets.len() - i,
{
    if i < 0 || i >= sheets.len() || c.is_full(count as int) {
        Ok(Seq::empty())
    } else if !accepted[i] {
        sheets_from(image, file_name, sheets, accepted, i + 1, count, c, formats)
    } else {
        match required_markup(image, sheets[i].1) {
            Err(error) => Err(error),
            Ok(events) => match read_sheet_outcome(events, file_name, sheets[i].0, c, formats) {
                Err(error) => Err(error),
                Ok(sheet) => match sheets_from(
                    image,
                    file_name,
                    sheets,
                    accepted,
                    i + 1,
                    count + 1,
                    c,
                    formats,
                ) {
                    Err(error) => Err(error),
                    Ok(more) => Ok(seq![sheet] + more),
                },
            },
        }
    }
}

/// The chunks that are handed out of an archive, from sheet `i` on, where `count`
/// sheets were handed out before, with the given chunks; and the error where that
/// fails.
pub open spec fn chunks_from(
    image: Seq<u8>,
    file_name: Seq<char>,
    sheets: Seq<(Seq<char>, Seq<char>)>,
    accepted: Seq<bool>,
    i: int,
    count: nat,
    c: Criteria,
    formats: Seq<CellType>,
    strings: Seq<Seq<char>>,
    emitted: Seq<SheetView>,
) -> (Seq<SheetView>, Option<ErrorView>)
    decreases sheets.len() - i,
{
    if i < 0 || i >= sheets.len() || c.is_full(count as int) {
        (emitted, None)
    } else if !accepted[i] {
        chunks_from(
            image,
            file_name,
            sheets,
            accepted,
            i + 1,
            count,
            c,
            formats,
            strings,
            emitted,
        )
    } else {
        match required_markup(image, sheets[i].1) {
            Err(error) => (emitted, Some(error)),
            Ok(events) => {
                let (chunks, fault) = stream_sheet_outcome(
                    events,
                    file_name,
                    sheets[i].0,
                    c,
                    formats,
                    strings,
                    emitted,
                );
                match fault {
                    Some(error) => (chunks, Some(error)),
                    None => chunks_from(
                        image,
                        file_name,
                        sheets,
                        accepted,
                        i + 1,
                        count + 1,
                        c,
                        formats,
                        strings,
                        chunks,
                    ),
                }
            },
        }
    }
}

/// The chunks of complete sheets, sheet by sheet.
pub open spec fn chunks_of_sheets(sheets: Seq<SheetView>) -> Seq<SheetView>
    decreases sheets.len(),
{
    if sheets.len() == 0 {
        Seq::empty()
    } else {
        chunks_of_sheets(sheets.drop_last()) + ready_chunks(sheets.last())
    }
}

/// The shared strings, without those that count as no value.
pub open spec fn visible_strings(strings: Seq<Seq<char>>, c: Criteria) -> Seq<Option<Seq<char>>> {
    strings.map_values(
        |text: Seq<char>|
            if c.is_null(text) {
                None
            } else {
                Some(text)
            },
    )
}

/// The number of sheets that are read does not exceed the limit.
pub proof fn lemma_sheet_limit(
    image: Seq<u8>,
    file_name: Seq<char>,
    sheets: Seq<(Seq<char>, Seq<char>)>,
    accepted: Seq<bool>,
    i: int,
    count: nat,
    c: Criteria,
    formats: Seq<CellType>,
)
    requires
        0 <= i <= sheets.len(),
    ensures
        sheets_from(image, file_name, sheets, accepted, i, count, c, formats) matches Ok(
            found,
        ) ==> {
            &&& found.len() <= sheets.len() - i
            &&& c.sheet_limit matches Some(limit) ==> found.len() == 0 || count + found.len() <= limit
        },
    decreases sheets.len() - i,
{
    if i < sheets.len() && !c.is_full(count as int) {
        lemma_sheet_limit(image, file_name, sheets, accepted, i + 1, count, c, formats);
        lemma_sheet_limit(image, file_name, sheets, accepted, i + 1, count + 1, c, formats);
    }
}

/// Sheets that are handed out chunk by chunk.
pub struct SheetStream {
    /// The shared strings that the cells refer to, without those that count as no
    /// value.
    pub shared_strings: Vec<Option<String>>,
    /// The chunks, in order.
    pub chunks: Vec<Sheet>,
    /// The error that came after the last chunk.
    pub fault: Option<RustySheetError>,
}

/// What comes next when sheets are handed out.
#[derive(Debug, Clone, Copy, PartialEq, Eq, Structural)]
pub enum StreamAction {
    /// The chunk with this number is handed out.
    HandOut(usize),
    /// The stream ends.
    Finish,
    /// The stream ends with its error.
    Fail,
}

/// What comes next when `handed_out` of `count` chunks were handed out: nothing more
/// where the last answer was that no more are wanted, else the next chunk, and behind
/// the last one the error, where there is one.
pub open spec fn stream_action(
    count: nat,
    has_fault: bool,
    handed_out: nat,
    wants_more: bool,
) -> StreamAction {
    if handed_out > 0 && !wants_more {
        StreamAction::Finish
    } else if handed_out < count {
        StreamAction::HandOut(handed_out as usize)
    } else if has_fault {
        StreamAction::Fail
    } else {
        StreamAction::Finish
    }
}

/// Who wants more after each chunk is handed every chunk once, in order, and then the
/// error, where there is one; and who wants no more is handed nothing else, and no
/// error.
pub proof fn lemma_stream_actions(count: nat, has_fault: bool, handed_out: nat)
    requires
        handed_out <= count <= usize::MAX,
    ensures
        handed_out < count ==> stream_action(count, has_fault, handed_out, true)
            == StreamAction::HandOut(handed_out as usize),
        stream_action(count, has_fault, count, true) == if has_fault {
            StreamAction::Fail
        } else {
            StreamAction::Finish
        },
        handed_out > 0 ==> stream_action(count, has_fault, handed_out, false)
            == StreamAction::Finish,
{
}

impl SheetStream {
    /// Decides what comes next when some chunks were handed out, given whether more
    /// were wanted after the last of them.
    pub fn next_action(&self, handed_out: usize, wants_more: bool) -> (res: StreamAction)
        ensures
            res == stream_action(
                self.chunks@.len(),
                self.fault is Some,
                handed_out as nat,
                wants_more,
            ),
    {
        if handed_out > 0 && !wants_more {
            StreamAction::Finish
        } else if handed_out < self.chunks.len() {
            StreamAction::HandOut(handed_out)
        } else if self.fault.is_some() {
            StreamAction::Fail
        } else {
            StreamAction::Finish
        }
    }
}

/// An XLSX file.
pub struct XlsxSpreadsheet {
    name: String,
    zip: Archive,
    number_formats: Vec<CellType>,
    sheets: Vec<(String, String)>,
}

impl XlsxSpreadsheet {
    /// The name of the file.
    pub closed spec fn file_name(&self) -> Seq<char> {
        self.name@
    }

    /// The bytes of the file.
    pub closed spec fn image(&self) -> Seq<u8> {
        self.zip.image()
    }

    /// The types that the styles give to numbers.
    pub closed spec fn formats(&self) -> Seq<CellType> {
        self.number_formats@
    }

    /// The names of the sheets and the paths of their parts.
    pub closed spec fn sheet_list(&self) -> Seq<(Seq<char>, Seq<char>)> {
        pair_views(self.sheets@)
    }

    /// Whether two states are of the same file.
    pub open spec fn same_file(&self, other: &Self) -> bool {
        &&& self.file_name() == other.file_name()
        &&& self.image() == other.image()
        &&& self.formats() == other.formats()
        &&& self.sheet_list() == other.sheet_list()
    }

    /// Opens the bytes of a file and reads its structure.
    pub fn open(file_name: &str, image: Vec<u8>) -> (res: Result<XlsxSpreadsheet, RustySheetError>)
        ensures
            match archive_fault(image@) {
                Some(message) => res matches Err(e) && e@ == ErrorView::Zip(message),
                None => match workbook_of(image@) {
                    Err(error) => res matches Err(e) && e@ == error,
                    Ok(book) => match formats_of(image@, book.is_1904) {
                        Err(error) => res matches Err(e) && e@ == error,
                        Ok(formats) => {
                            &&& res matches Ok(file)
                            &&& file.file_name() == file_name@
                            &&& file.image() == image@
                            &&& file.formats() == formats
                            &&& file.sheet_list() == book.sheets
                        },
                    },
                },
            },
    {
        let mut zip = match Archive::open(image) {
            Ok(zip) => zip,
            Err(error) => return Err(error),
        };
        let events = match zip.required_xml_reader(RELATIONSHIPS_PART) {
            Ok(events) => events,
            Err(error) => return Err(error),
        };
        let relationships = match load_relationships(events.as_slice()) {
            Ok(relationships) => relationships,
            Err(error) => return Err(error),
        };
        let events = match zip.required_xml_reader(WORKBOOK_PART) {
            Ok(events) => events,
            Err(error) => return Err(error),
        };
        let (sheets, is_1904) = match load_workbook(events.as_slice(), &relationships) {
            Ok(book) => book,
            Err(error) => return Err(error),
        };
        let number_formats: Vec<CellType> = match zip.xml_reader(STYLES_PART) {
            Err(error) => return Err(error),
            Ok(None) => Vec::new(),
            Ok(Some(events)) => match load_number_formats(events.as_slice(), is_1904) {
                Ok(number_formats) => number_formats,
                Err(error) => return Err(error),
            },
        };
        proof {
            if part_markup(image@, STYLES_PART@) matches Ok(None) {
                assert(number_formats@ =~= Seq::<CellType>::empty());
            }
        }
        Ok(XlsxSpreadsheet { name: file_name.to_owned(), zip, number_formats, sheets })
    }

    /// The name of the file.
    pub fn name(&self) -> (res: String)
        ensures
            res@ == self.file_name(),
    {
        self.name.clone()
    }

    /// Loads shared strings: all of them, or those with the given numbers. The
    /// second result gives the place of each string that was asked for.
    pub fn load_shared_strings(&mut self, indexes: Option<HashSet<usize>>) -> (res: Result<
        (Vec<String>, HashMap<usize, usize>),
        RustySheetError,
    >)
        ensures
            final(self).same_file(old(self)),
            match part_markup(old(self).image(), SHARED_STRINGS_PART@) {
                Err(error) => res matches Err(e) && e@ == error,
                Ok(None) => {
                    &&& res matches Ok((strings, mappings))
                    &&& strings@.len() == 0
                    &&& mappings@ == Map::<usize, usize>::empty()
                },
                Ok(Some(events)) => match loaded_strings(
                    events,
                    match indexes {
                        Some(set) => Some(set@),
                        None => None,
                    },
                ) {
                    Err(error) => res matches Err(e) && e@ == error,
                    Ok(loaded) => {
                        &&& res matches Ok((strings, mappings))
                        &&& texts_of(strings@) == loaded.strings
                        &&& mappings@ == loaded.mappings
                    },
                },
            },
    {
        broadcast use vstd::std_specs::hash::group_hash_axioms;

        match self.zip.xml_reader(SHARED_STRINGS_PART) {
            Err(error) => Err(error),
            Ok(None) => Ok((Vec::new(), HashMap::new())),
            Ok(Some(events)) => load_shared_strings(events.as_slice(), indexes),
        }
    }

    /// Loads all shared strings into a store.
    pub fn load_shared_string_store(&mut self) -> (res: Result<SharedStringStore, RustySheetError>)
        ensures
            final(self).same_file(old(self)),
            match shared_strings_of(old(self).image()) {
                Ok(strings) => res matches Ok(store) && store.wf() && !store.reading() && store@
                    == strings,
                Err(error) => res matches Err(e) && e@ == error,
            },
    {
        let mut store = match SharedStringStore::new() {
            Ok(store) => store,
            Err(error) => return Err(error),
        };
        match self.zip.xml_reader(SHARED_STRINGS_PART) {
            Err(error) => Err(error),
            Ok(None) => Ok(store),
            Ok(Some(events)) => {
                let ghost before = store@;
                match store_shared_strings(events.as_slice(), &mut store) {
                    Ok(_) => {
                        proof {
                            let strings = shared_strings_of(old(self).image())->Ok_0;
                            assert(before + strings =~= strings);
                        }
                        Ok(store)
                    },
                    Err(error) => Err(error),
                }
            },
        }
    }

    /// Decides which sheets are to be read, apart from the limit on their number.
    pub fn select_sheets(&self, criteria: &Criteria) -> (res: Vec<bool>)
        ensures
            is_selection(*criteria, self.sheet_list(), res@),
    {
        let mut accepted: Vec<bool> = Vec::new();
        let mut i: usize = 0;
        let ghost sheets = self.sheet_list();
        while i < self.sheets.len()
            invariant
                i <= self.sheets@.len(),
                accepted@.len() == i,
                sheets == pair_views(self.sheets@),
                forall|j: int|
                    0 <= j < i && criteria.decides(sheets[j].0) ==> (#[trigger] accepted@[j])
                        == criteria.accepts(sheets[j].0),
            decreases self.sheets@.len() - i,
        {
            proof {
                assert(sheets[i as int].0 == self.sheets@[i as int].0@);
            }
            accepted.push(criteria.accept(self.sheets[i].0.as_str()));
            i = i + 1;
        }
        accepted
    }

    /// Reads the accepted sheets, up to the limit on their number.
    pub fn read_selected(&mut self, criteria: &Criteria, accepted: &Vec<bool>) -> (res: Result<
        Vec<Sheet>,
        RustySheetError,
    >)
        requires
            accepted@.len() == old(self).sheet_list().len(),
        ensures
            final(self).same_file(old(self)),
            match sheets_from(
                old(self).image(),
                old(self).file_name(),
                old(self).sheet_list(),
                accepted@,
                0,
                0,
                *criteria,
                old(self).formats(),
            ) {
                Ok(sheets) => res matches Ok(found) && sheet_views(found@) == sheets,
                Err(error) => res matches Err(e) && e@ == error,
            },
    {
        let ghost image = self.zip.image();
        let ghost list = pair_views(self.sheets@);
        let ghost c = *criteria;
        let ghost all = sheets_from(
            image,
            self.name@,
            list,
            accepted@,
            0,
            0,
            c,
            self.number_formats@,
        );
        let mut found: Vec<Sheet> = Vec::new();
        let mut sheet_count: usize = 0;
        let mut i: usize = 0;
        proof {
            if let Ok(sheets) = all {
                assert(sheet_views(found@) + sheets =~= sheets);
            }
        }
        while i < self.sheets.len() && !criteria.limit_reached(sheet_count)
            invariant
                i <= self.sheets@.len(),
                sheet_count <= i,
                c == *criteria,
                image == self.zip.image(),
                list == pair_views(self.sheets@),
                accepted@.len() == list.len(),
                self.name == old(self).name,
                self.sheets == old(self).sheets,
                self.number_formats == old(self).number_formats,
                self.zip.image() == old(self).zip.image(),
                all == sheets_from(
                    image,
                    self.name@,
                    list,
                    accepted@,
                    0,
                    0,
                    c,
                    self.number_formats@,
                ),
                match sheets_from(
                    image,
                    self.name@,
                    list,
                    accepted@,
                    i as int,
                    sheet_count as nat,
                    c,
                    self.number_formats@,
                ) {
                    Ok(more) => all == Ok::<Seq<SheetView>, ErrorView>(sheet_views(found@) + more),
                    Err(error) => all == Err::<Seq<SheetView>, ErrorView>(error),
                },
            decreases self.sheets@.len() - i,
        {
            proof {
                assert(list[i as int] == (
                    self.sheets@[i as int].0@,
                    self.sheets@[i as int].1@,
                ));
            }
            if accepted[i] {
                let events = match self.zip.required_xml_reader(self.sheets[i].1.as_str()) {
                    Ok(events) => events,
                    Err(error) => return Err(error),
                };
                match read_sheet(
                    events.as_slice(),
                    self.name.as_str(),
                    self.sheets[i].0.as_str(),
                    criteria,
                    &self.number_formats,
                ) {
                    Err(error) => {
                        return Err(error);
                    },
                    Ok(sheet) => {
                        let ghost before = found@;
                        let ghost view = sheet@;
                        found.push(sheet);
                        proof {
                            assert(sheet_views(found@) =~= sheet_views(before).push(view));
                            if let Ok(more) = sheets_from(
                                image,
                                self.name@,
                                list,
                                accepted@,
                                i + 1,
                                (sheet_count + 1) as nat,
                                c,
                                self.number_formats@,
                            ) {
                                assert(sheet_views(before) + (seq![view] + more) =~= sheet_views(
                                    found@,
                                ) + more);
                            }
                        }
                    },
                }
                sheet_count = sheet_count + 1;
            }
            i = i + 1;
        }
        proof {
            assert(sheet_views(found@) + Seq::<SheetView>::empty() =~= sheet_views(found@));
        }
        Ok(found)
    }

    /// Reads the sheets that the criteria ask for.
    pub fn read_sheets(&mut self, criteria: &Criteria) -> (res: Result<Vec<Sheet>, RustySheetError>)
        ensures
            final(self).same_file(old(self)),
            exists|accepted: Seq<bool>|
                {
                    &&& #[trigger] is_selection(*criteria, old(self).sheet_list(), accepted)
                    &&& match sheets_from(
                        old(self).image(),
                        old(self).file_name(),
                        old(self).sheet_list(),
                        accepted,
                        0,
                        0,
                        *criteria,
                        old(self).formats(),
                    ) {
                        Ok(sheets) => res matches Ok(found) && sheet_views(found@) == sheets,
                        Err(error) => res matches Err(e) && e@ == error,
                    }
                },
    {
        let accepted = self.select_sheets(criteria);
        self.read_selected(criteria, &accepted)
    }

    /// Hands out the accepted sheets chunk by chunk, up to the limit on their
    /// number, with shared strings in place.
    pub fn stream_selected(&mut self, criteria: &Criteria, accepted: &Vec<bool>) -> (res:
        SheetStream)
        requires
            accepted@.len() == old(self).sheet_list().len(),
        ensures
            final(self).same_file(old(self)),
            res.shared_strings@.len() == 0,
            match shared_strings_of(old(self).image()) {
                Err(error) => {
                    &&& res.chunks@.len() == 0
                    &&& res.fault matches Some(e)
                    &&& e@ == error
                },
                Ok(strings) => {
                    let (chunks, fault) = chunks_from(
                        old(self).image(),
                        old(self).file_name(),
                        old(self).sheet_list(),
                        accepted@,
                        0,
                        0,
                        *criteria,
                        old(self).formats(),
                        strings,
                        Seq::empty(),
                    );
                    &&& sheet_views(res.chunks@) == chunks
                    &&& match fault {
                        Some(error) => res.fault matches Some(e) && e@ == error,
                        None => res.fault is None,
                    }
                },
            },
    {
        let mut chunks: Vec<Sheet> = Vec::new();
        let mut store = match self.load_shared_string_store() {
            Ok(store) => store,
            Err(error) => {
                return SheetStream { shared_strings: Vec::new(), chunks, fault: Some(error) };
            },
        };
        let ghost image = self.zip.image();
        let ghost list = pair_views(self.sheets@);
        let ghost c = *criteria;
        let ghost strings = store@;
        let ghost all = chunks_from(
            image,
            self.name@,
            list,
            accepted@,
            0,
            0,
            c,
            self.number_formats@,
            strings,
            Seq::empty(),
        );
        let mut sheet_count: usize = 0;
        let mut i: usize = 0;
        proof {
            assert(sheet_views(chunks@) =~= Seq::<SheetView>::empty());
        }
        while i < self.sheets.len() && !criteria.limit_reached(sheet_count)
            invariant
                i <= self.sheets@.len(),
                sheet_count <= i,
                c == *criteria,
                image == self.zip.image(),
                list == pair_views(self.sheets@),
                accepted@.len() == list.len(),
                store.wf(),
                store@ == strings,
                self.same_file(old(self)),
                shared_strings_of(old(self).image()) == Ok::<Seq<Seq<char>>, ErrorView>(strings),
                all == chunks_from(
                    image,
                    self.name@,
                    list,
                    accepted@,
                    0,
                    0,
                    c,
                    self.number_formats@,
                    strings,
                    Seq::empty(),
                ),
                all == chunks_from(
                    image,
                    self.name@,
                    list,
                    accepted@,
                    i as int,
                    sheet_count as nat,
                    c,
                    self.number_formats@,
                    strings,
                    sheet_views(chunks@),
                ),
            decreases self.sheets@.len() - i,
        {
            proof {
                assert(list[i as int] == (
                    self.sheets@[i as int].0@,
                    self.sheets@[i as int].1@,
                ));
            }
            if accepted[i] {
                let events = match self.zip.required_xml_reader(self.sheets[i].1.as_str()) {
                    Ok(events) => events,
                    Err(error) => {
                        return SheetStream {
                            shared_strings: Vec::new(),
                            chunks,
                            fault: Some(error),
                        };
                    },
                };
                match stream_sheet(
                    events.as_slice(),
                    self.name.as_str(),
                    self.sheets[i].0.as_str(),
                    criteria,
                    &self.number_formats,
                    &mut store,
                    &mut chunks,
                ) {
                    Err(error) => {
                        return SheetStream {
                            shared_strings: Vec::new(),
                            chunks,
                            fault: Some(error),
                        };
                    },
                    Ok(_) => {},
                }
                sheet_count = sheet_count + 1;
            }
            i = i + 1;
        }
        SheetStream { shared_strings: Vec::new(), chunks, fault: None }
    }

    /// Hands out the sheets that the criteria ask for chunk by chunk, with shared
    /// strings in place.
    pub fn stream_xlsx_sheets(&mut self, criteria: &Criteria) -> (res: SheetStream)
        ensures
            final(self).same_file(old(self)),
            res.shared_strings@.len() == 0,
            match shared_strings_of(old(self).image()) {
                Err(error) => {
                    &&& res.chunks@.len() == 0
                    &&& res.fault matches Some(e)
                    &&& e@ == error
                },
                Ok(strings) => exists|accepted: Seq<bool>|
                    {
                        &&& #[trigger] is_selection(*criteria, old(self).sheet_list(), accepted)
                        &&& {
                            let (chunks, fault) = chunks_from(
                                old(self).image(),
                                old(self).file_name(),
                                old(self).sheet_list(),
                                accepted,
                                0,
                                0,
                                *criteria,
                                old(self).formats(),
                                strings,
                                Seq::empty(),
                            );
                            &&& sheet_views(res.chunks@) == chunks
                            &&& match fault {
                                Some(error) => res.fault matches Some(e) && e@ == error,
                                None => res.fault is None,
                            }
                        }
                    },
            },
    {
        let accepted = self.select_sheets(criteria);
        self.stream_selected(criteria, &accepted)
    }

    /// Hands out the sheets that the criteria ask for chunk by chunk. Where merged
    /// ranges are spread, whole sheets are read first, and their cells refer to
    /// shared strings by number.
    pub fn stream_sheets(&mut self, criteria: &Criteria) -> (res: SheetStream)
        ensures
            final(self).same_file(old(self)),
            match shared_strings_of(old(self).image()) {
                Err(error) => {
                    &&& res.chunks@.len() == 0
                    &&& res.fault matches Some(e)
                    &&& e@ == error
                },
                Ok(strings) => exists|accepted: Seq<bool>|
                    {
                        &&& #[trigger] is_selection(*criteria, old(self).sheet_list(), accepted)
                        &&& if criteria.spread_merged_cells {
                            match sheets_from(
                                old(self).image(),
                                old(self).file_name(),
                                old(self).sheet_list(),
                                accepted,
                                0,
                                0,
                                *criteria,
                                old(self).formats(),
                            ) {
                                Err(error) => {
                                    &&& res.chunks@.len() == 0
                                    &&& res.fault matches Some(e)
                                    &&& e@ == error
                                },
                                Ok(sheets) => {
                                    &&& res.fault is None
                                    &&& sheet_views(res.chunks@) == chunks_of_sheets(sheets)
                                    &&& option_texts(res.shared_strings@) == visible_strings(
                                        strings,
                                        *criteria,
                                    )
                                },
                            }
                        } else {
                            let (chunks, fault) = chunks_from(
                                old(self).image(),
                                old(self).file_name(),
                                old(self).sheet_list(),
                                accepted,
                                0,
                                0,
                                *criteria,
                                old(self).formats(),
                                strings,
                                Seq::empty(),
                            );
                            &&& res.shared_strings@.len() == 0
                            &&& sheet_views(res.chunks@) == chunks
                            &&& match fault {
                                Some(error) => res.fault matches Some(e) && e@ == error,
                                None => res.fault is None,
                            }
                        }
                    },
            },
    {
        if !criteria.spread_merged_cells {
            return self.stream_xlsx_sheets(criteria);
        }
        let strings: Vec<String> = match self.load_shared_strings(None) {
            Ok((strings, _)) => strings,
            Err(error) => {
                return SheetStream {
                    shared_strings: Vec::new(),
                    chunks: Vec::new(),
                    fault: Some(error),
                };
            },
        };
        proof {
            let all = shared_strings_of(old(self).image())->Ok_0;
            assert(texts_of(strings@) =~= all);
        }
        let accepted = self.select_sheets(criteria);
        match self.read_selected(criteria, &accepted) {
            Err(error) => SheetStream {
                shared_strings: Vec::new(),
                chunks: Vec::new(),
                fault: Some(error),
            },
            Ok(sheets) => {
                let shared_strings = hide_nulls(strings, criteria);
                let chunks = stream_materialized_sheets(sheets);
                SheetStream { shared_strings, chunks, fault: None }
            },
        }
    }
}

/// Leaves out the strings that count as no value.
pub fn hide_nulls(strings: Vec<String>, criteria: &Criteria) -> (res: Vec<Option<String>>)
    ensures
        option_texts(res@) == visible_strings(texts_of(strings@), *criteria),
{
    let mut res: Vec<Option<String>> = Vec::new();
    let mut i: usize = 0;
    while i < strings.len()
        invariant
            i <= strings@.len(),
            res@.len() == i,
            forall|j: int|
                0 <= j < i ==> option_texts(res@)[j] == #[trigger] visible_strings(
                    texts_of(strings@),
                    *criteria,
                )[j],
        decreases strings@.len() - i,
    {
        let ghost before = res@;
        if criteria.contains_null(strings[i].as_str()) {
            res.push(None);
        } else {
            res.push(Some(strings[i].clone()));
        }
        proof {
            assert forall|j: int| 0 <= j < i + 1 implies option_texts(res@)[j]
                == #[trigger] visible_strings(texts_of(strings@), *criteria)[j] by {
                if j < i {
                    assert(res@[j] == before[j]);
                    assert(option_texts(before)[j] == visible_strings(
                        texts_of(strings@),
                        *criteria,
                    )[j]);
                }
            }
        }
        i = i + 1;
    }
    proof {
        assert(option_texts(res@) =~= visible_strings(texts_of(strings@), *criteria));
    }
    res
}

/// Splits complete sheets into chunks.
pub fn stream_materialized_sheets(sheets: Vec<Sheet>) -> (res: Vec<Sheet>)
    ensures
        sheet_views(res@) == chunks_of_sheets(sheet_views(sheets@)),
    decreases sheets@.len(),
{
    let ghost views = sheet_views(sheets@);
    let mut sheets = sheets;
    match sheets.pop() {
        None => {
            let empty: Vec<Sheet> = Vec::new();
            proof {
                assert(sheet_views(empty@) =~= Seq::<SheetView>::empty());
            }
            empty
        },
        Some(sheet) => {
            let mut sheet = sheet;
            proof {
                assert(sheet_views(sheets@) =~= views.drop_last());
            }
            let mut chunks = stream_materialized_sheets(sheets);
            take_ready_chunks(&mut sheet, &mut chunks);
            chunks
        },
    }
}

} // verus!
