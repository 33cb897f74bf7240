//! The parts of ZIP archives, read through `zip`.

use crate::error::ErrorView;
use crate::error::RustySheetError;
use crate::error::SpreadsheetError;
use crate::helpers::xml::convert_event;
use crate::helpers::xml::event_content;
use crate::helpers::xml::event_views;
use crate::helpers::xml::XmlEvent;
use crate::helpers::xml::XmlView;
use quick_xml::events::Event;
use quick_xml::Reader;
use std::io::Read;
use vstd::prelude::*;

verus! {

/// The reader of ZIP archives, `zip::ZipArchive`.
#[verifier::external_type_specification]
#[verifier::external_body]
#[verifier::reject_recursive_types(R)]
pub struct ExZipArchive<R>(zip::ZipArchive<R>);

/// The bytes that an archive was opened on.
pub uninterp spec fn archive_image(archive: zip::ZipArchive<std::io::Cursor<Vec<u8>>>) -> Seq<u8>;

/// The message of the error that opening an archive gives, or `None` where it
/// succeeds.
pub uninterp spec fn archive_fault(image: Seq<u8>) -> Option<Seq<char>>;

/// The first bytes of the part at a path of an archive, at most `limit` of them,
/// `None` where there is no such part, or the message of the error.
pub uninterp spec fn archive_entry(image: Seq<u8>, path: Seq<char>, limit: nat) -> Result<
    Option<Seq<u8>>,
    Seq<char>,
>;

/// The events of the XML part at a path of an archive, up to its end or the first
/// error of the markup or of the archive; `None` where there is no such part, or the
/// message of the error that opening it gives.
pub uninterp spec fn archive_markup(image: Seq<u8>, path: Seq<char>) -> Result<
    Option<Seq<XmlView>>,
    Seq<char>,
>;

/// The events that the reader of a part has still to hand out, up to its end or the
/// first error.
pub uninterp spec fn pending_markup(reader: PartReader<'_>) -> Seq<XmlView>;

/// The events of an XML part of an archive that are still to be read: a
/// `quick_xml::Reader` on a buffered `zip::read::ZipFile`. The bound `std::io::Read` of
/// that type keeps Verus from accepting a declaration of it, so it is held in here.
#[verifier::external_body]
pub struct PartReader<'a> {
    inner: Reader<std::io::BufReader<zip::read::ZipFile<'a, std::io::Cursor<Vec<u8>>>>>,
}

/// Opens bytes with `zip::ZipArchive::new`. Claimed: whether that succeeds is
/// a function of the bytes, and so is the message where it does not.
#[verifier::external_body]
fn open_archive(image: Vec<u8>) -> (res: Result<zip::ZipArchive<std::io::Cursor<Vec<u8>>>, String>)
    ensures
        match res {
            Ok(archive) => archive_fault(image@) is None && archive_image(archive) == image@,
            Err(message) => archive_fault(image@) == Some(message@),
        },
{
    zip::ZipArchive::new(std::io::Cursor::new(image)).map_err(|error| error.to_string())
}

/// Reads the first bytes of the part that `zip::ZipArchive::by_name` finds, at most
/// `limit` of them; a part that is not there is `None`. Claimed: the archive stays
/// what it is, and the outcome is a function of its bytes, the path and the limit.
#[verifier::external_body]
fn read_entry(
    archive: &mut zip::ZipArchive<std::io::Cursor<Vec<u8>>>,
    path: &str,
    limit: u64,
) -> (res: Result<Option<Vec<u8>>, String>)
    ensures
        archive_image(*final(archive)) == archive_image(*old(archive)),
        match res {
            Ok(Some(bytes)) => archive_entry(archive_image(*old(archive)), path@, limit as nat)
                == Ok::<Option<Seq<u8>>, Seq<char>>(Some(bytes@)) && bytes@.len() <= limit,
            Ok(None) => archive_entry(archive_image(*old(archive)), path@, limit as nat) == Ok::<
                Option<Seq<u8>>,
                Seq<char>,
            >(None),
            Err(message) => archive_entry(archive_image(*old(archive)), path@, limit as nat)
                == Err::<Option<Seq<u8>>, Seq<char>>(message@),
        },
{
    let mut bytes = Vec::new();
    match archive.by_name(path) {
        Err(zip::result::ZipError::FileNotFound) => Ok(None),
        Err(error) => Err(error.to_string()),
        Ok(file) => match file.take(limit).read_to_end(&mut bytes) {
            Ok(_) => Ok(Some(bytes)),
            Err(error) => Err(error.to_string()),
        },
    }
}

/// Opens the part that `zip::ZipArchive::by_name` finds with
/// `quick_xml::Reader::from_reader`, which is to report empty elements as a start and
/// an end; a part that is not there is `None`. Claimed: the archive stays what it is,
/// and the events that the reader will hand out, or the error, are a function of the
/// archive's bytes and the path.
#[verifier::external_body]
fn open_part<'a>(archive: &'a mut zip::ZipArchive<std::io::Cursor<Vec<u8>>>, path: &str) -> (res:
    Result<Option<PartReader<'a>>, String>)
    ensures
        archive_image(*final(archive)) == archive_image(*old(archive)),
        match res {
            Ok(Some(reader)) => archive_markup(archive_image(*old(archive)), path@) == Ok::<
                Option<Seq<XmlView>>,
                Seq<char>,
            >(Some(pending_markup(reader))),
            Ok(None) => archive_markup(archive_image(*old(archive)), path@) == Ok::<
                Option<Seq<XmlView>>,
                Seq<char>,
            >(None),
            Err(message) => archive_markup(archive_image(*old(archive)), path@) == Err::<
                Option<Seq<XmlView>>,
                Seq<char>,
            >(message@),
        },
{
    match archive.by_name(path) {
        Err(zip::result::ZipError::FileNotFound) => Ok(None),
        Err(error) => Err(error.to_string()),
        Ok(file) => {
            let mut inner = Reader::from_reader(std::io::BufReader::with_capacity(8192, file));
            inner.config_mut().expand_empty_elements = true;
            Ok(Some(PartReader { inner }))
        },
    }
}

/// Takes the next event with `quick_xml::Reader::read_event_into`; `None` is the end
/// of the part. Claimed: the events come in order, and an error, of the markup or of
/// the archive, is the last of them.
#[verifier::external_body]
fn read_event(reader: &mut PartReader<'_>) -> (res: Result<Option<Event<'static>>, String>)
    ensures
        match res {
            Ok(None) => pending_markup(*old(reader)).len() == 0,
            Ok(Some(event)) => {
                &&& pending_markup(*old(reader)).len() > 0
                &&& pending_markup(*old(reader))[0] == event_content(event)
                &&& pending_markup(*final(reader)) == pending_markup(*old(reader)).drop_first()
            },
            Err(message) => pending_markup(*old(reader)) == seq![XmlView::Fault(message@)],
        },
{
    match reader.inner.read_event_into(&mut Vec::new()) {
        Ok(Event::Eof) => Ok(None),
        Ok(event) => Ok(Some(event.into_owned())),
        Err(error) => Err(error.to_string()),
    }
}

/// Reads a part to its end or to the first error.
fn read_markup(part: PartReader<'_>) -> (res: Vec<XmlEvent>)
    ensures
        event_views(res@) == pending_markup(part),
{
    let mut reader = part;
    let mut events: Vec<XmlEvent> = Vec::new();
    proof {
        assert(event_views(events@) + pending_markup(reader) =~= pending_markup(part));
    }
    loop
        invariant
            event_views(events@) + pending_markup(reader) == pending_markup(part),
        decreases pending_markup(reader).len(),
    {
        let ghost before = events@;
        let ghost pending = pending_markup(reader);
        match read_event(&mut reader) {
            Ok(None) => {
                proof {
                    assert(event_views(events@) + pending =~= event_views(events@));
                }
                return events;
            },
            Ok(Some(event)) => {
                let converted = convert_event(&event);
                let ghost view = converted@;
                events.push(converted);
                proof {
                    assert(event_views(events@) =~= event_views(before).push(view));
                    assert(event_views(events@) + pending.drop_first() =~= event_views(before)
                        + pending);
                }
            },
            Err(message) => {
                events.push(XmlEvent::Fault(message));
                proof {
                    assert(event_views(events@) =~= event_views(before) + pending);
                }
                return events;
            },
        }
    }
}

/// The first bytes of an optional part, at most `limit` of them.
pub open spec fn part_start(image: Seq<u8>, path: Seq<char>, limit: nat) -> Result<
    Option<Seq<u8>>,
    ErrorView,
> {
    match archive_entry(image, path, limit) {
        Ok(bytes) => Ok(bytes),
        Err(message) => Err(ErrorView::Zip(message)),
    }
}

/// The events of an optional XML part.
pub open spec fn part_markup(image: Seq<u8>, path: Seq<char>) -> Result<
    Option<Seq<XmlView>>,
    ErrorView,
> {
    match archive_markup(image, path) {
        Ok(events) => Ok(events),
        Err(message) => Err(ErrorView::Zip(message)),
    }
}

/// The events of an XML part that has to be there.
pub open spec fn required_markup(image: Seq<u8>, path: Seq<char>) -> Result<
    Seq<XmlView>,
    ErrorView,
> {
    match part_markup(image, path) {
        Ok(Some(events)) => Ok(events),
        Ok(None) => Err(ErrorView::FileError(path)),
        Err(error) => Err(error),
    }
}

/// An archive.
pub struct Archive {
    inner: zip::ZipArchive<std::io::Cursor<Vec<u8>>>,
}

impl Archive {
    /// The bytes that the archive was opened on.
    pub closed spec fn image(&self) -> Seq<u8> {
        archive_image(self.inner)
    }

    /// Opens the bytes of an archive.
    pub fn open(image: Vec<u8>) -> (res: Result<Archive, RustySheetError>)
        ensures
            match archive_fault(image@) {
                None => res matches Ok(archive) && archive.image() == image@,
                Some(message) => res matches Err(e) && e@ == ErrorView::Zip(message),
            },
    {
        match open_archive(image) {
            Ok(inner) => Ok(Archive { inner }),
            Err(message) => Err(RustySheetError::Zip(message)),
        }
    }

    /// Reads the first bytes of a part, at most `limit` of them.
    pub fn file_start(&mut self, path: &str, limit: usize) -> (res: Result<
        Option<Vec<u8>>,
        RustySheetError,
    >)
        ensures
            final(self).image() == old(self).image(),
            match part_start(old(self).image(), path@, limit as nat) {
                Ok(Some(bytes)) => res matches Ok(Some(v)) && v@ == bytes && v@.len() <= limit,
                Ok(None) => res == Ok::<Option<Vec<u8>>, RustySheetError>(None),
                Err(error) => res matches Err(e) && e@ == error,
            },
    {
        match read_entry(&mut self.inner, path, limit as u64) {
            Ok(found) => Ok(found),
            Err(message) => Err(RustySheetError::Zip(message)),
        }
    }

    /// Reads the events of an XML part, up to its end or the first error of the markup
    /// or of the archive.
    pub fn xml_reader(&mut self, path: &str) -> (res: Result<
        Option<Vec<XmlEvent>>,
        RustySheetError,
    >)
        ensures
            final(self).image() == old(self).image(),
            match part_markup(old(self).image(), path@) {
                Ok(Some(events)) => res matches Ok(Some(v)) && event_views(v@) == events,
                Ok(None) => res == Ok::<Option<Vec<XmlEvent>>, RustySheetError>(None),
                Err(error) => res matches Err(e) && e@ == error,
            },
    {
        match open_part(&mut self.inner, path) {
            Ok(Some(reader)) => Ok(Some(read_markup(reader))),
            Ok(None) => Ok(None),
            Err(message) => Err(RustySheetError::Zip(message)),
        }
    }

    /// Reads the events of an XML part that has to be there.
    pub fn required_xml_reader(&mut self, path: &str) -> (res: Result<
        Vec<XmlEvent>,
        RustySheetError,
    >)
        ensures
            final(self).image() == old(self).image(),
            match required_markup(old(self).image(), path@) {
                Ok(events) => res matches Ok(v) && event_views(v@) == events,
                Err(error) => res matches Err(e) && e@ == error,
            },
    {
        match self.xml_reader(path) {
            Ok(Some(events)) => Ok(events),
            Ok(None) => Err(
                RustySheetError::Spreadsheet(SpreadsheetError::FileError(path.to_owned())),
            ),
            Err(error) => Err(error),
        }
    }
}

} // verus!
