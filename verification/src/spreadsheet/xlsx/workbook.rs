//! The structure of an XLSX workbook: relationships, sheets and styles.

use crate::error::ErrorView;
use crate::error::RustySheetError;
use crate::helpers::text::chars_of;
use crate::helpers::text::number_value;
use crate::helpers::text::parse_usize;
use crate::helpers::text::same_text;
use crate::helpers::text::string_of;
use crate::helpers::xml::attribute_value;
use crate::helpers::xml::attribute_view;
use crate::helpers::xml::event_views;
use crate::helpers::xml::local_name;
use crate::helpers::xml::local_part;
use crate::helpers::xml::AttributeView;
use crate::helpers::xml::XmlEvent;
use crate::helpers::xml::XmlTag;
use crate::helpers::xml::XmlView;
use crate::spreadsheet::cell::CellType;
use crate::spreadsheet::resolve::option_texts;
use vstd::prelude::*;

verus! {

/// A relationship of a document to another part.
pub const TAG_RELATIONSHIP: &'static str = "Relationship";

/// A sheet of a workbook.
pub const TAG_SHEET: &'static str = "sheet";

/// The properties of a workbook.
pub const TAG_WORKBOOK_PROPERTIES: &'static str = "workbookPr";

/// The list of custom number formats.
pub const TAG_CUSTOM_FORMATS: &'static str = "numFmts";

/// A custom number format.
pub const TAG_CUSTOM_FORMAT: &'static str = "numFmt";

/// The list of cell styles.
pub const TAG_FORMAT_INDEXES: &'static str = "cellXfs";

/// A cell style.
pub const TAG_FORMAT_INDEX: &'static str = "xf";

/// A list of pairs of texts as mathematical values.
pub open spec fn pair_views(pairs: Seq<(String, String)>) -> Seq<(Seq<char>, Seq<char>)> {
    pairs.map_values(|pair: (String, String)| (pair.0@, pair.1@))
}

/// The second text of the last pair with this first text.
pub open spec fn last_of(pairs: Seq<(Seq<char>, Seq<char>)>, key: Seq<char>) -> Option<Seq<char>>
    decreases pairs.len(),
{
    if pairs.len() == 0 {
        None
    } else if pairs.last().0 == key {
        Some(pairs.last().1)
    } else {
        last_of(pairs.drop_last(), key)
    }
}

/// Finds the second text of the last pair with this first text.
pub fn find_last(pairs: &Vec<(String, String)>, key: &str) -> (res: Option<String>)
    ensures
        match last_of(pair_views(pairs@), key@) {
            Some(text) => res matches Some(found) && found@ == text,
            None => res is None,
        },
{
    let ghost views = pair_views(pairs@);
    let mut n: usize = pairs.len();
    proof {
        assert(views.take(n as int) =~= views);
    }
    while n > 0
        invariant
            n <= pairs@.len(),
            views == pair_views(pairs@),
            last_of(views, key@) == last_of(views.take(n as int), key@),
        decreases n,
    {
        proof {
            assert(views.take(n as int).last() == (pairs@[n - 1].0@, pairs@[n - 1].1@));
            assert(views.take(n as int).drop_last() =~= views.take(n - 1));
        }
        if same_text(pairs[n - 1].0.as_str(), key) {
            return Some(pairs[n - 1].1.clone());
        }
        n = n - 1;
    }
    None
}

/// The path in the archive that a relationship's target stands for.
pub open spec fn part_path(target: Seq<char>) -> Seq<char> {
    if target.len() > 0 && target[0] == '/' {
        target.skip(1)
    } else {
        "xl/"@ + target
    }
}

fn path_of_target(target: &str) -> (res: String)
    ensures
        res@ == part_path(target@),
{
    let chars = chars_of(target);
    if chars.len() > 0 && chars[0] == '/' {
        let rest: &[char] = &chars[1..chars.len()];
        proof {
            assert(rest@ =~= target@.skip(1));
        }
        string_of(rest)
    } else {
        let mut path = "xl/".to_owned();
        path.push_str(target);
        path
    }
}

/// The relationships of a document from event `at` on, after the given ones:
/// identifiers and paths.
pub open spec fn relationships_from(
    events: Seq<XmlView>,
    at: int,
    found: Seq<(Seq<char>, Seq<char>)>,
) -> Result<Seq<(Seq<char>, Seq<char>)>, ErrorView>
    decreases events.len() - at,
{
    if at < 0 || at >= events.len() {
        Ok(found)
    } else {
        match events[at] {
            XmlView::Fault(message) => Err(ErrorView::Xml(message)),
            XmlView::Start(tag) if local_part(tag.name) == TAG_RELATIONSHIP@ => match (
                attribute_value(tag.attributes, "Id"@),
                attribute_value(tag.attributes, "Target"@),
            ) {
                (Err(error), _) => Err(error),
                (_, Err(error)) => Err(error),
                (Ok(Some(id)), Ok(Some(target))) => relationships_from(
                    events,
                    at + 1,
                    found.push((id, part_path(target))),
                ),
                _ => relationships_from(events, at + 1, found),
            },
            _ => relationships_from(events, at + 1, found),
        }
    }
}

/// Reads the relationships of a document.
#[verifier::loop_isolation(false)]
pub fn load_relationships(events: &[XmlEvent]) -> (res: Result<
    Vec<(String, String)>,
    RustySheetError,
>)
    ensures
        match relationships_from(event_views(events@), 0, Seq::empty()) {
            Ok(pairs) => res matches Ok(found) && pair_views(found@) == pairs,
            Err(error) => res matches Err(e) && e@ == error,
        },
{
    let ghost views = event_views(events@);
    let ghost all = relationships_from(views, 0, Seq::empty());
    let mut found: Vec<(String, String)> = Vec::new();
    let mut i: usize = 0;
    proof {
        assert(pair_views(found@) =~= Seq::<(Seq<char>, Seq<char>)>::empty());
    }
    while i < events.len()
        invariant
            i <= events@.len(),
            all == relationships_from(views, i as int, pair_views(found@)),
        decreases events@.len() - i,
    {
        proof {
            assert(views[i as int] == events@[i as int]@);
        }
        match &events[i] {
            XmlEvent::Fault(message) => {
                return Err(RustySheetError::Xml(message.clone()));
            },
            XmlEvent::Start(tag) => {
                let local = local_name(tag.name.as_str());
                if same_text(local.as_str(), TAG_RELATIONSHIP) {
                    let id = match tag.get_attribute_value("Id") {
                        Ok(id) => id,
                        Err(error) => return Err(error),
                    };
                    let target = match tag.get_attribute_value("Target") {
                        Ok(target) => target,
                        Err(error) => return Err(error),
                    };
                    if let (Some(id), Some(target)) = (id, target) {
                        let ghost before = found@;
                        let path = path_of_target(target.as_str());
                        let ghost pair = (id@, path@);
                        found.push((id, path));
                        proof {
                            assert(pair_views(found@) =~= pair_views(before).push(pair));
                        }
                    }
                }
            },
            _ => {},
        }
        i = i + 1;
    }
    Ok(found)
}

/// The name and identifier of a sheet by its attributes, from number `i` on, where
/// the given ones were found before. Prefixes do not matter.
pub open spec fn sheet_names(
    attributes: Seq<Result<AttributeView, Seq<char>>>,
    i: int,
    name: Option<Seq<char>>,
    id: Option<Seq<char>>,
) -> Result<(Option<Seq<char>>, Option<Seq<char>>), ErrorView>
    decreases attributes.len() - i,
{
    if i < 0 || i >= attributes.len() {
        Ok((name, id))
    } else {
        match attributes[i] {
            Err(message) => Err(ErrorView::Xml(message)),
            Ok(attribute) => if local_part(attribute.key) == "name"@ {
                match attribute.value {
                    Ok(value) => sheet_names(attributes, i + 1, Some(value), id),
                    Err(message) => Err(ErrorView::Xml(message)),
                }
            } else if local_part(attribute.key) == "id"@ {
                match attribute.value {
                    Ok(value) => sheet_names(attributes, i + 1, name, Some(value)),
                    Err(message) => Err(ErrorView::Xml(message)),
                }
            } else {
                sheet_names(attributes, i + 1, name, id)
            },
        }
    }
}

spec fn option_text(text: Option<String>) -> Option<Seq<char>> {
    match text {
        Some(value) => Some(value@),
        None => None,
    }
}

#[verifier::loop_isolation(false)]
fn find_sheet_names(tag: &XmlTag) -> (res: Result<
    (Option<String>, Option<String>),
    RustySheetError,
>)
    ensures
        match sheet_names(tag@.attributes, 0, None, None) {
            Ok((name, id)) => res matches Ok((n, i)) && option_text(n) == name && option_text(i)
                == id,
            Err(error) => res matches Err(e) && e@ == error,
        },
{
    let ghost attributes = tag@.attributes;
    let ghost all = sheet_names(attributes, 0, None, None);
    let mut name: Option<String> = None;
    let mut id: Option<String> = None;
    let mut i: usize = 0;
    while i < tag.attributes.len()
        invariant
            i <= tag.attributes@.len(),
            all == sheet_names(attributes, i as int, option_text(name), option_text(id)),
        decreases tag.attributes@.len() - i,
    {
        proof {
            assert(attributes[i as int] == attribute_view(tag.attributes@[i as int]));
        }
        match &tag.attributes[i] {
            Err(message) => {
                return Err(RustySheetError::Xml(message.clone()));
            },
            Ok(attribute) => {
                let local = local_name(attribute.key.as_str());
                if same_text(local.as_str(), "name") {
                    match &attribute.value {
                        Ok(value) => {
                            name = Some(value.clone());
                        },
                        Err(message) => {
                            return Err(RustySheetError::Xml(message.clone()));
                        },
                    }
                } else if same_text(local.as_str(), "id") {
                    match &attribute.value {
                        Ok(value) => {
                            id = Some(value.clone());
                        },
                        Err(message) => {
                            return Err(RustySheetError::Xml(message.clone()));
                        },
                    }
                }
            },
        }
        i = i + 1;
    }
    Ok((name, id))
}

/// What is known of a workbook.
pub struct Workbook {
    /// The names of the sheets and the paths of their parts.
    pub sheets: Seq<(Seq<char>, Seq<char>)>,
    /// Whether dates are counted from 1904.
    pub is_1904: bool,
}

/// What event `at` adds to a workbook.
pub open spec fn workbook_step(
    event: XmlView,
    relationships: Seq<(Seq<char>, Seq<char>)>,
    book: Workbook,
) -> Result<Workbook, ErrorView> {
    match event {
        XmlView::Fault(message) => Err(ErrorView::Xml(message)),
        XmlView::Start(tag) => if local_part(tag.name) == TAG_SHEET@ {
            match sheet_names(tag.attributes, 0, None, None) {
                Err(error) => Err(error),
                Ok((Some(name), Some(id))) => match last_of(relationships, id) {
                    Some(path) => Ok(Workbook { sheets: book.sheets.push((name, path)), ..book }),
                    None => Ok(book),
                },
                Ok(_) => Ok(book),
            }
        } else if local_part(tag.name) == TAG_WORKBOOK_PROPERTIES@ {
            match attribute_value(tag.attributes, "date1904"@) {
                Err(error) => Err(error),
                Ok(value) => Ok(
                    Workbook {
                        is_1904: value == Some("1"@) || value == Some("true"@),
                        ..book
                    },
                ),
            }
        } else {
            Ok(book)
        },
        _ => Ok(book),
    }
}

/// A workbook from event `at` on, after what is known of it.
pub open spec fn workbook_from(
    events: Seq<XmlView>,
    at: int,
    relationships: Seq<(Seq<char>, Seq<char>)>,
    book: Workbook,
) -> Result<Workbook, ErrorView>
    decreases events.len() - at,
{
    if at < 0 || at >= events.len() {
        Ok(book)
    } else {
        match workbook_step(events[at], relationships, book) {
            Err(error) => Err(error),
            Ok(next) => workbook_from(events, at + 1, relationships, next),
        }
    }
}

/// What a workbook document says: its sheets, in order, and the date system.
pub open spec fn workbook_outcome(
    events: Seq<XmlView>,
    relationships: Seq<(Seq<char>, Seq<char>)>,
) -> Result<Workbook, ErrorView> {
    workbook_from(events, 0, relationships, Workbook { sheets: Seq::empty(), is_1904: false })
}

/// Reads a workbook document: the names and paths of its sheets, and whether dates
/// are counted from 1904.
#[verifier::loop_isolation(false)]
pub fn load_workbook(events: &[XmlEvent], relationships: &Vec<(String, String)>) -> (res: Result<
    (Vec<(String, String)>, bool),
    RustySheetError,
>)
    ensures
        match workbook_outcome(event_views(events@), pair_views(relationships@)) {
            Ok(book) => {
                &&& res matches Ok((sheets, is_1904))
                &&& pair_views(sheets@) == book.sheets
                &&& is_1904 == book.is_1904
            },
            Err(error) => res matches Err(e) && e@ == error,
        },
{
    let ghost views = event_views(events@);
    let ghost rels = pair_views(relationships@);
    let ghost all = workbook_outcome(views, rels);
    let mut sheets: Vec<(String, String)> = Vec::new();
    let mut is_1904: bool = false;
    let mut i: usize = 0;
    proof {
        assert(pair_views(sheets@) =~= Seq::<(Seq<char>, Seq<char>)>::empty());
    }
    while i < events.len()
        invariant
            i <= events@.len(),
            all == workbook_from(
                views,
                i as int,
                rels,
                Workbook { sheets: pair_views(sheets@), is_1904 },
            ),
        decreases events@.len() - i,
    {
        proof {
            assert(views[i as int] == events@[i as int]@);
        }
        match &events[i] {
            XmlEvent::Fault(message) => {
                return Err(RustySheetError::Xml(message.clone()));
            },
            XmlEvent::Start(tag) => {
                let local = local_name(tag.name.as_str());
                if same_text(local.as_str(), TAG_SHEET) {
                    match find_sheet_names(tag) {
                        Err(error) => {
                            return Err(error);
                        },
                        Ok((Some(name), Some(id))) => {
                            if let Some(path) = find_last(relationships, id.as_str()) {
                                let ghost before = sheets@;
                                let ghost pair = (name@, path@);
                                sheets.push((name, path));
                                proof {
                                    assert(pair_views(sheets@) =~= pair_views(before).push(pair));
                                }
                            }
                        },
                        Ok(_) => {},
                    }
                } else if same_text(local.as_str(), TAG_WORKBOOK_PROPERTIES) {
                    match tag.get_attribute_value("date1904") {
                        Err(error) => {
                            return Err(error);
                        },
                        Ok(Some(value)) => {
                            is_1904 = same_text(value.as_str(), "1") || same_text(
                                value.as_str(),
                                "true",
                            );
                        },
                        Ok(None) => {
                            is_1904 = false;
                        },
                    }
                }
            },
            _ => {},
        }
        i = i + 1;
    }
    Ok((sheets, is_1904))
}

/// Which marks of dates and times a number format holds.
pub struct FormatMarks {
    /// Days or years.
    pub date: bool,
    /// Hours or seconds.
    pub time: bool,
    /// Months or minutes, which look alike.
    pub month: bool,
}

/// The marks in a number format behind the given ones. Quoted text, text in square
/// brackets and escaped characters do not count; but a bracket with hours or seconds
/// is a mark of elapsed time.
pub open spec fn format_marks(format: Seq<char>, quoted: bool, bracket: bool, marks: FormatMarks)
    -> FormatMarks
    decreases format.len(),
{
    if format.len() == 0 {
        marks
    } else {
        let c = format[0];
        let rest = format.drop_first();
        if quoted {
            format_marks(rest, c != '"', false, marks)
        } else if bracket {
            format_marks(rest, false, c != ']', marks)
        } else if c == '"' {
            format_marks(rest, true, false, marks)
        } else if c == '[' {
            format_marks(
                rest,
                false,
                true,
                FormatMarks {
                    time: marks.time || (rest.len() > 0 && is_time_mark(rest[0])),
                    ..marks
                },
            )
        } else if (c == '\\' || c == '_' || c == '*') && rest.len() > 0 {
            format_marks(rest.drop_first(), false, false, marks)
        } else {
            format_marks(
                rest,
                false,
                false,
                FormatMarks {
                    date: marks.date || c == 'd' || c == 'D' || c == 'y' || c == 'Y',
                    time: marks.time || is_time_mark(c),
                    month: marks.month || c == 'm' || c == 'M',
                },
            )
        }
    }
}

/// Whether a character stands for hours or seconds.
pub open spec fn is_time_mark(c: char) -> bool {
    c == 'h' || c == 'H' || c == 's' || c == 'S'
}

/// The type of numbers with a custom format.
pub open spec fn custom_type(format: Seq<char>, is_1904: bool) -> CellType {
    let marks = format_marks(
        format,
        false,
        false,
        FormatMarks { date: false, time: false, month: false },
    );
    if marks.date && marks.time {
        CellType::DateTime(is_1904)
    } else if marks.time {
        CellType::Time(is_1904)
    } else if marks.date || marks.month {
        CellType::Date(is_1904)
    } else {
        CellType::Number
    }
}

/// The type of numbers with a built-in format.
pub open spec fn builtin_type(id: int, is_1904: bool) -> CellType {
    if 14 <= id <= 17 {
        CellType::Date(is_1904)
    } else if 18 <= id <= 21 || 45 <= id <= 47 {
        CellType::Time(is_1904)
    } else if id == 22 {
        CellType::DateTime(is_1904)
    } else {
        CellType::Number
    }
}

/// The type of the last custom format with this identifier.
pub open spec fn last_type(customs: Seq<(Seq<char>, CellType)>, id: Seq<char>) -> Option<CellType>
    decreases customs.len(),
{
    if customs.len() == 0 {
        None
    } else if customs.last().0 == id {
        Some(customs.last().1)
    } else {
        last_type(customs.drop_last(), id)
    }
}

/// The type of numbers in a style with this format: a custom one comes before
/// a built-in one.
pub open spec fn format_type(
    id: Seq<char>,
    customs: Seq<(Seq<char>, CellType)>,
    is_1904: bool,
) -> CellType {
    match last_type(customs, id) {
        Some(kind) => kind,
        None => match number_value(id) {
            Ok(number) => builtin_type(number as int, is_1904),
            Err(_) => CellType::Number,
        },
    }
}

/// What is known of the styles of a workbook.
#[verifier::ext_equal]
pub struct StyleScan {
    /// Whether custom formats were met.
    pub has_custom_formats: bool,
    /// Whether the list of custom formats is open.
    pub in_custom_formats: bool,
    /// The custom formats: identifiers and types.
    pub customs: Seq<(Seq<char>, CellType)>,
    /// Whether styles were met.
    pub has_format_indexes: bool,
    /// Whether the list of styles is open.
    pub in_format_indexes: bool,
    /// The format identifiers of the styles, `None` for a style without one.
    pub indexes: Seq<Option<Seq<char>>>,
}

/// What an event adds to the styles. The flag tells whether all is known.
pub open spec fn style_step(s: StyleScan, event: XmlView, is_1904: bool) -> Result<
    (StyleScan, bool),
    ErrorView,
> {
    match event {
        XmlView::Fault(message) => Err(ErrorView::Xml(message)),
        XmlView::Start(tag) => if !s.in_custom_formats && tag.name == TAG_CUSTOM_FORMATS@ {
            Ok((StyleScan { has_custom_formats: true, in_custom_formats: true, ..s }, false))
        } else if s.in_custom_formats && tag.name == TAG_CUSTOM_FORMAT@ {
            match (
                attribute_value(tag.attributes, "numFmtId"@),
                attribute_value(tag.attributes, "formatCode"@),
            ) {
                (Err(error), _) => Err(error),
                (_, Err(error)) => Err(error),
                (Ok(Some(id)), Ok(Some(format))) => Ok(
                    (
                        StyleScan {
                            customs: s.customs.push((id, custom_type(format, is_1904))),
                            ..s
                        },
                        false,
                    ),
                ),
                _ => Ok((s, false)),
            }
        } else if !s.in_format_indexes && tag.name == TAG_FORMAT_INDEXES@ {
            Ok((StyleScan { has_format_indexes: true, in_format_indexes: true, ..s }, false))
        } else if s.in_format_indexes && tag.name == TAG_FORMAT_INDEX@ {
            match attribute_value(tag.attributes, "numFmtId"@) {
                Err(error) => Err(error),
                Ok(id) => Ok((StyleScan { indexes: s.indexes.push(id), ..s }, false)),
            }
        } else {
            Ok((s, false))
        },
        XmlView::End(name) => if s.in_custom_formats && name == TAG_CUSTOM_FORMATS@ {
            Ok(
                (
                    StyleScan { in_custom_formats: false, ..s },
                    s.has_custom_formats && s.has_format_indexes,
                ),
            )
        } else if s.in_format_indexes && name == TAG_FORMAT_INDEXES@ {
            Ok(
                (
                    StyleScan { in_format_indexes: false, ..s },
                    s.has_custom_formats && s.has_format_indexes,
                ),
            )
        } else {
            Ok((s, false))
        },
        _ => Ok((s, false)),
    }
}

/// The styles from event `at` on.
pub open spec fn styles_from(events: Seq<XmlView>, at: int, s: StyleScan, is_1904: bool) -> Result<
    StyleScan,
    ErrorView,
>
    decreases events.len() - at,
{
    if at < 0 || at >= events.len() {
        Ok(s)
    } else {
        match style_step(s, events[at], is_1904) {
            Err(error) => Err(error),
            Ok((next, true)) => Ok(next),
            Ok((next, false)) => styles_from(events, at + 1, next, is_1904),
        }
    }
}

/// Styles of which nothing is known.
pub open spec fn no_styles() -> StyleScan {
    StyleScan {
        has_custom_formats: false,
        in_custom_formats: false,
        customs: Seq::empty(),
        has_format_indexes: false,
        in_format_indexes: false,
        indexes: Seq::empty(),
    }
}

/// The type of numbers with a style: that of its format, where it has one.
pub open spec fn style_kind(
    id: Option<Seq<char>>,
    customs: Seq<(Seq<char>, CellType)>,
    is_1904: bool,
) -> CellType {
    match id {
        Some(id) => format_type(id, customs, is_1904),
        None => CellType::Number,
    }
}

/// The types that the styles of a workbook give to numbers, indexed by the numbers
/// of the styles.
pub open spec fn number_formats_outcome(events: Seq<XmlView>, is_1904: bool) -> Result<
    Seq<CellType>,
    ErrorView,
> {
    match styles_from(events, 0, no_styles(), is_1904) {
        Err(error) => Err(error),
        Ok(s) => Ok(
            s.indexes.map_values(|id: Option<Seq<char>>| style_kind(id, s.customs, is_1904)),
        ),
    }
}

impl CellType {
    /// The type of numbers with a custom format.
    pub fn parse_custom_number_format(format: &str, is_1904: bool) -> (res: CellType)
        ensures
            res == custom_type(format@, is_1904),
    {
        let chars = chars_of(format);
        let ghost none = FormatMarks { date: false, time: false, month: false };
        let mut i: usize = 0;
        let mut quoted: bool = false;
        let mut bracket: bool = false;
        let mut date: bool = false;
        let mut time: bool = false;
        let mut month: bool = false;
        proof {
            assert(format@.skip(0) =~= format@);
        }
        while i < chars.len()
            invariant
                i <= chars@.len(),
                chars@ == format@,
                none == (FormatMarks { date: false, time: false, month: false }),
                !(quoted && bracket),
                format_marks(format@, false, false, none) == format_marks(
                    format@.skip(i as int),
                    quoted,
                    bracket,
                    FormatMarks { date, time, month },
                ),
            decreases chars@.len() - i,
        {
            let c: char = chars[i];
            let ghost rest = format@.skip(i as int);
            proof {
                assert(rest[0] == c);
                assert(rest.drop_first() =~= format@.skip(i + 1));
                if i + 1 < chars@.len() {
                    assert(format@.skip(i + 1)[0] == chars@[i + 1]);
                    assert(format@.skip(i + 1).drop_first() =~= format@.skip(i + 2));
                }
            }
            if quoted {
                quoted = c != '"';
                i = i + 1;
            } else if bracket {
                bracket = c != ']';
                i = i + 1;
            } else if c == '"' {
                quoted = true;
                i = i + 1;
            } else if c == '[' {
                bracket = true;
                if i + 1 < chars.len() {
                    let next: char = chars[i + 1];
                    time = time || next == 'h' || next == 'H' || next == 's' || next == 'S';
                }
                i = i + 1;
            } else if (c == '\\' || c == '_' || c == '*') && i + 1 < chars.len() {
                i = i + 2;
            } else {
                date = date || c == 'd' || c == 'D' || c == 'y' || c == 'Y';
                time = time || c == 'h' || c == 'H' || c == 's' || c == 'S';
                month = month || c == 'm' || c == 'M';
                i = i + 1;
            }
        }
        if date && time {
            CellType::DateTime(is_1904)
        } else if time {
            CellType::Time(is_1904)
        } else if date || month {
            CellType::Date(is_1904)
        } else {
            CellType::Number
        }
    }
}

spec fn custom_views(customs: Seq<(String, CellType)>) -> Seq<(Seq<char>, CellType)> {
    customs.map_values(|custom: (String, CellType)| (custom.0@, custom.1))
}

fn find_format_type(id: &str, customs: &Vec<(String, CellType)>, is_1904: bool) -> (res: CellType)
    ensures
        res == format_type(id@, custom_views(customs@), is_1904),
{
    let ghost views = custom_views(customs@);
    let mut n: usize = customs.len();
    proof {
        assert(views.take(n as int) =~= views);
    }
    while n > 0
        invariant
            n <= customs@.len(),
            views == custom_views(customs@),
            last_type(views, id@) == last_type(views.take(n as int), id@),
        decreases n,
    {
        proof {
            assert(views.take(n as int).last() == (customs@[n - 1].0@, customs@[n - 1].1));
            assert(views.take(n as int).drop_last() =~= views.take(n - 1));
        }
        if same_text(customs[n - 1].0.as_str(), id) {
            return customs[n - 1].1;
        }
        n = n - 1;
    }
    match parse_usize(id) {
        Ok(number) => if 14 <= number && number <= 17 {
            CellType::Date(is_1904)
        } else if (18 <= number && number <= 21) || (45 <= number && number <= 47) {
            CellType::Time(is_1904)
        } else if number == 22 {
            CellType::DateTime(is_1904)
        } else {
            CellType::Number
        },
        Err(_) => CellType::Number,
    }
}

/// Reads the styles of a workbook: the type that each of them gives to numbers,
/// indexed by the number of the style.
#[verifier::loop_isolation(false)]
pub fn load_number_formats(events: &[XmlEvent], is_1904: bool) -> (res: Result<
    Vec<CellType>,
    RustySheetError,
>)
    ensures
        match number_formats_outcome(event_views(events@), is_1904) {
            Ok(types) => res matches Ok(found) && found@ == types,
            Err(error) => res matches Err(e) && e@ == error,
        },
{
    let ghost views = event_views(events@);
    let ghost all = styles_from(views, 0, no_styles(), is_1904);
    let mut has_custom_formats: bool = false;
    let mut custom_formats_context: bool = false;
    let mut custom_formats: Vec<(String, CellType)> = Vec::new();
    let mut has_format_indexes: bool = false;
    let mut format_indexes_context: bool = false;
    let mut format_indexes: Vec<Option<String>> = Vec::new();
    let mut i: usize = 0;
    let mut going: bool = true;
    proof {
        assert(custom_views(custom_formats@) =~= Seq::<(Seq<char>, CellType)>::empty());
        assert(option_texts(format_indexes@) =~= Seq::<Option<Seq<char>>>::empty());
    }
    while going && i < events.len()
        invariant
            i <= events@.len(),
            ({
                let s = StyleScan {
                    has_custom_formats,
                    in_custom_formats: custom_formats_context,
                    customs: custom_views(custom_formats@),
                    has_format_indexes,
                    in_format_indexes: format_indexes_context,
                    indexes: option_texts(format_indexes@),
                };
                if going {
                    all == styles_from(views, i as int, s, is_1904)
                } else {
                    all == Ok::<StyleScan, ErrorView>(s)
                }
            }),
        decreases events@.len() - i, (if going { 1int } else { 0int }),
    {
        proof {
            assert(views[i as int] == events@[i as int]@);
        }
        match &events[i] {
            XmlEvent::Fault(message) => {
                return Err(RustySheetError::Xml(message.clone()));
            },
            XmlEvent::Start(tag) => {
                if !custom_formats_context && tag.is(TAG_CUSTOM_FORMATS) {
                    has_custom_formats = true;
                    custom_formats_context = true;
                } else if custom_formats_context && tag.is(TAG_CUSTOM_FORMAT) {
                    let id = match tag.get_attribute_value("numFmtId") {
                        Ok(id) => id,
                        Err(error) => return Err(error),
                    };
                    let format = match tag.get_attribute_value("formatCode") {
                        Ok(format) => format,
                        Err(error) => return Err(error),
                    };
                    if let (Some(id), Some(format)) = (id, format) {
                        let ghost before = custom_formats@;
                        let style = CellType::parse_custom_number_format(format.as_str(), is_1904);
                        let ghost pair = (id@, style);
                        custom_formats.push((id, style));
                        proof {
                            assert(custom_views(custom_formats@) =~= custom_views(before).push(
                                pair,
                            ));
                        }
                    }
                } else if !format_indexes_context && tag.is(TAG_FORMAT_INDEXES) {
                    has_format_indexes = true;
                    format_indexes_context = true;
                } else if format_indexes_context && tag.is(TAG_FORMAT_INDEX) {
                    match tag.get_attribute_value("numFmtId") {
                        Err(error) => {
                            return Err(error);
                        },
                        Ok(id) => {
                            let ghost before = format_indexes@;
                            let ghost text = option_texts(seq![id])[0];
                            format_indexes.push(id);
                            proof {
                                assert(option_texts(format_indexes@) =~= option_texts(before).push(
                                    text,
                                ));
                            }
                        },
                    }
                }
            },
            XmlEvent::End(name) => {
                if custom_formats_context && same_text(name.as_str(), TAG_CUSTOM_FORMATS) {
                    custom_formats_context = false;
                    if has_custom_formats && has_format_indexes {
                        going = false;
                    }
                } else if format_indexes_context && same_text(name.as_str(), TAG_FORMAT_INDEXES) {
                    format_indexes_context = false;
                    if has_custom_formats && has_format_indexes {
                        going = false;
                    }
                }
            },
            _ => {},
        }
        i = i + 1;
    }
    let ghost s = all->Ok_0;
    let mut types: Vec<CellType> = Vec::new();
    let mut n: usize = 0;
    while n < format_indexes.len()
        invariant
            n <= format_indexes@.len(),
            types@.len() == n,
            forall|j: int|
                0 <= j < n ==> (#[trigger] types@[j]) == style_kind(
                    option_texts(format_indexes@)[j],
                    custom_views(custom_formats@),
                    is_1904,
                ),
        decreases format_indexes@.len() - n,
    {
        let kind = match &format_indexes[n] {
            Some(id) => find_format_type(id.as_str(), &custom_formats, is_1904),
            None => CellType::Number,
        };
        types.push(kind);
        n = n + 1;
    }
    proof {
        assert(types@ =~= s.indexes.map_values(
            |id: Option<Seq<char>>| style_kind(id, s.customs, is_1904),
        ));
    }
    Ok(types)
}

/// Whether a type is one that a style can give to numbers.
pub open spec fn is_number_type(kind: CellType) -> bool {
    kind is Number || kind is Date || kind is Time || kind is DateTime
}

proof fn lemma_last_type(customs: Seq<(Seq<char>, CellType)>, id: Seq<char>)
    requires
        forall|i: int| 0 <= i < customs.len() ==> is_number_type((#[trigger] customs[i]).1),
    ensures
        last_type(customs, id) matches Some(kind) ==> is_number_type(kind),
    decreases customs.len(),
{
    if customs.len() > 0 {
        assert(customs[customs.len() - 1] == customs.last());
        assert forall|i: int| 0 <= i < customs.drop_last().len() implies is_number_type(
            (#[trigger] customs.drop_last()[i]).1,
        ) by {
            assert(customs.drop_last()[i] == customs[i]);
        }
        lemma_last_type(customs.drop_last(), id);
    }
}

proof fn lemma_styles_from(events: Seq<XmlView>, at: int, s: StyleScan, is_1904: bool)
    requires
        forall|i: int| 0 <= i < s.customs.len() ==> is_number_type((#[trigger] s.customs[i]).1),
    ensures
        styles_from(events, at, s, is_1904) matches Ok(last) ==> forall|i: int|
            0 <= i < last.customs.len() ==> is_number_type((#[trigger] last.customs[i]).1),
    decreases events.len() - at,
{
    if 0 <= at < events.len() {
        if let Ok((next, stop)) = style_step(s, events[at], is_1904) {
            assert forall|i: int| 0 <= i < next.customs.len() implies is_number_type(
                (#[trigger] next.customs[i]).1,
            ) by {
                if i < s.customs.len() {
                    assert(next.customs[i] == s.customs[i]);
                }
            }
            if !stop {
                lemma_styles_from(events, at + 1, next, is_1904);
            }
        }
    }
}

/// Every style gives numbers the type of a number, a date, a time or both.
pub proof fn lemma_styles_give_number_types(events: Seq<XmlView>, is_1904: bool)
    ensures
        number_formats_outcome(events, is_1904) matches Ok(types) ==> forall|i: int|
            0 <= i < types.len() ==> is_number_type(#[trigger] types[i]),
{
    lemma_styles_from(events, 0, no_styles(), is_1904);
    if let Ok(s) = styles_from(events, 0, no_styles(), is_1904) {
        let types = number_formats_outcome(events, is_1904)->Ok_0;
        assert forall|i: int| 0 <= i < types.len() implies is_number_type(#[trigger] types[i]) by {
            if let Some(id) = s.indexes[i] {
                lemma_last_type(s.customs, id);
            }
        }
    }
}

} // verus!
