//! What number formats and styles say of the numbers they are used for.

use crate::error::ErrorView;
use crate::helpers::text::decimal;
use crate::helpers::xml::AttributeView;
use crate::helpers::xml::XmlView;
use crate::helpers::xml_laws::has_at;
use crate::helpers::xml_laws::lemma_attribute_value;
use crate::helpers::xml_laws::lemma_has_both;
use crate::helpers::xml_laws::lemma_has_one;
use crate::helpers::xml_laws::lemma_number_round_trip;
use crate::helpers::xml_laws::opening;
use crate::helpers::xml_laws::says;
use crate::spreadsheet::cell::CellType;
use crate::spreadsheet::xlsx::workbook::custom_type;
use crate::spreadsheet::xlsx::workbook::format_marks;
use crate::spreadsheet::xlsx::workbook::last_type;
use crate::spreadsheet::xlsx::workbook::no_styles;
use crate::spreadsheet::xlsx::workbook::number_formats_outcome;
use crate::spreadsheet::xlsx::workbook::style_kind;
use crate::spreadsheet::xlsx::workbook::style_step;
use crate::spreadsheet::xlsx::workbook::styles_from;
use crate::spreadsheet::xlsx::workbook::FormatMarks;
use crate::spreadsheet::xlsx::workbook::StyleScan;
use vstd::prelude::*;

verus! {

/// A part of a number format.
pub enum FormatPart {
    /// Text in quotes.
    Quoted(Seq<char>),
    /// Text in square brackets.
    Bracketed(Seq<char>),
    /// A character behind a backslash, an underscore or an asterisk.
    Escaped(char, char),
    /// Any other character.
    Plain(char),
}

impl FormatPart {
    /// The characters of this part.
    pub open spec fn chars(self) -> Seq<char> {
        match self {
            FormatPart::Quoted(text) => seq!['"'] + (text + seq!['"']),
            FormatPart::Bracketed(text) => seq!['['] + (text + seq![']']),
            FormatPart::Escaped(mark, c) => seq![mark, c],
            FormatPart::Plain(c) => seq![c],
        }
    }

    /// Whether the characters read as this part.
    pub open spec fn is_sound(self) -> bool {
        match self {
            FormatPart::Quoted(text) => !text.contains('"'),
            FormatPart::Bracketed(text) => !text.contains(']'),
            FormatPart::Escaped(mark, _) => mark == '\\' || mark == '_' || mark == '*',
            FormatPart::Plain(c) => c != '"' && c != '[' && c != '\\' && c != '_' && c != '*',
        }
    }

    /// Whether this part stands for days or years.
    pub open spec fn is_date(self) -> bool {
        self matches FormatPart::Plain(c) && (c == 'd' || c == 'D' || c == 'y' || c == 'Y')
    }

    /// Whether this part stands for hours or seconds, of a day or elapsed.
    pub open spec fn is_time(self) -> bool {
        match self {
            FormatPart::Plain(c) => c == 'h' || c == 'H' || c == 's' || c == 'S',
            FormatPart::Bracketed(text) => text.len() > 0 && (text[0] == 'h' || text[0] == 'H'
                || text[0] == 's' || text[0] == 'S'),
            _ => false,
        }
    }

    /// Whether this part stands for months or minutes.
    pub open spec fn is_month(self) -> bool {
        self matches FormatPart::Plain(c) && (c == 'm' || c == 'M')
    }
}

/// The characters of a number format.
pub open spec fn format_chars(parts: Seq<FormatPart>) -> Seq<char>
    decreases parts.len(),
{
    if parts.len() == 0 {
        Seq::empty()
    } else {
        parts[0].chars() + format_chars(parts.drop_first())
    }
}

/// Whether the characters of a number format read as its parts.
pub open spec fn is_sound_format(parts: Seq<FormatPart>) -> bool {
    forall|i: int| 0 <= i < parts.len() ==> (#[trigger] parts[i]).is_sound()
}

/// Whether a number format shows days or years.
pub open spec fn shows_date(parts: Seq<FormatPart>) -> bool {
    exists|i: int| 0 <= i < parts.len() && (#[trigger] parts[i]).is_date()
}

/// Whether a number format shows hours or seconds.
pub open spec fn shows_time(parts: Seq<FormatPart>) -> bool {
    exists|i: int| 0 <= i < parts.len() && (#[trigger] parts[i]).is_time()
}

/// Whether a number format shows months or minutes.
pub open spec fn shows_month(parts: Seq<FormatPart>) -> bool {
    exists|i: int| 0 <= i < parts.len() && (#[trigger] parts[i]).is_month()
}

proof fn lemma_quoted(text: Seq<char>, rest: Seq<char>, marks: FormatMarks)
    requires
        !text.contains('"'),
    ensures
        format_marks(text + (seq!['"'] + rest), true, false, marks) == format_marks(
            rest,
            false,
            false,
            marks,
        ),
    decreases text.len(),
{
    let all = text + (seq!['"'] + rest);
    if text.len() > 0 {
        assert(text.contains(text[0]));
        assert(all[0] == text[0]);
        assert(all.drop_first() =~= text.drop_first() + (seq!['"'] + rest));
        assert(!text.drop_first().contains('"')) by {
            if text.drop_first().contains('"') {
                let i = choose|i: int| 0 <= i < text.len() - 1 && text.drop_first()[i] == '"';
                assert(text[i + 1] == '"');
            }
        }
        lemma_quoted(text.drop_first(), rest, marks);
    } else {
        assert(all[0] == '"');
        assert(all.drop_first() =~= rest);
    }
}

proof fn lemma_bracketed(text: Seq<char>, rest: Seq<char>, marks: FormatMarks)
    requires
        !text.contains(']'),
    ensures
        format_marks(text + (seq![']'] + rest), false, true, marks) == format_marks(
            rest,
            false,
            false,
            marks,
        ),
    decreases text.len(),
{
    let all = text + (seq![']'] + rest);
    if text.len() > 0 {
        assert(text.contains(text[0]));
        assert(all[0] == text[0]);
        assert(all.drop_first() =~= text.drop_first() + (seq![']'] + rest));
        assert(!text.drop_first().contains(']')) by {
            if text.drop_first().contains(']') {
                let i = choose|i: int| 0 <= i < text.len() - 1 && text.drop_first()[i] == ']';
                assert(text[i + 1] == ']');
            }
        }
        lemma_bracketed(text.drop_first(), rest, marks);
    } else {
        assert(all[0] == ']');
        assert(all.drop_first() =~= rest);
    }
}

proof fn lemma_part_marks(part: FormatPart, rest: Seq<char>, marks: FormatMarks)
    requires
        part.is_sound(),
    ensures
        format_marks(part.chars() + rest, false, false, marks) == format_marks(
            rest,
            false,
            false,
            FormatMarks {
                date: marks.date || part.is_date(),
                time: marks.time || part.is_time(),
                month: marks.month || part.is_month(),
            },
        ),
{
    let all = part.chars() + rest;
    match part {
        FormatPart::Quoted(text) => {
            assert(all[0] == '"');
            assert(all.drop_first() =~= text + (seq!['"'] + rest));
            lemma_quoted(text, rest, marks);
        },
        FormatPart::Bracketed(text) => {
            assert(all[0] == '[');
            let inner = text + (seq![']'] + rest);
            assert(all.drop_first() =~= inner);
            if text.len() > 0 {
                assert(inner[0] == text[0]);
            } else {
                assert(inner[0] == ']');
            }
            lemma_bracketed(
                text,
                rest,
                FormatMarks { time: marks.time || part.is_time(), ..marks },
            );
        },
        FormatPart::Escaped(mark, c) => {
            assert(all[0] == mark);
            assert(all.drop_first().len() > 0);
            assert(all.drop_first().drop_first() =~= rest);
        },
        FormatPart::Plain(c) => {
            assert(all[0] == c);
            assert(all.drop_first() =~= rest);
        },
    }
}

proof fn lemma_format_marks(parts: Seq<FormatPart>, marks: FormatMarks)
    requires
        is_sound_format(parts),
    ensures
        format_marks(format_chars(parts), false, false, marks) == (FormatMarks {
            date: marks.date || shows_date(parts),
            time: marks.time || shows_time(parts),
            month: marks.month || shows_month(parts),
        }),
    decreases parts.len(),
{
    if parts.len() > 0 {
        let part = parts[0];
        let rest = parts.drop_first();
        assert(parts[0].is_sound());
        assert forall|i: int| 0 <= i < rest.len() implies (#[trigger] rest[i]).is_sound() by {
            assert(rest[i] == parts[i + 1]);
        }
        lemma_part_marks(part, format_chars(rest), marks);
        lemma_format_marks(
            rest,
            FormatMarks {
                date: marks.date || part.is_date(),
                time: marks.time || part.is_time(),
                month: marks.month || part.is_month(),
            },
        );
        if shows_date(rest) {
            let i = choose|i: int| 0 <= i < rest.len() && (#[trigger] rest[i]).is_date();
            assert(parts[i + 1] == rest[i]);
        }
        if shows_time(rest) {
            let i = choose|i: int| 0 <= i < rest.len() && (#[trigger] rest[i]).is_time();
            assert(parts[i + 1] == rest[i]);
        }
        if shows_month(rest) {
            let i = choose|i: int| 0 <= i < rest.len() && (#[trigger] rest[i]).is_month();
            assert(parts[i + 1] == rest[i]);
        }
        if shows_date(parts) && !part.is_date() {
            let i = choose|i: int| 0 <= i < parts.len() && (#[trigger] parts[i]).is_date();
            assert(rest[i - 1] == parts[i]);
        }
        if shows_time(parts) && !part.is_time() {
            let i = choose|i: int| 0 <= i < parts.len() && (#[trigger] parts[i]).is_time();
            assert(rest[i - 1] == parts[i]);
        }
        if shows_month(parts) && !part.is_month() {
            let i = choose|i: int| 0 <= i < parts.len() && (#[trigger] parts[i]).is_month();
            assert(rest[i - 1] == parts[i]);
        }
    }
}

/// A custom number format is one of dates with times where it shows days or years and
/// hours or seconds, of times where it shows only the latter, and of dates where it
/// shows days, years or months and no hours or seconds. Text in quotes, escaped
/// characters and brackets other than those of elapsed time make no difference.
pub proof fn lemma_custom_format(parts: Seq<FormatPart>, is_1904: bool)
    requires
        is_sound_format(parts),
    ensures
        ({
            let kind = custom_type(format_chars(parts), is_1904);
            &&& kind == CellType::DateTime(is_1904) <==> shows_date(parts) && shows_time(parts)
            &&& kind == CellType::Time(is_1904) <==> !shows_date(parts) && shows_time(parts)
            &&& kind == CellType::Date(is_1904) <==> (shows_date(parts) || shows_month(parts))
                && !shows_time(parts)
            &&& kind == CellType::Number <==> !shows_date(parts) && !shows_time(parts)
                && !shows_month(parts)
        }),
{
    lemma_format_marks(parts, FormatMarks { date: false, time: false, month: false });
}

/// An element for a custom number format.
pub struct FormatElement {
    /// The attributes.
    pub attributes: Seq<Result<AttributeView, Seq<char>>>,
    /// The identifier.
    pub id: Seq<char>,
    /// The format.
    pub format: Seq<FormatPart>,
}

impl FormatElement {
    /// The events of this element.
    pub open spec fn events(self) -> Seq<XmlView> {
        seq![opening("numFmt"@, self.attributes), XmlView::End("numFmt"@)]
    }

    /// Whether the attributes say what is noted beside them.
    pub open spec fn is_sound(self) -> bool {
        &&& says(self.attributes, "numFmtId"@, Some(self.id))
        &&& says(self.attributes, "formatCode"@, Some(format_chars(self.format)))
        &&& is_sound_format(self.format)
    }
}

/// An element for a cell style.
pub struct StyleElement {
    /// The attributes.
    pub attributes: Seq<Result<AttributeView, Seq<char>>>,
    /// The events in the element.
    pub inner: Seq<XmlView>,
    /// The identifier of the number format.
    pub id: Option<Seq<char>>,
}

impl StyleElement {
    /// The events of this element.
    pub open spec fn events(self) -> Seq<XmlView> {
        seq![opening("xf"@, self.attributes)] + (self.inner + seq![XmlView::End("xf"@)])
    }

    /// Whether the attributes say what is noted beside them.
    pub open spec fn is_sound(self) -> bool {
        &&& says(self.attributes, "numFmtId"@, self.id)
        &&& forall|i: int|
            0 <= i < self.inner.len() ==> is_no_style((#[trigger] self.inner[i])) && !(
            self.inner[i] matches XmlView::Start(tag) && tag.name == "xf"@)
    }
}

/// Whether an event neither starts nor ends a list of formats or styles.
pub open spec fn is_no_style(event: XmlView) -> bool {
    match event {
        XmlView::Fault(_) => false,
        XmlView::Start(tag) => tag.name != "numFmts"@ && tag.name != "cellXfs"@,
        XmlView::End(name) => name != "numFmts"@ && name != "cellXfs"@,
        _ => true,
    }
}

/// Whether all events neither start nor end a list of formats or styles.
pub open spec fn are_no_styles(events: Seq<XmlView>) -> bool {
    forall|i: int| 0 <= i < events.len() ==> is_no_style(#[trigger] events[i])
}

/// The events of custom number formats.
pub open spec fn formats_events(formats: Seq<FormatElement>) -> Seq<XmlView>
    decreases formats.len(),
{
    if formats.len() == 0 {
        Seq::empty()
    } else {
        formats[0].events() + formats_events(formats.drop_first())
    }
}

/// The events of cell styles.
pub open spec fn styles_events(styles: Seq<StyleElement>) -> Seq<XmlView>
    decreases styles.len(),
{
    if styles.len() == 0 {
        Seq::empty()
    } else {
        styles[0].events() + styles_events(styles.drop_first())
    }
}

/// The events of a list of custom formats.
pub open spec fn format_list(
    attributes: Seq<Result<AttributeView, Seq<char>>>,
    formats: Seq<FormatElement>,
) -> Seq<XmlView> {
    seq![opening("numFmts"@, attributes)] + (formats_events(formats) + seq![
        XmlView::End("numFmts"@),
    ])
}

/// The events of a list of styles.
pub open spec fn style_list(
    attributes: Seq<Result<AttributeView, Seq<char>>>,
    styles: Seq<StyleElement>,
) -> Seq<XmlView> {
    seq![opening("cellXfs"@, attributes)] + (styles_events(styles) + seq![
        XmlView::End("cellXfs"@),
    ])
}

/// Whether format `k` is the last one with this identifier.
pub open spec fn is_last_format(formats: Seq<FormatElement>, id: Seq<char>, k: int) -> bool {
    &&& 0 <= k < formats.len()
    &&& formats[k].id == id
    &&& forall|j: int| k < j < formats.len() ==> (#[trigger] formats[j]).id != id
}

proof fn lemma_style_names_differ()
    ensures
        "numFmts"@ != "numFmt"@,
        "numFmts"@ != "cellXfs"@,
        "numFmts"@ != "xf"@,
        "numFmt"@ != "cellXfs"@,
        "numFmt"@ != "xf"@,
        "cellXfs"@ != "xf"@,
{
    reveal_strlit("numFmts");
    reveal_strlit("numFmt");
    reveal_strlit("cellXfs");
    reveal_strlit("xf");
    assert("numFmts"@.len() == 7 && "numFmt"@.len() == 6 && "cellXfs"@.len() == 7 && "xf"@.len()
        == 2);
    assert("numFmts"@[0] == 'n' && "cellXfs"@[0] == 'c');
}

proof fn lemma_style_event(
    events: Seq<XmlView>,
    at: int,
    s: StyleScan,
    next: StyleScan,
    is_1904: bool,
)
    requires
        0 <= at < events.len(),
        style_step(s, events[at], is_1904) == Ok::<(StyleScan, bool), ErrorView>((next, false)),
    ensures
        styles_from(events, at, s, is_1904) == styles_from(events, at + 1, next, is_1904),
{
}

proof fn lemma_styles_pass(
    events: Seq<XmlView>,
    at: int,
    part: Seq<XmlView>,
    n: int,
    s: StyleScan,
    is_1904: bool,
)
    requires
        has_at(events, at, part),
        are_no_styles(part),
        !s.in_custom_formats,
        !s.in_format_indexes || forall|i: int|
            0 <= i < part.len() ==> !((#[trigger] part[i]) matches XmlView::Start(tag) && tag.name
                == "xf"@),
        0 <= n <= part.len(),
    ensures
        styles_from(events, at, s, is_1904) == styles_from(events, at + n, s, is_1904),
    decreases n,
{
    if n > 0 {
        lemma_style_names_differ();
        lemma_styles_pass(events, at, part, n - 1, s, is_1904);
        assert(is_no_style(part[n - 1]));
        assert(events[at + (n - 1)] == part[n - 1]);
        lemma_style_event(events, at + n - 1, s, s, is_1904);
    }
}

spec fn customs_of(formats: Seq<FormatElement>, is_1904: bool) -> Seq<(Seq<char>, CellType)> {
    formats.map_values(
        |format: FormatElement| (format.id, custom_type(format_chars(format.format), is_1904)),
    )
}

proof fn lemma_formats_are_read(
    events: Seq<XmlView>,
    at: int,
    formats: Seq<FormatElement>,
    s: StyleScan,
    is_1904: bool,
)
    requires
        has_at(events, at, formats_events(formats)),
        forall|i: int| 0 <= i < formats.len() ==> (#[trigger] formats[i]).is_sound(),
        s.in_custom_formats,
    ensures
        styles_from(events, at, s, is_1904) == styles_from(
            events,
            at + formats_events(formats).len(),
            StyleScan { customs: s.customs + customs_of(formats, is_1904), ..s },
            is_1904,
        ),
    decreases formats.len(),
{
    lemma_style_names_differ();
    let customs = customs_of(formats, is_1904);
    if formats.len() > 0 {
        let format = formats[0];
        let rest = formats.drop_first();
        assert(formats[0].is_sound());
        lemma_has_both(events, at, format.events(), formats_events(rest));
        assert(format.events()[0] == opening("numFmt"@, format.attributes));
        assert(format.events()[1] == XmlView::End("numFmt"@));
        assert(events[at + 0] == format.events()[0]);
        assert(events[at + 1] == format.events()[1]);
        lemma_attribute_value(format.attributes, "numFmtId"@, Some(format.id));
        lemma_attribute_value(
            format.attributes,
            "formatCode"@,
            Some(format_chars(format.format)),
        );
        let pair = (format.id, custom_type(format_chars(format.format), is_1904));
        let next = StyleScan { customs: s.customs.push(pair), ..s };
        lemma_style_event(events, at, s, next, is_1904);
        lemma_style_event(events, at + 1, next, next, is_1904);
        assert forall|i: int| 0 <= i < rest.len() implies (#[trigger] rest[i]).is_sound() by {
            assert(rest[i] == formats[i + 1]);
        }
        lemma_formats_are_read(events, at + 2, rest, next, is_1904);
        assert(customs[0] == pair);
        assert(customs.drop_first() =~= customs_of(rest, is_1904));
        assert(next.customs + customs_of(rest, is_1904) =~= s.customs + customs);
        assert(formats_events(formats).len() == 2 + formats_events(rest).len());
    } else {
        assert(s.customs + customs =~= s.customs);
    }
}

spec fn ids_of(styles: Seq<StyleElement>) -> Seq<Option<Seq<char>>> {
    styles.map_values(|style: StyleElement| style.id)
}

proof fn lemma_styles_are_read(
    events: Seq<XmlView>,
    at: int,
    styles: Seq<StyleElement>,
    s: StyleScan,
    is_1904: bool,
)
    requires
        has_at(events, at, styles_events(styles)),
        forall|i: int| 0 <= i < styles.len() ==> (#[trigger] styles[i]).is_sound(),
        !s.in_custom_formats,
        s.in_format_indexes,
    ensures
        styles_from(events, at, s, is_1904) == styles_from(
            events,
            at + styles_events(styles).len(),
            StyleScan { indexes: s.indexes + ids_of(styles), ..s },
            is_1904,
        ),
    decreases styles.len(),
{
    lemma_style_names_differ();
    let ids = ids_of(styles);
    if styles.len() > 0 {
        let style = styles[0];
        let rest = styles.drop_first();
        assert(styles[0].is_sound());
        let start = opening("xf"@, style.attributes);
        let end = XmlView::End("xf"@);
        lemma_has_both(events, at, style.events(), styles_events(rest));
        lemma_has_both(events, at, seq![start], style.inner + seq![end]);
        lemma_has_one(events, at, start);
        lemma_has_both(events, at + 1, style.inner, seq![end]);
        lemma_has_one(events, at + 1 + style.inner.len(), end);
        lemma_attribute_value(style.attributes, "numFmtId"@, style.id);
        let next = StyleScan { indexes: s.indexes.push(style.id), ..s };
        lemma_style_event(events, at, s, next, is_1904);
        lemma_styles_pass(events, at + 1, style.inner, style.inner.len() as int, next, is_1904);
        lemma_style_event(events, at + 1 + style.inner.len(), next, next, is_1904);
        assert forall|i: int| 0 <= i < rest.len() implies (#[trigger] rest[i]).is_sound() by {
            assert(rest[i] == styles[i + 1]);
        }
        lemma_styles_are_read(events, at + style.events().len(), rest, next, is_1904);
        assert(ids[0] == style.id);
        assert(ids.drop_first() =~= ids_of(rest));
        assert(next.indexes + ids_of(rest) =~= s.indexes + ids);
    } else {
        assert(s.indexes + ids =~= s.indexes);
    }
}

proof fn lemma_last_type_of(formats: Seq<FormatElement>, id: Seq<char>, is_1904: bool)
    ensures
        forall|k: int| #[trigger]
            is_last_format(formats, id, k) ==> last_type(customs_of(formats, is_1904), id) == Some(
                custom_type(format_chars(formats[k].format), is_1904),
            ),
        (forall|k: int| 0 <= k < formats.len() ==> (#[trigger] formats[k]).id != id) ==> last_type(
            customs_of(formats, is_1904),
            id,
        ) is None,
    decreases formats.len(),
{
    let customs = customs_of(formats, is_1904);
    if formats.len() > 0 {
        let rest = formats.drop_last();
        let n = formats.len() - 1;
        lemma_last_type_of(rest, id, is_1904);
        assert(customs.drop_last() =~= customs_of(rest, is_1904));
        assert(customs.last() == (
            formats[n].id,
            custom_type(format_chars(formats[n].format), is_1904),
        ));
        assert forall|k: int| #[trigger] is_last_format(formats, id, k) implies last_type(
            customs,
            id,
        ) == Some(custom_type(format_chars(formats[k].format), is_1904)) by {
            if k < n {
                assert(formats[n].id != id);
                assert(rest[k] == formats[k]);
                assert forall|j: int| k < j < rest.len() implies (#[trigger] rest[j]).id != id by {
                    assert(rest[j] == formats[j]);
                }
                assert(is_last_format(rest, id, k));
            }
        }
        if forall|k: int| 0 <= k < formats.len() ==> (#[trigger] formats[k]).id != id {
            assert(formats[n].id != id);
            assert forall|k: int| 0 <= k < rest.len() implies (#[trigger] rest[k]).id != id by {
                assert(rest[k] == formats[k]);
            }
        }
    }
}

proof fn lemma_format_list(
    events: Seq<XmlView>,
    at: int,
    attributes: Seq<Result<AttributeView, Seq<char>>>,
    formats: Seq<FormatElement>,
    s: StyleScan,
    is_1904: bool,
) -> (next: StyleScan)
    requires
        has_at(events, at, format_list(attributes, formats)),
        forall|i: int| 0 <= i < formats.len() ==> (#[trigger] formats[i]).is_sound(),
        !s.in_custom_formats,
        !s.has_format_indexes,
    ensures
        styles_from(events, at, s, is_1904) == styles_from(
            events,
            at + format_list(attributes, formats).len(),
            next,
            is_1904,
        ),
        next == (StyleScan {
            has_custom_formats: true,
            customs: s.customs + customs_of(formats, is_1904),
            ..s
        }),
{
    lemma_style_names_differ();
    let start = opening("numFmts"@, attributes);
    let end = XmlView::End("numFmts"@);
    let inner = formats_events(formats);
    lemma_has_both(events, at, seq![start], inner + seq![end]);
    lemma_has_one(events, at, start);
    lemma_has_both(events, at + 1, inner, seq![end]);
    lemma_has_one(events, at + 1 + inner.len(), end);
    let open = StyleScan { has_custom_formats: true, in_custom_formats: true, ..s };
    lemma_style_event(events, at, s, open, is_1904);
    lemma_formats_are_read(events, at + 1, formats, open, is_1904);
    let full = StyleScan { customs: open.customs + customs_of(formats, is_1904), ..open };
    let next = StyleScan { in_custom_formats: false, ..full };
    lemma_style_event(events, at + 1 + inner.len(), full, next, is_1904);
    next
}

proof fn lemma_style_list(
    events: Seq<XmlView>,
    at: int,
    attributes: Seq<Result<AttributeView, Seq<char>>>,
    styles: Seq<StyleElement>,
    s: StyleScan,
    is_1904: bool,
)
    requires
        has_at(events, at, style_list(attributes, styles)),
        forall|i: int| 0 <= i < styles.len() ==> (#[trigger] styles[i]).is_sound(),
        !s.in_custom_formats,
        !s.in_format_indexes,
    ensures
        ({
            let last = StyleScan {
                has_format_indexes: true,
                indexes: s.indexes + ids_of(styles),
                ..s
            };
            styles_from(events, at, s, is_1904) == if s.has_custom_formats {
                Ok(last)
            } else {
                styles_from(events, at + style_list(attributes, styles).len(), last, is_1904)
            }
        }),
{
    lemma_style_names_differ();
    let start = opening("cellXfs"@, attributes);
    let end = XmlView::End("cellXfs"@);
    let inner = styles_events(styles);
    lemma_has_both(events, at, seq![start], inner + seq![end]);
    lemma_has_one(events, at, start);
    lemma_has_both(events, at + 1, inner, seq![end]);
    lemma_has_one(events, at + 1 + inner.len(), end);
    let open = StyleScan { has_format_indexes: true, in_format_indexes: true, ..s };
    lemma_style_event(events, at, s, open, is_1904);
    lemma_styles_are_read(events, at + 1, styles, open, is_1904);
    let full = StyleScan { indexes: open.indexes + ids_of(styles), ..open };
    let last = StyleScan { in_format_indexes: false, ..full };
    assert(style_step(full, events[at + 1 + inner.len()], is_1904) == Ok::<
        (StyleScan, bool),
        ErrorView,
    >((last, s.has_custom_formats)));
}

/// In a document without custom formats the styles give numbers the types of the
/// built-in formats, each at its number and none left out.
pub proof fn lemma_styles_give_builtin_types(
    before: Seq<XmlView>,
    attributes: Seq<Result<AttributeView, Seq<char>>>,
    styles: Seq<StyleElement>,
    behind: Seq<XmlView>,
    is_1904: bool,
    i: int,
    n: nat,
)
    requires
        are_no_styles(before),
        are_no_styles(behind),
        forall|j: int| 0 <= j < styles.len() ==> (#[trigger] styles[j]).is_sound(),
        0 <= i < styles.len(),
    ensures
        number_formats_outcome(before + (style_list(attributes, styles) + behind), is_1904) matches Ok(
            types,
        ) && {
            &&& types.len() == styles.len()
            &&& styles[i].id is None ==> types[i] == CellType::Number
            &&& styles[i].id == Some(decimal(n)) && n <= usize::MAX ==> {
                &&& types[i] == CellType::Date(is_1904) <==> 14 <= n <= 17
                &&& types[i] == CellType::Time(is_1904) <==> 18 <= n <= 21 || 45 <= n <= 47
                &&& types[i] == CellType::DateTime(is_1904) <==> n == 22
                &&& types[i] == CellType::Number <==> n < 14 || 22 < n < 45 || 47 < n
            }
        },
{
    lemma_style_names_differ();
    let list = style_list(attributes, styles);
    let events = before + (list + behind);
    let b = before.len() + list.len();
    assert(has_at(events, 0, events));
    lemma_has_both(events, 0, before, list + behind);
    lemma_has_both(events, before.len() as int, list, behind);
    lemma_styles_pass(events, 0, before, before.len() as int, no_styles(), is_1904);
    lemma_style_list(events, before.len() as int, attributes, styles, no_styles(), is_1904);
    let last = StyleScan {
        has_format_indexes: true,
        indexes: no_styles().indexes + ids_of(styles),
        ..no_styles()
    };
    lemma_styles_pass(events, b as int, behind, behind.len() as int, last, is_1904);
    assert(styles_from(events, 0, no_styles(), is_1904) == Ok::<StyleScan, ErrorView>(last));
    assert(last.indexes =~= ids_of(styles));
    let types = number_formats_outcome(events, is_1904)->Ok_0;
    assert(types[i] == style_kind(styles[i].id, Seq::empty(), is_1904));
    if styles[i].id == Some(decimal(n)) && n <= usize::MAX {
        lemma_number_round_trip(n);
    }
}

/// The styles of a document give numbers the types of their formats, each at its number
/// and none left out. A custom format comes before a built-in one, and of custom
/// formats with the same identifier the last one counts. Of the built-in formats, 14
/// to 17 are dates, 18 to 21 and 45 to 47 times, and 22 both; all others, unknown
/// ones and none at all mean numbers.
pub proof fn lemma_styles_give_types(
    before: Seq<XmlView>,
    format_attributes: Seq<Result<AttributeView, Seq<char>>>,
    formats: Seq<FormatElement>,
    between: Seq<XmlView>,
    style_attributes: Seq<Result<AttributeView, Seq<char>>>,
    styles: Seq<StyleElement>,
    behind: Seq<XmlView>,
    is_1904: bool,
    i: int,
    k: int,
    n: nat,
)
    requires
        are_no_styles(before),
        are_no_styles(between),
        forall|j: int| 0 <= j < formats.len() ==> (#[trigger] formats[j]).is_sound(),
        forall|j: int| 0 <= j < styles.len() ==> (#[trigger] styles[j]).is_sound(),
        0 <= i < styles.len(),
    ensures
        number_formats_outcome(
            before + (format_list(format_attributes, formats) + (between + (style_list(
                style_attributes,
                styles,
            ) + behind))),
            is_1904,
        ) matches Ok(types) && {
            &&& types.len() == styles.len()
            &&& styles[i].id is None ==> types[i] == CellType::Number
            &&& styles[i].id is Some && is_last_format(formats, styles[i].id->Some_0, k) ==> {
                let format = formats[k].format;
                &&& types[i] == CellType::DateTime(is_1904) <==> shows_date(format) && shows_time(
                    format,
                )
                &&& types[i] == CellType::Time(is_1904) <==> !shows_date(format) && shows_time(
                    format,
                )
                &&& types[i] == CellType::Date(is_1904) <==> (shows_date(format) || shows_month(
                    format,
                )) && !shows_time(format)
                &&& types[i] == CellType::Number <==> !shows_date(format) && !shows_time(format)
                    && !shows_month(format)
            }
            &&& styles[i].id == Some(decimal(n)) && n <= usize::MAX && (forall|j: int|
                0 <= j < formats.len() ==> (#[trigger] formats[j]).id != decimal(n)) ==> {
                &&& types[i] == CellType::Date(is_1904) <==> 14 <= n <= 17
                &&& types[i] == CellType::Time(is_1904) <==> 18 <= n <= 21 || 45 <= n <= 47
                &&& types[i] == CellType::DateTime(is_1904) <==> n == 22
                &&& types[i] == CellType::Number <==> n < 14 || 22 < n < 45 || 47 < n
            }
        },
{
    lemma_style_names_differ();
    let customs = format_list(format_attributes, formats);
    let list = style_list(style_attributes, styles);
    let events = before + (customs + (between + (list + behind)));
    let b = before.len() + customs.len();
    let found = customs_of(formats, is_1904);
    assert(has_at(events, 0, events));
    lemma_has_both(events, 0, before, customs + (between + (list + behind)));
    lemma_has_both(events, before.len() as int, customs, between + (list + behind));
    lemma_has_both(events, b as int, between, list + behind);
    lemma_has_both(events, b + between.len() as int, list, behind);
    lemma_styles_pass(events, 0, before, before.len() as int, no_styles(), is_1904);
    let closed = lemma_format_list(
        events,
        before.len() as int,
        format_attributes,
        formats,
        no_styles(),
        is_1904,
    );
    assert(closed.customs =~= found);
    lemma_styles_pass(events, b as int, between, between.len() as int, closed, is_1904);
    lemma_style_list(
        events,
        b + between.len() as int,
        style_attributes,
        styles,
        closed,
        is_1904,
    );
    let last = styles_from(events, 0, no_styles(), is_1904)->Ok_0;
    assert(last.indexes =~= ids_of(styles));
    let types = number_formats_outcome(events, is_1904)->Ok_0;
    assert(types[i] == style_kind(styles[i].id, found, is_1904));
    if let Some(id) = styles[i].id {
        lemma_last_type_of(formats, id, is_1904);
        if is_last_format(formats, id, k) {
            assert(formats[k].is_sound());
            lemma_custom_format(formats[k].format, is_1904);
        }
        if id == decimal(n) && n <= usize::MAX {
            lemma_number_round_trip(n);
        }
    }
}

} // verus!
