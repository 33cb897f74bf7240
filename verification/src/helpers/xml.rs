//! XML documents as sequences of events, read through `quick_xml`.

use crate::error::ErrorView;
use crate::error::RustySheetError;
use crate::helpers::text::chars_of;
use crate::helpers::text::number_value;
use crate::helpers::text::parse_usize;
use crate::helpers::text::same_text;
use crate::helpers::text::string_of;
use quick_xml::events::BytesRef;
use quick_xml::events::Event;
use vstd::prelude::*;

verus! {

/// A parsed text, or the message of the error in it.
pub type XmlText = Result<String, String>;

/// An attribute of an element.
pub struct XmlAttribute {
    /// The name, with its prefix.
    pub key: String,
    /// The value.
    pub value: XmlText,
}

/// The start of an element.
pub struct XmlTag {
    /// The name, with its prefix.
    pub name: String,
    /// The attributes in their order, and the messages of errors among them.
    pub attributes: Vec<Result<XmlAttribute, String>>,
}

/// A part of an XML document.
pub enum XmlEvent {
    /// The start of an element. Every element has a start and an end.
    Start(XmlTag),
    /// The end of the element with this name.
    End(String),
    /// Text between tags.
    Text(XmlText),
    /// The text of a CDATA section.
    CData(XmlText),
    /// A reference to an entity or a character, by its name.
    Reference(XmlText),
    /// A comment, a declaration or the like.
    Other,
    /// An error in the markup, with its message. Nothing follows it.
    Fault(String),
}

/// An attribute as a mathematical value.
pub struct AttributeView {
    pub key: Seq<char>,
    pub value: Result<Seq<char>, Seq<char>>,
}

/// The start of an element as a mathematical value.
pub struct TagView {
    pub name: Seq<char>,
    pub attributes: Seq<Result<AttributeView, Seq<char>>>,
}

/// A part of an XML document as a mathematical value.
pub enum XmlView {
    Start(TagView),
    End(Seq<char>),
    Text(Result<Seq<char>, Seq<char>>),
    CData(Result<Seq<char>, Seq<char>>),
    Reference(Result<Seq<char>, Seq<char>>),
    Other,
    Fault(Seq<char>),
}

/// A text or message as character sequences.
pub open spec fn text_view(text: XmlText) -> Result<Seq<char>, Seq<char>> {
    match text {
        Ok(value) => Ok(value@),
        Err(message) => Err(message@),
    }
}

/// An attribute or message as mathematical values.
pub open spec fn attribute_view(item: Result<XmlAttribute, String>) -> Result<
    AttributeView,
    Seq<char>,
> {
    match item {
        Ok(attribute) => Ok(
            AttributeView { key: attribute.key@, value: text_view(attribute.value) },
        ),
        Err(message) => Err(message@),
    }
}

impl View for XmlTag {
    type V = TagView;

    open spec fn view(&self) -> TagView {
        TagView {
            name: self.name@,
            attributes: self.attributes@.map_values(
                |item: Result<XmlAttribute, String>| attribute_view(item),
            ),
        }
    }
}

impl View for XmlEvent {
    type V = XmlView;

    open spec fn view(&self) -> XmlView {
        match *self {
            XmlEvent::Start(tag) => XmlView::Start(tag@),
            XmlEvent::End(name) => XmlView::End(name@),
            XmlEvent::Text(text) => XmlView::Text(text_view(text)),
            XmlEvent::CData(text) => XmlView::CData(text_view(text)),
            XmlEvent::Reference(name) => XmlView::Reference(text_view(name)),
            XmlEvent::Other => XmlView::Other,
            XmlEvent::Fault(message) => XmlView::Fault(message@),
        }
    }
}

/// A list of events as mathematical values.
pub open spec fn event_views(events: Seq<XmlEvent>) -> Seq<XmlView> {
    events.map_values(|event: XmlEvent| event@)
}

/// What the reader of XML hands out, `quick_xml::events::Event`.
#[verifier::external_type_specification]
#[verifier::external_body]
pub struct ExEvent<'a>(quick_xml::events::Event<'a>);

/// What an event that was handed out is. Names are text, with U+FFFD for what is
/// no UTF-8.
pub uninterp spec fn event_content(event: Event<'_>) -> XmlView;

/// The character that a reference's name stands for, where it is the number of
/// a character.
pub uninterp spec fn char_reference(name: Seq<char>) -> Result<Option<char>, Seq<char>>;

/// Converts `Event::Start`, with the attributes that `BytesStart::attributes`
/// lists and the values that `Attribute::unescape_value` gives, and `Event::End`.
/// Claimed: the result is what the event is; other events give `None`.
#[verifier::external_body]
fn tag_event(event: &Event<'_>) -> (res: Option<XmlEvent>)
    ensures
        (event_content(*event) is Start || event_content(*event) is End) == res is Some,
        res matches Some(converted) ==> converted@ == event_content(*event),
{
    match event {
        Event::Start(tag) => Some(XmlEvent::Start(XmlTag {
            name: String::from_utf8_lossy(tag.name().0).into_owned(),
            attributes: tag.attributes().map(|item| item.map(|attribute| XmlAttribute {
                key: String::from_utf8_lossy(attribute.key.0).into_owned(),
                value: attribute.unescape_value().map(String::from).map_err(|e| e.to_string()),
            }).map_err(|e| e.to_string())).collect(),
        })),
        Event::End(tag) => {
            Some(XmlEvent::End(String::from_utf8_lossy(tag.name().0).into_owned()))
        }
        _ => None,
    }
}

/// Converts `Event::Text` and `Event::CData`, with the text that `xml_content`
/// gives, and `Event::GeneralRef`, with the name that `decode` gives. Claimed: for
/// an event that is neither start nor end of an element, the result is what the
/// event is.
#[verifier::external_body]
fn text_event(event: &Event<'_>) -> (res: XmlEvent)
    ensures
        event_content(*event) is Start || event_content(*event) is End || res@ == event_content(
            *event,
        ),
{
    match event {
        Event::Text(text) => XmlEvent::Text(
            text.xml_content().map(String::from).map_err(|e| e.to_string()),
        ),
        Event::CData(text) => XmlEvent::CData(
            text.xml_content().map(String::from).map_err(|e| e.to_string()),
        ),
        Event::GeneralRef(name) => XmlEvent::Reference(
            name.decode().map(String::from).map_err(|e| e.to_string()),
        ),
        _ => XmlEvent::Other,
    }
}

/// Resolves a reference's name with `quick_xml::events::BytesRef::resolve_char_ref`.
/// Claimed: the outcome is a function of the name, and a name that does not start
/// with `#` stands for no character number.
#[verifier::external_body]
fn resolve_char_ref(name: &str) -> (res: Result<Option<char>, String>)
    ensures
        (match res {
            Ok(found) => Ok::<Option<char>, Seq<char>>(found),
            Err(message) => Err::<Option<char>, Seq<char>>(message@),
        }) == char_reference(name@),
        name@.len() == 0 || name@[0] != '#' ==> res matches Ok(None),
{
    BytesRef::new(name).resolve_char_ref().map_err(|error| error.to_string())
}

/// Converts an event.
pub(crate) fn convert_event(event: &Event<'_>) -> (res: XmlEvent)
    ensures
        res@ == event_content(*event),
{
    match tag_event(event) {
        Some(converted) => converted,
        None => text_event(event),
    }
}

/// The value of the first attribute with this name, unless an error comes first.
pub open spec fn attribute_value(
    attributes: Seq<Result<AttributeView, Seq<char>>>,
    name: Seq<char>,
) -> Result<Option<Seq<char>>, ErrorView>
    decreases attributes.len(),
{
    if attributes.len() == 0 {
        Ok(None)
    } else {
        match attributes[0] {
            Err(message) => Err(ErrorView::Xml(message)),
            Ok(attribute) => if attribute.key == name {
                match attribute.value {
                    Ok(value) => Ok(Some(value)),
                    Err(message) => Err(ErrorView::Xml(message)),
                }
            } else {
                attribute_value(attributes.drop_first(), name)
            },
        }
    }
}

/// The number in the first attribute with this name.
pub open spec fn attribute_number(
    attributes: Seq<Result<AttributeView, Seq<char>>>,
    name: Seq<char>,
) -> Result<Option<usize>, ErrorView> {
    match attribute_value(attributes, name) {
        Err(error) => Err(error),
        Ok(None) => Ok(None),
        Ok(Some(value)) => match number_value(value) {
            Ok(number) => Ok(Some(number)),
            Err(error) => Err(ErrorView::Number(error)),
        },
    }
}

/// The part of a name behind the first colon, or all of it where there is none.
pub open spec fn local_part(name: Seq<char>) -> Seq<char> {
    if name.contains(':') {
        name.skip(name.index_of_first(':').unwrap() + 1)
    } else {
        name
    }
}

impl XmlTag {
    /// Whether this is the start of the element with this name.
    pub fn is(&self, name: &str) -> (res: bool)
        ensures
            res == (self@.name == name@),
    {
        same_text(self.name.as_str(), name)
    }

    /// Looks an attribute up by its name.
    pub fn get_attribute_value(&self, name: &str) -> (res: Result<Option<String>, RustySheetError>)
        ensures
            match attribute_value(self@.attributes, name@) {
                Ok(Some(value)) => res matches Ok(Some(text)) && text@ == value,
                Ok(None) => res == Ok::<Option<String>, RustySheetError>(None),
                Err(error) => res matches Err(e) && e@ == error,
            },
    {
        let ghost attributes = self@.attributes;
        let mut i: usize = 0;
        proof {
            assert(attributes.skip(0) =~= attributes);
        }
        while i < self.attributes.len()
            invariant
                i <= self.attributes@.len(),
                attributes == self@.attributes,
                attribute_value(attributes, name@) == attribute_value(
                    attributes.skip(i as int),
                    name@,
                ),
            decreases self.attributes@.len() - i,
        {
            proof {
                assert(attributes.skip(i as int)[0] == attribute_view(
                    self.attributes@[i as int],
                ));
                assert(attributes.skip(i as int).drop_first() =~= attributes.skip(i + 1));
            }
            match &self.attributes[i] {
                Err(message) => {
                    return Err(RustySheetError::Xml(message.clone()));
                },
                Ok(attribute) => {
                    if same_text(attribute.key.as_str(), name) {
                        return match &attribute.value {
                            Ok(value) => Ok(Some(value.clone())),
                            Err(message) => Err(RustySheetError::Xml(message.clone())),
                        };
                    }
                },
            }
            i = i + 1;
        }
        Ok(None)
    }

    /// Looks an attribute up by its name and reads it as a number.
    pub fn parse_attribute_value(&self, name: &str) -> (res: Result<
        Option<usize>,
        RustySheetError,
    >)
        ensures
            match attribute_number(self@.attributes, name@) {
                Ok(number) => res == Ok::<Option<usize>, RustySheetError>(number),
                Err(error) => res matches Err(e) && e@ == error,
            },
    {
        match self.get_attribute_value(name) {
            Err(error) => Err(error),
            Ok(None) => Ok(None),
            Ok(Some(value)) => match parse_usize(value.as_str()) {
                Ok(number) => Ok(Some(number)),
                Err(error) => Err(RustySheetError::Number(error)),
            },
        }
    }
}

/// Cuts the prefix off a name.
pub fn local_name(name: &str) -> (res: String)
    ensures
        res@ == local_part(name@),
{
    let chars = chars_of(name);
    let mut i: usize = 0;
    while i < chars.len()
        invariant
            i <= chars@.len(),
            chars@ == name@,
            forall|j: int| 0 <= j < i ==> chars@[j] != ':',
        decreases chars@.len() - i,
    {
        if chars[i] == ':' {
            proof {
                assert(name@.contains(':'));
                let found = name@.index_of_first(':');
                name@.index_of_first_ensures(':');
                assert(found == Some(i as int));
                assert(chars@.subrange(i + 1, chars@.len() as int) =~= local_part(name@));
            }
            return string_of(&chars[i + 1..chars.len()]);
        }
        i = i + 1;
    }
    name.to_owned()
}

/// The character of one of the five predefined entities.
pub open spec fn predefined_entity(name: Seq<char>) -> Option<char> {
    if name == "lt"@ {
        Some('<')
    } else if name == "gt"@ {
        Some('>')
    } else if name == "amp"@ {
        Some('&')
    } else if name == "apos"@ {
        Some('\'')
    } else if name == "quot"@ {
        Some('"')
    } else {
        None
    }
}

/// The character that a reference stands for.
pub open spec fn reference_char(name: Result<Seq<char>, Seq<char>>) -> Result<char, ErrorView> {
    match name {
        Err(message) => Err(ErrorView::Xml(message)),
        Ok(name) => match char_reference(name) {
            Err(message) => Err(ErrorView::Xml(message)),
            Ok(Some(c)) => Ok(c),
            Ok(None) => match predefined_entity(name) {
                Some(c) => Ok(c),
                None => Err(ErrorView::Xml("unrecognized entity: "@ + name)),
            },
        },
    }
}

/// Resolves a reference to a character.
pub fn resolve_reference(name: &XmlText) -> (res: Result<char, RustySheetError>)
    ensures
        match reference_char(text_view(*name)) {
            Ok(c) => res == Ok::<char, RustySheetError>(c),
            Err(error) => res matches Err(e) && e@ == error,
        },
{
    match name {
        Err(message) => Err(RustySheetError::Xml(message.clone())),
        Ok(name) => match resolve_char_ref(name.as_str()) {
            Err(message) => Err(RustySheetError::Xml(message)),
            Ok(Some(c)) => Ok(c),
            Ok(None) => {
                if same_text(name.as_str(), "lt") {
                    Ok('<')
                } else if same_text(name.as_str(), "gt") {
                    Ok('>')
                } else if same_text(name.as_str(), "amp") {
                    Ok('&')
                } else if same_text(name.as_str(), "apos") {
                    Ok('\'')
                } else if same_text(name.as_str(), "quot") {
                    Ok('"')
                } else {
                    let mut message = "unrecognized entity: ".to_owned();
                    message.push_str(name.as_str());
                    Err(RustySheetError::Xml(message))
                }
            },
        },
    }
}

} // verus!
