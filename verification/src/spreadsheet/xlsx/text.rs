//! Texts in XLSX documents: string values and the table of shared strings.

use crate::error::ErrorView;
use crate::error::RustySheetError;
use crate::helpers::text::same_text;
use crate::helpers::xml::event_views;
use crate::helpers::xml::reference_char;
use crate::helpers::xml::resolve_reference;
use crate::helpers::xml::XmlEvent;
use crate::helpers::xml::XmlView;
use crate::spreadsheet::shared_strings::SharedStringStore;
use std::collections::HashMap;
use std::collections::HashSet;
use vstd::prelude::*;

verus! {

/// An item of the table of shared strings.
pub const TAG_SHARED_STRING_ITEM: &'static str = "si";

/// A phonetic guide.
pub const TAG_PHONETIC_TEXT: &'static str = "rPh";

/// A text.
pub const TAG_TEXT: &'static str = "t";

/// How far a string value was read.
pub struct TextScan {
    /// Whether a phonetic guide is open.
    pub phonetic: bool,
    /// Whether text counts.
    pub is_text: bool,
    /// The text so far.
    pub text: Seq<char>,
}

/// What an event adds to a string value.
pub open spec fn text_step(scan: TextScan, event: XmlView) -> Result<TextScan, ErrorView> {
    match event {
        XmlView::Fault(message) => Err(ErrorView::Xml(message)),
        XmlView::Start(tag) => if tag.name == TAG_PHONETIC_TEXT@ {
            Ok(TextScan { phonetic: true, ..scan })
        } else if !scan.phonetic && tag.name == TAG_TEXT@ {
            Ok(TextScan { is_text: true, ..scan })
        } else {
            Ok(scan)
        },
        XmlView::End(name) => if name == TAG_PHONETIC_TEXT@ {
            Ok(TextScan { phonetic: false, ..scan })
        } else if scan.is_text && name == TAG_TEXT@ {
            Ok(TextScan { is_text: false, ..scan })
        } else {
            Ok(scan)
        },
        XmlView::Text(text) | XmlView::CData(text) => if !scan.is_text {
            Ok(scan)
        } else {
            match text {
                Ok(more) => Ok(TextScan { text: scan.text + more, ..scan }),
                Err(message) => Err(ErrorView::Xml(message)),
            }
        },
        XmlView::Reference(name) => if !scan.is_text {
            Ok(scan)
        } else {
            match reference_char(name) {
                Ok(c) => Ok(TextScan { text: scan.text.push(c), ..scan }),
                Err(error) => Err(error),
            }
        },
        XmlView::Other => Ok(scan),
    }
}

/// The string value that goes on at event `at`, and the number of the event behind
/// the end of the element `end_tag`, or behind the last event.
pub open spec fn string_from(
    events: Seq<XmlView>,
    at: int,
    end_tag: Seq<char>,
    scan: TextScan,
) -> Result<(Seq<char>, int), ErrorView>
    decreases events.len() - at,
{
    if at < 0 || at >= events.len() {
        Ok((scan.text, at))
    } else if events[at] == XmlView::End(end_tag) {
        Ok((scan.text, at + 1))
    } else {
        match text_step(scan, events[at]) {
            Err(error) => Err(error),
            Ok(next) => string_from(events, at + 1, end_tag, next),
        }
    }
}

/// The string value that starts at event `at`. Text counts from the start where
/// `is_text` is set, else only inside of text elements. Phonetic guides do not
/// count.
pub open spec fn string_value(
    events: Seq<XmlView>,
    at: int,
    end_tag: Seq<char>,
    is_text: bool,
) -> Result<(Seq<char>, int), ErrorView> {
    string_from(events, at, end_tag, TextScan { phonetic: false, is_text, text: Seq::empty() })
}

/// A string value ends behind its start and within the document.
pub proof fn lemma_string_from_bounds(
    events: Seq<XmlView>,
    at: int,
    end_tag: Seq<char>,
    scan: TextScan,
)
    requires
        0 <= at <= events.len(),
    ensures
        string_from(events, at, end_tag, scan) matches Ok((_, end)) ==> at <= end <= events.len(),
    decreases events.len() - at,
{
    if at < events.len() && events[at] != XmlView::End(end_tag) {
        if let Ok(next) = text_step(scan, events[at]) {
            lemma_string_from_bounds(events, at + 1, end_tag, next);
        }
    }
}

/// Reads the string value that starts at event `at`, and returns it with the
/// number of the event behind it.
pub fn read_string_value(
    events: &[XmlEvent],
    at: usize,
    end_tag: &str,
    is_text_content: bool,
) -> (res: Result<(String, usize), RustySheetError>)
    requires
        at <= events@.len(),
    ensures
        match string_value(event_views(events@), at as int, end_tag@, is_text_content) {
            Ok((text, end)) => {
                &&& res matches Ok((string, next))
                &&& string@ == text
                &&& next == end
                &&& at <= next <= events@.len()
            },
            Err(error) => res matches Err(e) && e@ == error,
        },
{
    let ghost views = event_views(events@);
    let mut is_phonetic_text: bool = false;
    let mut is_text: bool = is_text_content;
    let mut text = String::new();
    let mut i: usize = at;
    proof {
        assert(text@ =~= Seq::<char>::empty());
    }
    while i < events.len()
        invariant
            at <= i <= events@.len(),
            views == event_views(events@),
            string_value(views, at as int, end_tag@, is_text_content) == string_from(
                views,
                i as int,
                end_tag@,
                TextScan { phonetic: is_phonetic_text, is_text, text: text@ },
            ),
        decreases events@.len() - i,
    {
        let event: &XmlEvent = &events[i];
        proof {
            assert(views[i as int] == event@);
        }
        match event {
            XmlEvent::Fault(message) => {
                return Err(RustySheetError::Xml(message.clone()));
            },
            XmlEvent::Start(tag) => {
                if tag.is(TAG_PHONETIC_TEXT) {
                    is_phonetic_text = true;
                } else if !is_phonetic_text && tag.is(TAG_TEXT) {
                    is_text = true;
                }
            },
            XmlEvent::End(name) => {
                if same_text(name.as_str(), end_tag) {
                    return Ok((text, i + 1));
                } else if same_text(name.as_str(), TAG_PHONETIC_TEXT) {
                    is_phonetic_text = false;
                } else if is_text && same_text(name.as_str(), TAG_TEXT) {
                    is_text = false;
                }
            },
            XmlEvent::Text(content) | XmlEvent::CData(content) => {
                if is_text {
                    match content {
                        Ok(more) => {
                            text.push_str(more.as_str());
                        },
                        Err(message) => {
                            return Err(RustySheetError::Xml(message.clone()));
                        },
                    }
                }
            },
            XmlEvent::Reference(name) => {
                if is_text {
                    match resolve_reference(name) {
                        Ok(c) => {
                            text.push(c);
                        },
                        Err(error) => {
                            return Err(error);
                        },
                    }
                }
            },
            XmlEvent::Other => {},
        }
        i = i + 1;
    }
    Ok((text, i))
}

/// The shared strings of a document, from event `at` on.
pub open spec fn strings_from(events: Seq<XmlView>, at: int) -> Result<Seq<Seq<char>>, ErrorView>
    decreases events.len() - at,
{
    if at < 0 || at >= events.len() {
        Ok(Seq::empty())
    } else {
        match events[at] {
            XmlView::Fault(message) => Err(ErrorView::Xml(message)),
            XmlView::Start(tag) if tag.name == TAG_SHARED_STRING_ITEM@ => match string_value(
                events,
                at + 1,
                TAG_SHARED_STRING_ITEM@,
                false,
            ) {
                Err(error) => Err(error),
                Ok((text, end)) => {
                    proof {
                        lemma_string_value_bounds(events, at + 1, TAG_SHARED_STRING_ITEM@, false);
                    }
                    match strings_from(events, end) {
                        Err(error) => Err(error),
                        Ok(more) => Ok(seq![text] + more),
                    }
                },
            },
            _ => strings_from(events, at + 1),
        }
    }
}

/// A string value ends behind its start and within the document.
pub proof fn lemma_string_value_bounds(
    events: Seq<XmlView>,
    at: int,
    end_tag: Seq<char>,
    is_text: bool,
)
    requires
        0 <= at <= events.len(),
    ensures
        string_value(events, at, end_tag, is_text) matches Ok((_, end)) ==> at <= end
            <= events.len(),
{
    lemma_string_from_bounds(
        events,
        at,
        end_tag,
        TextScan { phonetic: false, is_text, text: Seq::empty() },
    );
}

/// Fills an empty store with the shared strings of a document.
#[verifier::loop_isolation(false)]
pub fn store_shared_strings(events: &[XmlEvent], store: &mut SharedStringStore) -> (res: Result<
    (),
    RustySheetError,
>)
    requires
        old(store).wf(),
        !old(store).reading(),
    ensures
        final(store).wf(),
        !final(store).reading(),
        match strings_from(event_views(events@), 0) {
            Ok(strings) => res is Ok && final(store)@ == old(store)@ + strings,
            Err(error) => res matches Err(e) && e@ == error,
        },
{
    let ghost views = event_views(events@);
    let ghost all = strings_from(views, 0);
    let ghost before = store@;
    let mut i: usize = 0;
    proof {
        if let Ok(strings) = all {
            assert(before + strings =~= store@ + strings);
        }
    }
    while i < events.len()
        invariant
            i <= events@.len(),
            views == event_views(events@),
            store.wf(),
            !store.reading(),
            match strings_from(views, i as int) {
                Ok(more) => all matches Ok(strings) && before + strings == store@ + more,
                Err(error) => all == Err::<Seq<Seq<char>>, ErrorView>(error),
            },
        decreases events@.len() - i,
    {
        proof {
            assert(views[i as int] == events@[i as int]@);
            lemma_string_value_bounds(views, i + 1, TAG_SHARED_STRING_ITEM@, false);
        }
        match &events[i] {
            XmlEvent::Fault(message) => {
                return Err(RustySheetError::Xml(message.clone()));
            },
            XmlEvent::Start(tag) => {
                if tag.is(TAG_SHARED_STRING_ITEM) {
                    match read_string_value(events, i + 1, TAG_SHARED_STRING_ITEM, false) {
                        Err(error) => {
                            return Err(error);
                        },
                        Ok((text, end)) => {
                            let ghost stored = store@;
                            match store.push(text.as_str()) {
                                Err(error) => {
                                    return Err(error);
                                },
                                Ok(_) => {},
                            }
                            proof {
                                if let Ok(more) = strings_from(views, end as int) {
                                    assert(stored + (seq![text@] + more) =~= store@ + more);
                                }
                            }
                            i = end;
                        },
                    }
                } else {
                    i = i + 1;
                }
            },
            _ => {
                i = i + 1;
            },
        }
    }
    proof {
        assert(store@ + Seq::<Seq<char>>::empty() =~= store@);
    }
    Ok(())
}

/// What was loaded of a table of shared strings.
pub struct LoadedStrings {
    /// The strings that were loaded.
    pub strings: Seq<Seq<char>>,
    /// For the number of a string, its place among those that were loaded.
    pub mappings: Map<usize, usize>,
}

/// The strings with the wanted numbers, from event `at` on, where string `id`
/// comes next and the given ones were loaded. Reading ends when none is wanted any
/// more.
pub open spec fn wanted_from(
    events: Seq<XmlView>,
    at: int,
    wanted: Set<usize>,
    id: int,
    loaded: LoadedStrings,
) -> Result<LoadedStrings, ErrorView>
    decreases events.len() - at,
{
    if at < 0 || at >= events.len() {
        Ok(loaded)
    } else {
        match events[at] {
            XmlView::Fault(message) => Err(ErrorView::Xml(message)),
            XmlView::Start(tag) if tag.name == TAG_SHARED_STRING_ITEM@ => if wanted.contains(
                id as usize,
            ) {
                match string_value(events, at + 1, TAG_SHARED_STRING_ITEM@, false) {
                    Err(error) => Err(error),
                    Ok((text, end)) => {
                        proof {
                            lemma_string_value_bounds(
                                events,
                                at + 1,
                                TAG_SHARED_STRING_ITEM@,
                                false,
                            );
                        }
                        let now = LoadedStrings {
                            strings: loaded.strings.push(text),
                            mappings: loaded.mappings.insert(
                                id as usize,
                                loaded.strings.len() as usize,
                            ),
                        };
                        if wanted.remove(id as usize).is_empty() {
                            Ok(now)
                        } else {
                            wanted_from(events, end, wanted.remove(id as usize), id + 1, now)
                        }
                    },
                }
            } else if wanted.is_empty() {
                Ok(loaded)
            } else {
                wanted_from(events, at + 1, wanted, id + 1, loaded)
            },
            _ => wanted_from(events, at + 1, wanted, id, loaded),
        }
    }
}

/// What is loaded of a table of shared strings: all strings where no numbers are
/// given, else those with the given numbers.
pub open spec fn loaded_strings(events: Seq<XmlView>, indexes: Option<Set<usize>>) -> Result<
    LoadedStrings,
    ErrorView,
> {
    match indexes {
        None => match strings_from(events, 0) {
            Ok(strings) => Ok(LoadedStrings { strings, mappings: Map::empty() }),
            Err(error) => Err(error),
        },
        Some(wanted) => wanted_from(
            events,
            0,
            wanted,
            0,
            LoadedStrings { strings: Seq::empty(), mappings: Map::empty() },
        ),
    }
}

/// The texts of strings.
pub open spec fn texts_of(strings: Seq<String>) -> Seq<Seq<char>> {
    strings.map_values(|string: String| string@)
}

#[verifier::loop_isolation(false)]
fn all_shared_strings(events: &[XmlEvent]) -> (res: Result<Vec<String>, RustySheetError>)
    ensures
        match strings_from(event_views(events@), 0) {
            Ok(strings) => res matches Ok(v) && texts_of(v@) == strings,
            Err(error) => res matches Err(e) && e@ == error,
        },
{
    let ghost views = event_views(events@);
    let ghost all = strings_from(views, 0);
    let mut found: Vec<String> = Vec::new();
    let mut i: usize = 0;
    proof {
        if let Ok(strings) = all {
            assert(strings =~= texts_of(found@) + strings);
        }
    }
    while i < events.len()
        invariant
            i <= events@.len(),
            views == event_views(events@),
            match strings_from(views, i as int) {
                Ok(more) => all == Ok::<Seq<Seq<char>>, ErrorView>(texts_of(found@) + more),
                Err(error) => all == Err::<Seq<Seq<char>>, ErrorView>(error),
            },
        decreases events@.len() - i,
    {
        proof {
            assert(views[i as int] == events@[i as int]@);
            lemma_string_value_bounds(views, i + 1, TAG_SHARED_STRING_ITEM@, false);
        }
        match &events[i] {
            XmlEvent::Fault(message) => {
                return Err(RustySheetError::Xml(message.clone()));
            },
            XmlEvent::Start(tag) => {
                if tag.is(TAG_SHARED_STRING_ITEM) {
                    match read_string_value(events, i + 1, TAG_SHARED_STRING_ITEM, false) {
                        Err(error) => {
                            return Err(error);
                        },
                        Ok((text, end)) => {
                            let ghost before = found@;
                            let ghost view = text@;
                            found.push(text);
                            proof {
                                assert(texts_of(found@) =~= texts_of(before).push(view));
                                if let Ok(more) = strings_from(views, end as int) {
                                    assert(texts_of(before) + (seq![view] + more) =~= texts_of(
                                        found@,
                                    ) + more);
                                }
                            }
                            i = end;
                        },
                    }
                } else {
                    i = i + 1;
                }
            },
            _ => {
                i = i + 1;
            },
        }
    }
    proof {
        assert(texts_of(found@) + Seq::<Seq<char>>::empty() =~= texts_of(found@));
    }
    Ok(found)
}

/// Loads shared strings: all of them, or those with the given numbers. The second
/// result gives the place of each string that was asked for.
#[verifier::loop_isolation(false)]
pub fn load_shared_strings(events: &[XmlEvent], indexes: Option<HashSet<usize>>) -> (res: Result<
    (Vec<String>, HashMap<usize, usize>),
    RustySheetError,
>)
    ensures
        match loaded_strings(
            event_views(events@),
            match indexes {
                Some(set) => Some(set@),
                None => None,
            },
        ) {
            Ok(loaded) => {
                &&& res matches Ok((strings, mappings))
                &&& texts_of(strings@) == loaded.strings
                &&& mappings@ == loaded.mappings
            },
            Err(error) => res matches Err(e) && e@ == error,
        },
{
    broadcast use vstd::std_specs::hash::group_hash_axioms;

    let mut mappings: HashMap<usize, usize> = HashMap::new();
    let mut keys: HashSet<usize> = match indexes {
        None => {
            return match all_shared_strings(events) {
                Ok(strings) => Ok((strings, mappings)),
                Err(error) => Err(error),
            };
        },
        Some(keys) => keys,
    };
    let ghost views = event_views(events@);
    let ghost all = loaded_strings(views, Some(keys@));
    let mut found: Vec<String> = Vec::new();
    let mut id: usize = 0;
    let mut i: usize = 0;
    proof {
        assert(texts_of(found@) =~= Seq::<Seq<char>>::empty());
    }
    while i < events.len()
        invariant
            i <= events@.len(),
            id <= i,
            found@.len() <= id,
            views == event_views(events@),
            all == wanted_from(
                views,
                i as int,
                keys@,
                id as int,
                LoadedStrings { strings: texts_of(found@), mappings: mappings@ },
            ),
        decreases events@.len() - i,
    {
        proof {
            assert(views[i as int] == events@[i as int]@);
            lemma_string_value_bounds(views, i + 1, TAG_SHARED_STRING_ITEM@, false);
        }
        match &events[i] {
            XmlEvent::Fault(message) => {
                return Err(RustySheetError::Xml(message.clone()));
            },
            XmlEvent::Start(tag) => {
                if tag.is(TAG_SHARED_STRING_ITEM) {
                    let mut next: usize = i + 1;
                    if keys.contains(&id) {
                        keys.remove(&id);
                        match read_string_value(events, i + 1, TAG_SHARED_STRING_ITEM, false) {
                            Err(error) => {
                                return Err(error);
                            },
                            Ok((text, end)) => {
                                let ghost before = found@;
                                let ghost view = text@;
                                let index: usize = found.len();
                                found.push(text);
                                mappings.insert(id, index);
                                proof {
                                    assert(texts_of(found@) =~= texts_of(before).push(view));
                                }
                                next = end;
                            },
                        }
                    }
                    if keys.is_empty() {
                        return Ok((found, mappings));
                    }
                    id = id + 1;
                    i = next;
                } else {
                    i = i + 1;
                }
            },
            _ => {
                i = i + 1;
            },
        }
    }
    Ok((found, mappings))
}

} // verus!
