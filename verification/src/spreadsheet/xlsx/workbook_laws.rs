//! What the parts of an XLSX workbook say of its sheets and its date system.

use crate::error::ErrorView;
use crate::helpers::xml::attribute_value;
use crate::helpers::xml::local_part;
use crate::helpers::xml::AttributeView;
use crate::helpers::xml::TagView;
use crate::helpers::xml::XmlView;
use crate::helpers::xml_laws::is_called;
use crate::helpers::xml_laws::lemma_attribute_value;
use crate::helpers::xml_laws::lemma_local_part;
use crate::helpers::xml_laws::says;
use crate::spreadsheet::xlsx::workbook::last_of;
use crate::spreadsheet::xlsx::workbook::part_path;
use crate::spreadsheet::xlsx::workbook::relationships_from;
use crate::spreadsheet::xlsx::workbook::sheet_names;
use crate::spreadsheet::xlsx::workbook::workbook_from;
use crate::spreadsheet::xlsx::workbook::workbook_outcome;
use crate::spreadsheet::xlsx::workbook::workbook_step;
use crate::spreadsheet::xlsx::workbook::Workbook;
use vstd::prelude::*;

verus! {

/// Whether an event starts an element with this name, whatever its prefix is.
pub open spec fn starts(event: XmlView, local: Seq<char>) -> bool {
    event matches XmlView::Start(tag) && is_called(tag.name, local)
}

/// Whether event `k` is the last one that starts an element with this name.
pub open spec fn is_last_start(events: Seq<XmlView>, local: Seq<char>, k: int) -> bool {
    &&& 0 <= k < events.len()
    &&& starts(events[k], local)
    &&& forall|j: int| k < j < events.len() ==> !starts(#[trigger] events[j], local)
}

/// Whether the properties of a workbook say that dates are counted from 1904.
pub open spec fn says_1904(event: XmlView) -> bool {
    event matches XmlView::Start(tag) && (says(tag.attributes, "date1904"@, Some("1"@)) || says(
        tag.attributes,
        "date1904"@,
        Some("true"@),
    ))
}

proof fn lemma_plain_names()
    ensures
        !"workbookPr"@.contains(':'),
        !"sheet"@.contains(':'),
        !"Relationship"@.contains(':'),
        !"name"@.contains(':'),
        !"id"@.contains(':'),
        "workbookPr"@ != "sheet"@,
        "name"@ != "id"@,
{
    reveal_strlit("workbookPr");
    reveal_strlit("sheet");
    reveal_strlit("Relationship");
    reveal_strlit("name");
    reveal_strlit("id");
    assert("workbookPr"@.len() != "sheet"@.len());
    assert("name"@.len() != "id"@.len());
}

proof fn lemma_date_system_from(
    events: Seq<XmlView>,
    at: int,
    relationships: Seq<(Seq<char>, Seq<char>)>,
    book: Workbook,
)
    requires
        0 <= at <= events.len(),
    ensures
        workbook_from(events, at, relationships, book) matches Ok(last) ==> {
            &&& (forall|k: int|
                at <= k < events.len() ==> !starts(#[trigger] events[k], "workbookPr"@))
                ==> last.is_1904 == book.is_1904
            &&& forall|k: int|
                at <= k && is_last_start(events, "workbookPr"@, k) ==> last.is_1904 == says_1904(
                    #[trigger] events[k],
                )
        },
    decreases events.len() - at,
{
    if at < events.len() {
        lemma_plain_names();
        if let XmlView::Start(tag) = events[at] {
            lemma_local_part(tag.name, "workbookPr"@);
            lemma_local_part(tag.name, "sheet"@);
            lemma_attribute_value(tag.attributes, "date1904"@, Some("1"@));
            lemma_attribute_value(tag.attributes, "date1904"@, Some("true"@));
        }
        if let Ok(next) = workbook_step(events[at], relationships, book) {
            lemma_date_system_from(events, at + 1, relationships, next);
            if let Ok(last) = workbook_from(events, at, relationships, book) {
                assert forall|k: int|
                    at <= k && is_last_start(events, "workbookPr"@, k) implies last.is_1904
                    == says_1904(#[trigger] events[k]) by {
                    if k == at {
                        assert(forall|j: int|
                            at + 1 <= j < events.len() ==> !starts(
                                #[trigger] events[j],
                                "workbookPr"@,
                            ));
                    }
                }
            }
        }
    }
}

/// A workbook counts dates from 1904 if and only if its last `workbookPr` element has
/// an attribute `date1904` with the value `1` or `true`. Any other value, a missing
/// attribute and a missing element mean 1900.
pub proof fn lemma_date_system(
    events: Seq<XmlView>,
    relationships: Seq<(Seq<char>, Seq<char>)>,
)
    ensures
        workbook_outcome(events, relationships) matches Ok(book) ==> (book.is_1904 <==> exists|
            k: int,
        |
            is_last_start(events, "workbookPr"@, k) && says_1904(#[trigger] events[k])),
{
    let none = Workbook { sheets: Seq::empty(), is_1904: false };
    lemma_date_system_from(events, 0, relationships, none);
    if let Ok(book) = workbook_outcome(events, relationships) {
        if exists|k: int| 0 <= k < events.len() && starts(#[trigger] events[k], "workbookPr"@) {
            lemma_last_start(events, "workbookPr"@, events.len() as int);
            let k = choose|k: int| is_last_start(events, "workbookPr"@, k);
            assert(book.is_1904 == says_1904(events[k]));
            assert forall|j: int| is_last_start(events, "workbookPr"@, j) implies j == k by {}
        }
    }
}

proof fn lemma_last_start(events: Seq<XmlView>, local: Seq<char>, n: int)
    requires
        0 <= n <= events.len(),
        exists|k: int| 0 <= k < n && starts(#[trigger] events[k], local),
        forall|k: int| n <= k < events.len() ==> !starts(#[trigger] events[k], local),
    ensures
        exists|k: int| is_last_start(events, local, k),
    decreases n,
{
    if starts(events[n - 1], local) {
        assert(is_last_start(events, local, n - 1));
    } else {
        lemma_last_start(events, local, n - 1);
    }
}

proof fn lemma_workbook_from_joins(
    a: Seq<XmlView>,
    b: Seq<XmlView>,
    at: int,
    relationships: Seq<(Seq<char>, Seq<char>)>,
    book: Workbook,
)
    requires
        0 <= at <= a.len(),
    ensures
        workbook_from(a + b, at, relationships, book) == match workbook_from(
            a,
            at,
            relationships,
            book,
        ) {
            Ok(next) => workbook_from(b, 0, relationships, next),
            Err(error) => Err(error),
        },
    decreases a.len() - at,
{
    if at < a.len() {
        assert((a + b)[at] == a[at]);
        if let Ok(next) = workbook_step(a[at], relationships, book) {
            lemma_workbook_from_joins(a, b, at + 1, relationships, next);
        }
    } else {
        lemma_workbook_from_shifted(a, b, 0, relationships, book);
    }
}

proof fn lemma_workbook_from_shifted(
    a: Seq<XmlView>,
    b: Seq<XmlView>,
    at: int,
    relationships: Seq<(Seq<char>, Seq<char>)>,
    book: Workbook,
)
    requires
        0 <= at <= b.len(),
    ensures
        workbook_from(a + b, a.len() + at, relationships, book) == workbook_from(
            b,
            at,
            relationships,
            book,
        ),
    decreases b.len() - at,
{
    if at < b.len() {
        assert((a + b)[a.len() + at] == b[at]);
        if let Ok(next) = workbook_step(b[at], relationships, book) {
            lemma_workbook_from_shifted(a, b, at + 1, relationships, next);
        }
    }
}

proof fn lemma_workbook_from_starts(
    events: Seq<XmlView>,
    at: int,
    relationships: Seq<(Seq<char>, Seq<char>)>,
    book: Workbook,
    other: Workbook,
)
    ensures
        match workbook_from(events, at, relationships, other) {
            Ok(last) => {
                &&& workbook_from(events, at, relationships, book) matches Ok(found)
                &&& exists|more: Seq<(Seq<char>, Seq<char>)>|
                    found.sheets == book.sheets + more && last.sheets == #[trigger] (other.sheets
                        + more)
            },
            Err(error) => workbook_from(events, at, relationships, book) == Err::<
                Workbook,
                ErrorView,
            >(error),
        },
    decreases events.len() - at,
{
    if 0 <= at < events.len() {
        if let Ok(next) = workbook_step(events[at], relationships, other) {
            let mine = workbook_step(events[at], relationships, book)->Ok_0;
            lemma_workbook_from_starts(events, at + 1, relationships, mine, next);
            if let Ok(last) = workbook_from(events, at, relationships, other) {
                let found = workbook_from(events, at, relationships, book)->Ok_0;
                let more = choose|more: Seq<(Seq<char>, Seq<char>)>|
                    found.sheets == mine.sheets + more && last.sheets == #[trigger] (next.sheets
                        + more);
                if next.sheets.len() == other.sheets.len() {
                    assert(mine.sheets == book.sheets);
                    assert(next.sheets == other.sheets);
                } else {
                    let pair = next.sheets.last();
                    let all = seq![pair] + more;
                    assert(found.sheets =~= book.sheets + all);
                    assert(last.sheets =~= other.sheets + all);
                }
            }
        }
    } else {
        let more = Seq::<(Seq<char>, Seq<char>)>::empty();
        assert(book.sheets =~= book.sheets + more);
        assert(other.sheets =~= other.sheets + more);
    }
}

/// The sheets of a document are those of its first part and then those of the rest,
/// wherever it is cut.
pub proof fn lemma_sheets_join(
    a: Seq<XmlView>,
    b: Seq<XmlView>,
    relationships: Seq<(Seq<char>, Seq<char>)>,
)
    ensures
        match (workbook_outcome(a, relationships), workbook_outcome(b, relationships)) {
            (Ok(first), Ok(second)) => workbook_outcome(a + b, relationships) matches Ok(book)
                && book.sheets == first.sheets + second.sheets,
            _ => workbook_outcome(a + b, relationships) is Err,
        },
{
    let none = Workbook { sheets: Seq::empty(), is_1904: false };
    lemma_workbook_from_joins(a, b, 0, relationships, none);
    if let Ok(first) = workbook_outcome(a, relationships) {
        lemma_workbook_from_starts(b, 0, relationships, first, none);
        if let Ok(second) = workbook_outcome(b, relationships) {
            let book = workbook_outcome(a + b, relationships)->Ok_0;
            let more = choose|more: Seq<(Seq<char>, Seq<char>)>|
                book.sheets == first.sheets + more && second.sheets == #[trigger] (none.sheets
                    + more);
            assert(second.sheets =~= more);
        }
    }
}

/// Whether the last attribute with this local name has this value, or none has the
/// name.
pub open spec fn says_last(
    attributes: Seq<Result<AttributeView, Seq<char>>>,
    local: Seq<char>,
    value: Option<Seq<char>>,
) -> bool {
    match value {
        Some(value) => exists|i: int| is_last_value(attributes, local, value, i),
        None => forall|i: int|
            0 <= i < attributes.len() ==> !is_attribute_called(#[trigger] attributes[i], local),
    }
}

/// Whether an attribute has this local name.
pub open spec fn is_attribute_called(
    attribute: Result<AttributeView, Seq<char>>,
    local: Seq<char>,
) -> bool {
    attribute matches Ok(found) && is_called(found.key, local)
}

/// Whether attribute `i` is the last one with this local name and has this value.
pub open spec fn is_last_value(
    attributes: Seq<Result<AttributeView, Seq<char>>>,
    local: Seq<char>,
    value: Seq<char>,
    i: int,
) -> bool {
    &&& 0 <= i < attributes.len()
    &&& is_attribute_called(attributes[i], local)
    &&& attributes[i]->Ok_0.value == Ok::<Seq<char>, Seq<char>>(value)
    &&& forall|j: int|
        i < j < attributes.len() ==> !is_attribute_called(#[trigger] attributes[j], local)
}

/// Whether all attributes can be read.
pub open spec fn are_readable(attributes: Seq<Result<AttributeView, Seq<char>>>) -> bool {
    forall|i: int|
        0 <= i < attributes.len() ==> ((#[trigger] attributes[i]) matches Ok(found)
            && found.value is Ok)
}

proof fn lemma_sheet_names(
    attributes: Seq<Result<AttributeView, Seq<char>>>,
    i: int,
    name: Option<Seq<char>>,
    id: Option<Seq<char>>,
)
    requires
        0 <= i <= attributes.len(),
        are_readable(attributes),
    ensures
        sheet_names(attributes, i, name, id) matches Ok((n, d)) && {
            &&& (forall|j: int|
                i <= j < attributes.len() ==> !is_attribute_called(
                    #[trigger] attributes[j],
                    "name"@,
                )) ==> n == name
            &&& (forall|j: int|
                i <= j < attributes.len() ==> !is_attribute_called(#[trigger] attributes[j], "id"@))
                ==> d == id
            &&& forall|j: int, text: Seq<char>|
                i <= j && #[trigger] is_last_value(attributes, "name"@, text, j) ==> n == Some(text)
            &&& forall|j: int, text: Seq<char>|
                i <= j && #[trigger] is_last_value(attributes, "id"@, text, j) ==> d == Some(text)
        },
    decreases attributes.len() - i,
{
    if i < attributes.len() {
        lemma_plain_names();
        let attribute = attributes[i]->Ok_0;
        lemma_local_part(attribute.key, "name"@);
        lemma_local_part(attribute.key, "id"@);
        let value = attribute.value->Ok_0;
        if is_called(attribute.key, "name"@) {
            lemma_sheet_names(attributes, i + 1, Some(value), id);
        } else if is_called(attribute.key, "id"@) {
            lemma_sheet_names(attributes, i + 1, name, Some(value));
        } else {
            lemma_sheet_names(attributes, i + 1, name, id);
        }
        let (n, d) = sheet_names(attributes, i, name, id)->Ok_0;
        assert forall|j: int, text: Seq<char>|
            i <= j && #[trigger] is_last_value(attributes, "name"@, text, j) implies n == Some(
            text,
        ) by {
            if j == i {
                assert(forall|k: int|
                    i + 1 <= k < attributes.len() ==> !is_attribute_called(
                        #[trigger] attributes[k],
                        "name"@,
                    ));
            }
        }
        assert forall|j: int, text: Seq<char>|
            i <= j && #[trigger] is_last_value(attributes, "id"@, text, j) implies d == Some(
            text,
        ) by {
            if j == i {
                assert(forall|k: int|
                    i + 1 <= k < attributes.len() ==> !is_attribute_called(
                        #[trigger] attributes[k],
                        "id"@,
                    ));
            }
        }
    }
}

/// Whether pair `i` is the last one with this key and has this value.
pub open spec fn is_last_pair(
    pairs: Seq<(Seq<char>, Seq<char>)>,
    key: Seq<char>,
    value: Seq<char>,
    i: int,
) -> bool {
    &&& 0 <= i < pairs.len()
    &&& pairs[i] == (key, value)
    &&& forall|j: int| i < j < pairs.len() ==> (#[trigger] pairs[j]).0 != key
}

/// What is found for a key is the value of the last pair with the key.
pub proof fn lemma_last_of(pairs: Seq<(Seq<char>, Seq<char>)>, key: Seq<char>, value: Seq<char>)
    ensures
        last_of(pairs, key) == Some(value) <==> exists|i: int| is_last_pair(pairs, key, value, i),
        last_of(pairs, key) is None <==> forall|i: int|
            0 <= i < pairs.len() ==> (#[trigger] pairs[i]).0 != key,
    decreases pairs.len(),
{
    if pairs.len() > 0 {
        let rest = pairs.drop_last();
        let n = pairs.len() - 1;
        lemma_last_of(rest, key, value);
        if pairs.last().0 == key {
            assert forall|i: int| is_last_pair(pairs, key, value, i) implies i == n by {
                assert(pairs[n].0 == key);
            }
            if pairs.last().1 == value {
                assert(is_last_pair(pairs, key, value, n));
            }
            assert(pairs[n].0 == key);
        } else {
            if exists|i: int| is_last_pair(rest, key, value, i) {
                let i = choose|i: int| is_last_pair(rest, key, value, i);
                assert forall|j: int| i < j < pairs.len() implies (#[trigger] pairs[j]).0
                    != key by {
                    if j < n {
                        assert(rest[j] == pairs[j]);
                    }
                }
                assert(is_last_pair(pairs, key, value, i));
            }
            if exists|i: int| is_last_pair(pairs, key, value, i) {
                let i = choose|i: int| is_last_pair(pairs, key, value, i);
                assert(i < n);
                assert forall|j: int| i < j < rest.len() implies (#[trigger] rest[j]).0 != key by {
                    assert(rest[j] == pairs[j]);
                }
                assert(is_last_pair(rest, key, value, i));
            }
            if last_of(rest, key) is None {
                assert forall|i: int| 0 <= i < pairs.len() implies (#[trigger] pairs[i]).0
                    != key by {
                    if i < n {
                        assert(rest[i] == pairs[i]);
                    }
                }
            }
            if forall|i: int| 0 <= i < pairs.len() ==> (#[trigger] pairs[i]).0 != key {
                assert forall|i: int| 0 <= i < rest.len() implies (#[trigger] rest[i]).0 != key by {
                    assert(rest[i] == pairs[i]);
                }
            }
        }
    } else {
        assert forall|i: int| !is_last_pair(pairs, key, value, i) by {}
    }
}

/// A `sheet` element with a name and the identifier of a relationship gives one sheet,
/// with that name and with the path of the last relationship with the identifier.
/// Without such a relationship, or without one of the two attributes, it gives none.
pub proof fn lemma_sheet_element(
    tag: TagView,
    name: Option<Seq<char>>,
    id: Option<Seq<char>>,
    relationships: Seq<(Seq<char>, Seq<char>)>,
    i: int,
    path: Seq<char>,
)
    requires
        is_called(tag.name, "sheet"@),
        are_readable(tag.attributes),
        says_last(tag.attributes, "name"@, name),
        says_last(tag.attributes, "id"@, id),
    ensures
        workbook_outcome(seq![XmlView::Start(tag)], relationships) matches Ok(book) && {
            &&& name is Some && id is Some && is_last_pair(relationships, id->Some_0, path, i)
                ==> book.sheets == seq![(name->Some_0, path)]
            &&& name is None || id is None || (forall|j: int|
                0 <= j < relationships.len() ==> (#[trigger] relationships[j]).0 != id->Some_0)
                ==> book.sheets == Seq::<(Seq<char>, Seq<char>)>::empty()
        },
{
    lemma_plain_names();
    lemma_local_part(tag.name, "sheet"@);
    lemma_sheet_names(tag.attributes, 0, None, None);
    if let Some(text) = name {
        let j = choose|j: int| is_last_value(tag.attributes, "name"@, text, j);
        assert(is_last_value(tag.attributes, "name"@, text, j));
    }
    if let Some(text) = id {
        let j = choose|j: int| is_last_value(tag.attributes, "id"@, text, j);
        assert(is_last_value(tag.attributes, "id"@, text, j));
        lemma_last_of(relationships, text, path);
    }
    assert(sheet_names(tag.attributes, 0, None, None) == Ok::<
        (Option<Seq<char>>, Option<Seq<char>>),
        ErrorView,
    >((name, id)));
    let none = Workbook { sheets: Seq::empty(), is_1904: false };
    let events = seq![XmlView::Start(tag)];
    reveal_with_fuel(workbook_from, 2);
    assert(events[0] == XmlView::Start(tag));
    if let Some(text) = id {
        if name is Some {
            if last_of(relationships, text) == Some(path) {
                let book = workbook_outcome(events, relationships)->Ok_0;
                assert(book.sheets =~= seq![(name->Some_0, path)]);
            }
        }
    }
}

/// Events other than the start of a `sheet` element give no sheet.
pub proof fn lemma_other_events_give_no_sheet(
    event: XmlView,
    relationships: Seq<(Seq<char>, Seq<char>)>,
)
    requires
        !starts(event, "sheet"@),
    ensures
        workbook_outcome(seq![event], relationships) matches Ok(book) ==> book.sheets == Seq::<
            (Seq<char>, Seq<char>),
        >::empty(),
        !starts(event, "workbookPr"@) && !(event is Fault) ==> workbook_outcome(
            seq![event],
            relationships,
        ) is Ok,
{
    lemma_plain_names();
    if let XmlView::Start(tag) = event {
        lemma_local_part(tag.name, "sheet"@);
        lemma_local_part(tag.name, "workbookPr"@);
    }
    reveal_with_fuel(workbook_from, 2);
    assert(seq![event][0] == event);
}

proof fn lemma_relationships_shifted(
    a: Seq<XmlView>,
    b: Seq<XmlView>,
    at: int,
    found: Seq<(Seq<char>, Seq<char>)>,
    other: Seq<(Seq<char>, Seq<char>)>,
)
    requires
        0 <= at <= b.len(),
    ensures
        match relationships_from(b, at, other) {
            Ok(last) => {
                &&& relationships_from(a + b, a.len() + at, found) matches Ok(all)
                &&& exists|more: Seq<(Seq<char>, Seq<char>)>|
                    all == found + more && last == #[trigger] (other + more)
            },
            Err(error) => relationships_from(a + b, a.len() + at, found) is Err,
        },
    decreases b.len() - at,
{
    if at < b.len() {
        assert((a + b)[a.len() + at] == b[at]);
        match b[at] {
            XmlView::Fault(_) => {},
            XmlView::Start(tag) if local_part(tag.name) == "Relationship"@ => {
                match (
                    attribute_value(tag.attributes, "Id"@),
                    attribute_value(tag.attributes, "Target"@),
                ) {
                    (Ok(Some(id)), Ok(Some(target))) => {
                        let pair = (id, part_path(target));
                        lemma_relationships_shifted(a, b, at + 1, found.push(pair), other.push(pair));
                        if let Ok(last) = relationships_from(b, at, other) {
                            let all = relationships_from(a + b, a.len() + at, found)->Ok_0;
                            let more = choose|more: Seq<(Seq<char>, Seq<char>)>|
                                all == found.push(pair) + more && last == #[trigger] (other.push(
                                    pair,
                                ) + more);
                            let whole = seq![pair] + more;
                            assert(all =~= found + whole);
                            assert(last =~= other + whole);
                        }
                    },
                    _ => {
                        lemma_relationships_shifted(a, b, at + 1, found, other);
                    },
                }
            },
            _ => {
                lemma_relationships_shifted(a, b, at + 1, found, other);
            },
        }
    } else {
        let more = Seq::<(Seq<char>, Seq<char>)>::empty();
        assert(found =~= found + more);
        assert(other =~= other + more);
    }
}

proof fn lemma_relationships_reach_end(
    a: Seq<XmlView>,
    b: Seq<XmlView>,
    at: int,
    found: Seq<(Seq<char>, Seq<char>)>,
)
    requires
        0 <= at <= a.len(),
    ensures
        relationships_from(a + b, at, found) == match relationships_from(a, at, found) {
            Ok(next) => relationships_from(a + b, a.len() as int, next),
            Err(error) => Err(error),
        },
    decreases a.len() - at,
{
    if at < a.len() {
        assert((a + b)[at] == a[at]);
        match a[at] {
            XmlView::Fault(_) => {},
            XmlView::Start(tag) if local_part(tag.name) == "Relationship"@ => {
                match (
                    attribute_value(tag.attributes, "Id"@),
                    attribute_value(tag.attributes, "Target"@),
                ) {
                    (Ok(Some(id)), Ok(Some(target))) => {
                        lemma_relationships_reach_end(
                            a,
                            b,
                            at + 1,
                            found.push((id, part_path(target))),
                        );
                    },
                    _ => {
                        lemma_relationships_reach_end(a, b, at + 1, found);
                    },
                }
            },
            _ => {
                lemma_relationships_reach_end(a, b, at + 1, found);
            },
        }
    }
}

/// The relationships of a document are those of its first part and then those of the
/// rest, wherever it is cut.
pub proof fn lemma_relationships_join(a: Seq<XmlView>, b: Seq<XmlView>)
    ensures
        match (relationships_from(a, 0, Seq::empty()), relationships_from(b, 0, Seq::empty())) {
            (Ok(first), Ok(second)) => relationships_from(a + b, 0, Seq::empty()) == Ok::<
                Seq<(Seq<char>, Seq<char>)>,
                ErrorView,
            >(first + second),
            _ => relationships_from(a + b, 0, Seq::empty()) is Err,
        },
{
    let none = Seq::<(Seq<char>, Seq<char>)>::empty();
    lemma_relationships_reach_end(a, b, 0, none);
    if let Ok(first) = relationships_from(a, 0, none) {
        lemma_relationships_shifted(a, b, 0, first, none);
        if let Ok(second) = relationships_from(b, 0, none) {
            let all = relationships_from(a + b, 0, none)->Ok_0;
            let more = choose|more: Seq<(Seq<char>, Seq<char>)>|
                all == first + more && second == #[trigger] (none + more);
            assert(second =~= more);
        }
    }
}

/// A `Relationship` element with an identifier and a target gives one relationship. Its
/// path is the target without the slash in front of it, or else the target in the
/// directory `xl`. Without one of the two attributes it gives none, and neither does
/// any other event.
pub proof fn lemma_relationship_element(
    event: XmlView,
    id: Option<Seq<char>>,
    target: Option<Seq<char>>,
    path: Seq<char>,
)
    requires
        starts(event, "Relationship"@) ==> says(event->Start_0.attributes, "Id"@, id) && says(
            event->Start_0.attributes,
            "Target"@,
            target,
        ),
        !(event is Fault),
    ensures
        ({
            let found = relationships_from(seq![event], 0, Seq::empty());
            &&& found is Ok
            &&& starts(event, "Relationship"@) && id is Some && (target == Some("/"@ + path) || (
            target == Some(path.skip(3)) && path.len() > 3 && path.take(3) == "xl/"@ && path[3]
                != '/')) ==> found->Ok_0 == seq![(id->Some_0, path)]
            &&& !starts(event, "Relationship"@) || id is None || target is None ==> found->Ok_0
                == Seq::<(Seq<char>, Seq<char>)>::empty()
        }),
{
    lemma_plain_names();
    reveal_strlit("/");
    if let XmlView::Start(tag) = event {
        lemma_local_part(tag.name, "Relationship"@);
        if starts(event, "Relationship"@) {
            lemma_attribute_value(tag.attributes, "Id"@, id);
            lemma_attribute_value(tag.attributes, "Target"@, target);
            if target == Some("/"@ + path) {
                assert(("/"@ + path).skip(1) =~= path);
                assert(part_path(target->Some_0) == path);
            }
            if target == Some(path.skip(3)) && path.len() > 3 && path.take(3) == "xl/"@ && path[3]
                != '/' {
                assert(path =~= "xl/"@ + path.skip(3));
                assert(target->Some_0[0] == path[3]);
                assert(part_path(target->Some_0) == path);
            }
        }
    }
    reveal_with_fuel(relationships_from, 2);
    let none = Seq::<(Seq<char>, Seq<char>)>::empty();
    assert(seq![event][0] == event);
    if id is Some && target is Some {
        let pair = (id->Some_0, path);
        assert(none.push(pair) =~= seq![pair]);
    }
}

} // verus!
