//! Loading some shared strings gives the same strings as loading all of them.

use crate::helpers::xml::XmlView;
use crate::spreadsheet::xlsx::text::lemma_string_value_bounds;
use crate::spreadsheet::xlsx::text::loaded_strings;
use crate::spreadsheet::xlsx::text::string_from;
use crate::spreadsheet::xlsx::text::string_value;
use crate::spreadsheet::xlsx::text::strings_from;
use crate::spreadsheet::xlsx::text::text_step;
use crate::spreadsheet::xlsx::text::wanted_from;
use crate::spreadsheet::xlsx::text::LoadedStrings;
use crate::spreadsheet::xlsx::text::TextScan;
use crate::spreadsheet::xlsx::text::TAG_SHARED_STRING_ITEM;
use vstd::prelude::*;

verus! {

/// Whether an event starts an item of the table of shared strings.
pub open spec fn starts_item(event: XmlView) -> bool {
    event matches XmlView::Start(tag) && tag.name == TAG_SHARED_STRING_ITEM@
}

/// Whether an item ends between two events.
pub open spec fn ends_between(events: Seq<XmlView>, i: int, j: int) -> bool {
    exists|k: int| i < k < j && #[trigger] events[k] == XmlView::End(TAG_SHARED_STRING_ITEM@)
}

/// Whether no item stands inside of another one.
pub open spec fn items_are_flat(events: Seq<XmlView>) -> bool {
    forall|i: int, j: int|
        #![trigger starts_item(events[i]), starts_item(events[j])]
        0 <= i < j < events.len() && starts_item(events[i]) && starts_item(events[j])
            ==> ends_between(events, i, j)
}

/// Whether an event is neither a fault nor the start of an item.
spec fn is_quiet(event: XmlView) -> bool {
    !(event is Fault) && !starts_item(event)
}

proof fn lemma_string_stops_at_end(
    events: Seq<XmlView>,
    at: int,
    end_tag: Seq<char>,
    scan: TextScan,
    i: int,
)
    requires
        0 <= at <= i < events.len(),
        string_from(events, at, end_tag, scan) matches Ok((_, end)) && i < end,
    ensures
        !(events[i] is Fault),
        events[i] == XmlView::End(end_tag) ==> (string_from(events, at, end_tag, scan) matches Ok(
            (_, end),
        ) && end == i + 1),
    decreases i - at,
{
    if i > at {
        if events[at] != XmlView::End(end_tag) {
            if let Ok(next) = text_step(scan, events[at]) {
                lemma_string_stops_at_end(events, at + 1, end_tag, next, i);
            }
        }
    }
}

proof fn lemma_item_is_quiet(events: Seq<XmlView>, at: int)
    requires
        items_are_flat(events),
        0 <= at < events.len(),
        starts_item(events[at]),
        string_value(events, at + 1, TAG_SHARED_STRING_ITEM@, false) is Ok,
    ensures
        ({
            &&& string_value(events, at + 1, TAG_SHARED_STRING_ITEM@, false) matches Ok((_, end))
            &&& at + 1 <= end <= events.len()
            &&& forall|i: int| at < i < end ==> is_quiet(#[trigger] events[i])
        }),
{
    let tag = TAG_SHARED_STRING_ITEM@;
    let scan = TextScan { phonetic: false, is_text: false, text: Seq::empty() };
    lemma_string_value_bounds(events, at + 1, tag, false);
    if let Ok((_, end)) = string_value(events, at + 1, tag, false) {
        assert forall|i: int| at < i < end implies is_quiet(#[trigger] events[i]) by {
            lemma_string_stops_at_end(events, at + 1, tag, scan, i);
            if starts_item(events[i]) {
                assert(ends_between(events, at, i));
                let k = choose|k: int| at < k < i && #[trigger] events[k] == XmlView::End(tag);
                lemma_string_stops_at_end(events, at + 1, tag, scan, k);
            }
        }
    }
}

proof fn lemma_quiet_events_are_passed(
    events: Seq<XmlView>,
    from: int,
    to: int,
    wanted: Set<usize>,
    id: int,
    loaded: LoadedStrings,
)
    requires
        0 <= from <= to <= events.len(),
        forall|i: int| from <= i < to ==> is_quiet(#[trigger] events[i]),
    ensures
        wanted_from(events, from, wanted, id, loaded) == wanted_from(
            events,
            to,
            wanted,
            id,
            loaded,
        ),
    decreases to - from,
{
    if from < to {
        assert(is_quiet(events[from]));
        lemma_quiet_events_are_passed(events, from + 1, to, wanted, id, loaded);
    }
}

/// Whether strings that were loaded hold, besides those before, the wanted ones of
/// some more strings, the first of which has the number `id`: each of them once, in
/// the order of their numbers.
pub open spec fn holds_wanted(
    before: LoadedStrings,
    after: LoadedStrings,
    wanted: Set<usize>,
    id: int,
    more: Seq<Seq<char>>,
) -> bool {
    &&& before.strings.is_prefix_of(after.strings)
    &&& after.mappings.dom().finite()
    &&& after.mappings.dom().len() == after.strings.len()
    &&& forall|n: usize|
        #[trigger] after.mappings.contains_key(n) <==> before.mappings.contains_key(n) || (
        wanted.contains(n) && id <= n < id + more.len())
    &&& forall|n: usize|
        before.mappings.contains_key(n) ==> #[trigger] after.mappings[n] == before.mappings[n]
    &&& forall|n: usize|
        wanted.contains(n) && id <= n < id + more.len() ==> before.strings.len() <= (
        #[trigger] after.mappings[n]) < after.strings.len()
            && after.strings[after.mappings[n] as int] == more[n - id]
    &&& forall|n: usize, m: usize|
        wanted.contains(n) && wanted.contains(m) && id <= n < m < id + more.len() ==> (
        #[trigger] after.mappings[n]) < #[trigger] after.mappings[m]
}

/// Whether the strings that were loaded are as many as their numbers, which all lie
/// below `id`.
spec fn is_loaded(loaded: LoadedStrings, id: int) -> bool {
    &&& loaded.mappings.dom().finite()
    &&& loaded.mappings.dom().len() == loaded.strings.len() <= id
    &&& forall|n: usize| #[trigger] loaded.mappings.contains_key(n) ==> n < id
}

/// Loading string `id`, and then the wanted ones of those behind it, is loading the
/// wanted ones from string `id` on.
proof fn lemma_load_one(
    loaded: LoadedStrings,
    now: LoadedStrings,
    after: LoadedStrings,
    wanted: Set<usize>,
    id: usize,
    text: Seq<char>,
    rest: Seq<Seq<char>>,
)
    requires
        is_loaded(loaded, id as int),
        wanted.contains(id),
        forall|n: usize| #[trigger] wanted.contains(n) ==> n >= id,
        now.strings == loaded.strings.push(text),
        now.mappings == loaded.mappings.insert(id, loaded.strings.len() as usize),
        loaded.strings.len() <= usize::MAX,
        holds_wanted(now, after, wanted.remove(id), id + 1, rest),
    ensures
        holds_wanted(loaded, after, wanted, id as int, seq![text] + rest),
{
    let more = seq![text] + rest;
    let others = wanted.remove(id);
    assert(now.mappings.contains_key(id));
    assert(after.mappings[id] == now.mappings[id]);
    assert(now.strings[loaded.strings.len() as int] == text);
    assert(now.strings == after.strings.subrange(0, now.strings.len() as int));
    assert(after.strings[loaded.strings.len() as int] == text);
    assert(loaded.strings =~= now.strings.subrange(0, loaded.strings.len() as int));
    assert(loaded.strings =~= after.strings.subrange(0, loaded.strings.len() as int));
    assert forall|n: usize|
        wanted.contains(n) && id <= n < id + more.len() implies loaded.strings.len() <= (
    #[trigger] after.mappings[n]) < after.strings.len() && after.strings[after.mappings[n] as int]
        == more[n - id] by {
        if n != id {
            assert(others.contains(n));
        }
    }
    assert forall|n: usize| #[trigger]
        after.mappings.contains_key(n) <==> loaded.mappings.contains_key(n) || (wanted.contains(n)
            && id <= n < id + more.len()) by {
        assert(now.mappings.contains_key(n) <==> loaded.mappings.contains_key(n) || n == id);
    }
    assert forall|n: usize| loaded.mappings.contains_key(n) implies #[trigger] after.mappings[n]
        == loaded.mappings[n] by {
        assert(now.mappings.contains_key(n));
    }
    assert forall|n: usize, m: usize|
        wanted.contains(n) && wanted.contains(m) && id <= n < m < id + more.len() implies (
    #[trigger] after.mappings[n]) < #[trigger] after.mappings[m] by {
        assert(others.contains(m));
        if n != id {
            assert(others.contains(n));
        }
    }
}

proof fn lemma_wanted_strings(
    events: Seq<XmlView>,
    at: int,
    wanted: Set<usize>,
    id: int,
    loaded: LoadedStrings,
)
    requires
        items_are_flat(events),
        0 <= at <= events.len(),
        strings_from(events, at) is Ok,
        0 <= id,
        id + (events.len() - at) <= usize::MAX,
        is_loaded(loaded, id),
        forall|n: usize| #[trigger] wanted.contains(n) ==> n >= id,
    ensures
        ({
            &&& strings_from(events, at) matches Ok(more)
            &&& wanted_from(events, at, wanted, id, loaded) matches Ok(after)
            &&& holds_wanted(loaded, after, wanted, id, more)
        }),
    decreases events.len() - at,
{
    if at < events.len() {
        if starts_item(events[at]) {
            lemma_item_is_quiet(events, at);
            let (text, end) = string_value(
                events,
                at + 1,
                TAG_SHARED_STRING_ITEM@,
                false,
            )->Ok_0;
            let rest = strings_from(events, end)->Ok_0;
            let more = strings_from(events, at)->Ok_0;
            assert(more == seq![text] + rest);
            let number = id as usize;
            if wanted.contains(number) {
                let now = LoadedStrings {
                    strings: loaded.strings.push(text),
                    mappings: loaded.mappings.insert(number, loaded.strings.len() as usize),
                };
                let others = wanted.remove(number);
                assert(!loaded.mappings.contains_key(number));
                assert(now.mappings.dom() =~= loaded.mappings.dom().insert(number));
                lemma_wanted_strings(events, end, others, id + 1, now);
                if others.is_empty() {
                    assert(holds_wanted(now, now, others, id + 1, rest));
                    lemma_load_one(loaded, now, now, wanted, number, text, rest);
                } else {
                    let after = wanted_from(events, end, others, id + 1, now)->Ok_0;
                    lemma_load_one(loaded, now, after, wanted, number, text, rest);
                }
            } else if wanted.is_empty() {
            } else {
                lemma_quiet_events_are_passed(events, at + 1, end, wanted, id + 1, loaded);
                lemma_wanted_strings(events, end, wanted, id + 1, loaded);
                let after = wanted_from(events, end, wanted, id + 1, loaded)->Ok_0;
                assert forall|n: usize|
                    wanted.contains(n) && id <= n < id + more.len() implies loaded.strings.len()
                    <= (#[trigger] after.mappings[n]) < after.strings.len()
                    && after.strings[after.mappings[n] as int] == more[n - id] by {
                    assert(n != number);
                    assert(more[n - id] == rest[n - (id + 1)]);
                }
            }
        } else {
            lemma_wanted_strings(events, at + 1, wanted, id, loaded);
        }
    }
}

/// Asking for some shared strings gives what loading all of them gives: each wanted
/// number that the table has gets a place, no other number does, and at that place
/// stands the string with that number. There are as many strings as such numbers,
/// and they stand in the order of the table. Where loading all of them fails, nothing
/// is said: reading may end before it reaches the fault.
pub proof fn lemma_wanted_strings_agree(events: Seq<XmlView>, wanted: Set<usize>)
    requires
        items_are_flat(events),
        events.len() <= usize::MAX,
    ensures
        strings_from(events, 0) matches Ok(all) ==> {
            &&& loaded_strings(events, Some(wanted)) matches Ok(loaded)
            &&& loaded.mappings.dom().finite()
            &&& loaded.strings.len() == loaded.mappings.dom().len()
            &&& forall|n: usize|
                #[trigger] loaded.mappings.contains_key(n) <==> wanted.contains(n) && n < all.len()
            &&& forall|n: usize|
                wanted.contains(n) && n < all.len() ==> #[trigger] loaded.mappings[n]
                    < loaded.strings.len() && loaded.strings[loaded.mappings[n] as int] == all[n as int]
            &&& forall|n: usize, m: usize|
                wanted.contains(n) && wanted.contains(m) && n < m < all.len() ==> (
                #[trigger] loaded.mappings[n]) < #[trigger] loaded.mappings[m]
        },
{
    if strings_from(events, 0) is Ok {
        let none = LoadedStrings { strings: Seq::empty(), mappings: Map::empty() };
        lemma_wanted_strings(events, 0, wanted, 0, none);
    }
}

/// The numbers of the events, from `at` on, that start items.
pub open spec fn item_starts(events: Seq<XmlView>, at: int) -> Seq<int>
    decreases events.len() - at,
{
    if at < 0 || at >= events.len() {
        Seq::empty()
    } else if starts_item(events[at]) {
        seq![at] + item_starts(events, at + 1)
    } else {
        item_starts(events, at + 1)
    }
}

proof fn lemma_quiet_events_start_nothing(events: Seq<XmlView>, from: int, to: int)
    requires
        0 <= from <= to <= events.len(),
        forall|i: int| from <= i < to ==> is_quiet(#[trigger] events[i]),
    ensures
        item_starts(events, from) == item_starts(events, to),
    decreases to - from,
{
    if from < to {
        assert(is_quiet(events[from]));
        lemma_quiet_events_start_nothing(events, from + 1, to);
    }
}

/// Loading all shared strings gives one string for each item of the table, in order.
pub proof fn lemma_one_string_per_item(events: Seq<XmlView>, at: int)
    requires
        items_are_flat(events),
        0 <= at <= events.len(),
    ensures
        strings_from(events, at) matches Ok(all) ==> {
            let starts = item_starts(events, at);
            &&& all.len() == starts.len()
            &&& forall|k: int|
                0 <= k < all.len() ==> (string_value(
                    events,
                    #[trigger] starts[k] + 1,
                    TAG_SHARED_STRING_ITEM@,
                    false,
                ) matches Ok((text, _)) && text == all[k])
        },
    decreases events.len() - at,
{
    if at < events.len() && strings_from(events, at) is Ok {
        if starts_item(events[at]) {
            lemma_item_is_quiet(events, at);
            let (text, end) = string_value(
                events,
                at + 1,
                TAG_SHARED_STRING_ITEM@,
                false,
            )->Ok_0;
            lemma_quiet_events_start_nothing(events, at + 1, end);
            lemma_one_string_per_item(events, end);
            let starts = item_starts(events, at);
            let all = strings_from(events, at)->Ok_0;
            let later = item_starts(events, end);
            assert forall|k: int| 0 <= k < all.len() implies (string_value(
                events,
                #[trigger] starts[k] + 1,
                TAG_SHARED_STRING_ITEM@,
                false,
            ) matches Ok((text, _)) && text == all[k]) by {
                if k > 0 {
                    assert(starts[k] == later[k - 1]);
                    assert(all[k] == strings_from(events, end)->Ok_0[k - 1]);
                }
            }
        } else {
            lemma_one_string_per_item(events, at + 1);
        }
    }
}

} // verus!
