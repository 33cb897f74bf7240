//! Reader for the records of the BIFF8 format (`.xls` files), with continuation
//! records.

use crate::error::Biff8Error;
use crate::error::ErrorView;
use crate::error::IoError;
use crate::error::RustySheetError;
use crate::helpers::encoding::decode_text;
use crate::helpers::encoding::decoded_text;
use crate::helpers::encoding::UTF_16LE;
use crate::helpers::source::ByteSource;
use crate::helpers::string::le_value;
use crate::helpers::string::lemma_le_round_trip_bytes;
use crate::helpers::string::pow256;
use crate::helpers::string::to_u16;
use crate::helpers::string::to_u32;
use crate::helpers::string::to_u64;
use crate::helpers::string::to_usize;
use crate::helpers::text::signed_decimal;
use crate::helpers::text::signed_decimal_text;
use vstd::prelude::*;

verus! {

/// The type of a continuation record.
pub const CONTINUE: u16 = 60;

/// Records up to this size are copied to memory when they are reached.
pub const MAX_CACHED_RECORD_SIZE: usize = 65536;

/// The error for fewer than `n` remaining bytes.
pub open spec fn short_of(n: int) -> ErrorView {
    ErrorView::Biff8(Biff8Error::NoEnoughDataError(n as usize))
}

/// The 16-bit number at `at` in a file of which the first `length` bytes hold
/// records.
pub open spec fn file_u16(data: Seq<u8>, length: int, at: int) -> Result<u16, ErrorView> {
    if at + 2 > length {
        Err(short_of(2))
    } else if at + 2 > data.len() {
        Err(ErrorView::Io(IoError::UnexpectedEof))
    } else {
        Ok(le_value(data.subrange(at, at + 2)) as u16)
    }
}

/// The data ranges of the continuation records that follow at `at`.
pub open spec fn continuations(data: Seq<u8>, length: int, at: int) -> Result<
    Seq<(int, int)>,
    ErrorView,
>
    decreases
            (if length > at {
                length - at
            } else {
                0
            }),
{
    if at + 4 < length {
        match file_u16(data, length, at) {
            Err(error) => Err(error),
            Ok(kind) => if kind != CONTINUE {
                Ok(Seq::empty())
            } else {
                match file_u16(data, length, at + 2) {
                    Err(error) => Err(error),
                    Ok(size) => match continuations(data, length, at + 4 + size) {
                        Err(error) => Err(error),
                        Ok(more) => Ok(seq![(at + 4, at + 4 + size)] + more),
                    },
                }
            },
        }
    } else {
        Ok(Seq::empty())
    }
}

/// The record at `at`: its type and the data ranges of its chunks. There is none
/// where no more than four bytes are left.
pub open spec fn record_at(data: Seq<u8>, length: int, at: int) -> Result<
    Option<(u16, Seq<(int, int)>)>,
    ErrorView,
> {
    if at + 4 < length {
        match file_u16(data, length, at) {
            Err(error) => Err(error),
            Ok(kind) => match file_u16(data, length, at + 2) {
                Err(error) => Err(error),
                Ok(size) => match continuations(data, length, at + 4 + size) {
                    Err(error) => Err(error),
                    Ok(more) => Ok(Some((kind, seq![(at + 4, at + 4 + size)] + more))),
                },
            },
        }
    } else {
        Ok(None)
    }
}

/// The data ranges of the continuation records that follow at `at`, up to the first
/// one whose header cannot be read.
pub open spec fn continuations_reached(data: Seq<u8>, length: int, at: int) -> Seq<(int, int)>
    decreases
            (if length > at {
                length - at
            } else {
                0
            }),
{
    if at + 4 < length {
        match (file_u16(data, length, at), file_u16(data, length, at + 2)) {
            (Ok(kind), Ok(size)) => if kind != CONTINUE {
                Seq::empty()
            } else {
                seq![(at + 4, at + 4 + size)] + continuations_reached(data, length, at + 4 + size)
            },
            _ => Seq::empty(),
        }
    } else {
        Seq::empty()
    }
}

/// The data ranges of the chunks of the record at `at`, up to the first one whose
/// header cannot be read.
pub open spec fn chunks_reached(data: Seq<u8>, length: int, at: int) -> Seq<(int, int)> {
    match (file_u16(data, length, at), file_u16(data, length, at + 2)) {
        (Ok(_), Ok(size)) => seq![(at + 4, at + 4 + size)] + continuations_reached(
            data,
            length,
            at + 4 + size,
        ),
        _ => Seq::empty(),
    }
}

/// The number of bytes in all ranges.
pub open spec fn span_total(spans: Seq<(int, int)>) -> int
    decreases spans.len(),
{
    if spans.len() == 0 {
        0
    } else {
        span_total(spans.drop_last()) + (spans.last().1 - spans.last().0)
    }
}

/// The ranges up to the first empty one: an empty chunk ends a record for its
/// readers.
pub open spec fn live(spans: Seq<(int, int)>) -> Seq<(int, int)>
    decreases spans.len(),
{
    if spans.len() == 0 || spans[0].0 >= spans[0].1 {
        Seq::empty()
    } else {
        seq![spans[0]] + live(spans.drop_first())
    }
}

/// The bytes of each range.
pub open spec fn span_bytes(store: Seq<u8>, spans: Seq<(int, int)>) -> Seq<Seq<u8>> {
    spans.map_values(|span: (int, int)| store.subrange(span.0, span.1))
}

/// Whether all ranges lie within `length` bytes.
pub open spec fn spans_within(spans: Seq<(int, int)>, length: int) -> bool {
    forall|i: int| 0 <= i < spans.len() ==> (#[trigger] spans[i]).1 <= length
}

/// The number of ranges before the first one that ends behind `length`.
pub open spec fn count_within(spans: Seq<(int, int)>, length: int) -> int
    decreases spans.len(),
{
    if spans.len() == 0 || spans[0].1 > length {
        0
    } else {
        1 + count_within(spans.drop_first(), length)
    }
}

/// Where the byte at logical offset `at` of the joined ranges stands in their store.
pub open spec fn place_in(spans: Seq<(int, int)>, at: int) -> Option<int>
    decreases spans.len(),
{
    if spans.len() == 0 {
        None
    } else if at < spans[0].1 - spans[0].0 {
        Some(spans[0].0 + at)
    } else {
        place_in(spans.drop_first(), at - (spans[0].1 - spans[0].0))
    }
}

/// The part of the current chunk that a request for `length` bytes takes, as
/// a position and a size, or `None` where nothing is left.
pub open spec fn taken(pending: Seq<(int, int)>, length: int) -> Option<(int, int)> {
    if pending.len() == 0 {
        None
    } else if pending[0].0 + length < pending[0].1 {
        Some((pending[0].0, length))
    } else {
        Some((pending[0].0, pending[0].1 - pending[0].0))
    }
}

/// What is left after a request for `length` bytes.
pub open spec fn left(pending: Seq<(int, int)>, length: int) -> Seq<(int, int)> {
    if pending.len() == 0 {
        pending
    } else if pending[0].0 + length < pending[0].1 {
        pending.update(0, (pending[0].0 + length, pending[0].1))
    } else {
        pending.drop_first()
    }
}

/// The bytes `at..at + length` of the store, or the error at its end.
pub open spec fn stored(store: Seq<u8>, at: int, length: int) -> Result<Seq<u8>, ErrorView> {
    if length == 0 {
        Ok(Seq::empty())
    } else if at + length <= store.len() {
        Ok(store.subrange(at, at + length))
    } else {
        Err(ErrorView::Io(IoError::UnexpectedEof))
    }
}

/// The next `length` bytes, all of them from one chunk.
pub open spec fn exact_bytes(store: Seq<u8>, pending: Seq<(int, int)>, length: int) -> Result<
    Seq<u8>,
    ErrorView,
> {
    match taken(pending, length) {
        Some((at, size)) => if size == length {
            stored(store, at, length)
        } else {
            Err(short_of(length))
        },
        None => Err(short_of(length)),
    }
}

/// Up to `length` bytes of the current chunk.
pub open spec fn some_bytes(store: Seq<u8>, pending: Seq<(int, int)>, length: int) -> Result<
    Seq<u8>,
    ErrorView,
> {
    match taken(pending, length) {
        Some((at, size)) => stored(store, at, size),
        None => Ok(Seq::empty()),
    }
}

/// Whether `length` bytes can be skipped within one chunk.
pub open spec fn skipped(pending: Seq<(int, int)>, length: int) -> Result<(), ErrorView> {
    match taken(pending, length) {
        Some((_, size)) => if size == length {
            Ok(())
        } else {
            Err(short_of(length))
        },
        None => if length == 0 {
            Ok(())
        } else {
            Err(short_of(length))
        },
    }
}

/// The 16-bit number at `at` of the given bytes.
pub open spec fn number_at(bytes: Seq<u8>, at: int) -> Result<u16, ErrorView> {
    if at < 0 || at + 2 > bytes.len() {
        Err(short_of(2))
    } else {
        Ok(le_value(bytes.subrange(at, at + 2)) as u16)
    }
}

/// The 16-bit number at logical offset `at` of the joined ranges, some of which may
/// end behind their store.
pub open spec fn number_at_places(store: Seq<u8>, spans: Seq<(int, int)>, at: int) -> Result<
    u16,
    ErrorView,
> {
    match (place_in(spans, at), place_in(spans, at + 1)) {
        (Some(low), Some(high)) => if low < store.len() && high < store.len() {
            Ok(le_value(seq![store[low], store[high]]) as u16)
        } else {
            Err(ErrorView::Io(IoError::UnexpectedEof))
        },
        _ => Err(short_of(2)),
    }
}

/// The byte at `at` in a file of which the first `length` bytes hold records.
pub open spec fn file_u8(data: Seq<u8>, length: int, at: int) -> Result<u8, ErrorView> {
    if at + 1 > length {
        Err(short_of(2))
    } else if at + 1 > data.len() {
        Err(ErrorView::Io(IoError::UnexpectedEof))
    } else {
        Ok(data[at])
    }
}

/// The byte at logical offset `at` of the record whose headers start at `header`
/// and end at `end`, read from the file.
pub open spec fn byte_in_file(data: Seq<u8>, length: int, header: int, end: int, at: int) -> Result<
    u8,
    ErrorView,
>
    decreases end - header,
{
    match file_u16(data, length, header + 2) {
        Err(error) => Err(error),
        Ok(size) => if at < size {
            file_u8(data, length, header + 4 + at)
        } else if header + 4 + size >= end {
            Err(short_of(2))
        } else {
            byte_in_file(data, length, header + 4 + size, end, at - size)
        },
    }
}

/// The two bytes at logical offset `at` of the record whose headers start at
/// `header` and end at `end`, read from the file. They may stand in two chunks.
pub open spec fn back_in_file(data: Seq<u8>, length: int, header: int, end: int, at: int) -> Result<
    u16,
    ErrorView,
>
    decreases end - header,
{
    match file_u16(data, length, header + 2) {
        Err(error) => Err(error),
        Ok(size) => if at + 2 <= size {
            file_u16(data, length, header + 4 + at)
        } else if header + 4 + size >= end {
            Err(short_of(2))
        } else if at < size {
            match file_u8(data, length, header + 4 + at) {
                Err(error) => Err(error),
                Ok(low) => match byte_in_file(data, length, header + 4 + size, end, 0) {
                    Err(error) => Err(error),
                    Ok(high) => Ok(le_value(seq![low, high]) as u16),
                },
            }
        } else {
            back_in_file(data, length, header + 4 + size, end, at - size)
        },
    }
}

/// The characters with the given byte values.
pub open spec fn latin_text(bytes: Seq<u8>) -> Seq<char> {
    bytes.map_values(|byte: u8| byte as char)
}

/// The text of string bytes: in the workbook's encoding where the characters take
/// two bytes, else one character for each byte.
pub open spec fn string_text(label: Seq<char>, wide: bool, bytes: Seq<u8>) -> Result<
    Seq<char>,
    ErrorView,
> {
    if wide {
        match decoded_text(label, bytes) {
            Some(text) => Ok(text),
            None => Err(ErrorView::WithContextError("unknown encoding: "@ + label)),
        }
    } else {
        Ok(latin_text(bytes))
    }
}

/// What is read of a string's flags and counts.
pub struct StringHead {
    /// Whether the characters take two bytes.
    pub wide: bool,
    /// The number of formatting runs, of four bytes each.
    pub runs: int,
    /// The number of bytes of phonetic data.
    pub phonetic: int,
}

/// The outcome of reading a string's head, and what is left.
pub open spec fn string_head(store: Seq<u8>, pending: Seq<(int, int)>, is_extend: bool) -> (
    Result<StringHead, ErrorView>,
    Seq<(int, int)>,
) {
    let after_flag = left(pending, 1);
    match exact_bytes(store, pending, 1) {
        Err(error) => (Err(error), after_flag),
        Ok(flag_bytes) => {
            let flag = flag_bytes[0];
            let has_runs = is_extend && flag / 8 % 2 == 1;
            let has_phonetic = is_extend && flag / 4 % 2 == 1;
            let runs = if has_runs {
                exact_bytes(store, after_flag, 2)
            } else {
                Ok(Seq::empty())
            };
            let after_runs = if has_runs {
                left(after_flag, 2)
            } else {
                after_flag
            };
            match runs {
                Err(error) => (Err(error), after_runs),
                Ok(run_bytes) => {
                    let phonetic = if has_phonetic {
                        exact_bytes(store, after_runs, 4)
                    } else {
                        Ok(Seq::empty())
                    };
                    let after_phonetic = if has_phonetic {
                        left(after_runs, 4)
                    } else {
                        after_runs
                    };
                    match phonetic {
                        Err(error) => (Err(error), after_phonetic),
                        Ok(phonetic_bytes) => (
                            Ok(
                                StringHead {
                                    wide: flag % 2 == 1,
                                    runs: le_value(run_bytes) as int,
                                    phonetic: le_value(phonetic_bytes) as int,
                                },
                            ),
                            after_phonetic,
                        ),
                    }
                },
            }
        },
    }
}

/// The outcome of reading up to `chars` characters of a string that starts with
/// its flags: the text and the number of characters that were there. Formatting
/// runs and phonetic data are passed over. The second part is what is left.
pub open spec fn string_part(
    label: Seq<char>,
    store: Seq<u8>,
    pending: Seq<(int, int)>,
    chars: nat,
    is_extend: bool,
) -> (Result<(Seq<char>, nat), ErrorView>, Seq<(int, int)>) {
    let (head, after_head) = string_head(store, pending, is_extend);
    match head {
        Err(error) => (Err(error), after_head),
        Ok(head) => {
            let expected = if head.wide {
                2 * chars as int
            } else {
                chars as int
            };
            let after_text = left(after_head, expected);
            match some_bytes(store, after_head, expected) {
                Err(error) => (Err(error), after_text),
                Ok(bytes) => match string_text(label, head.wide, bytes) {
                    Err(error) => (Err(error), after_text),
                    Ok(text) => {
                        let after_runs = left(after_text, 4 * head.runs);
                        let after_phonetic = left(after_runs, head.phonetic);
                        let actual = if head.wide {
                            bytes.len() / 2
                        } else {
                            bytes.len()
                        };
                        match skipped(after_text, 4 * head.runs) {
                            Err(error) => (Err(error), after_runs),
                            Ok(_) => match skipped(after_runs, head.phonetic) {
                                Err(error) => (Err(error), after_phonetic),
                                Ok(_) => (Ok((text, actual)), after_phonetic),
                            },
                        }
                    },
                },
            }
        },
    }
}

/// The outcome of reading the rest of a string, of `chars` characters, that goes
/// on in further chunks, each with its own flags.
pub open spec fn string_rest(
    label: Seq<char>,
    store: Seq<u8>,
    pending: Seq<(int, int)>,
    chars: nat,
    is_extend: bool,
) -> (Result<Seq<char>, ErrorView>, Seq<(int, int)>)
    decreases live_total(pending),
{
    let (part, after) = string_part(label, store, pending, chars, is_extend);
    match part {
        Err(error) => (Err(error), after),
        Ok((text, actual)) => if actual >= chars {
            (Ok(text), after)
        } else {
            proof {
                lemma_string_part_advances(label, store, pending, chars, is_extend);
            }
            let (rest, at_end) = string_rest(label, store, after, (chars - actual) as nat, false);
            match rest {
                Err(error) => (Err(error), at_end),
                Ok(more) => (Ok(text + more), at_end),
            }
        },
    }
}

/// The number of bytes that are still to be read.
pub open spec fn live_total(pending: Seq<(int, int)>) -> nat
    decreases pending.len(),
{
    if pending.len() == 0 {
        0
    } else {
        (if pending[0].1 > pending[0].0 {
            (pending[0].1 - pending[0].0) as nat
        } else {
            0
        }) + live_total(pending.drop_first())
    }
}

/// Taking bytes leaves no more bytes than there were.
pub proof fn lemma_left_total(pending: Seq<(int, int)>, length: int)
    requires
        0 <= length,
    ensures
        live_total(left(pending, length)) <= live_total(pending),
        taken(pending, length) matches Some((_, size)) ==> (size > 0 ==> live_total(
            left(pending, length),
        ) < live_total(pending)),
{
    if pending.len() > 0 && pending[0].0 + length < pending[0].1 {
        let after = left(pending, length);
        assert(after.drop_first() =~= pending.drop_first());
    }
}

/// Every part of a string that is read takes at least its flags from the record.
pub proof fn lemma_string_part_advances(
    label: Seq<char>,
    store: Seq<u8>,
    pending: Seq<(int, int)>,
    chars: nat,
    is_extend: bool,
)
    ensures
        string_part(label, store, pending, chars, is_extend).0 is Ok ==> live_total(
            string_part(label, store, pending, chars, is_extend).1,
        ) < live_total(pending),
{
    lemma_left_total(pending, 1);
    let after_flag = left(pending, 1);
    lemma_left_total(after_flag, 2);
    lemma_left_total(after_flag, 4);
    lemma_left_total(left(after_flag, 2), 4);
    let (head, after_head) = string_head(store, pending, is_extend);
    if let Ok(head) = head {
        let expected = if head.wide {
            2 * chars as int
        } else {
            chars as int
        };
        lemma_left_total(after_head, expected);
        let after_text = left(after_head, expected);
        lemma_left_total(after_text, 4 * head.runs);
        lemma_left_total(left(after_text, 4 * head.runs), head.phonetic);
    }
}

/// The integer that an integer number record denotes: the upper 30 bits as
/// a signed number, divided by 100 and cut to an integer where the lowest bit
/// is set.
pub open spec fn rk_integer(value: u32) -> int {
    let number = if value < 0x8000_0000 {
        value as int / 4
    } else {
        (value - 0x1_0000_0000) / 4
    };
    if value % 2 == 0 {
        number
    } else if number >= 0 {
        number / 100
    } else {
        -((-number) / 100)
    }
}

/// Whether the ranges are those of the continuation records that follow at `at`.
pub open spec fn linked(data: Seq<u8>, spans: Seq<(int, int)>, at: int) -> bool
    decreases spans.len(),
{
    spans.len() == 0 || {
        &&& 0 <= at
        &&& at + 4 <= data.len()
        &&& spans[0].0 == at + 4
        &&& spans[0].1 == at + 4 + le_value(data.subrange(at + 2, at + 4))
        &&& linked(data, spans.drop_first(), spans[0].1)
    }
}

/// Where a record ends whose last ranges are `spans` and start behind `at`.
pub open spec fn chain_end(spans: Seq<(int, int)>, at: int) -> int {
    if spans.len() == 0 {
        at
    } else {
        spans.last().1
    }
}

/// Cache ranges as mathematical integers.
pub open spec fn spans_of(chunks: Seq<(usize, usize)>) -> Seq<(int, int)> {
    chunks.map_values(|chunk: (usize, usize)| (chunk.0 as int, chunk.1 as int))
}

/// The ranges with `offset` bytes taken from the first one.
pub open spec fn advanced(spans: Seq<(int, int)>, offset: int) -> Seq<(int, int)> {
    if spans.len() == 0 {
        spans
    } else {
        spans.update(0, (spans[0].0 + offset, spans[0].1))
    }
}

proof fn lemma_two_byte_value(bytes: Seq<u8>)
    requires
        bytes.len() == 2,
    ensures
        le_value(bytes) < 65536,
{
    lemma_le_round_trip_bytes(bytes);
    reveal_with_fuel(pow256, 3);
}

proof fn lemma_linked_end(data: Seq<u8>, spans: Seq<(int, int)>, at: int)
    requires
        linked(data, spans, at),
    ensures
        chain_end(spans, at) >= at,
        spans.len() > 0 ==> chain_end(spans, at) > at,
        spans.len() > 0 ==> chain_end(spans, at) >= spans[0].1,
    decreases spans.len(),
{
    if spans.len() > 0 {
        lemma_linked_end(data, spans.drop_first(), spans[0].1);
        if spans.len() > 1 {
            assert(spans.drop_first().last() == spans.last());
        }
    }
}

proof fn lemma_linked_push(data: Seq<u8>, spans: Seq<(int, int)>, at: int, span: (int, int))
    requires
        linked(data, spans, at),
        0 <= chain_end(spans, at),
        chain_end(spans, at) + 4 <= data.len(),
        span.0 == chain_end(spans, at) + 4,
        span.1 == span.0 + le_value(
            data.subrange(chain_end(spans, at) + 2, chain_end(spans, at) + 4),
        ),
    ensures
        linked(data, spans.push(span), at),
        chain_end(spans.push(span), at) == span.1,
    decreases spans.len(),
{
    if spans.len() == 0 {
        assert(spans.push(span).drop_first() =~= Seq::<(int, int)>::empty());
        reveal_with_fuel(linked, 2);
    } else {
        let rest = spans.drop_first();
        if rest.len() > 0 {
            assert(rest.last() == spans.last());
        }
        lemma_linked_push(data, rest, spans[0].1, span);
        assert(spans.push(span).drop_first() =~= rest.push(span));
    }
}

proof fn lemma_place_in(store: Seq<u8>, spans: Seq<(int, int)>, at: int)
    requires
        0 <= at,
        spans_within(spans, store.len() as int),
        forall|i: int| 0 <= i < spans.len() ==> 0 <= (#[trigger] spans[i]).0 <= spans[i].1,
    ensures
        ({
            let bytes = span_bytes(store, spans).flatten();
            match place_in(spans, at) {
                Some(place) => at < bytes.len() && 0 <= place < store.len() && store[place]
                    == bytes[at],
                None => at >= bytes.len(),
            }
        }),
    decreases spans.len(),
{
    let parts = span_bytes(store, spans);
    if spans.len() > 0 {
        let rest = spans.drop_first();
        let size = spans[0].1 - spans[0].0;
        assert forall|i: int| 0 <= i < rest.len() implies 0 <= (#[trigger] rest[i]).0 <= rest[i].1
            <= store.len() by {
            assert(rest[i] == spans[i + 1]);
        }
        assert(parts.first() == store.subrange(spans[0].0, spans[0].1));
        assert(parts.drop_first() =~= span_bytes(store, rest));
        assert(parts.flatten() =~= parts.first() + span_bytes(store, rest).flatten());
        if at >= size {
            lemma_place_in(store, rest, at - size);
        }
    }
}

/// Where all ranges lie within their store, the number at an offset is that of
/// their joined bytes.
proof fn lemma_number_at_places(store: Seq<u8>, spans: Seq<(int, int)>, at: int)
    requires
        0 <= at,
        spans_within(spans, store.len() as int),
        forall|i: int| 0 <= i < spans.len() ==> 0 <= (#[trigger] spans[i]).0 <= spans[i].1,
    ensures
        number_at_places(store, spans, at) == number_at(span_bytes(store, spans).flatten(), at),
{
    lemma_place_in(store, spans, at);
    lemma_place_in(store, spans, at + 1);
    let bytes = span_bytes(store, spans).flatten();
    if at + 2 <= bytes.len() {
        assert(bytes.subrange(at, at + 2) =~= seq![bytes[at], bytes[at + 1]]);
    }
}

proof fn lemma_span_total_take(spans: Seq<(int, int)>, count: int)
    requires
        0 <= count <= spans.len(),
        forall|i: int| 0 <= i < spans.len() ==> (#[trigger] spans[i]).0 <= spans[i].1,
    ensures
        span_total(spans.take(count)) <= span_total(spans),
    decreases spans.len(),
{
    if count < spans.len() {
        lemma_span_total_take(spans.drop_last(), count);
        assert(spans.drop_last().take(count) =~= spans.take(count));
        assert(spans.last() == spans[spans.len() - 1]);
    } else {
        assert(spans.take(count) =~= spans);
    }
}

proof fn lemma_count_within(spans: Seq<(int, int)>, length: int, count: int)
    requires
        0 <= count < spans.len(),
        forall|i: int| 0 <= i < count ==> (#[trigger] spans[i]).1 <= length,
        spans[count].1 > length,
    ensures
        count_within(spans, length) == count,
    decreases count,
{
    if count > 0 {
        assert(spans[0].1 <= length);
        lemma_count_within(spans.drop_first(), length, count - 1);
    }
}

/// The live ranges are a prefix of all ranges.
pub proof fn lemma_live_prefix(spans: Seq<(int, int)>)
    ensures
        live(spans).len() <= spans.len(),
        live(spans) == spans.take(live(spans).len() as int),
        forall|i: int|
            0 <= i < live(spans).len() ==> (#[trigger] live(spans)[i]).0 < live(spans)[i].1,
    decreases spans.len(),
{
    if spans.len() > 0 && spans[0].0 < spans[0].1 {
        lemma_live_prefix(spans.drop_first());
        assert(live(spans) =~= spans.take(live(spans).len() as int));
    } else {
        assert(live(spans) =~= spans.take(0));
    }
}

/// How many ranges are live depends on their sizes alone.
proof fn lemma_live_same_sizes(a: Seq<(int, int)>, b: Seq<(int, int)>)
    requires
        a.len() == b.len(),
        forall|i: int| 0 <= i < a.len() ==> (#[trigger] a[i]).1 - a[i].0 == b[i].1 - b[i].0,
    ensures
        live(a).len() == live(b).len(),
    decreases a.len(),
{
    if a.len() > 0 {
        assert(a[0].1 - a[0].0 == b[0].1 - b[0].0);
        assert forall|i: int| 0 <= i < a.drop_first().len() implies (
        #[trigger] a.drop_first()[i]).1 - a.drop_first()[i].0 == b.drop_first()[i].1
            - b.drop_first()[i].0 by {
            assert(a.drop_first()[i] == a[i + 1]);
        }
        lemma_live_same_sizes(a.drop_first(), b.drop_first());
    }
}

/// The data of every chunk starts within the file.
proof fn lemma_continuations_start_within(data: Seq<u8>, length: int, at: int, i: int)
    requires
        0 <= at,
        continuations(data, length, at) matches Ok(spans) && 0 <= i < spans.len(),
    ensures
        continuations(data, length, at)->Ok_0[i].0 <= data.len(),
    decreases i,
{
    if i > 0 {
        let size = file_u16(data, length, at + 2)->Ok_0;
        let more = continuations(data, length, at + 4 + size)->Ok_0;
        assert(continuations(data, length, at)->Ok_0[i] == more[i - 1]);
        lemma_continuations_start_within(data, length, at + 4 + size, i - 1);
    }
}

proof fn lemma_record_starts_within(data: Seq<u8>, length: int, at: int, i: int)
    requires
        0 <= at,
        record_at(data, length, at) matches Ok(Some((_, spans))) && 0 <= i < spans.len(),
    ensures
        record_at(data, length, at)->Ok_0->Some_0.1[i].0 <= data.len(),
{
    if i > 0 {
        let size = file_u16(data, length, at + 2)->Ok_0;
        let more = continuations(data, length, at + 4 + size)->Ok_0;
        assert(record_at(data, length, at)->Ok_0->Some_0.1[i] == more[i - 1]);
        lemma_continuations_start_within(data, length, at + 4 + size, i - 1);
    }
}

/// A compressed number.
#[derive(Debug, Clone, PartialEq, Eq)]
pub enum RkNumber {
    /// An integer, in decimal notation.
    Integer(String),
    /// A floating point number.
    Float {
        /// The bit pattern of the number.
        bits: u64,
        /// Whether the number is still to be divided by 100.
        percentage: bool,
    },
}

impl RkNumber {
    /// Whether this is the number that `value` encodes: an integer where the
    /// second lowest bit is set, else the upper 30 bits of a floating point number.
    pub open spec fn encodes(self, value: u32) -> bool {
        if value / 2 % 2 == 1 {
            self matches RkNumber::Integer(text) && text@ == signed_decimal(rk_integer(value))
        } else {
            self == RkNumber::Float {
                bits: (value / 4 * 0x4_0000_0000) as u64,
                percentage: value % 2 == 1,
            }
        }
    }
}

/// Reader for BIFF8 records. A record and the continuation records behind it form
/// one sequence of chunks; a read never crosses the end of a chunk. Small records
/// are copied to memory, larger ones are read from the file piece by piece.
pub struct Biff8Reader {
    /// The label of the encoding of two-byte strings.
    pub encoding: String,
    /// The file.
    pub file: ByteSource,
    /// The file's read position as the header reader left it.
    pub file_position: Option<usize>,
    /// The file's read position as the data reader left it.
    pub buffered_position: Option<usize>,
    /// The number of bytes of the file that hold records.
    pub length: usize,
    /// The position of the next record.
    pub pointer: usize,
    /// The data of the current record, where it is small.
    pub cache: Vec<u8>,
    /// The ranges of the chunks in the cache.
    pub cache_chunks: Vec<(usize, usize)>,
    /// Whether the current record is in the cache.
    pub cached: bool,
    /// Where the current record starts.
    pub record_start: usize,
    /// Where the current record ends.
    pub record_end: usize,
    /// The number of data bytes of the current record.
    pub record_length: usize,
    /// The range of the current chunk, where it is read from the file.
    pub file_chunk: (usize, usize),
    /// The number of the current chunk in the cache.
    pub index: usize,
    /// The number of bytes of the current chunk that were read.
    pub offset: usize,
    /// The ranges behind the current chunk, where they are read from the file.
    pub later: Ghost<Seq<(int, int)>>,
}

impl Biff8Reader {
    /// The bytes that the current record's ranges refer to.
    pub open spec fn store(self) -> Seq<u8> {
        if self.cached {
            self.cache@
        } else {
            self.file.data@
        }
    }

    /// The unread ranges of the current record, empty ones among them.
    pub open spec fn unread(self) -> Seq<(int, int)> {
        if self.cached {
            if self.index <= self.cache_chunks@.len() {
                advanced(spans_of(self.cache_chunks@).skip(self.index as int), self.offset as int)
            } else {
                Seq::empty()
            }
        } else {
            seq![(self.file_chunk.0 + self.offset, self.file_chunk.1 as int)] + self.later@
        }
    }

    /// The ranges of the store that are still to be read.
    pub open spec fn pending(self) -> Seq<(int, int)> {
        live(self.unread())
    }

    /// The bytes that are still to be read, chunk by chunk.
    pub open spec fn contents(self) -> Seq<Seq<u8>> {
        span_bytes(self.store(), self.pending())
    }

    /// The remembered read positions are true.
    pub open spec fn positions_agree(self) -> bool {
        &&& self.file_position matches Some(at) ==> self.file.position == at
        &&& self.buffered_position matches Some(at) ==> self.file.position == at
    }

    /// The reader's invariant.
    pub open spec fn wf(self) -> bool {
        &&& self.positions_agree()
        &&& self.length <= usize::MAX / 2
        &&& self.record_start <= usize::MAX / 2
        &&& self.record_end <= usize::MAX / 2 + 65536
        &&& self.record_length <= usize::MAX / 2 + 65536
        &&& if self.cached {
            &&& self.index <= self.cache_chunks@.len()
            &&& forall|i: int|
                0 <= i < self.cache_chunks@.len() ==> {
                    let chunk = #[trigger] self.cache_chunks@[i];
                    chunk.0 <= chunk.1 && chunk.1 - chunk.0 <= 65535
                }
            &&& self.offset == 0 || {
                &&& self.index < self.cache_chunks@.len()
                &&& self.cache_chunks@[self.index as int].0 + self.offset
                    < self.cache_chunks@[self.index as int].1
            }
        } else {
            &&& self.file_chunk.0 <= self.file_chunk.1
            &&& self.file_chunk.1 - self.file_chunk.0 <= 65535
            &&& self.offset == 0 || self.file_chunk.0 + self.offset < self.file_chunk.1
            &&& linked(self.file.data@, self.later@, self.file_chunk.1 as int)
            &&& self.record_end == chain_end(self.later@, self.file_chunk.1 as int)
        }
    }

    /// Whether two states share the file, the current record and the settings.
    pub open spec fn same_record(self, other: Self) -> bool {
        &&& self.encoding == other.encoding
        &&& self.file.data == other.file.data
        &&& self.length == other.length
        &&& self.pointer == other.pointer
        &&& self.cache == other.cache
        &&& self.cache_chunks == other.cache_chunks
        &&& self.cached == other.cached
        &&& self.record_start == other.record_start
        &&& self.record_end == other.record_end
        &&& self.record_length == other.record_length
    }

    /// Creates a reader for the first `length` bytes of a file. There is no
    /// current record yet.
    pub fn new(file: ByteSource, length: usize) -> (res: Result<Biff8Reader, RustySheetError>)
        requires
            length <= usize::MAX / 2,
        ensures
            res matches Ok(reader) && {
                &&& reader.wf()
                &&& reader.encoding@ == UTF_16LE@
                &&& reader.file == file
                &&& reader.length == length
                &&& reader.pointer == 0
                &&& !reader.cached
                &&& reader.record_start == 0
                &&& reader.record_end == 0
                &&& reader.record_length == 0
                &&& reader.pending() == Seq::<(int, int)>::empty()
            },
    {
        let mut file_position: Option<usize> = None;
        if file.stream_position() == 0 {
            file_position = Some(0);
        }
        let reader = Biff8Reader {
            encoding: UTF_16LE.to_owned(),
            file,
            file_position,
            buffered_position: None,
            length,
            pointer: 0,
            cache: Vec::new(),
            cache_chunks: Vec::new(),
            cached: false,
            record_start: 0,
            record_end: 0,
            record_length: 0,
            file_chunk: (0, 0),
            index: 0,
            offset: 0,
            later: Ghost(Seq::empty()),
        };
        proof {
            assert(reader.pending() =~= Seq::<(int, int)>::empty());
        }
        Ok(reader)
    }

    /// Sets the position of the next record.
    pub fn goto(&mut self, pointer: usize)
        requires
            old(self).wf(),
        ensures
            final(self).wf(),
            *final(self) == (Biff8Reader { pointer, ..*old(self) }),
    {
        self.pointer = pointer;
    }

    /// Moves the file to `offset` for the header reader.
    fn seek_file(&mut self, offset: usize)
        requires
            old(self).positions_agree(),
        ensures
            *final(self) == (Biff8Reader {
                file: final(self).file,
                file_position: Some(offset),
                buffered_position: None,
                ..*old(self)
            }),
            final(self).file.data == old(self).file.data,
            final(self).file.position == offset,
    {
        self.buffered_position = None;
        let there = match self.file_position {
            Some(position) => position == offset,
            None => false,
        };
        if !there {
            self.file.seek(offset);
            self.file_position = Some(offset);
        }
    }

    /// Reads the 16-bit number at `offset` of the file.
    fn read_file_u16_at(&mut self, offset: usize) -> (res: Result<u16, RustySheetError>)
        requires
            old(self).positions_agree(),
            offset <= usize::MAX - 2,
        ensures
            final(self).positions_agree(),
            *final(self) == (Biff8Reader {
                file: final(self).file,
                file_position: final(self).file_position,
                buffered_position: final(self).buffered_position,
                ..*old(self)
            }),
            final(self).file.data == old(self).file.data,
            match file_u16(old(self).file.data@, old(self).length as int, offset as int) {
                Ok(value) => res == Ok::<u16, RustySheetError>(value),
                Err(error) => res matches Err(e) && e@ == error,
            },
    {
        if offset + 2 > self.length {
            return Err(RustySheetError::Biff8(Biff8Error::NoEnoughDataError(2)));
        }
        self.seek_file(offset);
        self.file_position = None;
        match self.file.read_exact(2) {
            Err(error) => Err(RustySheetError::Io(error)),
            Ok(bytes) => {
                self.file_position = Some(offset + 2);
                let value: u16 = to_u16(bytes.as_slice());
                proof {
                    assert(bytes@.take(2) =~= self.file.data@.subrange(
                        offset as int,
                        offset + 2,
                    ));
                }
                Ok(value)
            },
        }
    }

    /// Reads `length` data bytes at `offset` of the file.
    fn read_buffered_at(&mut self, offset: usize, length: usize) -> (res: Result<
        Vec<u8>,
        RustySheetError,
    >)
        requires
            old(self).positions_agree(),
            offset + length <= usize::MAX,
        ensures
            final(self).positions_agree(),
            *final(self) == (Biff8Reader {
                file: final(self).file,
                file_position: final(self).file_position,
                buffered_position: final(self).buffered_position,
                ..*old(self)
            }),
            final(self).file.data == old(self).file.data,
            match stored(old(self).file.data@, offset as int, length as int) {
                Ok(bytes) => res matches Ok(v) && v@ == bytes,
                Err(error) => res matches Err(e) && e@ == error,
            },
    {
        self.file_position = None;
        let there = match self.buffered_position {
            Some(position) => position == offset,
            None => false,
        };
        if !there {
            self.file.seek(offset);
        }
        self.buffered_position = None;
        match self.file.read_exact(length) {
            Err(error) => Err(RustySheetError::Io(error)),
            Ok(bytes) => {
                self.buffered_position = Some(offset + length);
                proof {
                    if length > 0 {
                        assert(bytes@ =~= self.file.data@.subrange(offset as int, offset + length));
                    } else {
                        assert(bytes@ =~= Seq::<u8>::empty());
                    }
                }
                Ok(bytes)
            },
        }
    }

    /// Takes up to `length` bytes of the current chunk and returns where they
    /// stand in the store and how many they are.
    fn take_range(&mut self, length: usize) -> (res: Result<
        Option<(usize, usize)>,
        RustySheetError,
    >)
        requires
            old(self).wf(),
        ensures
            final(self).wf(),
            final(self).same_record(*old(self)),
            final(self).pending() == left(old(self).pending(), length as int),
            match taken(old(self).pending(), length as int) {
                Some((at, size)) => {
                    &&& res matches Ok(Some((source, count)))
                    &&& source == at
                    &&& count == size
                    &&& count <= length
                    &&& count <= 65535
                    &&& source + count <= usize::MAX
                },
                None => res == Ok::<Option<(usize, usize)>, RustySheetError>(None),
            },
    {
        let ghost before = self.unread();
        let chunk: Option<(usize, usize)> = if self.cached {
            if self.index < self.cache_chunks.len() {
                Some(self.cache_chunks[self.index])
            } else {
                None
            }
        } else if self.file_chunk.0 < self.file_chunk.1 {
            Some(self.file_chunk)
        } else {
            None
        };
        let (lower, upper) = match chunk {
            Some(range) => range,
            None => return Ok(None),
        };
        let source: usize = lower + self.offset;
        if source >= upper {
            return Ok(None);
        }
        let target: usize = if length < upper - source {
            source + length
        } else {
            upper
        };
        let size: usize = target - source;
        proof {
            assert(before[0] == (source as int, upper as int));
            if self.cached {
                assert(before.drop_first() =~= spans_of(self.cache_chunks@).skip(self.index + 1));
            } else {
                assert(before.drop_first() =~= self.later@);
                lemma_linked_end(self.file.data@, self.later@, upper as int);
            }
            assert(live(before) =~= seq![before[0]] + live(before.drop_first()));
            assert(live(before).drop_first() =~= live(before.drop_first()));
        }
        if target == upper {
            self.offset = 0;
            if self.cached {
                self.index = self.index + 1;
                proof {
                    assert(self.unread() =~= before.drop_first());
                }
            } else if upper < self.record_end {
                let ghost later = self.later@;
                let header: Vec<u8> = match self.read_buffered_at(upper, 4) {
                    Ok(header) => header,
                    Err(error) => return Err(error),
                };
                let size: usize = to_u16(&header[2..header.len()]) as usize;
                proof {
                    assert(header@.skip(2).take(2) =~= self.file.data@.subrange(
                        upper + 2,
                        upper + 4,
                    ));
                    assert(header@.subrange(2, 4) =~= header@.skip(2));
                    lemma_linked_end(self.file.data@, later.drop_first(), later[0].1);
                    if later.len() > 1 {
                        assert(later.drop_first().last() == later.last());
                    }
                }
                self.file_chunk = (upper + 4, upper + 4 + size);
                proof {
                    self.later@ = later.drop_first();
                    assert(self.unread() =~= before.drop_first());
                }
            } else {
                self.file_chunk = (upper, upper);
                proof {
                    assert(self.later@.len() == 0);
                    assert(live(before.drop_first()) =~= Seq::<(int, int)>::empty());
                    assert(self.pending() =~= Seq::<(int, int)>::empty());
                }
            }
        } else {
            self.offset = self.offset + size;
            proof {
                assert(self.unread() =~= before.update(0, (target as int, upper as int)));
                assert(self.unread().drop_first() =~= before.drop_first());
                assert(self.pending() =~= live(before).update(0, (target as int, upper as int)));
            }
        }
        Ok(Some((source, size)))
    }

    /// Reads `length` bytes of the store at `offset`. Bytes behind the cache, which
    /// a record that could not be loaded has, are those behind the end of a file.
    fn read_at(&mut self, offset: usize, length: usize) -> (res: Result<Vec<u8>, RustySheetError>)
        requires
            old(self).wf(),
            offset + length <= usize::MAX,
        ensures
            final(self).wf(),
            final(self).same_record(*old(self)),
            final(self).pending() == old(self).pending(),
            match stored(old(self).store(), offset as int, length as int) {
                Ok(bytes) => res matches Ok(v) && v@ == bytes,
                Err(error) => res matches Err(e) && e@ == error,
            },
    {
        if self.cached {
            if length == 0 {
                return Ok(Vec::new());
            }
            if offset + length > self.cache.len() {
                return Err(RustySheetError::Io(IoError::UnexpectedEof));
            }
            return Ok(vstd::slice::slice_to_vec(&self.cache[offset..offset + length]));
        }
        self.read_buffered_at(offset, length)
    }

    /// Reads up to `length` bytes of the current chunk and returns them with
    /// their number.
    pub fn read(&mut self, length: usize) -> (res: Result<(Vec<u8>, usize), RustySheetError>)
        requires
            old(self).wf(),
        ensures
            final(self).wf(),
            final(self).same_record(*old(self)),
            final(self).pending() == left(old(self).pending(), length as int),
            match some_bytes(old(self).store(), old(self).pending(), length as int) {
                Ok(bytes) => {
                    &&& res matches Ok((v, size))
                    &&& v@ == bytes
                    &&& size == bytes.len()
                    &&& size <= 65535
                },
                Err(error) => res matches Err(e) && e@ == error,
            },
    {
        match self.take_range(length) {
            Err(error) => Err(error),
            Ok(None) => Ok((Vec::new(), 0)),
            Ok(Some((source, size))) => match self.read_at(source, size) {
                Err(error) => Err(error),
                Ok(bytes) => Ok((bytes, size)),
            },
        }
    }

    /// Skips `length` bytes of the current chunk.
    pub fn skip(&mut self, length: usize) -> (res: Result<(), RustySheetError>)
        requires
            old(self).wf(),
        ensures
            final(self).wf(),
            final(self).same_record(*old(self)),
            final(self).pending() == left(old(self).pending(), length as int),
            match skipped(old(self).pending(), length as int) {
                Ok(_) => res is Ok,
                Err(error) => res matches Err(e) && e@ == error,
            },
    {
        let size: usize = match self.take_range(length) {
            Err(error) => return Err(error),
            Ok(Some((_, size))) => size,
            Ok(None) => 0,
        };
        if size == length {
            Ok(())
        } else {
            Err(RustySheetError::Biff8(Biff8Error::NoEnoughDataError(length)))
        }
    }

    /// Reads exactly `length` bytes of the current chunk.
    pub fn read_array(&mut self, length: usize) -> (res: Result<Vec<u8>, RustySheetError>)
        requires
            old(self).wf(),
        ensures
            final(self).wf(),
            final(self).same_record(*old(self)),
            final(self).pending() == left(old(self).pending(), length as int),
            match exact_bytes(old(self).store(), old(self).pending(), length as int) {
                Ok(bytes) => res matches Ok(v) && v@ == bytes && v@.len() == length,
                Err(error) => res matches Err(e) && e@ == error,
            },
    {
        match self.take_range(length) {
            Err(error) => Err(error),
            Ok(None) => Err(RustySheetError::Biff8(Biff8Error::NoEnoughDataError(length))),
            Ok(Some((source, size))) => if size != length {
                Err(RustySheetError::Biff8(Biff8Error::NoEnoughDataError(length)))
            } else {
                self.read_at(source, length)
            },
        }
    }

    /// Reads a single byte.
    pub fn read_u8(&mut self) -> (res: Result<u8, RustySheetError>)
        requires
            old(self).wf(),
        ensures
            final(self).wf(),
            final(self).same_record(*old(self)),
            final(self).pending() == left(old(self).pending(), 1),
            match exact_bytes(old(self).store(), old(self).pending(), 1) {
                Ok(bytes) => res == Ok::<u8, RustySheetError>(bytes[0]),
                Err(error) => res matches Err(e) && e@ == error,
            },
    {
        match self.read_array(1) {
            Ok(data) => Ok(data[0]),
            Err(error) => Err(error),
        }
    }

    /// Reads a 16-bit unsigned number.
    pub fn read_u16(&mut self) -> (res: Result<u16, RustySheetError>)
        requires
            old(self).wf(),
        ensures
            final(self).wf(),
            final(self).same_record(*old(self)),
            final(self).pending() == left(old(self).pending(), 2),
            match exact_bytes(old(self).store(), old(self).pending(), 2) {
                Ok(bytes) => res matches Ok(value) && value == le_value(bytes),
                Err(error) => res matches Err(e) && e@ == error,
            },
    {
        match self.read_array(2) {
            Ok(data) => {
                proof {
                    assert(data@.take(2) =~= data@);
                }
                Ok(to_u16(data.as_slice()))
            },
            Err(error) => Err(error),
        }
    }

    /// Reads a 32-bit unsigned number.
    pub fn read_u32(&mut self) -> (res: Result<u32, RustySheetError>)
        requires
            old(self).wf(),
        ensures
            final(self).wf(),
            final(self).same_record(*old(self)),
            final(self).pending() == left(old(self).pending(), 4),
            match exact_bytes(old(self).store(), old(self).pending(), 4) {
                Ok(bytes) => res matches Ok(value) && value == le_value(bytes),
                Err(error) => res matches Err(e) && e@ == error,
            },
    {
        match self.read_array(4) {
            Ok(data) => {
                proof {
                    assert(data@.take(4) =~= data@);
                }
                Ok(to_u32(data.as_slice()))
            },
            Err(error) => Err(error),
        }
    }

    /// Reads a 32-bit unsigned number as a `usize`.
    pub fn read_usize(&mut self) -> (res: Result<usize, RustySheetError>)
        requires
            old(self).wf(),
        ensures
            final(self).wf(),
            final(self).same_record(*old(self)),
            final(self).pending() == left(old(self).pending(), 4),
            match exact_bytes(old(self).store(), old(self).pending(), 4) {
                Ok(bytes) => res matches Ok(value) && value == le_value(bytes),
                Err(error) => res matches Err(e) && e@ == error,
            },
    {
        match self.read_array(4) {
            Ok(data) => {
                proof {
                    assert(data@.take(4) =~= data@);
                }
                Ok(to_usize(data.as_slice()))
            },
            Err(error) => Err(error),
        }
    }

    /// Reads a 64-bit unsigned number.
    pub fn read_u64(&mut self) -> (res: Result<u64, RustySheetError>)
        requires
            old(self).wf(),
        ensures
            final(self).wf(),
            final(self).same_record(*old(self)),
            final(self).pending() == left(old(self).pending(), 8),
            match exact_bytes(old(self).store(), old(self).pending(), 8) {
                Ok(bytes) => res matches Ok(value) && value == le_value(bytes),
                Err(error) => res matches Err(e) && e@ == error,
            },
    {
        match self.read_array(8) {
            Ok(data) => {
                proof {
                    assert(data@.take(8) =~= data@);
                }
                Ok(to_u64(data.as_slice()))
            },
            Err(error) => Err(error),
        }
    }

    /// Reads the bit pattern of a 64-bit floating point number.
    pub fn read_f64_bits(&mut self) -> (res: Result<u64, RustySheetError>)
        requires
            old(self).wf(),
        ensures
            final(self).wf(),
            final(self).same_record(*old(self)),
            final(self).pending() == left(old(self).pending(), 8),
            match exact_bytes(old(self).store(), old(self).pending(), 8) {
                Ok(bytes) => res matches Ok(value) && value == le_value(bytes),
                Err(error) => res matches Err(e) && e@ == error,
            },
    {
        self.read_u64()
    }

    /// Where the byte at `at` of the cached record stands in the cache.
    fn cached_place(&self, at: usize) -> (res: Option<usize>)
        requires
            self.wf(),
            self.cached,
        ensures
            match place_in(spans_of(self.cache_chunks@), at as int) {
                Some(place) => res matches Some(p) && p == place,
                None => res is None,
            },
    {
        let ghost spans = spans_of(self.cache_chunks@);
        let mut logical_offset: usize = at;
        let mut i: usize = 0;
        proof {
            assert(spans.skip(0) =~= spans);
        }
        while i < self.cache_chunks.len()
            invariant
                self.wf(),
                self.cached,
                i <= self.cache_chunks@.len(),
                spans == spans_of(self.cache_chunks@),
                place_in(spans, at as int) == place_in(
                    spans.skip(i as int),
                    logical_offset as int,
                ),
            decreases self.cache_chunks@.len() - i,
        {
            let (lower, upper) = self.cache_chunks[i];
            let chunk_length: usize = upper - lower;
            proof {
                assert(spans.skip(i as int)[0] == (lower as int, upper as int));
                assert(spans.skip(i as int).drop_first() =~= spans.skip(i + 1));
            }
            if logical_offset < chunk_length {
                return Some(lower + logical_offset);
            }
            logical_offset = logical_offset - chunk_length;
            i = i + 1;
        }
        None
    }

    /// Reads the byte at `offset` of the file.
    fn read_file_u8_at(&mut self, offset: usize) -> (res: Result<u8, RustySheetError>)
        requires
            old(self).wf(),
            offset <= usize::MAX - 1,
        ensures
            final(self).wf(),
            final(self).same_record(*old(self)),
            final(self).pending() == old(self).pending(),
            match file_u8(old(self).file.data@, old(self).length as int, offset as int) {
                Ok(value) => res == Ok::<u8, RustySheetError>(value),
                Err(error) => res matches Err(e) && e@ == error,
            },
    {
        if offset + 1 > self.length {
            return Err(RustySheetError::Biff8(Biff8Error::NoEnoughDataError(2)));
        }
        match self.read_buffered_at(offset, 1) {
            Ok(bytes) => Ok(bytes[0]),
            Err(error) => Err(error),
        }
    }

    /// Reads the byte at logical offset `at` of the record whose headers start at
    /// `start`.
    fn read_record_byte(&mut self, start: usize, at: usize) -> (res: Result<u8, RustySheetError>)
        requires
            old(self).wf(),
            start <= usize::MAX / 2 + 65536,
            at <= usize::MAX / 2 + 65536,
        ensures
            final(self).wf(),
            final(self).same_record(*old(self)),
            final(self).pending() == old(self).pending(),
            match byte_in_file(
                old(self).file.data@,
                old(self).length as int,
                start as int,
                old(self).record_end as int,
                at as int,
            ) {
                Ok(value) => res == Ok::<u8, RustySheetError>(value),
                Err(error) => res matches Err(e) && e@ == error,
            },
    {
        let mut header: usize = start;
        let mut logical_offset: usize = at;
        let ghost data = self.file.data@;
        let ghost outcome = byte_in_file(
            data,
            self.length as int,
            start as int,
            self.record_end as int,
            at as int,
        );
        loop
            invariant
                self.wf(),
                self.same_record(*old(self)),
                self.pending() == old(self).pending(),
                data == self.file.data@,
                data == old(self).file.data@,
                logical_offset <= usize::MAX / 2 + 65536,
                header <= usize::MAX / 2 + 65536,
                outcome == byte_in_file(
                    data,
                    old(self).length as int,
                    start as int,
                    old(self).record_end as int,
                    at as int,
                ),
                outcome == byte_in_file(
                    data,
                    self.length as int,
                    header as int,
                    self.record_end as int,
                    logical_offset as int,
                ),
            decreases self.record_end - header,
        {
            let size: usize = match self.read_file_u16_at(header + 2) {
                Err(error) => return Err(error),
                Ok(size) => size as usize,
            };
            if logical_offset < size {
                return self.read_file_u8_at(header + 4 + logical_offset);
            }
            logical_offset = logical_offset - size;
            let next_header: usize = header + 4 + size;
            if next_header >= self.record_end {
                return Err(RustySheetError::Biff8(Biff8Error::NoEnoughDataError(2)));
            }
            header = next_header;
        }
    }

    /// Reads the 16-bit number that stands `offset` bytes before the end of the
    /// record's data, its chunks joined. The read position stays.
    pub fn get_u16_back(&mut self, offset: usize) -> (res: Result<u16, RustySheetError>)
        requires
            old(self).wf(),
        ensures
            final(self).wf(),
            final(self).same_record(*old(self)),
            final(self).pending() == old(self).pending(),
            match old(self).back_value(offset as int) {
                Ok(value) => res == Ok::<u16, RustySheetError>(value),
                Err(error) => res matches Err(e) && e@ == error,
            },
    {
        if offset > self.record_length {
            return Err(RustySheetError::Biff8(Biff8Error::NoEnoughDataError(2)));
        }
        let mut logical_offset: usize = self.record_length - offset;
        if self.cached {
            let ghost spans = spans_of(self.cache_chunks@);
            proof {
                if spans_within(spans, self.cache@.len() as int) {
                    assert forall|i: int| 0 <= i < spans.len() implies 0 <= (#[trigger] spans[i]).0
                        <= spans[i].1 by {
                        let chunk = self.cache_chunks@[i];
                    }
                    lemma_number_at_places(self.cache@, spans, logical_offset as int);
                }
            }
            let low = self.cached_place(logical_offset);
            let high = self.cached_place(logical_offset + 1);
            return match (low, high) {
                (Some(low), Some(high)) => if low < self.cache.len() && high < self.cache.len() {
                    let pair: [u8; 2] = [self.cache[low], self.cache[high]];
                    proof {
                        assert(pair@.take(2) =~= seq![
                            self.cache@[low as int],
                            self.cache@[high as int],
                        ]);
                        lemma_two_byte_value(pair@.take(2));
                    }
                    Ok(to_u16(&pair))
                } else {
                    Err(RustySheetError::Io(IoError::UnexpectedEof))
                },
                _ => Err(RustySheetError::Biff8(Biff8Error::NoEnoughDataError(2))),
            };
        }
        let mut header: usize = self.record_start;
        let ghost data = self.file.data@;
        loop
            invariant
                self.wf(),
                !self.cached,
                self.same_record(*old(self)),
                self.pending() == old(self).pending(),
                offset <= old(self).record_length,
                data == self.file.data@,
                logical_offset <= usize::MAX / 2 + 65536,
                header <= usize::MAX / 2 + 65536,
                old(self).back_value(offset as int) == back_in_file(
                    data,
                    self.length as int,
                    header as int,
                    self.record_end as int,
                    logical_offset as int,
                ),
            decreases self.record_end - header,
        {
            let size: usize = match self.read_file_u16_at(header + 2) {
                Err(error) => return Err(error),
                Ok(size) => size as usize,
            };
            if logical_offset + 2 <= size {
                return self.read_file_u16_at(header + 4 + logical_offset);
            }
            let next_header: usize = header + 4 + size;
            if next_header >= self.record_end {
                return Err(RustySheetError::Biff8(Biff8Error::NoEnoughDataError(2)));
            }
            if logical_offset < size {
                let low: u8 = match self.read_file_u8_at(header + 4 + logical_offset) {
                    Err(error) => return Err(error),
                    Ok(low) => low,
                };
                let high: u8 = match self.read_record_byte(next_header, 0) {
                    Err(error) => return Err(error),
                    Ok(high) => high,
                };
                let pair: [u8; 2] = [low, high];
                proof {
                    assert(pair@.take(2) =~= seq![low, high]);
                    lemma_two_byte_value(pair@.take(2));
                }
                return Ok(to_u16(&pair));
            }
            logical_offset = logical_offset - size;
            header = next_header;
        }
    }

    /// The 16-bit number that stands `offset` bytes before the end of the record's
    /// data. Where the record could not be loaded, the ranges are taken as they are.
    pub open spec fn back_value(self, offset: int) -> Result<u16, ErrorView> {
        let at = self.record_length - offset;
        if at < 0 {
            Err(short_of(2))
        } else if self.cached {
            let spans = spans_of(self.cache_chunks@);
            if spans_within(spans, self.cache@.len() as int) {
                number_at(span_bytes(self.cache@, spans).flatten(), at)
            } else {
                number_at_places(self.cache@, spans, at)
            }
        } else {
            back_in_file(
                self.file.data@,
                self.length as int,
                self.record_start as int,
                self.record_end as int,
                at,
            )
        }
    }

    /// Reads a compressed number.
    pub fn read_rk_number(&mut self) -> (res: Result<RkNumber, RustySheetError>)
        requires
            old(self).wf(),
        ensures
            final(self).wf(),
            final(self).same_record(*old(self)),
            final(self).pending() == left(old(self).pending(), 4),
            match exact_bytes(old(self).store(), old(self).pending(), 4) {
                Ok(bytes) => res matches Ok(number) && number.encodes(le_value(bytes) as u32),
                Err(error) => res matches Err(e) && e@ == error,
            },
    {
        let value: u32 = match self.read_u32() {
            Ok(value) => value,
            Err(error) => return Err(error),
        };
        let is_percentage: bool = value % 2 == 1;
        let is_integer: bool = value / 2 % 2 == 1;
        if is_integer {
            let number: i64 = if value < 0x8000_0000 {
                (value / 4) as i64
            } else {
                -(((0x1_0000_0003 - value as i64) as u64 / 4) as i64)
            };
            let cut: i64 = if !is_percentage {
                number
            } else if number >= 0 {
                (number as u64 / 100) as i64
            } else {
                -(((-number) as u64 / 100) as i64)
            };
            proof {
                assert(cut == rk_integer(value));
            }
            Ok(RkNumber::Integer(signed_decimal_text(cut)))
        } else {
            let bits: u64 = (value / 4) as u64 * 0x4_0000_0000;
            Ok(RkNumber::Float { bits, percentage: is_percentage })
        }
    }

    /// The number of bytes that a number of characters takes.
    fn chars_to_bytes(is_high_byte: bool, chars: usize) -> (res: usize)
        requires
            chars <= usize::MAX / 2,
        ensures
            res == if is_high_byte {
                2 * chars as int
            } else {
                chars as int
            },
    {
        if is_high_byte {
            chars * 2
        } else {
            chars
        }
    }

    /// The number of characters that a number of bytes holds.
    fn bytes_to_chars(is_high_byte: bool, bytes: usize) -> (res: usize)
        ensures
            res == if is_high_byte {
                bytes as int / 2
            } else {
                bytes as int
            },
    {
        if is_high_byte {
            bytes / 2
        } else {
            bytes
        }
    }

    /// The characters with the given byte values.
    fn latin(bytes: &[u8]) -> (res: String)
        ensures
            res@ == latin_text(bytes@),
    {
        let mut text = String::new();
        let mut i: usize = 0;
        while i < bytes.len()
            invariant
                i <= bytes@.len(),
                text@ == latin_text(bytes@).take(i as int),
            decreases bytes@.len() - i,
        {
            text.push(bytes[i] as char);
            proof {
                assert(latin_text(bytes@).take(i + 1) =~= latin_text(bytes@).take(i as int).push(
                    bytes@[i as int] as char,
                ));
            }
            i = i + 1;
        }
        proof {
            assert(latin_text(bytes@).take(i as int) =~= latin_text(bytes@));
        }
        text
    }

    /// Reads up to `chars` characters, with the flags before them, and appends
    /// them to `content`. Passes over formatting runs and phonetic data, and
    /// returns the number of characters.
    fn read_string_into(&mut self, chars: usize, is_extend: bool, content: &mut String) -> (res:
        Result<usize, RustySheetError>)
        requires
            old(self).wf(),
            chars <= 65535,
        ensures
            final(self).wf(),
            final(self).same_record(*old(self)),
            ({
                let (outcome, after) = string_part(
                    old(self).encoding@,
                    old(self).store(),
                    old(self).pending(),
                    chars as nat,
                    is_extend,
                );
                &&& final(self).pending() == after
                &&& match outcome {
                    Ok((text, actual)) => {
                        &&& res == Ok::<usize, RustySheetError>(actual as usize)
                        &&& actual <= 65535
                        &&& final(content)@ == old(content)@ + text
                    },
                    Err(error) => res matches Err(e) && e@ == error,
                }
            }),
    {
        let flag: u8 = match self.read_u8() {
            Ok(flag) => flag,
            Err(error) => return Err(error),
        };
        let is_high_byte: bool = flag % 2 == 1;
        let expected: usize = Self::chars_to_bytes(is_high_byte, chars);
        let ghost mut run_bytes = Seq::<u8>::empty();
        let rich_string_count: usize = if is_extend && flag / 8 % 2 == 1 {
            proof {
                if let Ok(bytes) = exact_bytes(self.store(), self.pending(), 2) {
                    run_bytes = bytes;
                }
            }
            match self.read_u16() {
                Ok(count) => count as usize,
                Err(error) => return Err(error),
            }
        } else {
            0
        };
        let ghost mut phonetic_bytes = Seq::<u8>::empty();
        let phonetic_count: usize = if is_extend && flag / 4 % 2 == 1 {
            proof {
                if let Ok(bytes) = exact_bytes(self.store(), self.pending(), 4) {
                    phonetic_bytes = bytes;
                }
            }
            match self.read_usize() {
                Ok(count) => count,
                Err(error) => return Err(error),
            }
        } else {
            0
        };
        proof {
            assert(rich_string_count == le_value(run_bytes));
            assert(phonetic_count == le_value(phonetic_bytes));
        }
        let (bytes, actual) = match self.read(expected) {
            Ok(found) => found,
            Err(error) => return Err(error),
        };
        if is_high_byte {
            match decode_text(self.encoding.as_str(), bytes.as_slice()) {
                Some(text) => {
                    content.push_str(text.as_str());
                },
                None => {
                    let mut message = "unknown encoding: ".to_owned();
                    message.push_str(self.encoding.as_str());
                    return Err(RustySheetError::WithContextError(message));
                },
            }
        } else {
            let text = Self::latin(bytes.as_slice());
            content.push_str(text.as_str());
        }
        match self.skip(4 * rich_string_count) {
            Ok(_) => {},
            Err(error) => return Err(error),
        }
        match self.skip(phonetic_count) {
            Ok(_) => {},
            Err(error) => return Err(error),
        }
        Ok(Self::bytes_to_chars(is_high_byte, actual))
    }

    /// Reads a string with its length in one byte.
    pub fn read_short_xl_unicode_string(&mut self) -> (res: Result<String, RustySheetError>)
        requires
            old(self).wf(),
        ensures
            final(self).wf(),
            final(self).same_record(*old(self)),
            match exact_bytes(old(self).store(), old(self).pending(), 1) {
                Err(error) => {
                    &&& res matches Err(e)
                    &&& e@ == error
                    &&& final(self).pending() == left(old(self).pending(), 1)
                },
                Ok(bytes) => {
                    let (outcome, after) = string_part(
                        old(self).encoding@,
                        old(self).store(),
                        left(old(self).pending(), 1),
                        bytes[0] as nat,
                        false,
                    );
                    &&& final(self).pending() == after
                    &&& match outcome {
                        Ok((text, _)) => res matches Ok(string) && string@ == text,
                        Err(error) => res matches Err(e) && e@ == error,
                    }
                },
            },
    {
        let mut string = String::new();
        let chars: usize = match self.read_u8() {
            Ok(chars) => chars as usize,
            Err(error) => return Err(error),
        };
        match self.read_string_into(chars, false, &mut string) {
            Ok(_) => Ok(string),
            Err(error) => Err(error),
        }
    }

    /// Reads a string with its length in two bytes.
    pub fn read_xl_unicode_string(&mut self) -> (res: Result<String, RustySheetError>)
        requires
            old(self).wf(),
        ensures
            final(self).wf(),
            final(self).same_record(*old(self)),
            match exact_bytes(old(self).store(), old(self).pending(), 2) {
                Err(error) => {
                    &&& res matches Err(e)
                    &&& e@ == error
                    &&& final(self).pending() == left(old(self).pending(), 2)
                },
                Ok(bytes) => {
                    let (outcome, after) = string_part(
                        old(self).encoding@,
                        old(self).store(),
                        left(old(self).pending(), 2),
                        le_value(bytes),
                        false,
                    );
                    &&& final(self).pending() == after
                    &&& match outcome {
                        Ok((text, _)) => res matches Ok(string) && string@ == text,
                        Err(error) => res matches Err(e) && e@ == error,
                    }
                },
            },
    {
        let mut string = String::new();
        let chars: usize = match self.read_u16() {
            Ok(chars) => chars as usize,
            Err(error) => return Err(error),
        };
        match self.read_string_into(chars, false, &mut string) {
            Ok(_) => Ok(string),
            Err(error) => Err(error),
        }
    }

    /// Reads a string with its length in two bytes, with formatting runs and
    /// phonetic data, that may go on in continuation records.
    pub fn read_xl_unicode_rich_extended_string(&mut self) -> (res: Result<
        String,
        RustySheetError,
    >)
        requires
            old(self).wf(),
        ensures
            final(self).wf(),
            final(self).same_record(*old(self)),
            match exact_bytes(old(self).store(), old(self).pending(), 2) {
                Err(error) => {
                    &&& res matches Err(e)
                    &&& e@ == error
                    &&& final(self).pending() == left(old(self).pending(), 2)
                },
                Ok(bytes) => {
                    let (outcome, after) = string_rest(
                        old(self).encoding@,
                        old(self).store(),
                        left(old(self).pending(), 2),
                        le_value(bytes),
                        true,
                    );
                    &&& final(self).pending() == after
                    &&& match outcome {
                        Ok(text) => res matches Ok(string) && string@ == text,
                        Err(error) => res matches Err(e) && e@ == error,
                    }
                },
            },
    {
        let mut string = String::new();
        let mut expected: usize = match self.read_u16() {
            Ok(chars) => chars as usize,
            Err(error) => return Err(error),
        };
        let ghost label = self.encoding@;
        let ghost store = self.store();
        let ghost total = expected as nat;
        let ghost (outcome, at_end) = string_rest(label, store, self.pending(), total, true);
        let ghost before = self.pending();
        let mut actual: usize = match self.read_string_into(expected, true, &mut string) {
            Ok(actual) => actual,
            Err(error) => return Err(error),
        };
        proof {
            lemma_string_part_advances(label, store, before, total, true);
        }
        while actual < expected
            invariant
                self.wf(),
                self.same_record(*old(self)),
                self.store() == store,
                self.encoding@ == label,
                expected <= 65535,
                ({
                    let (rest, end) = if actual < expected {
                        string_rest(
                            label,
                            store,
                            self.pending(),
                            (expected - actual) as nat,
                            false,
                        )
                    } else {
                        (Ok::<Seq<char>, ErrorView>(Seq::empty()), self.pending())
                    };
                    &&& at_end == end
                    &&& match rest {
                        Ok(more) => outcome == Ok::<Seq<char>, ErrorView>(string@ + more),
                        Err(error) => outcome == Err::<Seq<char>, ErrorView>(error),
                    }
                }),
                exact_bytes(old(self).store(), old(self).pending(), 2) matches Ok(bytes) && (
                outcome, at_end) == string_rest(
                    old(self).encoding@,
                    old(self).store(),
                    left(old(self).pending(), 2),
                    le_value(bytes),
                    true,
                ),
            decreases live_total(self.pending()),
        {
            let ghost text = string@;
            expected = expected - actual;
            let ghost before = self.pending();
            proof {
                lemma_string_part_advances(label, store, before, expected as nat, false);
            }
            actual = match self.read_string_into(expected, false, &mut string) {
                Ok(actual) => actual,
                Err(error) => return Err(error),
            };
            proof {
                let (part, after) = string_part(label, store, before, expected as nat, false);
                let piece = part->Ok_0.0;
                assert(string@ =~= text + piece);
                assert(forall|more: Seq<char>| text + (piece + more) =~= (text + piece) + more);
                assert(text + piece =~= string@ + Seq::<char>::empty());
            }
        }
        proof {
            assert(string@ + Seq::<char>::empty() =~= string@);
        }
        Ok(string)
    }

    /// Whether `self` is the state in which the record with the given chunks, which
    /// starts at `start`, is the current one and nothing of it was read.
    pub open spec fn at_record(self, start: int, chunks: Seq<(int, int)>) -> bool {
        &&& self.cached == (span_total(chunks) <= MAX_CACHED_RECORD_SIZE)
        &&& self.record_start == start
        &&& self.record_end == chunks.last().1
        &&& self.record_length == span_total(chunks)
        &&& self.contents() == span_bytes(self.file.data@, live(chunks))
        &&& if self.cached {
            &&& spans_within(spans_of(self.cache_chunks@), self.cache@.len() as int)
            &&& span_bytes(self.cache@, spans_of(self.cache_chunks@)) == span_bytes(
                self.file.data@,
                chunks,
            )
        } else {
            &&& self.cache@.len() == 0
            &&& self.cache_chunks@.len() == 0
            &&& self.pending() == live(chunks)
        }
    }

    /// Whether `self` is the state that a header which cannot be read leaves behind,
    /// where `chunks` are the chunks whose headers were read: the position is that
    /// of the header, the cache is empty and what is known of the record before
    /// stays, so that its current chunk starts again where it is read from the file.
    pub open spec fn stopped_at_header(self, before: Self, chunks: Seq<(int, int)>) -> bool {
        &&& self == Biff8Reader {
            file: self.file,
            file_position: self.file_position,
            buffered_position: self.buffered_position,
            pointer: self.pointer,
            cache: self.cache,
            cache_chunks: self.cache_chunks,
            index: 0,
            offset: 0,
            ..before
        }
        &&& self.pointer == chain_end(chunks, before.pointer as int)
        &&& self.cache@.len() == 0
        &&& spans_of(self.cache_chunks@) == if span_total(chunks) <= MAX_CACHED_RECORD_SIZE {
            chunks
        } else {
            Seq::empty()
        }
    }

    /// Whether `self` is the state that a small record which starts at `start` leaves
    /// behind where its first `count` chunks lie within the file and the next one
    /// does not. The record is the current one. The cache holds the first chunks and
    /// space for the one that could not be read, the contents of which are left
    /// open; the ranges of that one and of those behind it are still those in the
    /// file.
    pub open spec fn stopped_at_data(self, start: int, chunks: Seq<(int, int)>, count: int) -> bool {
        &&& self.cached
        &&& self.record_start == start
        &&& self.record_end == chunks.last().1
        &&& self.record_length == span_total(chunks)
        &&& self.file_chunk.0 == chunks[0].0
        &&& self.file_chunk.1 == chunks[0].1
        &&& self.index == 0
        &&& self.offset == 0
        &&& self.cache@.len() == span_total(chunks.take(count + 1))
        &&& self.cache_chunks@.len() == chunks.len()
        &&& spans_of(self.cache_chunks@).skip(count) == chunks.skip(count)
        &&& forall|i: int|
            0 <= i < count ==> {
                let chunk = #[trigger] self.cache_chunks@[i];
                &&& chunk.0 == span_total(chunks.take(i))
                &&& chunk.1 == span_total(chunks.take(i + 1))
                &&& chunk.0 <= chunk.1 <= self.cache@.len()
                &&& self.cache@.subrange(chunk.0 as int, chunk.1 as int)
                    == self.file.data@.subrange(chunks[i].0, chunks[i].1)
            }
    }

    /// Moves to the next record and returns its type, or `None` at the end. Where
    /// a header cannot be read, the position stays at that header. Where the data of
    /// a small record cannot be read, the position is behind the record.
    pub fn next(&mut self) -> (res: Result<Option<u16>, RustySheetError>)
        requires
            old(self).wf(),
        ensures
            final(self).wf(),
            final(self).encoding == old(self).encoding,
            final(self).file.data == old(self).file.data,
            final(self).length == old(self).length,
            match record_at(
                old(self).file.data@,
                old(self).length as int,
                old(self).pointer as int,
            ) {
                Err(error) => {
                    &&& res matches Err(e)
                    &&& e@ == error
                    &&& final(self).stopped_at_header(
                        *old(self),
                        chunks_reached(
                            old(self).file.data@,
                            old(self).length as int,
                            old(self).pointer as int,
                        ),
                    )
                },
                Ok(None) => res == Ok::<Option<u16>, RustySheetError>(None) && *final(self) == *old(
                    self,
                ),
                Ok(Some((kind, chunks))) => {
                    &&& final(self).pointer == chunks.last().1
                    &&& if span_total(chunks) <= MAX_CACHED_RECORD_SIZE && !spans_within(
                        chunks,
                        old(self).file.data@.len() as int,
                    ) {
                        &&& res matches Err(e)
                        &&& e@ == ErrorView::Io(IoError::UnexpectedEof)
                        &&& final(self).stopped_at_data(
                            old(self).pointer as int,
                            chunks,
                            count_within(chunks, old(self).file.data@.len() as int),
                        )
                    } else {
                        &&& res == Ok::<Option<u16>, RustySheetError>(Some(kind))
                        &&& final(self).at_record(old(self).pointer as int, chunks)
                    }
                },
            },
    {
        if !(self.pointer < self.length && self.length - self.pointer > 4) {
            return Ok(None);
        }
        let record_start: usize = self.pointer;
        let ghost data = self.file.data@;
        let ghost length = self.length as int;
        let ghost record = record_at(data, length, record_start as int);
        self.index = 0;
        self.offset = 0;
        self.cache.clear();
        self.cache_chunks.clear();

        let kind: u16 = match self.read_file_u16_at(record_start) {
            Ok(kind) => kind,
            Err(error) => {
                proof {
                    assert(spans_of(self.cache_chunks@) =~= Seq::<(int, int)>::empty());
                }
                return Err(error);
            },
        };
        let size: usize = match self.read_file_u16_at(record_start + 2) {
            Ok(size) => size as usize,
            Err(error) => {
                proof {
                    assert(spans_of(self.cache_chunks@) =~= Seq::<(int, int)>::empty());
                }
                return Err(error);
            },
        };
        let first_chunk: (usize, usize) = (record_start + 4, record_start + 4 + size);
        self.pointer = first_chunk.1;
        self.cache_chunks.push(first_chunk);
        let mut record_length: usize = size;
        let mut cacheable: bool = true;
        let ghost first = (first_chunk.0 as int, first_chunk.1 as int);
        let ghost mut later = Seq::<(int, int)>::empty();
        proof {
            lemma_two_byte_value(data.subrange(record_start + 2, record_start + 4));
            reveal_with_fuel(span_total, 2);
            assert(seq![first].drop_last() =~= Seq::<(int, int)>::empty());
            assert(seq![first] + later =~= seq![first]);
            assert(spans_of(self.cache_chunks@) =~= seq![first] + later);
            let reached = continuations_reached(data, length, self.pointer as int);
            assert((seq![first] + later) + reached =~= seq![first] + reached);
            if let Ok(more) = continuations(data, length, self.pointer as int) {
                assert((seq![first] + later) + more =~= seq![first] + more);
            }
        }
        let mut going: bool = true;
        while going
            invariant
                self.positions_agree(),
                self.file.data@ == data,
                self.file.data == old(self).file.data,
                self.length == length,
                old(self).wf(),
                *self == (Biff8Reader {
                    file: self.file,
                    file_position: self.file_position,
                    buffered_position: self.buffered_position,
                    pointer: self.pointer,
                    cache: self.cache,
                    cache_chunks: self.cache_chunks,
                    index: 0,
                    offset: 0,
                    ..*old(self)
                }),
                self.cache@.len() == 0,
                length <= usize::MAX / 2,
                record_start + 4 < length,
                record == record_at(data, length, record_start as int),
                record_start == old(self).pointer,
                length == old(self).length,
                data == old(self).file.data@,
                first == (first_chunk.0 as int, first_chunk.1 as int),
                first_chunk.0 == record_start + 4,
                first_chunk.0 <= first_chunk.1 <= first_chunk.0 + 65535,
                self.pointer <= length + 65535,
                record_length <= self.pointer,
                linked(data, later, first.1),
                chain_end(later, first.1) == self.pointer,
                record_length == span_total(seq![first] + later),
                cacheable == (record_length <= MAX_CACHED_RECORD_SIZE),
                cacheable ==> spans_of(self.cache_chunks@) == seq![first] + later,
                !cacheable ==> self.cache_chunks@.len() == 0,
                forall|i: int|
                    0 <= i < later.len() ==> (#[trigger] later[i]).0 <= later[i].1
                        && later[i].1 - later[i].0 <= 65535 && later[i].1 <= self.pointer,
                first.1 <= self.pointer,
                going ==> chunks_reached(data, length, record_start as int) == (seq![first] + later)
                    + continuations_reached(data, length, self.pointer as int),
                if going {
                    match continuations(data, length, self.pointer as int) {
                        Ok(more) => record == Ok::<Option<(u16, Seq<(int, int)>)>, ErrorView>(
                            Some((kind, (seq![first] + later) + more)),
                        ),
                        Err(error) => record == Err::<
                            Option<(u16, Seq<(int, int)>)>,
                            ErrorView,
                        >(error),
                    }
                } else {
                    record == Ok::<Option<(u16, Seq<(int, int)>)>, ErrorView>(
                        Some((kind, seq![first] + later)),
                    )
                },
            decreases
                    (if going && self.pointer < length {
                        length - self.pointer + 1
                    } else if going {
                        1
                    } else {
                        0
                    }),
        {
            let at: usize = self.pointer;
            proof {
                let read = seq![first] + later;
                assert(read + Seq::<(int, int)>::empty() =~= read);
                assert(chain_end(read, record_start as int) == at) by {
                    if later.len() > 0 {
                        assert(read.last() == later.last());
                    }
                }
                if !cacheable {
                    assert(spans_of(self.cache_chunks@) =~= Seq::<(int, int)>::empty());
                }
                assert forall|i: int| 0 <= i < self.cache_chunks@.len() implies {
                    let chunk = #[trigger] self.cache_chunks@[i];
                    chunk.0 <= chunk.1 && chunk.1 - chunk.0 <= 65535
                } by {
                    let chunk = self.cache_chunks@[i];
                    assert(spans_of(self.cache_chunks@)[i] == (chunk.0 as int, chunk.1 as int));
                    if i > 0 {
                        assert(read[i] == later[i - 1]);
                    }
                }
            }
            if !(at < self.length && self.length - at > 4) {
                going = false;
            } else {
                let next_kind: u16 = match self.read_file_u16_at(at) {
                    Ok(next_kind) => next_kind,
                    Err(error) => return Err(error),
                };
                if next_kind != CONTINUE {
                    going = false;
                } else {
                    let size: usize = match self.read_file_u16_at(at + 2) {
                        Ok(size) => size as usize,
                        Err(error) => return Err(error),
                    };
                    let lower: usize = at + 4;
                    let upper: usize = lower + size;
                    self.pointer = upper;
                    record_length = record_length + size;
                    let ghost before = seq![first] + later;
                    let ghost span = (lower as int, upper as int);
                    let ghost chunks_before = self.cache_chunks@;
                    if cacheable && record_length <= MAX_CACHED_RECORD_SIZE {
                        self.cache_chunks.push((lower, upper));
                    } else {
                        cacheable = false;
                        self.cache_chunks.clear();
                    }
                    proof {
                        lemma_two_byte_value(data.subrange(at + 2, at + 4));
                        lemma_linked_push(data, later, first.1, span);
                        later = later.push(span);
                        let all = seq![first] + later;
                        assert(all =~= before.push(span));
                        assert(all.drop_last() =~= before);
                        assert(all.last() == span);
                        if cacheable {
                            assert(spans_of(self.cache_chunks@) =~= spans_of(chunks_before).push(
                                span,
                            ));
                        }
                        let reached = continuations_reached(data, length, upper as int);
                        assert(before + (seq![span] + reached) =~= all + reached);
                        if let Ok(more) = continuations(data, length, upper as int) {
                            assert(before + (seq![span] + more) =~= all + more);
                        }
                    }
                }
            }
        }
        let ghost chunks = seq![first] + later;
        proof {
            if later.len() > 0 {
                assert(chunks.last() == later.last());
            }
            assert forall|i: int| 0 <= i < chunks.len() implies (#[trigger] chunks[i]).0
                <= chunks[i].1 && chunks[i].1 - chunks[i].0 <= 65535 by {
                if i > 0 {
                    assert(chunks[i] == later[i - 1]);
                }
            }
        }
        self.cached = cacheable;
        self.record_start = record_start;
        self.record_end = self.pointer;
        self.record_length = record_length;
        self.file_chunk = first_chunk;
        self.later = Ghost(later);

        if self.cached {
            let mut i: usize = 0;
            while i < self.cache_chunks.len()
                invariant
                    self.positions_agree(),
                    self.file.data@ == data,
                    data == old(self).file.data@,
                    self.file.data == old(self).file.data,
                    self.length == length,
                    self.length == old(self).length,
                    self.length <= usize::MAX / 2,
                    self.encoding == old(self).encoding,
                    self.cached,
                    self.index == 0,
                    self.offset == 0,
                    self.pointer == chunks.last().1,
                    self.record_start == record_start,
                    record_start == old(self).pointer,
                    self.record_end == chunks.last().1,
                    self.record_end <= usize::MAX / 2 + 65535,
                    self.record_length == span_total(chunks),
                    self.record_length <= MAX_CACHED_RECORD_SIZE,
                    self.file_chunk == first_chunk,
                    chunks[0] == (first_chunk.0 as int, first_chunk.1 as int),
                    self.cache@.len() == span_total(chunks.take(i as int)),
                    record == record_at(data, length, old(self).pointer as int),
                    record == Ok::<Option<(u16, Seq<(int, int)>)>, ErrorView>(Some((kind, chunks))),
                    i <= self.cache_chunks@.len(),
                    self.cache_chunks@.len() == chunks.len(),
                    forall|j: int|
                        0 <= j < chunks.len() ==> (#[trigger] chunks[j]).0 <= chunks[j].1
                            && chunks[j].1 - chunks[j].0 <= 65535,
                    forall|j: int|
                        i <= j < chunks.len() ==> {
                            let chunk = #[trigger] self.cache_chunks@[j];
                            chunks[j] == (chunk.0 as int, chunk.1 as int)
                        },
                    forall|j: int|
                        0 <= j < i ==> {
                            let chunk = #[trigger] self.cache_chunks@[j];
                            &&& chunk.0 == span_total(chunks.take(j))
                            &&& chunk.1 == span_total(chunks.take(j + 1))
                            &&& chunk.0 <= chunk.1 <= self.cache@.len()
                            &&& chunk.1 - chunk.0 == chunks[j].1 - chunks[j].0
                            &&& chunks[j].1 <= data.len()
                            &&& self.cache@.subrange(chunk.0 as int, chunk.1 as int)
                                == data.subrange(chunks[j].0, chunks[j].1)
                        },
                decreases self.cache_chunks@.len() - i,
            {
                let (file_lower, file_upper) = self.cache_chunks[i];
                let ghost cache_before = self.cache@;
                let ghost ranges_before = self.cache_chunks@;
                let cache_lower: usize = self.cache.len();
                proof {
                    let chunk = self.cache_chunks@[i as int];
                    assert(chunks[i as int] == (chunk.0 as int, chunk.1 as int));
                    assert(chunks.take(i + 1).drop_last() =~= chunks.take(i as int));
                    assert(chunks.take(i + 1).last() == chunks[i as int]);
                    lemma_span_total_take(chunks, i + 1);
                }
                self.seek_file(file_lower);
                self.file_position = None;
                match self.file.read_exact(file_upper - file_lower) {
                    Err(error) => {
                        self.cache.resize(cache_lower + (file_upper - file_lower), 0);
                        proof {
                            assert(!spans_within(chunks, data.len() as int)) by {
                                assert(chunks[i as int].1 > data.len());
                            }
                            assert forall|j: int| 0 <= j < i implies (#[trigger] chunks[j]).1
                                <= data.len() by {
                                let chunk = self.cache_chunks@[j];
                            }
                            lemma_count_within(chunks, data.len() as int, i as int);
                            assert(spans_of(self.cache_chunks@).skip(i as int) =~= chunks.skip(
                                i as int,
                            ));
                            assert forall|j: int| 0 <= j < i implies {
                                let chunk = #[trigger] self.cache_chunks@[j];
                                &&& chunk.0 <= chunk.1 <= self.cache@.len()
                                &&& self.cache@.subrange(chunk.0 as int, chunk.1 as int)
                                    == data.subrange(chunks[j].0, chunks[j].1)
                            } by {
                                let chunk = self.cache_chunks@[j];
                                assert(self.cache@.subrange(chunk.0 as int, chunk.1 as int)
                                    =~= cache_before.subrange(chunk.0 as int, chunk.1 as int));
                            }
                        }
                        return Err(RustySheetError::Io(error));
                    },
                    Ok(bytes) => {
                        self.file_position = Some(file_upper);
                        let mut bytes: Vec<u8> = bytes;
                        let ghost read = bytes@;
                        self.cache.append(&mut bytes);
                        let cache_upper: usize = self.cache.len();
                        self.cache_chunks.set(i, (cache_lower, cache_upper));
                        proof {
                            lemma_record_starts_within(data, length, record_start as int, i as int);
                            assert(read =~= data.subrange(file_lower as int, file_upper as int));
                            assert(self.cache@ =~= cache_before + read);
                            assert(self.cache@.subrange(cache_lower as int, cache_upper as int)
                                =~= read);
                            assert forall|j: int| 0 <= j < i + 1 implies {
                                let chunk = #[trigger] self.cache_chunks@[j];
                                &&& chunk.0 == span_total(chunks.take(j))
                                &&& chunk.1 == span_total(chunks.take(j + 1))
                                &&& chunk.0 <= chunk.1 <= self.cache@.len()
                                &&& chunk.1 - chunk.0 == chunks[j].1 - chunks[j].0
                                &&& chunks[j].1 <= data.len()
                                &&& self.cache@.subrange(chunk.0 as int, chunk.1 as int)
                                    == data.subrange(chunks[j].0, chunks[j].1)
                            } by {
                                if j < i {
                                    let chunk = ranges_before[j];
                                    assert(self.cache_chunks@[j] == chunk);
                                    assert(self.cache@.subrange(chunk.0 as int, chunk.1 as int)
                                        =~= cache_before.subrange(chunk.0 as int, chunk.1 as int));
                                }
                            }
                        }
                    },
                }
                i = i + 1;
            }
            proof {
                let ranges = spans_of(self.cache_chunks@);
                assert(self.unread() =~= ranges);
                assert(span_bytes(self.cache@, ranges) =~= span_bytes(data, chunks));
                assert forall|j: int| 0 <= j < ranges.len() implies (#[trigger] ranges[j]).1
                    - ranges[j].0 == chunks[j].1 - chunks[j].0 by {
                    let chunk = self.cache_chunks@[j];
                }
                lemma_live_same_sizes(ranges, chunks);
                lemma_live_prefix(ranges);
                lemma_live_prefix(chunks);
                assert forall|j: int| 0 <= j < live(chunks).len() implies #[trigger] span_bytes(
                    self.cache@,
                    live(ranges),
                )[j] == span_bytes(data, live(chunks))[j] by {
                    let chunk = self.cache_chunks@[j];
                    assert(live(ranges)[j] == ranges[j]);
                    assert(live(chunks)[j] == chunks[j]);
                }
                assert(self.contents() =~= span_bytes(data, live(chunks)));
                assert(spans_within(chunks, data.len() as int)) by {
                    assert forall|j: int| 0 <= j < chunks.len() implies (#[trigger] chunks[j]).1
                        <= data.len() by {
                        let chunk = self.cache_chunks@[j];
                    }
                }
            }
        } else {
            proof {
                assert(self.unread() =~= chunks);
            }
        }
        Ok(Some(kind))
    }
}

/// Whether all ranges are filled and lie within the store.
pub open spec fn readable(store: Seq<u8>, spans: Seq<(int, int)>) -> bool {
    forall|i: int|
        0 <= i < spans.len() ==> 0 <= (#[trigger] spans[i]).0 < spans[i].1 <= store.len()
}

/// What a read gives depends on the bytes of the unread chunks alone, not on
/// whether they are in the cache or in the file; and what is left after it does
/// so again.
pub proof fn lemma_reads_depend_on_contents(
    store: Seq<u8>,
    pending: Seq<(int, int)>,
    other_store: Seq<u8>,
    other: Seq<(int, int)>,
    length: int,
)
    requires
        readable(store, pending),
        readable(other_store, other),
        span_bytes(store, pending) == span_bytes(other_store, other),
        0 <= length,
    ensures
        exact_bytes(store, pending, length) == exact_bytes(other_store, other, length),
        some_bytes(store, pending, length) == some_bytes(other_store, other, length),
        skipped(pending, length) == skipped(other, length),
        span_bytes(store, left(pending, length)) == span_bytes(other_store, left(other, length)),
        readable(store, left(pending, length)),
        readable(other_store, left(other, length)),
{
    let bytes = span_bytes(store, pending);
    assert(pending.len() == bytes.len() && other.len() == bytes.len());
    assert forall|i: int| 0 <= i < pending.len() implies store.subrange(
        (#[trigger] pending[i]).0,
        pending[i].1,
    ) == other_store.subrange(other[i].0, other[i].1) by {
        assert(bytes[i] == store.subrange(pending[i].0, pending[i].1));
        assert(bytes[i] == other_store.subrange(other[i].0, other[i].1));
    }
    if pending.len() > 0 {
        let (a, b) = (pending[0], other[0]);
        assert(other[0].0 < other[0].1);
        let head = store.subrange(a.0, a.1);
        assert(head.len() == a.1 - a.0);
        assert(other_store.subrange(b.0, b.1).len() == b.1 - b.0);
        if a.0 + length < a.1 {
            assert(store.subrange(a.0, a.0 + length) =~= head.take(length));
            assert(other_store.subrange(b.0, b.0 + length) =~= head.take(length));
            assert(store.subrange(a.0 + length, a.1) =~= head.skip(length));
            assert(other_store.subrange(b.0 + length, b.1) =~= head.skip(length));
        }
        assert forall|i: int| 0 <= i < left(pending, length).len() implies #[trigger] span_bytes(
            store,
            left(pending, length),
        )[i] == span_bytes(other_store, left(other, length))[i] by {
            if a.0 + length < a.1 {
                if i > 0 {
                    assert(left(pending, length)[i] == pending[i]);
                }
            } else {
                assert(left(pending, length)[i] == pending[i + 1]);
            }
        }
    }
    assert(span_bytes(store, left(pending, length)) =~= span_bytes(
        other_store,
        left(other, length),
    ));
}

/// Whether two lists of ranges are readable and hold the same bytes.
pub open spec fn alike(
    store: Seq<u8>,
    pending: Seq<(int, int)>,
    other_store: Seq<u8>,
    other: Seq<(int, int)>,
) -> bool {
    &&& readable(store, pending)
    &&& readable(other_store, other)
    &&& span_bytes(store, pending) == span_bytes(other_store, other)
}

proof fn lemma_string_heads_alike(
    store: Seq<u8>,
    pending: Seq<(int, int)>,
    other_store: Seq<u8>,
    other: Seq<(int, int)>,
    is_extend: bool,
)
    requires
        alike(store, pending, other_store, other),
    ensures
        string_head(store, pending, is_extend).0 == string_head(other_store, other, is_extend).0,
        alike(
            store,
            string_head(store, pending, is_extend).1,
            other_store,
            string_head(other_store, other, is_extend).1,
        ),
{
    lemma_reads_depend_on_contents(store, pending, other_store, other, 1);
    let (p, q) = (left(pending, 1), left(other, 1));
    lemma_reads_depend_on_contents(store, p, other_store, q, 2);
    lemma_reads_depend_on_contents(store, p, other_store, q, 4);
    lemma_reads_depend_on_contents(store, left(p, 2), other_store, left(q, 2), 4);
}

proof fn lemma_string_parts_alike(
    label: Seq<char>,
    store: Seq<u8>,
    pending: Seq<(int, int)>,
    other_store: Seq<u8>,
    other: Seq<(int, int)>,
    chars: nat,
    is_extend: bool,
)
    requires
        alike(store, pending, other_store, other),
    ensures
        string_part(label, store, pending, chars, is_extend).0 == string_part(
            label,
            other_store,
            other,
            chars,
            is_extend,
        ).0,
        alike(
            store,
            string_part(label, store, pending, chars, is_extend).1,
            other_store,
            string_part(label, other_store, other, chars, is_extend).1,
        ),
{
    lemma_string_heads_alike(store, pending, other_store, other, is_extend);
    let (head, p1) = string_head(store, pending, is_extend);
    let (_, q1) = string_head(other_store, other, is_extend);
    if let Ok(head) = head {
        let expected = if head.wide {
            2 * chars as int
        } else {
            chars as int
        };
        lemma_reads_depend_on_contents(store, p1, other_store, q1, expected);
        let (p2, q2) = (left(p1, expected), left(q1, expected));
        lemma_reads_depend_on_contents(store, p2, other_store, q2, 4 * head.runs);
        let (p3, q3) = (left(p2, 4 * head.runs), left(q2, 4 * head.runs));
        lemma_reads_depend_on_contents(store, p3, other_store, q3, head.phonetic);
    }
}

/// What is read of a string depends on the bytes of the unread chunks alone.
pub proof fn lemma_strings_depend_on_contents(
    label: Seq<char>,
    store: Seq<u8>,
    pending: Seq<(int, int)>,
    other_store: Seq<u8>,
    other: Seq<(int, int)>,
    chars: nat,
    is_extend: bool,
)
    requires
        alike(store, pending, other_store, other),
    ensures
        string_part(label, store, pending, chars, is_extend).0 == string_part(
            label,
            other_store,
            other,
            chars,
            is_extend,
        ).0,
        string_rest(label, store, pending, chars, is_extend).0 == string_rest(
            label,
            other_store,
            other,
            chars,
            is_extend,
        ).0,
    decreases live_total(pending),
{
    lemma_string_parts_alike(label, store, pending, other_store, other, chars, is_extend);
    let (part, after) = string_part(label, store, pending, chars, is_extend);
    let (_, other_after) = string_part(label, other_store, other, chars, is_extend);
    if let Ok((_, actual)) = part {
        if actual < chars {
            lemma_string_part_advances(label, store, pending, chars, is_extend);
            lemma_strings_depend_on_contents(
                label,
                store,
                after,
                other_store,
                other_after,
                (chars - actual) as nat,
                false,
            );
        }
    }
}

/// Every record takes at least its header, so that the reader comes to an end.
pub proof fn lemma_record_moves_on(data: Seq<u8>, length: int, at: int)
    requires
        0 <= at,
    ensures
        record_at(data, length, at) matches Ok(Some((_, chunks))) ==> {
            &&& chunks.len() > 0
            &&& chunks[0].0 == at + 4
            &&& linked(data, chunks.drop_first(), chunks[0].1)
            &&& at + 4 <= chunks.last().1 == chain_end(chunks.drop_first(), chunks[0].1)
        },
{
    if let Ok(Some((_, chunks))) = record_at(data, length, at) {
        let size = file_u16(data, length, at + 2)->Ok_0;
        let more = continuations(data, length, at + 4 + size)->Ok_0;
        assert(chunks.drop_first() =~= more);
        lemma_continuations_linked(data, length, at + 4 + size);
        lemma_linked_end(data, more, chunks[0].1);
        if more.len() > 0 {
            assert(chunks.last() == more.last());
        }
    }
}

proof fn lemma_continuations_linked(data: Seq<u8>, length: int, at: int)
    requires
        0 <= at,
    ensures
        continuations(data, length, at) matches Ok(spans) ==> linked(data, spans, at),
    decreases
            (if length > at {
                length - at
            } else {
                0
            }),
{
    if let Ok(spans) = continuations(data, length, at) {
        if spans.len() > 0 {
            let size = file_u16(data, length, at + 2)->Ok_0;
            lemma_two_byte_value(data.subrange(at + 2, at + 4));
            let more = continuations(data, length, at + 4 + size)->Ok_0;
            assert(spans.drop_first() =~= more);
            lemma_continuations_linked(data, length, at + 4 + size);
        }
    }
}

/// In a file that is as long as it is said to be, every record has a readable
/// header: moving to it fails at most for the lack of its data.
pub proof fn lemma_complete_file_has_headers(data: Seq<u8>, length: int, at: int)
    requires
        0 <= at,
        length <= data.len(),
    ensures
        continuations(data, length, at) is Ok,
        record_at(data, length, at) is Ok,
    decreases
            (if length > at {
                length - at
            } else {
                0
            }),
{
    if at + 4 < length {
        let size = file_u16(data, length, at + 2)->Ok_0;
        lemma_complete_file_has_headers(data, length, at + 4 + size);
    }
}

/// The data of a record, its chunks joined.
pub open spec fn record_data(data: Seq<u8>, chunks: Seq<(int, int)>) -> Seq<u8> {
    span_bytes(data, chunks).flatten()
}

/// The 16-bit number `offset` bytes before the end of the data of a record with the
/// given chunks.
pub open spec fn record_back_value(data: Seq<u8>, chunks: Seq<(int, int)>, offset: int) -> Result<
    u16,
    ErrorView,
> {
    number_at(record_data(data, chunks), record_data(data, chunks).len() - offset)
}

proof fn lemma_record_data_split(data: Seq<u8>, chunks: Seq<(int, int)>)
    requires
        chunks.len() > 0,
        0 <= chunks[0].0 <= chunks[0].1 <= data.len(),
    ensures
        record_data(data, chunks) == data.subrange(chunks[0].0, chunks[0].1) + record_data(
            data,
            chunks.drop_first(),
        ),
{
    let parts = span_bytes(data, chunks);
    assert(parts.drop_first() =~= span_bytes(data, chunks.drop_first()));
    assert(parts.first() == data.subrange(chunks[0].0, chunks[0].1));
}

/// A record has as many bytes as its chunks together.
proof fn lemma_record_data_length(data: Seq<u8>, chunks: Seq<(int, int)>)
    requires
        forall|i: int|
            0 <= i < chunks.len() ==> 0 <= (#[trigger] chunks[i]).0 <= chunks[i].1 <= data.len(),
    ensures
        record_data(data, chunks).len() == span_total(chunks),
    decreases chunks.len(),
{
    if chunks.len() > 0 {
        let (front, last) = (chunks.drop_last(), chunks.last());
        lemma_record_data_length(data, front);
        let parts = span_bytes(data, chunks);
        assert(parts =~= span_bytes(data, front).push(data.subrange(last.0, last.1)));
        span_bytes(data, front).lemma_flatten_push(data.subrange(last.0, last.1));
    }
}

proof fn lemma_byte_in_file(data: Seq<u8>, length: int, header: int, spans: Seq<(int, int)>, at: int)
    requires
        0 <= header,
        0 <= at,
        length <= data.len(),
        linked(data, spans, header),
        spans.len() > 0,
        chain_end(spans, header) <= length,
    ensures
        byte_in_file(data, length, header, chain_end(spans, header), at) == if at < record_data(
            data,
            spans,
        ).len() {
            Ok::<u8, ErrorView>(record_data(data, spans)[at])
        } else {
            Err::<u8, ErrorView>(short_of(2))
        },
    decreases spans.len(),
{
    lemma_linked_end(data, spans, header);
    lemma_two_byte_value(data.subrange(header + 2, header + 4));
    lemma_record_data_split(data, spans);
    let size = spans[0].1 - spans[0].0;
    let rest = spans.drop_first();
    if at >= size {
        if rest.len() > 0 {
            assert(rest.last() == spans.last());
            lemma_linked_end(data, rest, spans[0].1);
            lemma_byte_in_file(data, length, spans[0].1, rest, at - size);
        } else {
            assert(span_bytes(data, rest) =~= Seq::<Seq<u8>>::empty());
        }
    }
}

proof fn lemma_back_in_file(data: Seq<u8>, length: int, header: int, spans: Seq<(int, int)>, at: int)
    requires
        0 <= header,
        0 <= at,
        length <= data.len(),
        linked(data, spans, header),
        spans.len() > 0,
        chain_end(spans, header) <= length,
    ensures
        back_in_file(data, length, header, chain_end(spans, header), at) == number_at(
            record_data(data, spans),
            at,
        ),
    decreases spans.len(),
{
    lemma_linked_end(data, spans, header);
    lemma_two_byte_value(data.subrange(header + 2, header + 4));
    lemma_record_data_split(data, spans);
    let size = spans[0].1 - spans[0].0;
    let rest = spans.drop_first();
    let bytes = record_data(data, spans);
    if at + 2 <= size {
        assert(bytes.subrange(at, at + 2) =~= data.subrange(spans[0].0 + at, spans[0].0 + at + 2));
    } else if rest.len() > 0 {
        assert(rest.last() == spans.last());
        lemma_linked_end(data, rest, spans[0].1);
        if at < size {
            lemma_byte_in_file(data, length, spans[0].1, rest, 0);
            if at + 2 <= bytes.len() {
                assert(bytes.subrange(at, at + 2) =~= seq![
                    data[spans[0].0 + at],
                    record_data(data, rest)[0],
                ]);
            }
        } else {
            lemma_back_in_file(data, length, spans[0].1, rest, at - size);
            if at + 2 <= bytes.len() {
                assert(bytes.subrange(at, at + 2) =~= record_data(data, rest).subrange(
                    at - size,
                    at - size + 2,
                ));
            }
        }
    } else {
        assert(span_bytes(data, rest) =~= Seq::<Seq<u8>>::empty());
    }
}

/// The number at an offset from the end is that of the record's joined data, whether
/// the record was copied to memory or is read from the file, as long as the record
/// lies within the file.
pub proof fn lemma_back_value_of_record(
    reader: Biff8Reader,
    kind: u16,
    chunks: Seq<(int, int)>,
    offset: int,
)
    requires
        reader.wf(),
        reader.at_record(reader.record_start as int, chunks),
        record_at(reader.file.data@, reader.length as int, reader.record_start as int) == Ok::<
            Option<(u16, Seq<(int, int)>)>,
            ErrorView,
        >(Some((kind, chunks))),
        reader.length <= reader.file.data@.len(),
        chunks.last().1 <= reader.length,
    ensures
        reader.back_value(offset) == record_back_value(reader.file.data@, chunks, offset),
{
    let data = reader.file.data@;
    let length = reader.length as int;
    let start = reader.record_start as int;
    lemma_record_moves_on(data, length, start);
    assert(linked(data, chunks, start)) by {
        lemma_two_byte_value(data.subrange(start + 2, start + 4));
    }
    assert forall|i: int| 0 <= i < chunks.len() implies 0 <= (#[trigger] chunks[i]).0 <= chunks[i].1
        <= data.len() by {
        lemma_linked_bounds(data, chunks, start, i);
    }
    lemma_record_data_length(data, chunks);
    let at = span_total(chunks) - offset;
    if at >= 0 && !reader.cached {
        lemma_back_in_file(data, length, start, chunks, at);
    }
}

proof fn lemma_linked_bounds(data: Seq<u8>, spans: Seq<(int, int)>, at: int, i: int)
    requires
        0 <= at,
        linked(data, spans, at),
        0 <= i < spans.len(),
    ensures
        at <= spans[i].0 <= spans[i].1 <= spans.last().1,
    decreases i,
{
    lemma_linked_end(data, spans, at);
    if i > 0 {
        assert(spans.drop_first().last() == spans.last());
        lemma_linked_bounds(data, spans.drop_first(), spans[0].1, i - 1);
    }
}

} // verus!
