//! What is read of BIFF12 records that were written.

use crate::error::Biff12Error;
use crate::helpers::biff12::awaited;
use crate::helpers::biff12::continuation_span;
use crate::helpers::biff12::continuation_value;
use crate::helpers::biff12::lemma_record_advances;
use crate::helpers::biff12::offset_bound;
use crate::helpers::biff12::pow128;
use crate::helpers::biff12::record_found;
use crate::helpers::biff12::record_read;
use crate::helpers::biff12::skip_ending;
use crate::helpers::biff12::text_bounds;
use crate::helpers::biff12::RecordRead;
use crate::helpers::encoding::UTF_16LE;
use crate::helpers::string::le_digits;
use crate::helpers::string::le_value;
use crate::helpers::string::lemma_le_round_trip;
use crate::helpers::string::pow256;
use crate::helpers::string::signed32;
use vstd::prelude::*;

verus! {

/// A number in `n` bytes of seven bits each, the lowest first, with a mark on each
/// byte but the last.
pub open spec fn continuation_bytes(value: nat, n: nat) -> Seq<u8>
    decreases n,
{
    if n <= 1 {
        seq![value as u8]
    } else {
        seq![(128 + value % 128) as u8] + continuation_bytes(value / 128, (n - 1) as nat)
    }
}

/// A continuation integer is read back, and no byte behind it is touched.
pub proof fn lemma_continuation_round_trip(value: nat, n: nat, limit: nat, tail: Seq<u8>)
    requires
        1 <= n <= limit,
        value < pow128(n),
    ensures
        continuation_bytes(value, n).len() == n,
        continuation_span(continuation_bytes(value, n) + tail, limit) == Some(n),
        continuation_value(continuation_bytes(value, n)) == value,
    decreases n,
{
    let bytes = continuation_bytes(value, n);
    reveal_with_fuel(pow128, 2);
    if n == 1 {
        reveal_with_fuel(continuation_value, 2);
        assert((bytes + tail)[0] == value as u8);
    } else {
        let low = (value % 128) as int;
        let more = continuation_bytes(value / 128, (n - 1) as nat);
        let scale = pow128((n - 1) as nat) as int;
        assert(value / 128 < scale) by (nonlinear_arith)
            requires
                value < 128 * scale,
        ;
        lemma_continuation_round_trip(value / 128, (n - 1) as nat, (limit - 1) as nat, tail);
        assert(bytes.drop_first() =~= more);
        assert((bytes + tail).drop_first() =~= more + tail);
        assert((bytes + tail)[0] == (128 + low) as u8);
        assert(bytes[0] % 128 == low);
    }
}

/// A continuation integer ends with its last allowed byte, even where that one has
/// a mark; the mark does not count.
pub proof fn lemma_continuation_limit(bytes: Seq<u8>, tail: Seq<u8>)
    requires
        forall|i: int| 0 <= i < bytes.len() ==> (#[trigger] bytes[i]) >= 128,
    ensures
        continuation_span(bytes + tail, bytes.len()) == Some(bytes.len()),
        bytes.len() > 0 ==> continuation_value(bytes) == continuation_value(
            bytes.update(bytes.len() - 1, (bytes.last() - 128) as u8),
        ),
    decreases bytes.len(),
{
    if bytes.len() > 0 {
        let rest = bytes.drop_first();
        assert((bytes + tail)[0] == bytes[0]);
        assert((bytes + tail).drop_first() =~= rest + tail);
        assert forall|i: int| 0 <= i < rest.len() implies (#[trigger] rest[i]) >= 128 by {
            assert(rest[i] == bytes[i + 1]);
        }
        lemma_continuation_limit(rest, tail);
        let other = bytes.update(bytes.len() - 1, (bytes.last() - 128) as u8);
        if rest.len() > 0 {
            assert(other.drop_first() =~= rest.update(rest.len() - 1, (rest.last() - 128) as u8));
        } else {
            assert(other.drop_first() =~= rest);
        }
    }
}

/// A record as it is written.
pub struct WrittenRecord {
    /// The record type.
    pub kind: u16,
    /// The number of bytes that hold the type.
    pub kind_width: nat,
    /// The number of bytes that hold the size.
    pub size_width: nat,
    /// The data.
    pub data: Seq<u8>,
}

impl WrittenRecord {
    /// The bytes of the record.
    pub open spec fn bytes(self) -> Seq<u8> {
        continuation_bytes(self.kind as nat, self.kind_width) + continuation_bytes(
            self.data.len(),
            self.size_width,
        ) + self.data
    }

    /// Whether the type and the size fit into their bytes.
    pub open spec fn is_sound(self) -> bool {
        &&& 1 <= self.kind_width <= 2
        &&& (self.kind as nat) < pow128(self.kind_width)
        &&& 1 <= self.size_width <= 4
        &&& self.data.len() < pow128(self.size_width)
    }
}

/// Reading a record gives its type and its data, and leaves the stream right behind
/// it.
pub proof fn lemma_record_round_trip(record: WrittenRecord, tail: Seq<u8>, buffer: Seq<u8>)
    requires
        record.is_sound(),
    ensures
        record_read(record.bytes() + tail, buffer) matches Some(read) && {
            &&& read.kind == record.kind
            &&& read.size == record.data.len()
            &&& read.consumed == record.bytes().len()
            &&& read.buffer.take(read.size as int) == record.data
            &&& read.buffer.len() >= buffer.len()
        },
{
    let rest = record.bytes() + tail;
    let kind = continuation_bytes(record.kind as nat, record.kind_width);
    let size = continuation_bytes(record.data.len(), record.size_width);
    lemma_continuation_round_trip(
        record.kind as nat,
        record.kind_width,
        2,
        size + record.data + tail,
    );
    lemma_continuation_round_trip(record.data.len(), record.size_width, 4, record.data + tail);
    assert(rest =~= kind + (size + record.data + tail));
    assert(rest.take(kind.len() as int) =~= kind);
    assert(rest.skip(kind.len() as int) =~= size + (record.data + tail));
    assert(rest.skip(kind.len() as int).take(size.len() as int) =~= size);
    let body = rest.skip((kind.len() + size.len()) as int);
    assert(body =~= record.data + tail);
    assert(body.take(record.data.len() as int) =~= record.data);
    let read = record_read(rest, buffer)->Some_0;
    assert(read.buffer.take(read.size as int) =~= record.data);
}

/// What stands before the record that is looked for.
pub enum Segment {
    /// A record that starts no range.
    Single(WrittenRecord),
    /// A range: the record that starts it, those inside of it, and the one that ends
    /// it.
    Range(WrittenRecord, Seq<WrittenRecord>, WrittenRecord),
}

/// The bytes of records, one behind the other.
pub open spec fn records_bytes(records: Seq<WrittenRecord>) -> Seq<u8>
    decreases records.len(),
{
    if records.len() == 0 {
        Seq::empty()
    } else {
        records[0].bytes() + records_bytes(records.drop_first())
    }
}

impl Segment {
    /// The bytes of the segment.
    pub open spec fn bytes(self) -> Seq<u8> {
        match self {
            Segment::Single(record) => record.bytes(),
            Segment::Range(start, inner, end) => start.bytes() + records_bytes(inner) + end.bytes(),
        }
    }

    /// Whether a search for records of type `target` has to pass over the segment.
    pub open spec fn is_passed_over(self, target: u16, skips: Seq<(u16, u16)>) -> bool {
        match self {
            Segment::Single(record) => {
                &&& record.is_sound()
                &&& record.kind != target
                &&& forall|j: int| 0 <= j < skips.len() ==> (#[trigger] skips[j]).0 != record.kind
            },
            Segment::Range(start, inner, end) => {
                &&& start.is_sound()
                &&& end.is_sound()
                &&& start.kind != target
                &&& end.kind != target
                &&& skips.contains((start.kind, end.kind))
                &&& forall|j: int|
                    0 <= j < skips.len() && (#[trigger] skips[j]).0 == start.kind ==> skips[j].1
                        == end.kind
                &&& forall|j: int|
                    0 <= j < inner.len() ==> (#[trigger] inner[j]).is_sound() && inner[j].kind
                        != end.kind
            },
        }
    }
}

/// The bytes of segments, one behind the other.
pub open spec fn segments_bytes(segments: Seq<Segment>) -> Seq<u8>
    decreases segments.len(),
{
    if segments.len() == 0 {
        Seq::empty()
    } else {
        segments[0].bytes() + segments_bytes(segments.drop_first())
    }
}

proof fn lemma_skip_ending(skips: Seq<(u16, u16)>, kind: u16)
    ensures
        match skip_ending(skips, kind) {
            Some(end) => skips.contains((kind, end)),
            None => forall|j: int| 0 <= j < skips.len() ==> (#[trigger] skips[j]).0 != kind,
        },
    decreases skips.len(),
{
    if skips.len() > 0 {
        let rest = skips.drop_first();
        lemma_skip_ending(rest, kind);
        if skips[0].0 == kind {
            assert(skips[0] == (kind, skips[0].1));
        } else if let Some(end) = skip_ending(rest, kind) {
            let j = choose|j: int| 0 <= j < rest.len() && rest[j] == (kind, end);
            assert(skips[j + 1] == (kind, end));
        } else {
            assert forall|j: int| 0 <= j < skips.len() implies (#[trigger] skips[j]).0 != kind by {
                if j > 0 {
                    assert(skips[j] == rest[j - 1]);
                }
            }
        }
    }
}

/// The outcome of a search in `rest` is that of a search behind its first `n` bytes.
spec fn goes_on(
    rest: Seq<u8>,
    buffer: Seq<u8>,
    target: u16,
    expected: u16,
    skips: Seq<(u16, u16)>,
    n: int,
    then_buffer: Seq<u8>,
    then_expected: u16,
) -> bool {
    match record_found(rest.skip(n), then_buffer, target, then_expected, skips) {
        Some(found) => record_found(rest, buffer, target, expected, skips) == Some(
            RecordRead { consumed: n as nat + found.consumed, ..found },
        ),
        None => record_found(rest, buffer, target, expected, skips) is None,
    }
}

proof fn lemma_record_is_passed(
    record: WrittenRecord,
    tail: Seq<u8>,
    buffer: Seq<u8>,
    target: u16,
    expected: u16,
    skips: Seq<(u16, u16)>,
) -> (then_buffer: Seq<u8>)
    requires
        record.is_sound(),
        record.kind != target || expected != target,
    ensures
        goes_on(
            record.bytes() + tail,
            buffer,
            target,
            expected,
            skips,
            record.bytes().len() as int,
            then_buffer,
            awaited(target, expected, record.kind, skips),
        ),
        (record.bytes() + tail).skip(record.bytes().len() as int) == tail,
{
    let rest = record.bytes() + tail;
    lemma_record_round_trip(record, tail, buffer);
    lemma_record_advances(rest, buffer);
    assert(rest.skip(record.bytes().len() as int) =~= tail);
    let read = record_read(rest, buffer)->Some_0;
    assert(read.kind as u16 == record.kind);
    read.buffer
}

proof fn lemma_inner_is_passed(
    inner: Seq<WrittenRecord>,
    tail: Seq<u8>,
    buffer: Seq<u8>,
    target: u16,
    expected: u16,
    skips: Seq<(u16, u16)>,
) -> (then_buffer: Seq<u8>)
    requires
        expected != target,
        forall|j: int|
            0 <= j < inner.len() ==> (#[trigger] inner[j]).is_sound() && inner[j].kind != expected,
    ensures
        goes_on(
            records_bytes(inner) + tail,
            buffer,
            target,
            expected,
            skips,
            records_bytes(inner).len() as int,
            then_buffer,
            expected,
        ),
        (records_bytes(inner) + tail).skip(records_bytes(inner).len() as int) == tail,
    decreases inner.len(),
{
    let bytes = records_bytes(inner);
    assert((bytes + tail).skip(bytes.len() as int) =~= tail);
    if inner.len() > 0 {
        let record = inner[0];
        let others = inner.drop_first();
        assert forall|j: int| 0 <= j < others.len() implies (#[trigger] others[j]).is_sound()
            && others[j].kind != expected by {
            assert(others[j] == inner[j + 1]);
        }
        let more = records_bytes(others);
        let middle = lemma_record_is_passed(record, more + tail, buffer, target, expected, skips);
        assert(record.bytes() + (more + tail) =~= bytes + tail);
        lemma_inner_is_passed(others, tail, middle, target, expected, skips)
    } else {
        assert(bytes + tail =~= tail);
        assert(tail.skip(0) =~= tail);
        buffer
    }
}

proof fn lemma_segment_is_passed(
    segment: Segment,
    tail: Seq<u8>,
    buffer: Seq<u8>,
    target: u16,
    skips: Seq<(u16, u16)>,
) -> (then_buffer: Seq<u8>)
    requires
        segment.is_passed_over(target, skips),
    ensures
        goes_on(
            segment.bytes() + tail,
            buffer,
            target,
            target,
            skips,
            segment.bytes().len() as int,
            then_buffer,
            target,
        ),
        (segment.bytes() + tail).skip(segment.bytes().len() as int) == tail,
{
    let bytes = segment.bytes();
    assert((bytes + tail).skip(bytes.len() as int) =~= tail);
    match segment {
        Segment::Single(record) => {
            lemma_skip_ending(skips, record.kind);
            if let Some(end) = skip_ending(skips, record.kind) {
                let j = choose|j: int| 0 <= j < skips.len() && skips[j] == (record.kind, end);
                assert(skips[j].0 == record.kind);
            }
            lemma_record_is_passed(record, tail, buffer, target, target, skips)
        },
        Segment::Range(start, inner, end) => {
            lemma_skip_ending(skips, start.kind);
            let k = choose|k: int| 0 <= k < skips.len() && skips[k] == (start.kind, end.kind);
            assert(skips[k].0 == start.kind);
            let found = skip_ending(skips, start.kind)->Some_0;
            let j = choose|j: int| 0 <= j < skips.len() && skips[j] == (start.kind, found);
            assert(skips[j].0 == start.kind);
            assert(found == end.kind);
            let inside = records_bytes(inner);
            let first = lemma_record_is_passed(
                start,
                inside + (end.bytes() + tail),
                buffer,
                target,
                target,
                skips,
            );
            assert(start.bytes() + (inside + (end.bytes() + tail)) =~= bytes + tail);
            let second = lemma_inner_is_passed(
                inner,
                end.bytes() + tail,
                first,
                target,
                end.kind,
                skips,
            );
            lemma_record_is_passed(end, tail, second, target, end.kind, skips)
        },
    }
}

/// A search finds the first record of the wanted type that stands in no skipped range:
/// it passes over single records of other types and over whole ranges, whatever stands
/// in them, and gives the data of the record that it finds.
pub proof fn lemma_search_finds_record(
    segments: Seq<Segment>,
    record: WrittenRecord,
    tail: Seq<u8>,
    buffer: Seq<u8>,
    skips: Seq<(u16, u16)>,
)
    requires
        record.is_sound(),
        forall|i: int|
            0 <= i < segments.len() ==> (#[trigger] segments[i]).is_passed_over(record.kind, skips),
    ensures
        record_found(
            segments_bytes(segments) + record.bytes() + tail,
            buffer,
            record.kind,
            record.kind,
            skips,
        ) matches Some(found) && {
            &&& found.kind == record.kind
            &&& found.size == record.data.len()
            &&& found.consumed == segments_bytes(segments).len() + record.bytes().len()
            &&& found.buffer.take(found.size as int) == record.data
        },
    decreases segments.len(),
{
    let target = record.kind;
    let whole = segments_bytes(segments) + record.bytes() + tail;
    if segments.len() > 0 {
        let others = segments.drop_first();
        assert forall|i: int| 0 <= i < others.len() implies (
        #[trigger] others[i]).is_passed_over(target, skips) by {
            assert(others[i] == segments[i + 1]);
        }
        let then_rest = segments_bytes(others) + record.bytes() + tail;
        let segment = segments[0];
        let then_buffer = lemma_segment_is_passed(segment, then_rest, buffer, target, skips);
        assert(segment.bytes() + then_rest =~= whole);
        lemma_search_finds_record(others, record, tail, then_buffer, skips);
    } else {
        assert(whole =~= record.bytes() + tail);
        lemma_record_round_trip(record, tail, buffer);
    }
}

/// Where all records of a stream are passed over, a search finds nothing.
pub proof fn lemma_search_finds_nothing(
    segments: Seq<Segment>,
    target: u16,
    buffer: Seq<u8>,
    skips: Seq<(u16, u16)>,
)
    requires
        forall|i: int|
            0 <= i < segments.len() ==> (#[trigger] segments[i]).is_passed_over(target, skips),
    ensures
        record_found(segments_bytes(segments), buffer, target, target, skips) is None,
    decreases segments.len(),
{
    let whole = segments_bytes(segments);
    if segments.len() > 0 {
        let others = segments.drop_first();
        assert forall|i: int| 0 <= i < others.len() implies (
        #[trigger] others[i]).is_passed_over(target, skips) by {
            assert(others[i] == segments[i + 1]);
        }
        let then_buffer = lemma_segment_is_passed(
            segments[0],
            segments_bytes(others),
            buffer,
            target,
            skips,
        );
        lemma_search_finds_nothing(others, target, then_buffer, skips);
    }
}

/// Whether the bytes stand at `at` of a buffer.
pub open spec fn holds_at(buffer: Seq<u8>, at: int, bytes: Seq<u8>) -> bool {
    0 <= at && at + bytes.len() <= buffer.len() && buffer.subrange(at, at + bytes.len()) == bytes
}

/// A number that was written in `n` bytes, the lowest first, is read back from where
/// it stands; and reading behind the end of the buffer fails, with the number of bytes
/// that it takes.
pub proof fn lemma_number_is_read(buffer: Seq<u8>, at: usize, value: nat, n: usize)
    requires
        value < pow256(n as nat),
        buffer.len() <= usize::MAX,
    ensures
        holds_at(buffer, at as int, le_digits(value, n as nat)) ==> {
            &&& offset_bound(at, n, buffer.len() as usize) matches Ok(upper)
            &&& upper == at + n
            &&& le_value(buffer.subrange(at as int, upper as int)) == value
        },
        buffer.len() < at + n <= usize::MAX ==> offset_bound(at, n, buffer.len() as usize) == Err::<
            usize,
            Biff12Error,
        >(Biff12Error::NoEnoughData((at + n) as usize, buffer.len() as usize)),
{
    lemma_le_round_trip(value, n as nat);
}

/// A signed number of 32 bits is read back: the negative ones follow the positive
/// ones, the smallest first.
pub proof fn lemma_signed_number_is_read(value: int)
    requires
        -0x8000_0000 <= value < 0x8000_0000,
    ensures
        value >= 0 ==> signed32(value as nat) == value,
        value < 0 ==> signed32((0x1_0000_0000 + value) as nat) == value,
{
}

/// The bytes of a text stand behind their number of characters, two bytes for each.
pub proof fn lemma_text_is_found(buffer: Seq<u8>, at: usize, bytes: Seq<u8>, chars: nat)
    requires
        buffer.len() <= usize::MAX,
        chars < 0x1_0000_0000,
        bytes.len() == 2 * chars,
        holds_at(buffer, at as int, le_digits(chars, 4) + bytes),
    ensures
        text_bounds(buffer, at) matches Ok((lower, upper)) && buffer.subrange(
            lower as int,
            upper as int,
        ) == bytes && upper == at + 4 + 2 * chars,
{
    reveal_with_fuel(pow256, 5);
    lemma_le_round_trip(chars, 4);
    let whole = le_digits(chars, 4) + bytes;
    let stored = buffer.subrange(at as int, at + whole.len());
    assert(buffer.subrange(at as int, at + 4) =~= stored.take(4));
    assert(whole.take(4) =~= le_digits(chars, 4));
    assert(buffer.subrange(at + 4, at + 4 + 2 * chars) =~= stored.skip(4));
    assert(whole.skip(4) =~= bytes);
}

/// Texts are decoded as little-endian UTF-16.
pub proof fn lemma_texts_are_utf16()
    ensures
        UTF_16LE@ == "UTF-16LE"@,
{
}

} // verus!
