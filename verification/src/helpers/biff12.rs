//! Reader for the records of the BIFF12 format (`.xlsb` files).

use crate::error::Biff12Error;
use crate::error::ErrorView;
use crate::error::IoError;
use crate::error::RustySheetError;
use crate::helpers::encoding::decode_text;
use crate::helpers::encoding::decoded_text;
use crate::helpers::encoding::UTF_16LE;
use crate::helpers::source::ByteSource;
use crate::helpers::string::le_value;
use crate::helpers::string::signed32;
use crate::helpers::string::to_i32;
use crate::helpers::string::to_u16;
use crate::helpers::string::to_u32;
use crate::helpers::string::to_u64;
use crate::helpers::string::to_usize;
use vstd::prelude::*;

verus! {

/// 128 to the power `n`.
pub open spec fn pow128(n: nat) -> nat
    decreases n,
{
    if n == 0 {
        1
    } else {
        128 * pow128((n - 1) as nat)
    }
}

/// How many bytes a continuation integer of at most `limit` bytes takes at the
/// start of `bytes`: up to the first byte with a clear high bit. `None` where
/// the bytes end before it does.
pub open spec fn continuation_span(bytes: Seq<u8>, limit: nat) -> Option<nat>
    decreases limit,
{
    if limit == 0 {
        Some(0)
    } else if bytes.len() == 0 {
        None
    } else if bytes[0] < 128 {
        Some(1)
    } else {
        match continuation_span(bytes.drop_first(), (limit - 1) as nat) {
            Some(n) => Some(n + 1),
            None => None,
        }
    }
}

/// The value of a continuation integer: seven bits of each byte, the least
/// significant first.
pub open spec fn continuation_value(bytes: Seq<u8>) -> nat
    decreases bytes.len(),
{
    if bytes.len() == 0 {
        0
    } else {
        (bytes[0] % 128) as nat + 128 * continuation_value(bytes.drop_first())
    }
}

/// The header of a record.
pub struct RecordHeader {
    /// The record type.
    pub kind: nat,
    /// The number of data bytes that follow.
    pub size: nat,
    /// The number of bytes that the header takes.
    pub length: nat,
}

/// The header at the start of `rest`: a continuation integer of at most two bytes
/// for the type, and one of at most four bytes for the size.
pub open spec fn record_header(rest: Seq<u8>) -> Option<RecordHeader> {
    match continuation_span(rest, 2) {
        None => None,
        Some(k) => match continuation_span(rest.skip(k as int), 4) {
            None => None,
            Some(s) => Some(
                RecordHeader {
                    kind: continuation_value(rest.take(k as int)),
                    size: continuation_value(rest.skip(k as int).take(s as int)),
                    length: k + s,
                },
            ),
        },
    }
}

/// What reading one record gives.
pub struct RecordRead {
    /// The record type.
    pub kind: nat,
    /// The number of data bytes.
    pub size: nat,
    /// The number of bytes taken from the stream, header included.
    pub consumed: nat,
    /// The buffer afterwards.
    pub buffer: Seq<u8>,
}

/// The outcome of reading the record at the start of `rest` into `buffer`: the
/// record data stands at the start of the buffer, which grows to the size of
/// the record where it is smaller. A buffer that is large enough keeps its tail;
/// its first byte has served to read the header.
pub open spec fn record_read(rest: Seq<u8>, buffer: Seq<u8>) -> Option<RecordRead> {
    match record_header(rest) {
        None => None,
        Some(header) => {
            let body = rest.skip(header.length as int);
            if body.len() < header.size {
                None
            } else {
                let tail = if header.size > buffer.len() {
                    Seq::empty()
                } else {
                    buffer.update(0, rest[header.length - 1]).skip(header.size as int)
                };
                Some(
                    RecordRead {
                        kind: header.kind,
                        size: header.size,
                        consumed: header.length + header.size,
                        buffer: body.take(header.size as int) + tail,
                    },
                )
            }
        },
    }
}

/// The end of the first range that starts with `kind`.
pub open spec fn skip_ending(skips: Seq<(u16, u16)>, kind: u16) -> Option<u16>
    decreases skips.len(),
{
    if skips.len() == 0 {
        None
    } else if skips[0].0 == kind {
        Some(skips[0].1)
    } else {
        skip_ending(skips.drop_first(), kind)
    }
}

/// The type that is waited for after a record of type `kind`: inside of a range,
/// the one that ends it, until it comes; outside of all ranges, `target`, unless
/// the record starts a range.
pub open spec fn awaited(target: u16, expected: u16, kind: u16, skips: Seq<(u16, u16)>) -> u16 {
    if expected != target {
        if kind == expected {
            target
        } else {
            expected
        }
    } else {
        match skip_ending(skips, kind) {
            Some(ending) => ending,
            None => target,
        }
    }
}

/// The outcome of reading records until one of type `target` comes that stands
/// in no skipped range. `expected` is the type that ends the current range, or
/// `target` outside of all ranges.
pub open spec fn record_found(
    rest: Seq<u8>,
    buffer: Seq<u8>,
    target: u16,
    expected: u16,
    skips: Seq<(u16, u16)>,
) -> Option<RecordRead>
    decreases rest.len(),
{
    match record_read(rest, buffer) {
        None => None,
        Some(record) => if record.kind == expected && expected == target {
            Some(record)
        } else {
            let next = awaited(target, expected, record.kind as u16, skips);
            proof {
                lemma_record_advances(rest, buffer);
            }
            match record_found(rest.skip(record.consumed as int), record.buffer, target, next, skips) {
                None => None,
                Some(found) => Some(
                    RecordRead {
                        kind: found.kind,
                        size: found.size,
                        consumed: record.consumed + found.consumed,
                        buffer: found.buffer,
                    },
                ),
            }
        },
    }
}

/// The end of a read of `length` bytes at `at` in a record of `actual` bytes.
pub open spec fn offset_bound(at: usize, length: usize, actual: usize) -> Result<
    usize,
    Biff12Error,
> {
    if at + length > usize::MAX {
        Err(Biff12Error::NoEnoughData(usize::MAX, actual))
    } else if at + length <= actual {
        Ok((at + length) as usize)
    } else {
        Err(Biff12Error::NoEnoughData((at + length) as usize, actual))
    }
}

/// The bounds of the text at `at`: a character count in four bytes, then two
/// bytes for each character.
pub open spec fn text_bounds(buffer: Seq<u8>, at: usize) -> Result<(usize, usize), Biff12Error> {
    let actual = buffer.len() as usize;
    match offset_bound(at, 4, actual) {
        Err(error) => Err(error),
        Ok(lower) => {
            let size = le_value(buffer.subrange(at as int, lower as int));
            if size * 2 > usize::MAX {
                Err(Biff12Error::NoEnoughData(usize::MAX, actual))
            } else {
                match offset_bound(lower, (size * 2) as usize, actual) {
                    Err(error) => Err(error),
                    Ok(upper) => Ok((lower, upper)),
                }
            }
        },
    }
}

/// A continuation integer takes between one byte and its limit.
pub proof fn lemma_span_bounds(bytes: Seq<u8>, limit: nat)
    ensures
        continuation_span(bytes, limit) matches Some(n) ==> {
            &&& n <= limit
            &&& n <= bytes.len()
            &&& limit > 0 ==> n > 0
        },
    decreases limit,
{
    if limit > 0 && bytes.len() > 0 {
        lemma_span_bounds(bytes.drop_first(), (limit - 1) as nat);
    }
}

/// A continuation integer of `n` bytes has fewer than `7 * n + 1` bits.
pub proof fn lemma_continuation_value_bound(bytes: Seq<u8>)
    ensures
        continuation_value(bytes) < pow128(bytes.len()),
    decreases bytes.len(),
{
    if bytes.len() > 0 {
        lemma_continuation_value_bound(bytes.drop_first());
    }
}

proof fn lemma_pow128_small()
    ensures
        pow128(1) == 128,
        pow128(2) == 16384,
        pow128(3) == 2097152,
        pow128(4) == 268435456,
{
    reveal_with_fuel(pow128, 5);
}

proof fn lemma_pow128_monotone(i: nat, j: nat)
    requires
        i <= j,
    ensures
        0 < pow128(i) <= pow128(j),
    decreases j,
{
    if i < j {
        lemma_pow128_monotone(i, (j - 1) as nat);
    } else if i > 0 {
        lemma_pow128_monotone((i - 1) as nat, (i - 1) as nat);
    }
}

proof fn lemma_continuation_value_push(bytes: Seq<u8>, byte: u8)
    ensures
        continuation_value(bytes.push(byte)) == continuation_value(bytes) + (byte % 128) * pow128(
            bytes.len(),
        ),
    decreases bytes.len(),
{
    if bytes.len() == 0 {
        assert(bytes.push(byte).drop_first() =~= Seq::<u8>::empty());
        reveal_with_fuel(continuation_value, 2);
        let low = (byte % 128) as int;
        assert(pow128(0) == 1);
        assert(low * 1 == low);
    } else {
        let rest = bytes.drop_first();
        lemma_continuation_value_push(rest, byte);
        assert(bytes.push(byte).drop_first() =~= rest.push(byte));
        let low = (byte % 128) as int;
        let scale = pow128(rest.len()) as int;
        assert(128 * (low * scale) == low * (128 * scale)) by (nonlinear_arith);
    }
}

/// A header takes at least two bytes, and its numbers are bounded.
pub proof fn lemma_header_bounds(rest: Seq<u8>)
    ensures
        record_header(rest) matches Some(header) ==> {
            &&& 2 <= header.length <= rest.len()
            &&& header.kind < 16384
            &&& header.size < 268435456
        },
{
    lemma_span_bounds(rest, 2);
    if let Some(k) = continuation_span(rest, 2) {
        lemma_span_bounds(rest.skip(k as int), 4);
        lemma_continuation_value_bound(rest.take(k as int));
        lemma_pow128_monotone(k, 2);
        lemma_pow128_small();
        if let Some(s) = continuation_span(rest.skip(k as int), 4) {
            lemma_continuation_value_bound(rest.skip(k as int).take(s as int));
            lemma_pow128_monotone(s, 4);
        }
    }
}

/// Every record that is read takes at least two bytes from the stream.
pub proof fn lemma_record_advances(rest: Seq<u8>, buffer: Seq<u8>)
    ensures
        record_read(rest, buffer) matches Some(record) ==> {
            &&& 2 <= record.consumed <= rest.len()
            &&& record.kind < 16384
            &&& record.size < 268435456
            &&& record.size <= record.buffer.len()
        },
{
    lemma_header_bounds(rest);
}

/// The data that a read puts into the buffer is what is still unread behind the
/// header of the record.
pub proof fn lemma_data_follows_header(rest: Seq<u8>, buffer: Seq<u8>)
    ensures
        record_read(rest, buffer) matches Some(record) ==> {
            &&& record_header(rest) matches Some(header)
            &&& record.kind == header.kind
            &&& record.size == header.size
            &&& record.buffer.take(record.size as int) == rest.skip(header.length as int).take(
                header.size as int,
            )
        },
{
    lemma_header_bounds(rest);
}

/// Inside of a skipped range no record is taken and no other range starts: every
/// record but the one that ends the range is passed over, whatever its type is.
pub proof fn lemma_range_is_passed_over(
    rest: Seq<u8>,
    buffer: Seq<u8>,
    target: u16,
    expected: u16,
    skips: Seq<(u16, u16)>,
)
    requires
        expected != target,
    ensures
        record_read(rest, buffer) matches Some(record) ==> {
            let found = record_found(rest, buffer, target, expected, skips);
            let next = if record.kind == expected {
                target
            } else {
                expected
            };
            match record_found(
                rest.skip(record.consumed as int),
                record.buffer,
                target,
                next,
                skips,
            ) {
                Some(later) => found matches Some(f) && f.kind == later.kind && f.size == later.size
                    && f.buffer == later.buffer && f.consumed == record.consumed + later.consumed,
                None => found is None,
            }
        },
{
    lemma_record_advances(rest, buffer);
}

/// A search that ends well ends at a record of the wanted type, which lies within
/// the stream.
pub proof fn lemma_found_record_has_target_type(
    rest: Seq<u8>,
    buffer: Seq<u8>,
    target: u16,
    expected: u16,
    skips: Seq<(u16, u16)>,
)
    ensures
        record_found(rest, buffer, target, expected, skips) matches Some(found) ==> {
            &&& found.kind == target
            &&& found.consumed <= rest.len()
            &&& found.size <= found.buffer.len()
        },
    decreases rest.len(),
{
    lemma_record_advances(rest, buffer);
    if let Some(record) = record_read(rest, buffer) {
        let tail = rest.skip(record.consumed as int);
        let next = awaited(target, expected, record.kind as u16, skips);
        lemma_found_record_has_target_type(tail, record.buffer, target, next, skips);
    }
}

/// Without ranges to skip, the record that is found is the first one of the
/// wanted type: a record of another type is passed over, and one of that type is
/// taken.
pub proof fn lemma_find_takes_first(rest: Seq<u8>, buffer: Seq<u8>, target: u16)
    ensures
        record_read(rest, buffer) matches Some(record) ==> {
            let found = record_found(rest, buffer, target, target, Seq::empty());
            if record.kind == target {
                found == Some(record)
            } else {
                match record_found(
                    rest.skip(record.consumed as int),
                    record.buffer,
                    target,
                    target,
                    Seq::empty(),
                ) {
                    Some(later) => found matches Some(f) && f.kind == later.kind && f.size == later.size
                        && f.buffer == later.buffer && f.consumed == record.consumed
                        + later.consumed,
                    None => found is None,
                }
            }
        },
{
    lemma_record_advances(rest, buffer);
}

/// Checks that a read of `length` bytes at `at` ends within `actual` bytes.
pub fn checked_offset(at: usize, length: usize, actual: usize) -> (res: Result<usize, Biff12Error>)
    ensures
        res == offset_bound(at, length, actual),
{
    match at.checked_add(length) {
        None => Err(Biff12Error::NoEnoughData(usize::MAX, actual)),
        Some(upper_bound) => if upper_bound <= actual {
            Ok(upper_bound)
        } else {
            Err(Biff12Error::NoEnoughData(upper_bound, actual))
        },
    }
}

/// Reader for BIFF12 records. The data of the current record stands at the start
/// of the buffer.
#[derive(Debug, Clone, PartialEq, Eq)]
pub struct Biff12Reader {
    /// The stream of records.
    pub reader: ByteSource,
    /// The record buffer.
    pub buffer: Vec<u8>,
}

impl Biff12Reader {
    /// Creates a reader with a buffer of 1024 zero bytes.
    pub fn new(reader: ByteSource) -> (res: Biff12Reader)
        ensures
            res.reader == reader,
            res.buffer@ == Seq::new(1024, |i: int| 0u8),
    {
        let buffer: Vec<u8> = vec![0; 1024];
        proof {
            assert(buffer@ =~= Seq::new(1024, |i: int| 0u8));
        }
        Biff12Reader { reader, buffer }
    }

    /// The bytes `at..at + length` of the buffer.
    pub fn slice(&self, at: usize, length: usize) -> (res: Result<&[u8], RustySheetError>)
        ensures
            match offset_bound(at, length, self.buffer.len()) {
                Ok(upper) => res matches Ok(bytes) && bytes@ == self.buffer@.subrange(
                    at as int,
                    upper as int,
                ),
                Err(error) => res matches Err(e) && e@ == ErrorView::Biff12(error),
            },
    {
        match checked_offset(at, length, self.buffer.len()) {
            Ok(upper_bound) => Ok(&self.buffer[at..upper_bound]),
            Err(error) => Err(RustySheetError::Biff12(error)),
        }
    }

    /// Reads the UTF-16 text at `at` and returns it with the position after it.
    pub fn get_str_and_bound(&self, at: usize) -> (res: Result<(String, usize), RustySheetError>)
        requires
            self.buffer@.len() <= usize::MAX / 4,
        ensures
            match text_bounds(self.buffer@, at) {
                Ok((lower, upper)) => {
                    &&& res matches Ok((text, bound))
                    &&& Some(text@) == decoded_text(
                        UTF_16LE@,
                        self.buffer@.subrange(lower as int, upper as int),
                    )
                    &&& bound == upper
                },
                Err(error) => res matches Err(e) && e@ == ErrorView::Biff12(error),
            },
    {
        let size = match self.get_usize(at) {
            Ok(size) => size,
            Err(error) => return Err(error),
        };
        let lower_bound = match checked_offset(at, 4, self.buffer.len()) {
            Ok(lower_bound) => lower_bound,
            Err(error) => return Err(RustySheetError::Biff12(error)),
        };
        let byte_length = match size.checked_mul(2) {
            Some(byte_length) => byte_length,
            None => return Err(
                RustySheetError::Biff12(Biff12Error::NoEnoughData(usize::MAX, self.buffer.len())),
            ),
        };
        let upper_bound = match checked_offset(lower_bound, byte_length, self.buffer.len()) {
            Ok(upper_bound) => upper_bound,
            Err(error) => return Err(RustySheetError::Biff12(error)),
        };
        match decode_text(UTF_16LE, &self.buffer[lower_bound..upper_bound]) {
            Some(text) => Ok((text, upper_bound)),
            None => {
                proof {
                    assert(false);
                }
                Err(RustySheetError::Biff12(Biff12Error::NoEnoughData(0, 0)))
            },
        }
    }

    /// Reads the UTF-16 text at `at`.
    pub fn get_str(&self, at: usize) -> (res: Result<String, RustySheetError>)
        requires
            self.buffer@.len() <= usize::MAX / 4,
        ensures
            match text_bounds(self.buffer@, at) {
                Ok((lower, upper)) => res matches Ok(text) && Some(text@) == decoded_text(
                    UTF_16LE@,
                    self.buffer@.subrange(lower as int, upper as int),
                ),
                Err(error) => res matches Err(e) && e@ == ErrorView::Biff12(error),
            },
    {
        match self.get_str_and_bound(at) {
            Ok((data, _)) => Ok(data),
            Err(error) => Err(error),
        }
    }

    /// Reads a 32-bit number at `at` as a `usize`.
    pub fn get_usize(&self, at: usize) -> (res: Result<usize, RustySheetError>)
        ensures
            match offset_bound(at, 4, self.buffer.len()) {
                Ok(upper) => res matches Ok(value) && value == le_value(
                    self.buffer@.subrange(at as int, upper as int),
                ),
                Err(error) => res matches Err(e) && e@ == ErrorView::Biff12(error),
            },
    {
        match self.slice(at, 4) {
            Ok(bytes) => {
                proof {
                    assert(bytes@.take(4) =~= bytes@);
                }
                Ok(to_usize(bytes))
            },
            Err(error) => Err(error),
        }
    }

    /// Reads a 16-bit unsigned number at `at`.
    pub fn get_u16(&self, at: usize) -> (res: Result<u16, RustySheetError>)
        ensures
            match offset_bound(at, 2, self.buffer.len()) {
                Ok(upper) => res matches Ok(value) && value == le_value(
                    self.buffer@.subrange(at as int, upper as int),
                ),
                Err(error) => res matches Err(e) && e@ == ErrorView::Biff12(error),
            },
    {
        match self.slice(at, 2) {
            Ok(bytes) => {
                proof {
                    assert(bytes@.take(2) =~= bytes@);
                }
                Ok(to_u16(bytes))
            },
            Err(error) => Err(error),
        }
    }

    /// Reads a 32-bit unsigned number at `at`.
    pub fn get_u32(&self, at: usize) -> (res: Result<u32, RustySheetError>)
        ensures
            match offset_bound(at, 4, self.buffer.len()) {
                Ok(upper) => res matches Ok(value) && value == le_value(
                    self.buffer@.subrange(at as int, upper as int),
                ),
                Err(error) => res matches Err(e) && e@ == ErrorView::Biff12(error),
            },
    {
        match self.slice(at, 4) {
            Ok(bytes) => {
                proof {
                    assert(bytes@.take(4) =~= bytes@);
                }
                Ok(to_u32(bytes))
            },
            Err(error) => Err(error),
        }
    }

    /// Reads a 32-bit signed number at `at`.
    pub fn get_i32(&self, at: usize) -> (res: Result<i32, RustySheetError>)
        ensures
            match offset_bound(at, 4, self.buffer.len()) {
                Ok(upper) => res matches Ok(value) && value == signed32(
                    le_value(self.buffer@.subrange(at as int, upper as int)),
                ),
                Err(error) => res matches Err(e) && e@ == ErrorView::Biff12(error),
            },
    {
        match self.slice(at, 4) {
            Ok(bytes) => {
                proof {
                    assert(bytes@.take(4) =~= bytes@);
                }
                Ok(to_i32(bytes))
            },
            Err(error) => Err(error),
        }
    }

    /// Reads the bit pattern of a 64-bit floating point number at `at`.
    pub fn get_f64_bits(&self, at: usize) -> (res: Result<u64, RustySheetError>)
        ensures
            match offset_bound(at, 8, self.buffer.len()) {
                Ok(upper) => res matches Ok(value) && value == le_value(
                    self.buffer@.subrange(at as int, upper as int),
                ),
                Err(error) => res matches Err(e) && e@ == ErrorView::Biff12(error),
            },
    {
        match self.slice(at, 8) {
            Ok(bytes) => {
                proof {
                    assert(bytes@.take(8) =~= bytes@);
                }
                Ok(to_u64(bytes))
            },
            Err(error) => Err(error),
        }
    }

    /// Reads the style index at `at`, a number of three bytes.
    pub fn get_style(&self, at: usize) -> (res: Result<usize, RustySheetError>)
        ensures
            match offset_bound(at, 3, self.buffer.len()) {
                Ok(upper) => res matches Ok(value) && value == le_value(
                    self.buffer@.subrange(at as int, upper as int),
                ),
                Err(error) => res matches Err(e) && e@ == ErrorView::Biff12(error),
            },
    {
        match self.slice(at, 3) {
            Ok(bytes) => {
                let padded: [u8; 4] = [bytes[0], bytes[1], bytes[2], 0];
                proof {
                    let a = padded@.take(4);
                    reveal_with_fuel(le_value, 5);
                    assert(a.drop_first()[0] == bytes@.drop_first()[0]);
                    assert(a.drop_first().drop_first()[0] == bytes@.drop_first().drop_first()[0]);
                    assert(a.drop_first().drop_first().drop_first()[0] == 0);
                    assert(bytes@.drop_first().drop_first().drop_first() =~= Seq::<u8>::empty());
                    assert(a.drop_first().drop_first().drop_first().drop_first() =~= Seq::<
                        u8,
                    >::empty());
                }
                Ok(to_usize(&padded))
            },
            Err(error) => Err(error),
        }
    }

    /// Reads the byte at `at`.
    pub fn get_u8(&self, at: usize) -> (res: Result<u8, RustySheetError>)
        ensures
            match offset_bound(at, 1, self.buffer.len()) {
                Ok(_) => res == Ok::<u8, RustySheetError>(self.buffer@[at as int]),
                Err(error) => res matches Err(e) && e@ == ErrorView::Biff12(error),
            },
    {
        match self.slice(at, 1) {
            Ok(bytes) => Ok(bytes[0]),
            Err(error) => Err(error),
        }
    }

    /// Reads a continuation integer of at most `limit` bytes. Each byte passes
    /// through the first byte of the buffer.
    pub fn read_7bit_continuation_integer(&mut self, limit: usize) -> (res: Result<
        usize,
        RustySheetError,
    >)
        requires
            old(self).buffer@.len() >= 1,
            pow128(limit as nat) <= usize::MAX,
        ensures
            final(self).reader.data == old(self).reader.data,
            final(self).buffer@.len() == old(self).buffer@.len(),
            match continuation_span(old(self).reader.rest(), limit as nat) {
                Some(n) => {
                    let rest = old(self).reader.rest();
                    &&& res matches Ok(value)
                    &&& value == continuation_value(rest.take(n as int))
                    &&& final(self).reader.position == old(self).reader.position + n
                    &&& final(self).reader.rest() == rest.skip(n as int)
                    &&& final(self).buffer@ == if n == 0 {
                        old(self).buffer@
                    } else {
                        old(self).buffer@.update(0, rest[n - 1])
                    }
                },
                None => {
                    &&& res matches Err(e)
                    &&& e@ == ErrorView::Io(IoError::UnexpectedEof)
                    &&& final(self).reader.rest() == Seq::<u8>::empty()
                },
            },
    {
        let ghost rest = self.reader.rest();
        let ghost start = self.reader.position;
        let ghost before = self.buffer@;
        let mut integer: usize = 0;
        let mut scale: usize = 1;
        let mut index: usize = 0;
        proof {
            assert(rest.skip(0) =~= rest);
            assert(rest.take(0) =~= Seq::<u8>::empty());
            lemma_span_bounds(rest, limit as nat);
        }
        while index < limit
            invariant
                index <= limit,
                index <= rest.len(),
                pow128(limit as nat) <= usize::MAX,
                scale == pow128(index as nat),
                integer < scale,
                integer == continuation_value(rest.take(index as int)),
                self.reader.rest() == rest.skip(index as int),
                self.reader.position == start + index,
                self.reader.data == old(self).reader.data,
                self.buffer@.len() == before.len(),
                before.len() >= 1,
                self.buffer@ == if index == 0 {
                    before
                } else {
                    before.update(0, rest[index - 1])
                },
                continuation_span(rest, limit as nat) == match continuation_span(
                    rest.skip(index as int),
                    (limit - index) as nat,
                ) {
                    Some(n) => Some((n + index) as nat),
                    None => None,
                },
                rest == old(self).reader.rest(),
                before == old(self).buffer@,
                start == old(self).reader.position,
            decreases limit - index,
        {
            let ghost tail = rest.skip(index as int);
            match self.reader.read_exact(1) {
                Err(error) => {
                    return Err(RustySheetError::Io(error));
                },
                Ok(bytes) => {
                    let byte: u8 = bytes[0];
                    self.buffer.set(0, byte);
                    proof {
                        assert(byte == rest[index as int]);
                        assert(tail.skip(1) =~= rest.skip(index + 1));
                        assert(tail.drop_first() =~= rest.skip(index + 1));
                        assert(rest.take(index + 1) =~= rest.take(index as int).push(byte));
                        lemma_continuation_value_push(rest.take(index as int), byte);
                        lemma_pow128_monotone((index + 1) as nat, limit as nat);
                        assert((byte % 128) * scale <= 127 * scale) by (nonlinear_arith)
                            requires
                                0 <= byte % 128 <= 127,
                                0 <= scale,
                        ;
                        assert(self.buffer@ =~= before.update(0, byte));
                    }
                    let low: usize = (byte % 128) as usize;
                    integer = integer + low * scale;
                    scale = scale * 128;
                    index = index + 1;
                    if byte < 128 {
                        return Ok(integer);
                    }
                },
            }
        }
        Ok(integer)
    }

    fn read_header(&mut self) -> (res: Result<(u16, usize), RustySheetError>)
        requires
            old(self).buffer@.len() >= 1,
        ensures
            final(self).reader.data == old(self).reader.data,
            final(self).buffer@.len() == old(self).buffer@.len(),
            match record_header(old(self).reader.rest()) {
                Some(header) => {
                    let rest = old(self).reader.rest();
                    &&& res matches Ok((kind, size))
                    &&& kind == header.kind
                    &&& size == header.size
                    &&& final(self).buffer@ == old(self).buffer@.update(0, rest[header.length - 1])
                    &&& final(self).reader.position == old(self).reader.position + header.length
                    &&& final(self).reader.rest() == rest.skip(header.length as int)
                },
                None => {
                    &&& res matches Err(e)
                    &&& e@ == ErrorView::Io(IoError::UnexpectedEof)
                    &&& final(self).reader.rest() == Seq::<u8>::empty()
                },
            },
    {
        let ghost rest = self.reader.rest();
        let ghost before = self.buffer@;
        proof {
            lemma_pow128_small();
            lemma_span_bounds(rest, 2);
            lemma_header_bounds(rest);
        }
        let kind: usize = match self.read_7bit_continuation_integer(2) {
            Ok(kind) => kind,
            Err(error) => return Err(error),
        };
        let ghost k = continuation_span(rest, 2).unwrap();
        proof {
            lemma_span_bounds(rest.skip(k as int), 4);
            lemma_continuation_value_bound(rest.take(k as int));
            lemma_pow128_monotone(k, 2);
        }
        let size: usize = match self.read_7bit_continuation_integer(4) {
            Ok(size) => size,
            Err(error) => return Err(error),
        };
        proof {
            let s = continuation_span(rest.skip(k as int), 4).unwrap();
            assert(rest.skip(k as int).skip(s as int) =~= rest.skip((k + s) as int));
            assert(rest.skip(k as int)[s - 1] == rest[k + s - 1]);
            assert(self.buffer@ =~= before.update(0, rest[k + s - 1]));
        }
        Ok((kind as u16, size))
    }

    /// Returns the type of the next record without reading its data: the stream is
    /// left right behind the header. Each byte of the header passes through the
    /// first byte of the buffer.
    pub fn next(&mut self) -> (res: Result<u16, RustySheetError>)
        requires
            old(self).buffer@.len() >= 1,
        ensures
            final(self).reader.data == old(self).reader.data,
            final(self).buffer@.len() == old(self).buffer@.len(),
            match record_header(old(self).reader.rest()) {
                Some(header) => {
                    let rest = old(self).reader.rest();
                    &&& res matches Ok(kind)
                    &&& kind == header.kind
                    &&& final(self).buffer@ == old(self).buffer@.update(0, rest[header.length - 1])
                    &&& final(self).reader.position == old(self).reader.position + header.length
                    &&& final(self).reader.rest() == rest.skip(header.length as int)
                },
                None => {
                    &&& res matches Err(e)
                    &&& e@ == ErrorView::Io(IoError::UnexpectedEof)
                    &&& final(self).reader.rest() == Seq::<u8>::empty()
                },
            },
    {
        match self.read_header() {
            Ok((kind, _)) => Ok(kind),
            Err(error) => Err(error),
        }
    }

    /// Reads the next record into the buffer and returns its type and size.
    pub fn read(&mut self) -> (res: Result<(u16, usize), RustySheetError>)
        requires
            old(self).buffer@.len() >= 1,
        ensures
            final(self).reader.data == old(self).reader.data,
            final(self).buffer@.len() >= 1,
            match record_read(old(self).reader.rest(), old(self).buffer@) {
                Some(record) => {
                    &&& res matches Ok((kind, size))
                    &&& kind == record.kind
                    &&& size == record.size
                    &&& final(self).buffer@ == record.buffer
                    &&& final(self).reader.position == old(self).reader.position + record.consumed
                    &&& final(self).reader.rest() == old(self).reader.rest().skip(
                        record.consumed as int,
                    )
                },
                None => {
                    &&& res matches Err(e)
                    &&& e@ == ErrorView::Io(IoError::UnexpectedEof)
                    &&& final(self).reader.rest() == Seq::<u8>::empty()
                },
            },
    {
        let ghost rest = self.reader.rest();
        let ghost before = self.buffer@;
        proof {
            lemma_record_advances(rest, before);
            lemma_header_bounds(rest);
        }
        let (kind, size) = match self.read_header() {
            Ok(header) => header,
            Err(error) => return Err(error),
        };
        let ghost length = record_header(rest).unwrap().length;
        let ghost body = rest.skip(length as int);
        if size > self.buffer.len() {
            self.buffer = vec![0u8; size];
        }
        let ghost base = self.buffer@;
        match self.reader.read_exact(size) {
            Err(error) => Err(RustySheetError::Io(error)),
            Ok(bytes) => {
                let mut i: usize = 0;
                while i < size
                    invariant
                        i <= size,
                        size <= base.len(),
                        bytes@.len() == size,
                        self.buffer@ == bytes@.take(i as int) + base.skip(i as int),
                        self.reader.data == old(self).reader.data,
                        self.reader.position == old(self).reader.position + length + size,
                        self.reader.rest() == body.skip(size as int),
                    decreases size - i,
                {
                    let ghost current = self.buffer@;
                    self.buffer.set(i, bytes[i]);
                    proof {
                        assert(self.buffer@ =~= bytes@.take(i + 1) + base.skip(i + 1));
                    }
                    i = i + 1;
                }
                proof {
                    assert(bytes@.take(size as int) =~= bytes@);
                    assert(body.skip(size as int) =~= rest.skip((length + size) as int));
                    let record = record_read(rest, before).unwrap();
                    assert(self.buffer@ =~= record.buffer);
                }
                Ok((kind, size))
            },
        }
    }

    /// Reads records until one of type `target` comes, and returns its size. A
    /// record that starts one of the given ranges makes the reader pass over
    /// everything up to the record that ends the range, starts of other ranges
    /// included.
    pub fn find_with(&mut self, target: u16, skips: &[(u16, u16)]) -> (res: Result<
        usize,
        RustySheetError,
    >)
        requires
            old(self).buffer@.len() >= 1,
        ensures
            final(self).reader.data == old(self).reader.data,
            final(self).buffer@.len() >= 1,
            match record_found(
                old(self).reader.rest(),
                old(self).buffer@,
                target,
                target,
                skips@,
            ) {
                Some(record) => {
                    &&& res matches Ok(size)
                    &&& size == record.size
                    &&& final(self).buffer@ == record.buffer
                    &&& final(self).reader.position == old(self).reader.position + record.consumed
                },
                None => {
                    &&& res matches Err(e)
                    &&& e@ == ErrorView::Io(IoError::UnexpectedEof)
                    &&& final(self).reader.rest() == Seq::<u8>::empty()
                },
            },
    {
        let mut expected: u16 = target;
        let ghost outcome = record_found(self.reader.rest(), self.buffer@, target, target, skips@);
        let ghost mut passed: nat = 0;
        loop
            invariant
                self.buffer@.len() >= 1,
                self.reader.data == old(self).reader.data,
                self.reader.position == old(self).reader.position + passed,
                outcome == record_found(
                    old(self).reader.rest(),
                    old(self).buffer@,
                    target,
                    target,
                    skips@,
                ),
                match record_found(self.reader.rest(), self.buffer@, target, expected, skips@) {
                    Some(found) => outcome == Some(
                        RecordRead {
                            kind: found.kind,
                            size: found.size,
                            consumed: passed + found.consumed,
                            buffer: found.buffer,
                        },
                    ),
                    None => outcome is None,
                },
            decreases self.reader.rest().len(),
        {
            let ghost rest = self.reader.rest();
            let ghost buffer = self.buffer@;
            proof {
                lemma_record_advances(rest, buffer);
            }
            let (actual, size) = match self.read() {
                Ok(record) => record,
                Err(error) => return Err(error),
            };
            if actual == expected && expected == target {
                return Ok(size);
            } else if expected != target {
                if actual == expected {
                    expected = target;
                }
            } else {
                match Self::range_ending(skips, actual) {
                    Some(ending) => {
                        expected = ending;
                    },
                    None => {},
                }
            }
            proof {
                passed = passed + record_read(rest, buffer).unwrap().consumed;
            }
        }
    }

    /// The end of the first range that starts with `kind`.
    fn range_ending(skips: &[(u16, u16)], kind: u16) -> (res: Option<u16>)
        ensures
            res == skip_ending(skips@, kind),
    {
        let mut i: usize = 0;
        proof {
            assert(skips@.skip(0) =~= skips@);
        }
        while i < skips.len()
            invariant
                i <= skips@.len(),
                skip_ending(skips@, kind) == skip_ending(skips@.skip(i as int), kind),
            decreases skips@.len() - i,
        {
            let (beginning, ending) = skips[i];
            if beginning == kind {
                return Some(ending);
            }
            proof {
                assert(skips@.skip(i as int).drop_first() =~= skips@.skip(i + 1));
            }
            i = i + 1;
        }
        None
    }

    /// Reads records until one of type `target` comes, and returns its size.
    pub fn find(&mut self, target: u16) -> (res: Result<usize, RustySheetError>)
        requires
            old(self).buffer@.len() >= 1,
        ensures
            final(self).reader.data == old(self).reader.data,
            final(self).buffer@.len() >= 1,
            match record_found(
                old(self).reader.rest(),
                old(self).buffer@,
                target,
                target,
                Seq::empty(),
            ) {
                Some(record) => {
                    &&& res matches Ok(size)
                    &&& size == record.size
                    &&& final(self).buffer@ == record.buffer
                    &&& final(self).reader.position == old(self).reader.position + record.consumed
                },
                None => {
                    &&& res matches Err(e)
                    &&& e@ == ErrorView::Io(IoError::UnexpectedEof)
                    &&& final(self).reader.rest() == Seq::<u8>::empty()
                },
            },
    {
        let skips: [(u16, u16); 0] = [];
        proof {
            assert(skips@ =~= Seq::empty());
        }
        self.find_with(target, &skips)
    }
}

} // verus!
