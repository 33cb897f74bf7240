//! What holds of successive calls of the BIFF8 record reader.

use crate::error::Biff8Error;
use crate::error::ErrorView;
use crate::helpers::biff8::chain_end;
use crate::helpers::biff8::chunks_reached;
use crate::helpers::biff8::continuations;
use crate::helpers::biff8::continuations_reached;
use crate::helpers::biff8::exact_bytes;
use crate::helpers::biff8::file_u16;
use crate::helpers::biff8::left;
use crate::helpers::biff8::lemma_back_value_of_record;
use crate::helpers::biff8::lemma_live_prefix;
use crate::helpers::biff8::live;
use crate::helpers::biff8::readable;
use crate::helpers::biff8::record_at;
use crate::helpers::biff8::record_data;
use crate::helpers::biff8::rk_integer;
use crate::helpers::biff8::skipped;
use crate::helpers::biff8::some_bytes;
use crate::helpers::biff8::span_bytes;
use crate::helpers::biff8::spans_of;
use crate::helpers::biff8::spans_within;
use crate::helpers::biff8::Biff8Reader;
use crate::helpers::biff8::RkNumber;
use crate::helpers::string::le_digits;
use crate::helpers::string::le_value;
use crate::helpers::string::lemma_le_round_trip;
use crate::helpers::string::pow256;
use crate::helpers::text::decimal;
use vstd::prelude::*;

verus! {

/// A record as it stands in a file.
pub struct RawRecord {
    /// The record type.
    pub kind: u16,
    /// The data.
    pub data: Seq<u8>,
}

/// The bytes of a record: its type, its size and its data.
pub open spec fn record_bytes(record: RawRecord) -> Seq<u8> {
    le_digits(record.kind as nat, 2) + le_digits(record.data.len(), 2) + record.data
}

/// The bytes of a file that holds these records.
pub open spec fn file_of(records: Seq<RawRecord>) -> Seq<u8>
    decreases records.len(),
{
    if records.len() == 0 {
        Seq::empty()
    } else {
        file_of(records.drop_last()) + record_bytes(records.last())
    }
}

/// Where record `i` of a file starts.
pub open spec fn start_of(records: Seq<RawRecord>, i: int) -> int {
    file_of(records.take(i)).len() as int
}

/// Whether the records form a file: their sizes fit their headers, the first one is
/// no continuation, which has the type 60, and the last one has data.
pub open spec fn is_file(records: Seq<RawRecord>) -> bool {
    &&& forall|i: int|
        0 <= i < records.len() ==> (#[trigger] records[i]).data.len() < 65536
    &&& records.len() > 0 ==> records[0].kind != 0x3c && records.last().data.len() > 0
}

/// The numbers of the records among the first `n` that are no continuations.
pub open spec fn heads(records: Seq<RawRecord>, n: int) -> Seq<int>
    decreases n,
{
    if n <= 0 {
        Seq::empty()
    } else if records[n - 1].kind == 0x3c {
        heads(records, n - 1)
    } else {
        heads(records, n - 1).push(n - 1)
    }
}

/// The number of the first record behind the record with the `m`-th head and its
/// continuations.
pub open spec fn group_end(records: Seq<RawRecord>, m: int) -> int {
    let firsts = heads(records, records.len() as int);
    if m + 1 < firsts.len() {
        firsts[m + 1]
    } else {
        records.len() as int
    }
}

/// Where the reader stands after `n` moves to the next record, from `at` on.
pub open spec fn pointer_after(data: Seq<u8>, length: int, at: int, n: nat) -> int
    decreases n,
{
    if n == 0 {
        at
    } else {
        let before = pointer_after(data, length, at, (n - 1) as nat);
        match record_at(data, length, before) {
            Ok(Some((_, chunks))) => chunks.last().1,
            _ => before,
        }
    }
}

/// The data ranges of records `i..j` of a file.
spec fn ranges(records: Seq<RawRecord>, i: int, j: int) -> Seq<(int, int)> {
    Seq::new((j - i) as nat, |k: int| (start_of(records, i + k) + 4, start_of(records, i + k + 1)))
}

proof fn lemma_start_of_next(records: Seq<RawRecord>, i: int)
    requires
        is_file(records),
        0 <= i < records.len(),
    ensures
        start_of(records, i + 1) == start_of(records, i) + 4 + records[i].data.len(),
        file_of(records.take(i + 1)) == file_of(records.take(i)) + record_bytes(records[i]),
        le_digits(records[i].kind as nat, 2).len() == 2,
        le_value(le_digits(records[i].kind as nat, 2)) == records[i].kind,
        le_digits(records[i].data.len(), 2).len() == 2,
        le_value(le_digits(records[i].data.len(), 2)) == records[i].data.len(),
{
    let front = records.take(i + 1);
    assert(front.drop_last() =~= records.take(i));
    assert(front.last() == records[i]);
    reveal_with_fuel(pow256, 3);
    lemma_le_round_trip(records[i].kind as nat, 2);
    lemma_le_round_trip(records[i].data.len(), 2);
}

proof fn lemma_file_grows(records: Seq<RawRecord>, i: int, j: int)
    requires
        is_file(records),
        0 <= i <= j <= records.len(),
    ensures
        start_of(records, i) <= start_of(records, j),
        file_of(records.take(j)).take(start_of(records, i)) == file_of(records.take(i)),
        i < j ==> start_of(records, i) + 4 <= start_of(records, j),
    decreases j - i,
{
    if i < j {
        lemma_file_grows(records, i, j - 1);
        lemma_start_of_next(records, j - 1);
        assert(file_of(records.take(j)).take(start_of(records, i)) =~= file_of(
            records.take(j - 1),
        ).take(start_of(records, i)));
    } else {
        assert(file_of(records.take(j)).take(start_of(records, i)) =~= file_of(records.take(i)));
    }
}

/// What stands in the file at the start of record `i`.
proof fn lemma_record_in_file(records: Seq<RawRecord>, i: int)
    requires
        is_file(records),
        0 <= i < records.len(),
    ensures
        ({
            let data = file_of(records);
            let length = data.len() as int;
            let at = start_of(records, i);
            &&& at + 4 < length
            &&& file_u16(data, length, at) == Ok::<u16, ErrorView>(records[i].kind)
            &&& file_u16(data, length, at + 2) == Ok::<u16, ErrorView>(
                records[i].data.len() as u16,
            )
            &&& at + 4 + records[i].data.len() == start_of(records, i + 1) <= length
            &&& data.subrange(at + 4, start_of(records, i + 1)) == records[i].data
        }),
{
    let data = file_of(records);
    let at = start_of(records, i);
    let n = records.len() as int;
    assert(records.take(n) =~= records);
    lemma_start_of_next(records, i);
    lemma_file_grows(records, i + 1, n);
    let front = file_of(records.take(i + 1));
    let next = start_of(records, i + 1);
    assert(data.take(next) == front);
    let bytes = record_bytes(records[i]);
    assert(data.subrange(at, next) =~= front.subrange(at, next));
    assert(front.subrange(at, next) =~= bytes);
    let kind = le_digits(records[i].kind as nat, 2);
    let size = le_digits(records[i].data.len(), 2);
    assert(data.subrange(at, at + 2) =~= bytes.subrange(0, 2));
    assert(bytes.subrange(0, 2) =~= kind);
    assert(data.subrange(at + 2, at + 4) =~= bytes.subrange(2, 4));
    assert(bytes.subrange(2, 4) =~= size);
    assert(data.subrange(at + 4, next) =~= bytes.subrange(4, bytes.len() as int));
    assert(bytes.subrange(4, bytes.len() as int) =~= records[i].data);
    if i + 1 < n {
        lemma_file_grows(records, i + 1, n);
    } else {
        assert(records[i] == records.last());
    }
}

/// The continuations of a file from record `i` up to the first other record.
proof fn lemma_continuations_of_file(records: Seq<RawRecord>, i: int, j: int)
    requires
        is_file(records),
        0 <= i <= j <= records.len(),
        forall|k: int| i <= k < j ==> (#[trigger] records[k]).kind == 0x3c,
        j < records.len() ==> records[j].kind != 0x3c,
    ensures
        continuations(file_of(records), file_of(records).len() as int, start_of(records, i)) == Ok::<
            Seq<(int, int)>,
            ErrorView,
        >(ranges(records, i, j)),
    decreases j - i,
{
    let data = file_of(records);
    let length = data.len() as int;
    if i < j {
        lemma_record_in_file(records, i);
        lemma_continuations_of_file(records, i + 1, j);
        let at = start_of(records, i);
        assert(seq![(at + 4, start_of(records, i + 1))] + ranges(records, i + 1, j) =~= ranges(
            records,
            i,
            j,
        )) by {
            let more = ranges(records, i + 1, j);
            assert forall|k: int| 0 < k < j - i implies more[k - 1] == #[trigger] ranges(
                records,
                i,
                j,
            )[k] by {
                assert(i + 1 + (k - 1) == i + k);
            }
        }
    } else {
        assert(ranges(records, i, j) =~= Seq::<(int, int)>::empty());
        if i < records.len() {
            lemma_record_in_file(records, i);
        } else {
            assert(records.take(i) =~= records);
        }
    }
}

/// The heads come in order, between two of them stand continuations alone, and the
/// first record of a file is a head.
pub proof fn lemma_heads(records: Seq<RawRecord>, n: int)
    requires
        is_file(records),
        0 <= n <= records.len(),
    ensures
        heads(records, n).len() <= n,
        n > 0 ==> heads(records, n).len() > 0 && heads(records, n)[0] == 0,
        forall|m: int|
            0 <= m < heads(records, n).len() ==> 0 <= (#[trigger] heads(records, n)[m]) < n
                && records[heads(records, n)[m]].kind != 0x3c,
        forall|m: int, k: int|
            #![trigger heads(records, n)[m], heads(records, n)[k]]
            0 <= m < k < heads(records, n).len() ==> heads(records, n)[m] < heads(records, n)[k],
        forall|m: int, i: int|
            #![trigger heads(records, n)[m], records[i]]
            0 <= m < heads(records, n).len() && heads(records, n)[m] < i < (if m + 1 < heads(
                records,
                n,
            ).len() {
                heads(records, n)[m + 1]
            } else {
                n
            }) ==> records[i].kind == 0x3c,
    decreases n,
{
    if n > 0 {
        lemma_heads(records, n - 1);
        let before = heads(records, n - 1);
        let now = heads(records, n);
        assert forall|m: int, i: int|
            #![trigger now[m], records[i]]
            0 <= m < now.len() && now[m] < i < (if m + 1 < now.len() {
                now[m + 1]
            } else {
                n
            }) implies records[i].kind == 0x3c by {
            if m < before.len() {
                assert(now[m] == before[m]);
                if m + 1 < before.len() {
                    assert(now[m + 1] == before[m + 1]);
                }
            }
        }
    }
}

/// The record that starts at record `i` of a file, with its continuations up to
/// record `j`.
proof fn lemma_record_at_head(records: Seq<RawRecord>, i: int, j: int)
    requires
        is_file(records),
        0 <= i < j <= records.len(),
        forall|k: int| i < k < j ==> (#[trigger] records[k]).kind == 0x3c,
        j < records.len() ==> records[j].kind != 0x3c,
    ensures
        ({
            let data = file_of(records);
            let chunks = ranges(records, i, j);
            &&& record_at(data, data.len() as int, start_of(records, i)) == Ok::<
                Option<(u16, Seq<(int, int)>)>,
                ErrorView,
            >(Some((records[i].kind, chunks)))
            &&& chunks.last().1 == start_of(records, j)
            &&& spans_within(chunks, data.len() as int)
            &&& span_bytes(data, chunks) == records.subrange(i, j).map_values(
                |record: RawRecord| record.data,
            )
        }),
{
    let data = file_of(records);
    let chunks = ranges(records, i, j);
    lemma_record_in_file(records, i);
    lemma_continuations_of_file(records, i + 1, j);
    let at = start_of(records, i);
    assert(seq![(at + 4, start_of(records, i + 1))] + ranges(records, i + 1, j) =~= chunks) by {
        let more = ranges(records, i + 1, j);
        assert forall|k: int| 0 < k < j - i implies more[k - 1] == #[trigger] chunks[k] by {
            assert(i + 1 + (k - 1) == i + k);
        }
    }
    assert forall|k: int| 0 <= k < chunks.len() implies (#[trigger] chunks[k]).1 <= data.len() by {
        lemma_record_in_file(records, i + k);
    }
    let parts = records.subrange(i, j).map_values(|record: RawRecord| record.data);
    assert forall|k: int| 0 <= k < chunks.len() implies #[trigger] span_bytes(data, chunks)[k]
        == parts[k] by {
        lemma_record_in_file(records, i + k);
    }
    assert(span_bytes(data, chunks) =~= parts);
    assert(i + (j - i - 1) + 1 == j);
}

/// Successive moves to the next record give every record that is no continuation,
/// in the order of the file, each with its data and that of the continuations right
/// behind it; and then there is no further record, however often one is asked for.
/// What was read of a record before makes no difference.
pub proof fn lemma_records_come_in_order(records: Seq<RawRecord>, m: nat)
    requires
        is_file(records),
    ensures
        ({
            let data = file_of(records);
            let length = data.len() as int;
            let firsts = heads(records, records.len() as int);
            let at = pointer_after(data, length, 0, m);
            if m < firsts.len() {
                &&& record_at(data, length, at) matches Ok(Some((kind, chunks)))
                &&& kind == records[firsts[m as int]].kind
                &&& spans_within(chunks, length)
                &&& span_bytes(data, chunks) == records.subrange(
                    firsts[m as int],
                    group_end(records, m as int),
                ).map_values(|record: RawRecord| record.data)
            } else {
                record_at(data, length, at) == Ok::<Option<(u16, Seq<(int, int)>)>, ErrorView>(None)
            }
        }),
{
    let n = records.len() as int;
    lemma_heads(records, n);
    lemma_pointer_at_head(records, m);
    let firsts = heads(records, n);
    if m < firsts.len() {
        lemma_group(records, m as int);
    } else {
        assert(records.take(n) =~= records);
    }
}

proof fn lemma_group(records: Seq<RawRecord>, m: int)
    requires
        is_file(records),
        0 <= m < heads(records, records.len() as int).len(),
    ensures
        ({
            let data = file_of(records);
            let i = heads(records, records.len() as int)[m];
            let j = group_end(records, m);
            let chunks = ranges(records, i, j);
            &&& 0 <= i < j <= records.len()
            &&& record_at(data, data.len() as int, start_of(records, i)) == Ok::<
                Option<(u16, Seq<(int, int)>)>,
                ErrorView,
            >(Some((records[i].kind, chunks)))
            &&& chunks.last().1 == start_of(records, j)
            &&& spans_within(chunks, data.len() as int)
            &&& span_bytes(data, chunks) == records.subrange(i, j).map_values(
                |record: RawRecord| record.data,
            )
        }),
{
    let n = records.len() as int;
    lemma_heads(records, n);
    let firsts = heads(records, n);
    let i = firsts[m];
    let j = group_end(records, m);
    if m + 1 < firsts.len() {
        assert(firsts[m] < firsts[m + 1]);
    }
    assert forall|k: int| i < k < j implies (#[trigger] records[k]).kind == 0x3c by {
        assert(firsts[m] < k);
    }
    lemma_record_at_head(records, i, j);
}

proof fn lemma_pointer_at_head(records: Seq<RawRecord>, m: nat)
    requires
        is_file(records),
    ensures
        ({
            let data = file_of(records);
            let firsts = heads(records, records.len() as int);
            pointer_after(data, data.len() as int, 0, m) == if m < firsts.len() {
                start_of(records, firsts[m as int])
            } else {
                start_of(records, records.len() as int)
            }
        }),
    decreases m,
{
    let n = records.len() as int;
    let data = file_of(records);
    lemma_heads(records, n);
    let firsts = heads(records, n);
    assert(records.take(n) =~= records);
    if m == 0 {
        assert(records.take(0) =~= Seq::<RawRecord>::empty());
        assert(start_of(records, 0) == 0);
    } else {
        lemma_pointer_at_head(records, (m - 1) as nat);
        if m - 1 < firsts.len() {
            lemma_group(records, m - 1);
        }
    }
}

/// What is left after reads of the given lengths.
pub open spec fn left_after(pending: Seq<(int, int)>, lengths: Seq<int>) -> Seq<(int, int)>
    decreases lengths.len(),
{
    if lengths.len() == 0 {
        pending
    } else {
        left(left_after(pending, lengths.drop_last()), lengths.last())
    }
}

/// The bytes that reads of the given lengths give, joined.
pub open spec fn bytes_read(store: Seq<u8>, pending: Seq<(int, int)>, lengths: Seq<int>) -> Seq<u8>
    decreases lengths.len(),
{
    if lengths.len() == 0 {
        Seq::empty()
    } else {
        let before = left_after(pending, lengths.drop_last());
        bytes_read(store, pending, lengths.drop_last()) + match some_bytes(
            store,
            before,
            lengths.last(),
        ) {
            Ok(bytes) => bytes,
            Err(_) => Seq::empty(),
        }
    }
}

/// A read gives no more bytes than it asks for, and at least one as long as there
/// is one; and it gives the first bytes of what is left.
pub proof fn lemma_read_takes_front(store: Seq<u8>, pending: Seq<(int, int)>, length: int)
    requires
        readable(store, pending),
        1 <= length,
    ensures
        ({
            let after = left(pending, length);
            &&& some_bytes(store, pending, length) matches Ok(bytes)
            &&& bytes.len() <= length
            &&& bytes.len() == 0 <==> pending.len() == 0
            &&& readable(store, after)
            &&& bytes + record_data(store, after) == record_data(store, pending)
        }),
{
    if pending.len() > 0 {
        let after = left(pending, length);
        let (a, b) = pending[0];
        let rest = pending.drop_first();
        let parts = span_bytes(store, pending);
        assert(parts.drop_first() =~= span_bytes(store, rest));
        assert(parts.first() == store.subrange(a, b));
        let bytes = some_bytes(store, pending, length)->Ok_0;
        if a + length < b {
            let others = span_bytes(store, after);
            assert(others.drop_first() =~= span_bytes(store, rest));
            assert(others.first() == store.subrange(a + length, b));
            assert(store.subrange(a, a + length) + store.subrange(a + length, b) =~= store.subrange(
                a,
                b,
            ));
            assert(bytes + record_data(store, after) =~= record_data(store, pending));
        } else {
            assert(after =~= rest);
            assert(bytes == store.subrange(a, b));
        }
    } else {
        assert(record_data(store, pending) =~= Seq::<u8>::empty());
    }
}

/// The bytes that successive reads give, and those that are left, are all bytes in
/// their order; with enough reads nothing is left.
pub proof fn lemma_reads_join(store: Seq<u8>, pending: Seq<(int, int)>, lengths: Seq<int>)
    requires
        readable(store, pending),
        forall|i: int| 0 <= i < lengths.len() ==> 1 <= #[trigger] lengths[i],
    ensures
        readable(store, left_after(pending, lengths)),
        bytes_read(store, pending, lengths) + record_data(store, left_after(pending, lengths))
            == record_data(store, pending),
        lengths.len() >= record_data(store, pending).len() ==> {
            &&& left_after(pending, lengths).len() == 0
            &&& bytes_read(store, pending, lengths) == record_data(store, pending)
        },
        left_after(pending, lengths).len() == 0 || bytes_read(store, pending, lengths).len()
            >= lengths.len(),
    decreases lengths.len(),
{
    let after = left_after(pending, lengths);
    if lengths.len() == 0 {
        assert(bytes_read(store, pending, lengths) + record_data(store, pending) =~= record_data(
            store,
            pending,
        ));
    } else {
        let front = lengths.drop_last();
        assert forall|i: int| 0 <= i < front.len() implies 1 <= #[trigger] front[i] by {
            assert(front[i] == lengths[i]);
        }
        lemma_reads_join(store, pending, front);
        let before = left_after(pending, front);
        lemma_read_takes_front(store, before, lengths.last());
        let bytes = some_bytes(store, before, lengths.last())->Ok_0;
        assert(bytes_read(store, pending, lengths) == bytes_read(store, pending, front) + bytes);
        assert(bytes_read(store, pending, lengths) + record_data(store, after) =~= bytes_read(
            store,
            pending,
            front,
        ) + (bytes + record_data(store, after)));
    }
    if after.len() > 0 {
        assert(span_bytes(store, after).first().len() > 0);
        assert(record_data(store, after).len() > 0);
    } else {
        assert(record_data(store, after) =~= Seq::<u8>::empty());
        assert(bytes_read(store, pending, lengths) =~= bytes_read(store, pending, lengths)
            + record_data(store, after));
    }
}

proof fn lemma_live_all(spans: Seq<(int, int)>)
    requires
        forall|i: int| 0 <= i < spans.len() ==> (#[trigger] spans[i]).0 < spans[i].1,
    ensures
        live(spans) == spans,
    decreases spans.len(),
{
    if spans.len() > 0 {
        let rest = spans.drop_first();
        assert forall|i: int| 0 <= i < rest.len() implies (#[trigger] rest[i]).0 < rest[i].1 by {
            assert(rest[i] == spans[i + 1]);
        }
        lemma_live_all(rest);
        assert(live(spans) =~= spans);
    } else {
        assert(live(spans) =~= spans);
    }
}

/// Once a record is the current one, successive reads of it give its data and that
/// of its continuations, joined and in their order, and then nothing more. This
/// holds of cached records and of those that are read from the file, as long as the
/// record lies within the file and all its chunks have data.
pub proof fn lemma_record_is_read_whole(
    reader: Biff8Reader,
    chunks: Seq<(int, int)>,
    lengths: Seq<int>,
)
    requires
        reader.wf(),
        reader.at_record(reader.record_start as int, chunks),
        readable(reader.file.data@, chunks),
        forall|i: int| 0 <= i < lengths.len() ==> 1 <= #[trigger] lengths[i],
    ensures
        ({
            let all = record_data(reader.file.data@, chunks);
            let found = bytes_read(reader.store(), reader.pending(), lengths);
            let rest = left_after(reader.pending(), lengths);
            &&& readable(reader.store(), rest)
            &&& found + record_data(reader.store(), rest) == all
            &&& lengths.len() >= all.len() ==> rest.len() == 0 && found == all
        }),
{
    lemma_live_all(chunks);
    lemma_live_prefix(reader.unread());
    let pending = reader.pending();
    if reader.cached {
        let unread = reader.unread();
        let spans = spans_of(reader.cache_chunks@);
        assert forall|i: int| 0 <= i < pending.len() implies 0 <= (#[trigger] pending[i]).0
            < pending[i].1 <= reader.store().len() by {
            assert(pending[i] == unread[i]);
            let chunk = reader.cache_chunks@[reader.index + i];
            assert(spans[reader.index + i] == (chunk.0 as int, chunk.1 as int));
        }
    }
    assert(readable(reader.store(), pending));
    assert(record_data(reader.store(), pending) == reader.contents().flatten());
    lemma_reads_join(reader.store(), pending, lengths);
}

proof fn lemma_continuations_stop(data: Seq<u8>, length: int, at: int)
    requires
        continuations(data, length, at) is Err,
    ensures
        ({
            let header = chain_end(continuations_reached(data, length, at), at);
            &&& at <= header
            &&& header + 4 < length
            &&& file_u16(data, length, header) is Err || file_u16(data, length, header + 2) is Err
            &&& record_at(data, length, header) is Err
            &&& record_at(data, length, header)->Err_0 == continuations(data, length, at)->Err_0
        }),
    decreases length - at,
{
    if let (Ok(_), Ok(size)) = (file_u16(data, length, at), file_u16(data, length, at + 2)) {
        let next = at + 4 + size;
        assert(continuations(data, length, next) is Err);
        assert(next + 4 < length);
        lemma_continuations_stop(data, length, next);
        let more = continuations_reached(data, length, next);
        let all = continuations_reached(data, length, at);
        if more.len() > 0 {
            assert(all.last() == more.last());
        } else {
            assert(all.last() == (at + 4, next));
        }
    }
}

/// Where a record's header or that of one of its continuations cannot be read, the
/// position that is left behind is that of the header that failed. It is not before
/// the record, and moving on from there fails in the same way.
pub proof fn lemma_position_stays_at_failed_header(data: Seq<u8>, length: int, at: int)
    requires
        record_at(data, length, at) is Err,
    ensures
        ({
            let header = chain_end(chunks_reached(data, length, at), at);
            &&& at <= header
            &&& header + 4 < length
            &&& file_u16(data, length, header) is Err || file_u16(data, length, header + 2) is Err
            &&& record_at(data, length, header) is Err
            &&& record_at(data, length, header)->Err_0 == record_at(data, length, at)->Err_0
        }),
{
    if let (Ok(_), Ok(size)) = (file_u16(data, length, at), file_u16(data, length, at + 2)) {
        let next = at + 4 + size;
        lemma_continuations_stop(data, length, next);
        let more = continuations_reached(data, length, next);
        let all = chunks_reached(data, length, at);
        if more.len() > 0 {
            assert(all.last() == more.last());
        } else {
            assert(all.last() == (at + 4, next));
        }
    }
}

/// The four bytes that hold a number of 30 bits, taken as a signed number, and two
/// flags below it.
pub open spec fn rk_bytes(n: int, flags: int) -> Seq<u8> {
    let value = 4 * n + flags;
    le_digits(
        (if value < 0 {
            value + 0x1_0000_0000
        } else {
            value
        }) as nat,
        4,
    )
}

/// A compressed integer is read as its decimal notation.
pub proof fn lemma_rk_integer_round_trip(n: int, number: RkNumber)
    requires
        -0x2000_0000 <= n < 0x2000_0000,
        number.encodes(le_value(rk_bytes(n, 2)) as u32),
    ensures
        number matches RkNumber::Integer(text) && text@ == if n < 0 {
            seq!['-'] + decimal((-n) as nat)
        } else {
            decimal(n as nat)
        },
{
    let value = 4 * n + 2;
    let stored = (if value < 0 {
        value + 0x1_0000_0000
    } else {
        value
    }) as nat;
    reveal_with_fuel(pow256, 5);
    lemma_le_round_trip(stored, 4);
    assert((stored as u32) / 2 % 2 == 1);
    assert(rk_integer(stored as u32) == n);
}

/// A compressed integer in hundredths is read as the decimal notation of the whole
/// units, whatever its sign: `r` are the hundredths that are cut off.
pub proof fn lemma_rk_hundredths_are_cut(n: int, units: int, r: int, number: RkNumber)
    requires
        -0x2000_0000 <= n < 0x2000_0000,
        n == 100 * units + r,
        n >= 0 ==> 0 <= r < 100,
        n < 0 ==> -100 < r <= 0,
        number.encodes(le_value(rk_bytes(n, 3)) as u32),
    ensures
        number matches RkNumber::Integer(text) && text@ == if units < 0 {
            seq!['-'] + decimal((-units) as nat)
        } else {
            decimal(units as nat)
        },
{
    let value = 4 * n + 3;
    let stored = (if value < 0 {
        value + 0x1_0000_0000
    } else {
        value
    }) as nat;
    reveal_with_fuel(pow256, 5);
    lemma_le_round_trip(stored, 4);
    assert((stored as u32) / 2 % 2 == 1);
    assert((stored as u32) % 2 == 1);
    assert(rk_integer(stored as u32) == units);
}

/// A compressed floating point number has the stored bits as its upper 30 bits and
/// none below them; the lowest flag tells whether it counts hundredths.
pub proof fn lemma_rk_float_bits(m: int, hundredths: bool, number: RkNumber)
    requires
        0 <= m < 0x4000_0000,
        number.encodes(le_value(le_digits((4 * m + if hundredths { 1int } else { 0int }) as nat, 4)) as u32),
    ensures
        number matches RkNumber::Float { bits, percentage } && bits == m * 0x4_0000_0000
            && percentage == hundredths,
{
    let stored = (4 * m + if hundredths { 1int } else { 0int }) as nat;
    reveal_with_fuel(pow256, 5);
    lemma_le_round_trip(stored, 4);
    assert((stored as u32) / 2 % 2 == 0);
    assert((stored as u32) / 4 == m);
}

/// A number that stands in a record before `tail` is read by its distance from the end
/// of the record, the two bytes of the number included, and a distance that reaches
/// before the record fails. This holds of numbers that two chunks share, too.
pub proof fn lemma_number_before_end(
    reader: Biff8Reader,
    kind: u16,
    chunks: Seq<(int, int)>,
    front: Seq<u8>,
    value: u16,
    tail: Seq<u8>,
)
    requires
        reader.wf(),
        reader.at_record(reader.record_start as int, chunks),
        record_at(reader.file.data@, reader.length as int, reader.record_start as int) == Ok::<
            Option<(u16, Seq<(int, int)>)>,
            ErrorView,
        >(Some((kind, chunks))),
        reader.length <= reader.file.data@.len(),
        chunks.last().1 <= reader.length,
        record_data(reader.file.data@, chunks) == front + le_digits(value as nat, 2) + tail,
    ensures
        reader.back_value(tail.len() as int + 2) == Ok::<u16, ErrorView>(value),
        forall|offset: int|
            offset > front.len() + 2 + tail.len() ==> #[trigger] reader.back_value(offset) is Err,
{
    reveal_with_fuel(pow256, 3);
    lemma_le_round_trip(value as nat, 2);
    let data = record_data(reader.file.data@, chunks);
    let at = front.len() as int;
    assert(data.subrange(at, at + 2) =~= le_digits(value as nat, 2));
    lemma_back_value_of_record(reader, kind, chunks, tail.len() as int + 2);
    assert forall|offset: int|
        offset > front.len() + 2 + tail.len() implies #[trigger] reader.back_value(
        offset,
    ) is Err by {
        lemma_back_value_of_record(reader, kind, chunks, offset);
    }
}

/// A header needs data behind it: where no more than four bytes are left there is no
/// record, and no error either.
pub proof fn lemma_short_rest_is_no_record(data: Seq<u8>, length: int, at: int)
    requires
        length <= at + 4,
    ensures
        record_at(data, length, at) == Ok::<Option<(u16, Seq<(int, int)>)>, ErrorView>(None),
{
}

/// An empty chunk ends a record for its readers: the chunks before it are read, and
/// nothing behind it is.
pub proof fn lemma_empty_chunk_ends_record(front: Seq<(int, int)>, at: int, behind: Seq<(int, int)>)
    requires
        forall|i: int| 0 <= i < front.len() ==> (#[trigger] front[i]).0 < front[i].1,
    ensures
        live(front + (seq![(at, at)] + behind)) == front,
        live(front) == front,
    decreases front.len(),
{
    let rest = seq![(at, at)] + behind;
    let all = front + rest;
    if front.len() == 0 {
        assert(all[0] == (at, at));
        assert(live(all) =~= front);
    } else {
        let others = front.drop_first();
        assert forall|i: int| 0 <= i < others.len() implies (#[trigger] others[i]).0
            < others[i].1 by {
            assert(others[i] == front[i + 1]);
        }
        lemma_empty_chunk_ends_record(others, at, behind);
        assert(front[0].0 < front[0].1);
        assert(all[0] == front[0]);
        assert(all.drop_first() =~= others + rest);
        assert(live(all) =~= front);
        assert(live(front) =~= front);
    }
}

/// A record whose data would reach behind the records of the file has no continuation:
/// it stands alone.
pub proof fn lemma_last_record_stands_alone(data: Seq<u8>, length: int, at: int)
    requires
        at + 4 < length <= data.len(),
        0 <= at,
        length <= at + 8 + le_value(data.subrange(at + 2, at + 4)),
    ensures
        record_at(data, length, at) matches Ok(Some((kind, chunks))) && {
            &&& kind == le_value(data.subrange(at, at + 2))
            &&& chunks == seq![(at + 4, at + 4 + le_value(data.subrange(at + 2, at + 4)))]
        },
{
    lemma_two_bytes_fit(data.subrange(at, at + 2));
    lemma_two_bytes_fit(data.subrange(at + 2, at + 4));
    let size = le_value(data.subrange(at + 2, at + 4)) as int;
    assert(continuations(data, length, at + 4 + size) == Ok::<Seq<(int, int)>, ErrorView>(
        Seq::empty(),
    ));
    assert(seq![(at + 4, at + 4 + size)] + Seq::<(int, int)>::empty() =~= seq![
        (at + 4, at + 4 + size),
    ]);
}

proof fn lemma_two_bytes_fit(bytes: Seq<u8>)
    requires
        bytes.len() == 2,
    ensures
        le_value(bytes) < 65536,
{
    reveal_with_fuel(le_value, 3);
}

/// A read or a skip of a number of bytes stays within the current chunk: where that one
/// has fewer, it fails, with the number that was asked for.
pub proof fn lemma_exact_read_needs_one_chunk(store: Seq<u8>, pending: Seq<(int, int)>, length: int)
    requires
        0 < length <= usize::MAX,
        pending.len() == 0 || pending[0].1 - pending[0].0 < length,
    ensures
        exact_bytes(store, pending, length) == Err::<Seq<u8>, ErrorView>(
            ErrorView::Biff8(Biff8Error::NoEnoughDataError(length as usize)),
        ),
        skipped(pending, length) == Err::<(), ErrorView>(
            ErrorView::Biff8(Biff8Error::NoEnoughDataError(length as usize)),
        ),
{
}

/// A read of up to a number of bytes ends with the current chunk; the next one goes on
/// with the next chunk.
pub proof fn lemma_read_ends_with_chunk(store: Seq<u8>, pending: Seq<(int, int)>, length: int)
    requires
        readable(store, pending),
        pending.len() > 0,
        pending[0].1 - pending[0].0 <= length,
    ensures
        some_bytes(store, pending, length) == Ok::<Seq<u8>, ErrorView>(
            store.subrange(pending[0].0, pending[0].1),
        ),
        left(pending, length) == pending.drop_first(),
{
    assert(pending[0].0 < pending[0].1);
}

} // verus!
