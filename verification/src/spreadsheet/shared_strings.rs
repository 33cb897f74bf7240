//! A compact store for the shared strings of a workbook.

use crate::error::ErrorView;
use crate::error::IoError;
use crate::error::RustySheetError;
use crate::helpers::source::ByteSource;
use crate::helpers::string::le_digits;
use crate::helpers::string::le_value;
use crate::helpers::string::lemma_le_round_trip;
use crate::helpers::string::lemma_pow256_8;
use crate::helpers::string::push_u64;
use crate::helpers::string::to_u64;
use crate::helpers::text::text_from_utf8;
use vstd::prelude::*;

verus! {

/// The size of an index record: the offset and the length of a string, eight
/// bytes each.
pub const RECORD_SIZE: usize = 16;

/// The offset that an index records for string `i`.
pub open spec fn recorded_offset(index: Seq<u8>, i: int) -> nat {
    le_value(index.subrange(16 * i, 16 * i + 8))
}

/// The length that an index records for string `i`.
pub open spec fn recorded_length(index: Seq<u8>, i: int) -> nat {
    le_value(index.subrange(16 * i + 8, 16 * i + 16))
}

/// Whether string `i` of index and value bytes is `text`.
pub open spec fn holds_string(index: Seq<u8>, values: Seq<u8>, i: int, text: Seq<char>) -> bool {
    let offset = recorded_offset(index, i);
    let length = recorded_length(index, i);
    &&& offset + length <= values.len()
    &&& values.subrange(offset as int, (offset + length) as int) == vstd::utf8::encode_utf8(text)
}

/// Whether index and value bytes hold the given strings.
pub open spec fn holds_strings(index: Seq<u8>, values: Seq<u8>, strings: Seq<Seq<char>>) -> bool {
    &&& index.len() == 16 * strings.len()
    &&& forall|i: int|
        0 <= i < strings.len() ==> #[trigger] holds_string(index, values, i, strings[i])
}

/// The read positions of a store that is being read.
pub struct SharedStringReader {
    index: ByteSource,
    values: ByteSource,
    index_position: usize,
    values_position: usize,
}

/// Stores strings one behind the other, with an index of their positions. Once
/// the first string was read, no more can be added.
pub struct SharedStringStore {
    index: Vec<u8>,
    values: Vec<u8>,
    values_length: u64,
    count: usize,
    reader: Option<SharedStringReader>,
    strings: Ghost<Seq<Seq<char>>>,
}

impl View for SharedStringStore {
    type V = Seq<Seq<char>>;

    closed spec fn view(&self) -> Seq<Seq<char>> {
        self.strings@
    }
}

impl SharedStringStore {
    /// Whether strings were read, so that no more can be added.
    pub closed spec fn reading(&self) -> bool {
        self.reader is Some
    }

    /// The store's invariant.
    pub closed spec fn wf(&self) -> bool {
        &&& self.count == self.strings@.len()
        &&& match self.reader {
            None => {
                &&& holds_strings(self.index@, self.values@, self.strings@)
                &&& self.values_length == self.values@.len()
            },
            Some(reader) => {
                &&& holds_strings(reader.index.data@, reader.values.data@, self.strings@)
                &&& reader.index_position == reader.index.position
                &&& reader.values_position == reader.values.position
            },
        }
    }

    /// Creates an empty store.
    pub fn new() -> (res: Result<SharedStringStore, RustySheetError>)
        ensures
            res matches Ok(store) && store.wf() && !store.reading() && store@ == Seq::<
                Seq<char>,
            >::empty(),
    {
        Ok(
            SharedStringStore {
                index: Vec::new(),
                values: Vec::new(),
                values_length: 0,
                count: 0,
                reader: None,
                strings: Ghost(Seq::empty()),
            },
        )
    }

    /// Adds a string. Fails once strings were read.
    pub fn push(&mut self, value: &str) -> (res: Result<(), RustySheetError>)
        requires
            old(self).wf(),
        ensures
            final(self).wf(),
            final(self).reading() == old(self).reading(),
            old(self).reading() ==> {
                &&& res matches Err(e)
                &&& e@ == ErrorView::Io(IoError::AppendAfterRead)
                &&& final(self)@ == old(self)@
            },
            !old(self).reading() ==> res is Ok && final(self)@ == old(self)@.push(value@),
    {
        if self.reader.is_some() {
            return Err(RustySheetError::Io(IoError::AppendAfterRead));
        }
        let ghost index = self.index@;
        let ghost values = self.values@;
        let ghost n = self.count as int;
        let offset: u64 = self.values_length;
        let bytes: &[u8] = value.as_bytes();
        let length: u64 = bytes.len() as u64;
        let mut copy: Vec<u8> = vstd::slice::slice_to_vec(bytes);
        self.values.append(&mut copy);
        push_u64(&mut self.index, offset);
        push_u64(&mut self.index, length);
        self.values_length = self.values.len() as u64;
        proof {
            assert(self.index.len() == self.index@.len());
            lemma_pow256_8();
            lemma_le_round_trip(offset as nat, 8);
            lemma_le_round_trip(length as nat, 8);
            assert(self.index@ =~= index + le_digits(offset as nat, 8) + le_digits(
                length as nat,
                8,
            ));
            assert(self.index@.subrange(16 * n, 16 * n + 8) =~= le_digits(offset as nat, 8));
            assert(self.index@.subrange(16 * n + 8, 16 * n + 16) =~= le_digits(length as nat, 8));
            self.strings@ = self.strings@.push(value@);
            let strings = self.strings@;
            assert forall|i: int| 0 <= i < strings.len() implies #[trigger] holds_string(
                self.index@,
                self.values@,
                i,
                strings[i],
            ) by {
                if i < n {
                    assert(holds_string(index, values, i, old(self).strings@[i]));
                    assert(self.index@.subrange(16 * i, 16 * i + 8) =~= index.subrange(
                        16 * i,
                        16 * i + 8,
                    ));
                    assert(self.index@.subrange(16 * i + 8, 16 * i + 16) =~= index.subrange(
                        16 * i + 8,
                        16 * i + 16,
                    ));
                    let at = recorded_offset(index, i);
                    let size = recorded_length(index, i);
                    assert(self.values@.subrange(at as int, (at + size) as int)
                        =~= values.subrange(at as int, (at + size) as int));
                } else {
                    assert(self.values@.subrange(offset as int, offset + length) =~= bytes@);
                }
            }
        }
        self.count = self.count + 1;
        Ok(())
    }

    /// Reads string number `id`.
    pub fn get(&mut self, id: usize) -> (res: Result<String, RustySheetError>)
        requires
            old(self).wf(),
        ensures
            final(self).wf(),
            final(self)@ == old(self)@,
            id < old(self)@.len() ==> {
                &&& res matches Ok(text)
                &&& text@ == old(self)@[id as int]
                &&& final(self).reading()
            },
            id >= old(self)@.len() ==> {
                &&& res matches Err(e)
                &&& e@ == ErrorView::Io(IoError::IndexOutOfBounds)
                &&& final(self).reading() == old(self).reading()
            },
    {
        if id >= self.count {
            return Err(RustySheetError::Io(IoError::IndexOutOfBounds));
        }
        let ghost strings = self.strings@;
        let mut current: Option<SharedStringReader> = None;
        std::mem::swap(&mut current, &mut self.reader);
        let mut reader: SharedStringReader = match current {
            Some(reader) => reader,
            None => {
                let mut index: Vec<u8> = Vec::new();
                let mut values: Vec<u8> = Vec::new();
                std::mem::swap(&mut index, &mut self.index);
                std::mem::swap(&mut values, &mut self.values);
                SharedStringReader {
                    index: ByteSource::new(index),
                    values: ByteSource::new(values),
                    index_position: 0,
                    values_position: 0,
                }
            },
        };
        let ghost index = reader.index.data@;
        let ghost values = reader.values.data@;
        proof {
            assert(reader.index.data.len() == index.len());
            assert(reader.values.data.len() == values.len());
            assert(holds_string(index, values, id as int, strings[id as int]));
        }
        let record_offset: usize = id * RECORD_SIZE;
        if reader.index_position != record_offset {
            reader.index.seek(record_offset);
        }
        let record: Vec<u8> = match reader.index.read_exact(RECORD_SIZE) {
            Ok(record) => record,
            Err(error) => return Err(RustySheetError::Io(error)),
        };
        reader.index_position = record_offset + RECORD_SIZE;
        let offset: usize = to_u64(&record[0..8]) as usize;
        let length: usize = to_u64(&record[8..16]) as usize;
        proof {
            assert(record@.subrange(0, 8).take(8) =~= index.subrange(16 * id, 16 * id + 8));
            assert(record@.subrange(8, 16).take(8) =~= index.subrange(16 * id + 8, 16 * id + 16));
        }
        if reader.values_position != offset {
            reader.values.seek(offset);
        }
        let bytes: Vec<u8> = match reader.values.read_exact(length) {
            Ok(bytes) => bytes,
            Err(error) => return Err(RustySheetError::Io(error)),
        };
        reader.values_position = offset + length;
        self.reader = Some(reader);
        proof {
            assert(bytes@ =~= values.subrange(offset as int, offset + length));
            vstd::utf8::encode_utf8_valid_utf8(strings[id as int]);
            vstd::utf8::encode_utf8_decode_utf8(strings[id as int]);
        }
        match text_from_utf8(bytes) {
            Some(text) => Ok(text),
            None => Err(RustySheetError::Io(IoError::UnexpectedEof)),
        }
    }

    /// The number of strings.
    pub fn len(&self) -> (res: usize)
        requires
            self.wf(),
        ensures
            res == self@.len(),
    {
        self.count
    }
}

} // verus!
