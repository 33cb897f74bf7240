//! A byte stream that is held in memory.

use crate::error::IoError;
use vstd::prelude::*;

verus! {

/// A stream of bytes with a read position.
#[derive(Debug, Clone, PartialEq, Eq)]
pub struct ByteSource {
    /// All bytes of the stream.
    pub data: Vec<u8>,
    /// The number of bytes before the next byte that is read.
    pub position: usize,
}

impl ByteSource {
    /// The bytes that are still to be read.
    pub open spec fn rest(self) -> Seq<u8> {
        if self.position <= self.data@.len() {
            self.data@.skip(self.position as int)
        } else {
            Seq::empty()
        }
    }

    /// Starts to read at the first byte.
    pub fn new(data: Vec<u8>) -> (res: ByteSource)
        ensures
            res.data == data,
            res.position == 0,
    {
        ByteSource { data, position: 0 }
    }

    /// The current read position.
    pub fn stream_position(&self) -> (res: usize)
        ensures
            res == self.position,
    {
        self.position
    }

    /// Moves the read position.
    pub fn seek(&mut self, position: usize)
        ensures
            final(self).data == old(self).data,
            final(self).position == position,
    {
        self.position = position;
    }

    /// Reads exactly `length` bytes. Where fewer are left the read position
    /// moves past them and an error is returned.
    pub fn read_exact(&mut self, length: usize) -> (res: Result<Vec<u8>, IoError>)
        ensures
            final(self).data == old(self).data,
            length <= old(self).rest().len() ==> {
                &&& res matches Ok(bytes)
                &&& bytes@ == old(self).rest().take(length as int)
                &&& final(self).position == old(self).position + length
                &&& final(self).rest() == old(self).rest().skip(length as int)
            },
            length > old(self).rest().len() ==> {
                &&& res == Err::<Vec<u8>, IoError>(IoError::UnexpectedEof)
                &&& final(self).rest() == Seq::<u8>::empty()
            },
    {
        if length == 0 {
            let empty: Vec<u8> = Vec::new();
            proof {
                assert(empty@ =~= self.rest().take(0));
                assert(self.rest().skip(0) =~= self.rest());
            }
            return Ok(empty);
        }
        if self.position > self.data.len() || length > self.data.len() - self.position {
            if self.position < self.data.len() {
                self.position = self.data.len();
            }
            proof {
                assert(self.rest() =~= Seq::<u8>::empty());
            }
            return Err(IoError::UnexpectedEof);
        }
        let ghost before = self.rest();
        let bytes: Vec<u8> = vstd::slice::slice_to_vec(
            &self.data[self.position..self.position + length],
        );
        self.position = self.position + length;
        proof {
            assert(bytes@ =~= before.take(length as int));
            assert(self.rest() =~= before.skip(length as int));
        }
        Ok(bytes)
    }
}

} // verus!
