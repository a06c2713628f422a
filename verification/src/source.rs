//! Byte sources: the seekable, readable suppliers of input that the decoder
//! draws its chunks from.

use vstd::prelude::*;

verus! {

/// A readable, seekable supplier of bytes.
///
/// A source ranges over a fixed byte content and keeps a cursor into it.
/// The decoder only ever reads a bounded chunk at the cursor or moves the
/// cursor a few bytes backward to realign with a scalar boundary.
pub trait ByteSource: Sized {
    /// The complete byte content this source ranges over.
    spec fn bytes(&self) -> Seq<u8>;

    /// The cursor: index of the next byte to be read.
    spec fn pos(&self) -> int;

    /// Well-formedness of the source's internal state.
    spec fn wf(&self) -> bool;

    /// A well-formed source keeps its cursor inside its content.
    proof fn wf_in_bounds(&self)
        requires
            self.wf(),
        ensures
            0 <= self.pos() <= self.bytes().len(),
    ;

    /// The cursor as a byte offset.
    fn offset(&self) -> (p: usize)
        requires
            self.wf(),
        ensures
            p as int == self.pos(),
    ;

    /// Read up to four bytes at the cursor, advancing the cursor past the
    /// bytes read. Fewer than four bytes come back only at the end of the
    /// content.
    fn read_chunk(&mut self) -> (chunk: Vec<u8>)
        requires
            old(self).wf(),
        ensures
            final(self).wf(),
            final(self).bytes() == old(self).bytes(),
            chunk@.len() == if old(self).bytes().len() - old(self).pos() < 4 {
                old(self).bytes().len() - old(self).pos()
            } else {
                4
            },
            chunk@ == old(self).bytes().subrange(
                old(self).pos(),
                old(self).pos() + chunk@.len(),
            ),
            final(self).pos() == old(self).pos() + chunk@.len(),
    ;

    /// Move the cursor backward by `n` bytes, so those bytes are read again
    /// by the next chunk read.
    fn seek_back(&mut self, n: usize)
        requires
            old(self).wf(),
            n <= old(self).pos(),
        ensures
            final(self).wf(),
            final(self).bytes() == old(self).bytes(),
            final(self).pos() == old(self).pos() - n,
    ;
}

/// An in-memory byte source: the whole content held in a vector, with the
/// cursor as an index into it.
pub struct MemorySource {
    data: Vec<u8>,
    cursor: usize,
}

impl MemorySource {
    /// Wrap a byte slice as a source positioned at its start.
    pub fn from_slice(bytes: &[u8]) -> (s: MemorySource)
        ensures
            s.wf(),
            s.bytes() == bytes@,
            s.pos() == 0,
    {
        let mut data: Vec<u8> = Vec::new();
        let mut i: usize = 0;
        while i < bytes.len()
            invariant
                i <= bytes@.len(),
                data@ == bytes@.subrange(0, i as int),
            decreases bytes@.len() - i,
        {
            data.push(bytes[i]);
            i += 1;
            proof {
                assert(data@ =~= bytes@.subrange(0, i as int));
            }
        }
        proof {
            assert(data@ =~= bytes@);
        }
        MemorySource { data, cursor: 0 }
    }
}

impl ByteSource for MemorySource {
    closed spec fn bytes(&self) -> Seq<u8> {
        self.data@
    }

    closed spec fn pos(&self) -> int {
        self.cursor as int
    }

    closed spec fn wf(&self) -> bool {
        self.cursor <= self.data.len()
    }

    proof fn wf_in_bounds(&self) {
    }

    fn offset(&self) -> (p: usize) {
        self.cursor
    }

    fn read_chunk(&mut self) -> (chunk: Vec<u8>) {
        let mut chunk: Vec<u8> = Vec::new();
        while chunk.len() < 4 && self.cursor < self.data.len()
            invariant
                self.data@ == old(self).data@,
                chunk@.len() <= 4,
                self.cursor <= self.data.len(),
                self.cursor as int == old(self).cursor as int + chunk@.len(),
                chunk@ == self.data@.subrange(old(self).cursor as int, self.cursor as int),
            decreases 4 - chunk@.len(),
        {
            chunk.push(self.data[self.cursor]);
            self.cursor += 1;
            proof {
                assert(chunk@ =~= self.data@.subrange(
                    old(self).cursor as int,
                    self.cursor as int,
                ));
            }
        }
        chunk
    }

    fn seek_back(&mut self, n: usize) {
        self.cursor = self.cursor - n;
    }
}

} // verus!
