use crate::bit_seq::{push_all, push_from};
use vstd::prelude::*;

verus! {

/// Byte stream that hands out the bytes covering a requested number of bits.
#[derive(Clone)]
pub struct ByteStream {
    buffer: Vec<u8>,
    offset: u64,
}

/// Bytes covering an extracted range of bits.
pub struct ByteStreamExtraction {
    /// All bytes touched by the extracted bits.
    pub data: Vec<u8>,
    /// Number of extracted bits.
    pub bits: u64,
    /// Bit offset of the first extracted bit inside the first byte.
    pub offset: u64,
}

impl ByteStream {
    /// The buffered bytes, including bytes whose bits were partly consumed.
    pub closed spec fn data(&self) -> Seq<u8> {
        self.buffer@
    }

    /// Number of bits already consumed from the buffered bytes.
    pub closed spec fn bit_offset(&self) -> int {
        self.offset as int
    }

    /// Well-formedness: the offset stays inside the buffer and bit counts fit in a `u64`.
    pub open spec fn wf(&self) -> bool {
        &&& 0 <= self.bit_offset() <= self.data().len() * 8
        &&& self.data().len() * 8 + 8 <= u64::MAX
    }

    /// Creates an empty stream.
    pub fn new() -> (r: Self)
        ensures
            r.wf(),
            r.data() == Seq::<u8>::empty(),
            r.bit_offset() == 0,
    {
        Self { buffer: Vec::new(), offset: 0 }
    }

    /// Appends bytes at the end; bytes whose bits were all consumed are dropped first.
    pub fn append(&mut self, data: Vec<u8>)
        requires
            old(self).wf(),
            (old(self).data().len() - old(self).bit_offset() / 8 + data@.len()) * 8 + 8 <= u64::MAX,
        ensures
            final(self).wf(),
            final(self).data() == old(self).data().skip(old(self).bit_offset() / 8) + data@,
            final(self).bit_offset() == old(self).bit_offset() % 8,
    {
        let ghost o = self.offset as int;
        assert(o / 8 <= self.buffer@.len());
        assert(o - (o / 8) * 8 == o % 8 && o / 8 >= 0) by (nonlinear_arith)
            requires
                o >= 0,
        ;
        let q = self.offset / 8;
        let len = self.buffer.len();
        assert(q <= len);
        let bytes_to_remove = q as usize;
        if bytes_to_remove > 0 {
            let mut rest: Vec<u8> = Vec::new();
            push_from(&mut rest, &self.buffer, bytes_to_remove);
            self.buffer = rest;
            self.offset = self.offset - bytes_to_remove as u64 * 8;
        } else {
            assert(self.buffer@.skip(0) == self.buffer@);
        }
        push_all(&mut self.buffer, data.as_slice());
    }

    /// Extracts the bytes covering the next `bits` bits; `None` if fewer bits are available.
    pub fn extract(&mut self, bits: u64) -> (r: Option<ByteStreamExtraction>)
        requires
            old(self).wf(),
        ensures
            final(self).wf(),
            final(self).data() == old(self).data(),
            old(self).data().len() * 8 - old(self).bit_offset() < bits ==> {
                &&& r is None
                &&& final(self).bit_offset() == old(self).bit_offset()
            },
            old(self).data().len() * 8 - old(self).bit_offset() >= bits ==> {
                let o = old(self).bit_offset();
                &&& r matches Some(e) && {
                    &&& e.data@ == old(self).data().subrange(o / 8, (o + bits + 7) / 8)
                    &&& e.bits == bits
                    &&& e.offset == o % 8
                }
                &&& final(self).bit_offset() == o + bits
            },
    {
        if self.available() >= bits {
            let ghost o = self.offset as int;
            let ghost n = bits as int;
            assert(o / 8 <= (o + n + 7) / 8 <= self.buffer@.len()) by (nonlinear_arith)
                requires
                    o >= 0,
                    n >= 0,
                    o + n <= self.buffer@.len() * 8,
            ;
            let len = self.buffer.len();
            let start_q = self.offset / 8;
            let end_q = (self.offset + bits + 7) / 8;
            assert(start_q <= end_q <= len);
            let start_offset = start_q as usize;
            let end_offset = end_q as usize;
            let offset = self.offset % 8;
            let mut data: Vec<u8> = Vec::new();
            let mut i = start_offset;
            while i < end_offset
                invariant
                    start_offset <= i <= end_offset,
                    end_offset <= self.buffer@.len(),
                    data@ == self.buffer@.subrange(start_offset as int, i as int),
                decreases end_offset - i,
            {
                data.push(self.buffer[i]);
                i = i + 1;
                assert(data@ == self.buffer@.subrange(start_offset as int, i as int));
            }
            self.offset = self.offset + bits;
            Some(ByteStreamExtraction { data, bits, offset })
        } else {
            None
        }
    }

    /// Number of bits that can still be extracted.
    pub fn available(&self) -> (r: u64)
        requires
            self.wf(),
        ensures
            r == self.data().len() * 8 - self.bit_offset(),
    {
        (self.buffer.len() as u64 * 8) - self.offset
    }

    /// Number of buffered bytes, including a partly consumed first byte.
    pub fn buffered_bytes(&self) -> (r: usize)
        ensures
            r == self.data().len(),
    {
        self.buffer.len()
    }
}

} // verus!
