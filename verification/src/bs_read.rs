use crate::bit_seq::{bits_of, le_nat, push_all, push_from};
use vstd::arithmetic::power2::*;
use vstd::bits::*;
use vstd::prelude::*;

verus! {

/// Buffer for reading bit packed values out of a byte stream.
///
/// Bytes are appended at the end, bits are extracted from the front,
/// starting with the least significant bit of each byte.
#[derive(Clone)]
pub struct ByteStreamReadBuffer {
    buffer: Vec<u8>,
    tmp: Vec<u8>,
    offset: usize,
}

/// The value that an extraction of `bits` bits at bit offset `offset` of `data` returns:
/// the little-endian value of the touched bytes, shifted right by the offset inside the
/// first byte and cut to 64 bits.
pub open spec fn extracted_value(data: Seq<u8>, offset: int, bits: int) -> u64 {
    let window = data.subrange(offset / 8, (offset + bits + 7) / 8);
    ((le_nat(window) / pow2((offset % 8) as nat)) % 0x1_0000_0000_0000_0000) as u64
}

/// Appending keeps the pending bits in front of the bits of the new bytes.
pub(crate) proof fn lemma_append_pending(old_data: Seq<u8>, offset: int, data: Seq<u8>)
    requires
        0 <= offset <= old_data.len() * 8,
    ensures
        ({
            let c = offset / 8;
            let new_data = old_data.skip(c) + data;
            bits_of(new_data, offset % 8, (new_data.len() * 8 - offset % 8) as nat)
                == bits_of(old_data, offset, (old_data.len() * 8 - offset) as nat)
                    + bits_of(data, 0, (data.len() * 8) as nat)
        }),
{
    let c = offset / 8;
    let o = offset % 8;
    let new_data = old_data.skip(c) + data;
    let avail = old_data.len() * 8 - offset;
    let lhs = bits_of(new_data, o, (new_data.len() * 8 - o) as nat);
    let rhs = bits_of(old_data, offset, avail as nat) + bits_of(data, 0, (data.len() * 8) as nat);
    assert(offset == 8 * c + o);
    assert forall|k: int| 0 <= k < lhs.len() implies lhs[k] == rhs[k] by {
        if k < avail {
            let j = o + k;
            assert((8 * c + j) / 8 == c + j / 8 && (8 * c + j) % 8 == j % 8) by (nonlinear_arith)
                requires
                    c >= 0,
                    j >= 0,
            ;
            assert(new_data[j / 8] == old_data[(offset + k) / 8]);
        } else {
            let q = old_data.len() - c;
            let j = k - avail;
            assert(o + k == 8 * q + j);
            assert((8 * q + j) / 8 == q + j / 8 && (8 * q + j) % 8 == j % 8) by (nonlinear_arith)
                requires
                    q >= 0,
                    j >= 0,
            ;
            assert(new_data[(o + k) / 8] == data[j / 8]);
        }
    }
    assert(lhs =~= rhs);
}

impl ByteStreamReadBuffer {
    /// The buffered bytes, including bytes whose bits were partly consumed.
    pub closed spec fn data(&self) -> Seq<u8> {
        self.buffer@
    }

    /// Number of bits already consumed from the buffered bytes.
    pub closed spec fn bit_offset(&self) -> int {
        self.offset as int
    }

    /// The spare buffer used while appending is empty between calls.
    pub closed spec fn spare_empty(&self) -> bool {
        self.tmp@.len() == 0
    }

    /// Well-formedness: the offset stays inside the buffer and bit counts fit in a `usize`.
    pub open spec fn wf(&self) -> bool {
        &&& 0 <= self.bit_offset() <= self.data().len() * 8
        &&& self.data().len() * 8 <= usize::MAX
        &&& self.spare_empty()
    }

    /// The bits that are still to be extracted, in the order in which they come out.
    pub open spec fn pending(&self) -> Seq<bool> {
        bits_of(self.data(), self.bit_offset(), (self.data().len() * 8 - self.bit_offset()) as nat)
    }

    /// Creates an empty buffer.
    pub fn new() -> (r: Self)
        ensures
            r.wf(),
            r.data() == Seq::<u8>::empty(),
            r.bit_offset() == 0,
    {
        Self { buffer: Vec::new(), tmp: Vec::new(), offset: 0 }
    }

    /// Appends bytes at the end; bytes whose bits were all consumed are dropped first.
    pub fn append(&mut self, data: &[u8])
        requires
            old(self).wf(),
            (old(self).data().len() - old(self).bit_offset() / 8 + data@.len()) * 8 <= usize::MAX,
        ensures
            final(self).wf(),
            final(self).data() == old(self).data().skip(old(self).bit_offset() / 8) + data@,
            final(self).bit_offset() == old(self).bit_offset() % 8,
            final(self).pending() == old(self).pending() + bits_of(data@, 0, (data@.len() * 8) as nat),
    {
        let consumed_bytes = self.offset / 8;
        self.offset = self.offset - consumed_bytes * 8;
        push_from(&mut self.tmp, &self.buffer, consumed_bytes);
        push_all(&mut self.tmp, data);
        self.buffer.clear();
        std::mem::swap(&mut self.buffer, &mut self.tmp);
        proof {
            lemma_append_pending(old(self).data(), old(self).bit_offset(), data@);
        }
    }

    /// Extracts `bits` bits (64 or less) and returns them as the low bits of a `u64`.
    /// The returned value may contain more than the requested bits above them;
    /// callers mask them. Returns `None` if fewer than `bits` bits are available.
    pub fn extract(&mut self, bits: usize) -> (r: Option<u64>)
        requires
            old(self).wf(),
            bits <= 64,
        ensures
            final(self).wf(),
            final(self).data() == old(self).data(),
            old(self).data().len() * 8 - old(self).bit_offset() < bits ==> {
                &&& r is None
                &&& final(self).bit_offset() == old(self).bit_offset()
            },
            old(self).data().len() * 8 - old(self).bit_offset() >= bits ==> {
                &&& r == Some(extracted_value(old(self).data(), old(self).bit_offset(), bits as int))
                &&& final(self).bit_offset() == old(self).bit_offset() + bits
                &&& final(self).pending() == old(self).pending().skip(bits as int)
            },
    {
        if self.available() < bits {
            return None;
        }
        let start_offset = self.offset / 8;
        let end_offset = (self.offset + bits + 7) / 8;
        let offset = self.offset % 8;
        let ghost window = self.buffer@.subrange(start_offset as int, end_offset as int);
        assert(end_offset - start_offset <= 9);

        // Little-endian value of the touched bytes, accumulated from the last byte.
        let mut value: u128 = 0;
        let mut i = end_offset;
        proof {
            lemma2_to64();
            assert(self.buffer@.subrange(end_offset as int, end_offset as int) =~= Seq::<u8>::empty());
        }
        while i > start_offset
            invariant
                start_offset <= i <= end_offset,
                end_offset <= self.buffer@.len(),
                end_offset - start_offset <= 9,
                value == le_nat(self.buffer@.subrange(i as int, end_offset as int)),
                value < pow2((8 * (end_offset - i)) as nat),
            decreases i - start_offset,
        {
            let ghost prev = self.buffer@.subrange(i as int, end_offset as int);
            proof {
                if 8 * (end_offset - i) < 64 {
                    lemma_pow2_strictly_increases((8 * (end_offset - i)) as nat, 64);
                }
                lemma2_to64();
            }
            i = i - 1;
            value = value * 256 + self.buffer[i] as u128;
            proof {
                let cur = self.buffer@.subrange(i as int, end_offset as int);
                assert(cur.drop_first() =~= prev);
                lemma_pow2_adds(8, (8 * (end_offset - i - 1)) as nat);
                assert(8 + 8 * (end_offset - i - 1) == 8 * (end_offset - i));
            }
        }
        self.offset = self.offset + bits;
        let shifted = value >> (offset as u128);
        proof {
            lemma_u128_shr_is_div(value, offset as u128);
        }
        let result = #[verifier::truncate] (shifted as u64);
        proof {
            assert(shifted as u64 == shifted % 0x1_0000_0000_0000_0000) by (bit_vector);
        }
        Some(result)
    }

    /// Number of bits that can still be extracted.
    pub fn available(&self) -> (r: usize)
        requires
            self.wf(),
        ensures
            r == self.data().len() * 8 - self.bit_offset(),
    {
        (self.buffer.len() * 8) - self.offset
    }

    /// Number of buffered bytes, including a partly consumed first byte.
    pub fn buffered_bytes(&self) -> (r: usize)
        ensures
            r == self.data().len(),
    {
        self.buffer.len()
    }
}

} // verus!
