use crate::bit_seq::{bit_at, bits_of, push_all};
use vstd::prelude::*;

verus! {

/// Buffer for writing bit packed values into a byte stream.
///
/// Values are appended bit by bit, starting at the least significant bit
/// of each byte. The last byte may be incomplete.
#[derive(Clone)]
pub struct ByteStreamWriteBuffer {
    buffer: Vec<u8>,
    last_byte_bit: usize,
}

/// Bit `p` of the byte `x` is set.
pub open spec fn byte_bit(x: u8, p: int) -> bool {
    (x >> (p as u8)) & 1u8 == 1u8
}

/// The bits of `data` from `bits` up to the end of the byte that holds bit `bits - 1` are clear.
pub open spec fn tail_clear(data: Seq<u8>, bits: int) -> bool {
    forall|i: int| bits <= i < 8 * ((bits + 7) / 8) ==> !#[trigger] bit_at(data, i)
}

proof fn lemma_or_bit(x: u8, p: u8, q: u8)
    requires
        p < 8,
        q < 8,
    ensures
        byte_bit(x | (1u8 << p), q as int) <==> (byte_bit(x, q as int) || q == p),
{
    assert(((x | (1u8 << p)) >> q) & 1u8 == 1u8 <==> (((x >> q) & 1u8 == 1u8) || q == p))
        by (bit_vector)
        requires
            p < 8,
            q < 8,
    ;
}

proof fn lemma_zero_bits(q: u8)
    requires
        q < 8,
    ensures
        !byte_bit(0u8, q as int),
{
    assert((0u8 >> q) & 1u8 != 1u8) by (bit_vector);
}

proof fn lemma_mask_test(x: u8, p: u8)
    requires
        p < 8,
    ensures
        (x & (1u8 << p) != 0u8) <==> byte_bit(x, p as int),
{
    assert((x & (1u8 << p) != 0u8) <==> ((x >> p) & 1u8 == 1u8)) by (bit_vector)
        requires
            p < 8,
    ;
}

impl ByteStreamWriteBuffer {
    /// The buffered bytes, the last one possibly incomplete.
    pub closed spec fn data(&self) -> Seq<u8> {
        self.buffer@
    }

    /// Number of bits used in the last byte; zero when the last byte is complete.
    pub closed spec fn last_bit(&self) -> int {
        self.last_byte_bit as int
    }

    /// Well-formedness: fewer than eight bits in the last byte, which exists where bits are used.
    pub open spec fn wf(&self) -> bool {
        &&& 0 <= self.last_bit() < 8
        &&& self.last_bit() != 0 ==> self.data().len() > 0
    }

    /// Number of bits written so far.
    pub open spec fn bit_len(&self) -> int {
        if self.last_bit() == 0 {
            (self.data().len() * 8) as int
        } else {
            (self.data().len() - 1) * 8 + self.last_bit()
        }
    }

    /// The unused bits of an incomplete last byte are clear.
    pub open spec fn clean(&self) -> bool {
        forall|i: int| self.bit_len() <= i < self.data().len() * 8 ==> !#[trigger] bit_at(self.data(), i)
    }

    /// The bits written so far, in order.
    pub open spec fn written(&self) -> Seq<bool> {
        bits_of(self.data(), 0, self.bit_len() as nat)
    }

    /// Creates an empty buffer.
    pub fn new() -> (r: Self)
        ensures
            r.wf(),
            r.clean(),
            r.data() == Seq::<u8>::empty(),
            r.last_bit() == 0,
    {
        Self { buffer: Vec::new(), last_byte_bit: 0 }
    }

    /// Appends whole bytes; bit-wise when the last byte is incomplete.
    pub fn add_bytes(&mut self, data: &[u8])
        requires
            old(self).wf(),
            (old(self).data().len() + data@.len()) * 8 + 8 <= usize::MAX,
        ensures
            final(self).wf(),
            old(self).last_bit() == 0 ==> final(self).data() == old(self).data() + data@
                && final(self).last_bit() == 0,
            old(self).last_bit() != 0 ==> Self::bits_appended(
                old(self).data(),
                old(self).last_bit(),
                data@,
                (data@.len() * 8) as int,
                final(self).data(),
            ) && final(self).last_bit() == old(self).last_bit(),
            old(self).clean() ==> final(self).clean() && final(self).written() == old(self).written()
                + bits_of(data@, 0, (data@.len() * 8) as nat),
    {
        if self.last_byte_bit == 0 {
            push_all(&mut self.buffer, data);
            proof {
                let n = old(self).data().len();
                assert forall|k: int| 0 <= k < final(self).written().len() implies final(self).written()[k]
                    == (old(self).written() + bits_of(data@, 0, (data@.len() * 8) as nat))[k] by {
                    if k < n * 8 {
                        assert(k / 8 < n);
                    } else {
                        assert((k - 8 * n) / 8 == k / 8 - n && (k - 8 * n) % 8 == k % 8) by (nonlinear_arith)
                            requires
                                k >= 8 * n,
                                n >= 0,
                        ;
                    }
                }
                assert(final(self).written() =~= old(self).written() + bits_of(data@, 0, (data@.len() * 8) as nat));
            }
        } else {
            self.add_bits(data, data.len() * 8);
            proof {
                let l = old(self).last_bit();
                let n = data@.len() as int;
                assert((l + n * 8) % 8 == l) by (nonlinear_arith)
                    requires
                        0 <= l < 8,
                        n >= 0,
                ;
            }
        }
    }

    /// Bit-wise append: `new` is `old` extended by zero bytes as needed, with the first
    /// `bits` bits of `data` OR-ed in behind the `last` used bits of the last byte of `old`.
    pub open spec fn bits_appended(old: Seq<u8>, last: int, data: Seq<u8>, bits: int, new: Seq<u8>) -> bool {
        let p = 8 * (old.len() - 1) + last;
        &&& new.len() == old.len() + (last + bits - 1) / 8
        &&& forall|i: int|
            0 <= i < 8 * new.len() ==> #[trigger] bit_at(new, i) == ((i < 8 * old.len() && bit_at(old, i)) || (
            p <= i < p + bits && bit_at(data, i - p)))
    }

    /// Appends the first `bits` bits of `data`.
    ///
    /// When the last byte is complete, the bytes holding these bits are copied as they are,
    /// so bits of the last copied byte above `bits` are copied too; otherwise the bits are
    /// OR-ed in one by one behind the used bits of the last byte.
    pub fn add_bits(&mut self, data: &[u8], bits: usize)
        requires
            old(self).wf(),
            bits <= data@.len() * 8,
            (old(self).data().len() + data@.len()) * 8 + 8 <= usize::MAX,
        ensures
            final(self).wf(),
            final(self).last_bit() == (old(self).last_bit() + bits) % 8,
            old(self).last_bit() == 0 ==> final(self).data() == old(self).data() + data@.take(
                (bits + 7) / 8,
            ),
            old(self).last_bit() != 0 ==> Self::bits_appended(
                old(self).data(),
                old(self).last_bit(),
                data@,
                bits as int,
                final(self).data(),
            ),
            old(self).clean() && (old(self).last_bit() == 0 ==> tail_clear(data@, bits as int))
                ==> final(self).clean() && final(self).written() == old(self).written() + bits_of(
                data@,
                0,
                bits as nat,
            ),
    {
        if self.last_byte_bit == 0 {
            let to_append = (bits + 7) / 8;
            let mut i: usize = 0;
            while i < to_append
                invariant
                    to_append == (bits + 7) / 8,
                    to_append <= data@.len(),
                    i <= to_append,
                    self.last_byte_bit == 0,
                    self.buffer@ == old(self).data() + data@.subrange(0, i as int),
                decreases to_append - i,
            {
                self.buffer.push(data[i]);
                i = i + 1;
                assert(self.buffer@ == old(self).data() + data@.subrange(0, i as int));
            }
            self.last_byte_bit = bits % 8;
            proof {
                assert(data@.subrange(0, to_append as int) == data@.take(to_append as int));
                let n = old(self).data().len();
                let new = self.buffer@;
                assert(8 * ((bits + 7) / 8) >= bits && 8 * ((bits + 7) / 8) < bits + 8) by (nonlinear_arith);
                assert(bits % 8 != 0 ==> 8 * ((bits + 7) / 8) == bits - bits % 8 + 8) by (nonlinear_arith);
                assert(bits % 8 == 0 ==> 8 * ((bits + 7) / 8) == bits) by (nonlinear_arith);
                if old(self).clean() && tail_clear(data@, bits as int) {
                    assert forall|k: int| 0 <= k < 8 * new.len() implies #[trigger] bit_at(new, k)
                        == (if k < 8 * n { bit_at(old(self).data(), k) } else { bit_at(data@, k - 8 * n) }) by {
                        if k >= 8 * n {
                            assert((k - 8 * n) / 8 == k / 8 - n && (k - 8 * n) % 8 == k % 8) by (nonlinear_arith)
                                requires
                                    k >= 8 * n,
                                    n >= 0,
                            ;
                        }
                    }
                    assert forall|k: int| self.bit_len() <= k < new.len() * 8 implies !#[trigger] bit_at(new, k) by {
                        assert(bit_at(new, k) == bit_at(data@, k - 8 * n));
                    }
                    assert(final(self).written() =~= old(self).written() + bits_of(data@, 0, bits as nat));
                }
            }
        } else {
            let ghost old_data = self.buffer@;
            let ghost last = self.last_byte_bit as int;
            let ghost p = 8 * (old_data.len() - 1) + last;
            let start_byte = self.buffer.len() - 1;
            let start_bit = self.last_byte_bit;
            let mut b: usize = 0;
            while b < bits
                invariant
                    start_byte == old_data.len() - 1,
                    start_bit == last,
                    1 <= last < 8,
                    p == 8 * start_byte + start_bit,
                    b <= bits,
                    bits <= data@.len() * 8,
                    (old_data.len() + data@.len()) * 8 + 8 <= usize::MAX,
                    self.last_byte_bit == (last + b) % 8,
                    Self::bits_appended(old_data, last, data@, b as int, self.buffer@),
                decreases bits - b,
            {
                let ghost before = self.buffer@;
                let source_byte = b / 8;
                let source_mask: u8 = 1u8 << ((b % 8) as u8);
                let source_bit = (data[source_byte] & source_mask) != 0;
                let target_mask: u8 = if source_bit {
                    1u8 << (self.last_byte_bit as u8)
                } else {
                    0u8
                };
                let target_byte = start_byte + ((start_bit + b) / 8);
                proof {
                    lemma_mask_test(data@[source_byte as int], (b % 8) as u8);
                    assert(target_byte == (p + b) / 8 && self.last_byte_bit == (p + b) % 8) by (nonlinear_arith)
                        requires
                            p == 8 * start_byte + start_bit,
                            target_byte == start_byte + (start_bit + b) / 8,
                            self.last_byte_bit == (last + b) % 8,
                            start_bit == last,
                            start_byte >= 0,
                            b >= 0,
                            last >= 1,
                    ;
                    assert(target_byte <= before.len()) by (nonlinear_arith)
                        requires
                            before.len() == old_data.len() + (last + b - 1) / 8,
                            target_byte == start_byte + (start_bit + b) / 8,
                            start_byte == old_data.len() - 1,
                            start_bit == last,
                            last >= 1,
                            b >= 0,
                    ;
                }
                if target_byte >= self.buffer.len() {
                    self.buffer.push(0);
                }
                let ghost mid = self.buffer@;
                let current = self.buffer[target_byte];
                self.buffer.set(target_byte, current | target_mask);
                self.last_byte_bit = (self.last_byte_bit + 1) % 8;
                b = b + 1;
                proof {
                    let new = self.buffer@;
                    let t = target_byte as int;
                    let q0 = ((p + b - 1) % 8) as u8;
                    assert(new.len() == old_data.len() + (last + b - 1) / 8) by (nonlinear_arith)
                        requires
                            new.len() == (if t >= before.len() { before.len() + 1 } else { before.len() }),
                            before.len() == old_data.len() + (last + b - 2) / 8,
                            t == start_byte + (start_bit + b - 1) / 8,
                            start_byte == old_data.len() - 1,
                            start_bit == last,
                            last >= 1,
                            b >= 1,
                    ;
                    assert forall|i: int| 0 <= i < 8 * new.len() implies #[trigger] bit_at(new, i) == ((i < 8
                        * old_data.len() && bit_at(old_data, i)) || (p <= i < p + b && bit_at(data@, i - p))) by {
                        let q = (i % 8) as u8;
                        if i / 8 == t {
                            if source_bit {
                                lemma_or_bit(current, q0, q);
                            } else {
                                assert(current | 0u8 == current) by (bit_vector);
                            }
                            if t >= before.len() {
                                lemma_zero_bits(q);
                                assert(i >= 8 * old_data.len());
                            } else {
                                assert(bit_at(before, i) == byte_bit(current, q as int));
                            }
                            assert(i == p + b - 1 <==> q == q0);
                        } else {
                            assert(new[i / 8] == mid[i / 8]);
                            if i / 8 < before.len() {
                                assert(bit_at(new, i) == bit_at(before, i));
                            }
                            assert(i != p + b - 1);
                        }
                    }
                }
            }
        }
    }

    /// Removes and returns all complete bytes.
    pub fn get_full_bytes(&mut self) -> (r: Vec<u8>)
        requires
            old(self).wf(),
        ensures
            final(self).wf(),
            final(self).last_bit() == old(self).last_bit(),
            r@ == old(self).data().take(old(self).full_byte_count()),
            final(self).data() == old(self).data().skip(old(self).full_byte_count()),
    {
        let to_take = self.full_bytes();
        let rest = self.buffer.split_off(to_take);
        let mut taken = rest;
        std::mem::swap(&mut taken, &mut self.buffer);
        taken
    }

    /// Removes and returns all bytes, including an incomplete last byte.
    pub fn get_all_bytes(&mut self) -> (r: Vec<u8>)
        ensures
            final(self).wf(),
            final(self).last_bit() == 0,
            final(self).data() == Seq::<u8>::empty(),
            r@ == old(self).data(),
    {
        self.last_byte_bit = 0;
        let mut taken = Vec::new();
        std::mem::swap(&mut taken, &mut self.buffer);
        taken
    }

    /// Number of complete bytes.
    pub open spec fn full_byte_count(&self) -> int {
        if self.last_bit() != 0 {
            self.data().len() - 1
        } else {
            self.data().len() as int
        }
    }

    /// Number of complete bytes.
    pub fn full_bytes(&self) -> (r: usize)
        requires
            self.wf(),
        ensures
            r == self.full_byte_count(),
    {
        let len = self.buffer.len();
        if self.last_byte_bit != 0 {
            len - 1
        } else {
            len
        }
    }

    /// Number of bytes, including an incomplete last byte.
    pub fn all_bytes(&self) -> (r: usize)
        ensures
            r == self.data().len(),
    {
        self.buffer.len()
    }
}

/// The number of written bits grows by the number of appended bits, and the buffer by at
/// most eight bytes for at most 64 bits.
pub proof fn lemma_bit_len_growth(o: ByteStreamWriteBuffer, f: ByteStreamWriteBuffer, bits: int)
    requires
        o.wf(),
        f.wf(),
        0 <= bits <= 64,
        f.last_bit() == (o.last_bit() + bits) % 8,
        o.last_bit() == 0 ==> f.data().len() == o.data().len() + (bits + 7) / 8,
        o.last_bit() != 0 ==> f.data().len() == o.data().len() + (o.last_bit() + bits - 1) / 8,
    ensures
        f.bit_len() == o.bit_len() + bits,
        f.data().len() <= o.data().len() + 8,
{
    let l = o.last_bit();
    let n = o.data().len() as int;
    let m = f.data().len() as int;
    if l == 0 {
        assert(m * 8 == n * 8 + bits || (m - 1) * 8 + bits % 8 == n * 8 + bits) by (nonlinear_arith)
            requires
                m == n + (bits + 7) / 8,
                0 <= bits <= 64,
        ;
        assert(bits % 8 == 0 ==> m * 8 == n * 8 + bits) by (nonlinear_arith)
            requires
                m == n + (bits + 7) / 8,
                0 <= bits,
        ;
        assert(bits % 8 != 0 ==> (m - 1) * 8 + bits % 8 == n * 8 + bits) by (nonlinear_arith)
            requires
                m == n + (bits + 7) / 8,
                0 <= bits,
        ;
    } else {
        assert((l + bits) % 8 == 0 ==> m * 8 == (n - 1) * 8 + l + bits) by (nonlinear_arith)
            requires
                m == n + (l + bits - 1) / 8,
                1 <= l < 8,
                0 <= bits,
        ;
        assert((l + bits) % 8 != 0 ==> (m - 1) * 8 + (l + bits) % 8 == (n - 1) * 8 + l + bits) by (nonlinear_arith)
            requires
                m == n + (l + bits - 1) / 8,
                1 <= l < 8,
                0 <= bits,
        ;
    }
}

} // verus!
