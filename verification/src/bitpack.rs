use crate::bs_read::{extracted_value, ByteStreamReadBuffer};
use crate::error::{Error, Result};
use crate::record::{bits_needed, integer_bits, lemma_bits_needed_bounds, RecordValue};
use std::collections::VecDeque;
use vstd::arithmetic::power2::*;
use vstd::bits::*;
use vstd::prelude::*;

verus! {

/// Unpacks bit packed values from byte streams into queues of raw record values.
pub struct BitPack;

/// The values that `n` successive extractions of `bits` bits return, starting at bit `offset`.
pub open spec fn extracted_values(data: Seq<u8>, offset: int, bits: int, n: nat) -> Seq<u64> {
    Seq::new(n, |k: int| extracted_value(data, offset + k * bits, bits))
}

/// Mask with the lowest `bits` bits set.
pub open spec fn low_mask(bits: nat) -> u64 {
    (pow2(bits) - 1) as u64
}

/// The integer that a packed value stands for: its masked offset above `min`.
pub open spec fn unpacked_int(raw: u64, min: i64, max: i64) -> i64 {
    ((raw & low_mask(bits_needed(max - min))) as int + min) as i64
}

/// The integer that a packed value stands for fits into an `i64`: its masked offset added to
/// `min` is at most `i64::MAX`.
pub open spec fn int_fits(raw: u64, min: i64, max: i64) -> bool {
    (raw & low_mask(bits_needed(max - min))) as int + min <= i64::MAX
}

/// Every value that unpacking the stream from bit `off` on gives fits into an `i64`.
pub open spec fn ints_fit(data: Seq<u8>, off: int, min: i64, max: i64) -> bool {
    let bits = bits_needed(max - min) as int;
    let n = ((data.len() * 8 - off) / bits) as nat;
    forall|k: int| 0 <= k < n ==> #[trigger] int_fits(extracted_value(data, off + k * bits, bits), min, max)
}

proof fn lemma_count(a: int, b: int, k: int)
    requires
        b > 0,
        k >= 0,
        k * b <= a,
        a - k * b < b,
    ensures
        k == a / b,
{
    assert(k == a / b) by (nonlinear_arith)
        requires
            b > 0,
            k >= 0,
            k * b <= a,
            a - k * b < b,
    ;
}

impl BitPack {
    /// Extracts 64-bit values until fewer than 64 bits are left; each is the bit pattern of a double.
    pub fn unpack_doubles(stream: &mut ByteStreamReadBuffer, output: &mut VecDeque<RecordValue>) -> (r: Result<()>)
        requires
            old(stream).wf(),
        ensures
            r is Ok,
            final(stream).wf(),
            final(stream).data() == old(stream).data(),
            ({
                let avail = old(stream).data().len() * 8 - old(stream).bit_offset();
                let n = (avail / 64) as nat;
                &&& final(stream).bit_offset() == old(stream).bit_offset() + n * 64
                &&& final(output)@ == old(output)@ + extracted_values(
                    old(stream).data(),
                    old(stream).bit_offset(),
                    64,
                    n,
                ).map_values(|v: u64| RecordValue::Double(v))
            }),
    {
        let ghost d = stream.data();
        let ghost off0 = stream.bit_offset();
        let ghost mut k: nat = 0;
        loop
            invariant
                stream.wf(),
                stream.data() == d,
                stream.bit_offset() == off0 + k * 64,
                output@ == old(output)@ + extracted_values(d, off0, 64, k).map_values(
                    |v: u64| RecordValue::Double(v),
                ),
            ensures
                stream.wf(),
                stream.data() == d,
                stream.bit_offset() == off0 + k * 64,
                d.len() * 8 - stream.bit_offset() < 64,
                output@ == old(output)@ + extracted_values(d, off0, 64, k).map_values(
                    |v: u64| RecordValue::Double(v),
                ),
            decreases d.len() * 8 - stream.bit_offset(),
        {
            match stream.extract(64) {
                Some(data) => {
                    output.push_back(RecordValue::Double(data));
                    proof {
                        k = k + 1;
                        assert(output@ =~= old(output)@ + extracted_values(d, off0, 64, k).map_values(
                            |v: u64| RecordValue::Double(v),
                        ));
                    }
                },
                None => break,
            }
        }
        proof {
            lemma_count(d.len() * 8 - off0, 64, k as int);
        }
        Ok(())
    }

    /// Extracts 32-bit values until fewer than 32 bits are left; each is the bit pattern of a single.
    pub fn unpack_singles(stream: &mut ByteStreamReadBuffer, output: &mut VecDeque<RecordValue>) -> (r: Result<()>)
        requires
            old(stream).wf(),
        ensures
            r is Ok,
            final(stream).wf(),
            final(stream).data() == old(stream).data(),
            ({
                let avail = old(stream).data().len() * 8 - old(stream).bit_offset();
                let n = (avail / 32) as nat;
                &&& final(stream).bit_offset() == old(stream).bit_offset() + n * 32
                &&& final(output)@ == old(output)@ + extracted_values(
                    old(stream).data(),
                    old(stream).bit_offset(),
                    32,
                    n,
                ).map_values(|v: u64| RecordValue::Single(v as u32))
            }),
    {
        let ghost d = stream.data();
        let ghost off0 = stream.bit_offset();
        let ghost mut k: nat = 0;
        loop
            invariant
                stream.wf(),
                stream.data() == d,
                stream.bit_offset() == off0 + k * 32,
                output@ == old(output)@ + extracted_values(d, off0, 32, k).map_values(
                    |v: u64| RecordValue::Single(v as u32),
                ),
            ensures
                stream.wf(),
                stream.data() == d,
                stream.bit_offset() == off0 + k * 32,
                d.len() * 8 - stream.bit_offset() < 32,
                output@ == old(output)@ + extracted_values(d, off0, 32, k).map_values(
                    |v: u64| RecordValue::Single(v as u32),
                ),
            decreases d.len() * 8 - stream.bit_offset(),
        {
            match stream.extract(32) {
                Some(data) => {
                    output.push_back(RecordValue::Single(#[verifier::truncate] (data as u32)));
                    proof {
                        k = k + 1;
                        assert(output@ =~= old(output)@ + extracted_values(d, off0, 32, k).map_values(
                            |v: u64| RecordValue::Single(v as u32),
                        ));
                    }
                },
                None => break,
            }
        }
        proof {
            lemma_count(d.len() * 8 - off0, 32, k as int);
        }
        Ok(())
    }

    /// Extracts integers of `bits_needed(max - min)` bits until fewer bits are left;
    /// each is the masked offset of an integer above `min`.
    pub fn unpack_ints(
        stream: &mut ByteStreamReadBuffer,
        min: i64,
        max: i64,
        output: &mut VecDeque<RecordValue>,
    ) -> (r: Result<()>)
        requires
            old(stream).wf(),
            min < max,
        ensures
            final(stream).wf(),
            final(stream).data() == old(stream).data(),
            r is Ok <==> ints_fit(old(stream).data(), old(stream).bit_offset(), min, max),
            r matches Err(e) ==> e is Invalid,
            r is Ok ==> ({
                let bits = bits_needed(max - min);
                let avail = old(stream).data().len() * 8 - old(stream).bit_offset();
                let n = (avail / bits as int) as nat;
                &&& final(stream).bit_offset() == old(stream).bit_offset() + n * bits
                &&& final(output)@ == old(output)@ + extracted_values(
                    old(stream).data(),
                    old(stream).bit_offset(),
                    bits as int,
                    n,
                ).map_values(|v: u64| RecordValue::Integer(unpacked_int(v, min, max)))
            }),
    {
        Self::unpack_raw_ints(stream, min, max, output, false)
    }

    /// Like `unpack_ints`, for scaled integers.
    pub fn unpack_scaled_ints(
        stream: &mut ByteStreamReadBuffer,
        min: i64,
        max: i64,
        output: &mut VecDeque<RecordValue>,
    ) -> (r: Result<()>)
        requires
            old(stream).wf(),
            min < max,
        ensures
            final(stream).wf(),
            final(stream).data() == old(stream).data(),
            r is Ok <==> ints_fit(old(stream).data(), old(stream).bit_offset(), min, max),
            r matches Err(e) ==> e is Invalid,
            r is Ok ==> ({
                let bits = bits_needed(max - min);
                let avail = old(stream).data().len() * 8 - old(stream).bit_offset();
                let n = (avail / bits as int) as nat;
                &&& final(stream).bit_offset() == old(stream).bit_offset() + n * bits
                &&& final(output)@ == old(output)@ + extracted_values(
                    old(stream).data(),
                    old(stream).bit_offset(),
                    bits as int,
                    n,
                ).map_values(|v: u64| RecordValue::ScaledInteger(unpacked_int(v, min, max)))
            }),
    {
        Self::unpack_raw_ints(stream, min, max, output, true)
    }

    fn unpack_raw_ints(
        stream: &mut ByteStreamReadBuffer,
        min: i64,
        max: i64,
        output: &mut VecDeque<RecordValue>,
        scaled: bool,
    ) -> (r: Result<()>)
        requires
            old(stream).wf(),
            min < max,
        ensures
            final(stream).wf(),
            final(stream).data() == old(stream).data(),
            r is Ok <==> ints_fit(old(stream).data(), old(stream).bit_offset(), min, max),
            r matches Err(e) ==> e is Invalid,
            r is Ok ==> ({
                let bits = bits_needed(max - min);
                let avail = old(stream).data().len() * 8 - old(stream).bit_offset();
                let n = (avail / bits as int) as nat;
                &&& final(stream).bit_offset() == old(stream).bit_offset() + n * bits
                &&& final(output)@ == old(output)@ + extracted_values(
                    old(stream).data(),
                    old(stream).bit_offset(),
                    bits as int,
                    n,
                ).map_values(
                    |v: u64|
                        if scaled {
                            RecordValue::ScaledInteger(unpacked_int(v, min, max))
                        } else {
                            RecordValue::Integer(unpacked_int(v, min, max))
                        },
                )
            }),
    {
        let bits = integer_bits(min, max);
        proof {
            lemma_bits_needed_bounds(max - min);
            lemma2_to64();
            lemma2_to64_rest();
            if bits < 64 {
                lemma_pow2_strictly_increases(bits as nat, 64);
            }
            if bits > 64 {
                lemma_pow2_strictly_increases(64, (bits - 1) as nat);
            }
            assert(1 <= bits <= 64);
        }
        let mask: u64 = if bits == 64 {
            0xffff_ffff_ffff_ffffu64
        } else {
            proof {
                lemma_u64_shl_is_mul(1, bits as u64);
                lemma_u64_pow2_no_overflow(bits as nat);
            }
            (1u64 << (bits as u64)) - 1
        };
        assert(mask == low_mask(bits as nat));
        let ghost d = stream.data();
        let ghost off0 = stream.bit_offset();
        let ghost f = |v: u64|
            if scaled {
                RecordValue::ScaledInteger(unpacked_int(v, min, max))
            } else {
                RecordValue::Integer(unpacked_int(v, min, max))
            };
        let ghost mut k: nat = 0;
        loop
            invariant
                stream.wf(),
                stream.data() == d,
                1 <= bits <= 64,
                d == old(stream).data(),
                off0 == old(stream).bit_offset(),
                mask == low_mask(bits as nat),
                bits == bits_needed(max - min),
                min < max,
                forall|j: int| 0 <= j < k ==> #[trigger] int_fits(extracted_value(d, off0 + j * bits, bits as int), min, max),
                f == (|v: u64|
                    if scaled {
                        RecordValue::ScaledInteger(unpacked_int(v, min, max))
                    } else {
                        RecordValue::Integer(unpacked_int(v, min, max))
                    }),
                stream.bit_offset() == off0 + k * bits,
                output@ == old(output)@ + extracted_values(d, off0, bits as int, k).map_values(f),
            ensures
                stream.wf(),
                stream.data() == d,
                stream.bit_offset() == off0 + k * bits,
                d.len() * 8 - stream.bit_offset() < bits,
                output@ == old(output)@ + extracted_values(d, off0, bits as int, k).map_values(f),
                forall|j: int| 0 <= j < k ==> #[trigger] int_fits(extracted_value(d, off0 + j * bits, bits as int), min, max),
            decreases d.len() * 8 - stream.bit_offset(),
        {
            match stream.extract(bits) {
                Some(uint_value) => {
                    assert(uint_value == extracted_value(d, off0 + k * bits, bits as int));
                    let masked = uint_value & mask;
                    proof {
                        assert(uint_value & mask <= mask) by (bit_vector);
                    }
                    let wide: i128 = masked as i128 + min as i128;
                    if wide > 0x7fff_ffff_ffff_ffffi128 {
                        proof {
                            let kk = k as int;
                            let bb = bits as int;
                            assert((kk + 1) * bb == kk * bb + bb) by (nonlinear_arith);
                            assert(kk < (d.len() * 8 - off0) / bb) by (nonlinear_arith)
                                requires
                                    (kk + 1) * bb <= d.len() * 8 - off0,
                                    bb > 0,
                            ;
                            assert(!int_fits(extracted_value(d, off0 + kk * bb, bb), min, max));
                        }
                        return Err(Error::Invalid { desc: "Integer value of a point does not fit into 64 bits".to_owned() });
                    }
                    let int_value = wide as i64;
                    assert(int_value == unpacked_int(uint_value, min, max));
                    assert(int_fits(extracted_value(d, off0 + k * bits, bits as int), min, max));
                    if scaled {
                        output.push_back(RecordValue::ScaledInteger(int_value));
                        assert(f(uint_value) == RecordValue::ScaledInteger(int_value));
                    } else {
                        output.push_back(RecordValue::Integer(int_value));
                        assert(f(uint_value) == RecordValue::Integer(int_value));
                    }
                    proof {
                        let kk = k as int;
                        let bb = bits as int;
                        assert((kk + 1) * bb == kk * bb + bb) by (nonlinear_arith);
                        assert(int_value == unpacked_int(uint_value, min, max));
                        assert(output@.last() == f(uint_value));
                        let ev = extracted_values(d, off0, bits as int, (k + 1) as nat);
                        assert(ev[kk] == uint_value);
                        k = k + 1;
                        assert(output@ =~= old(output)@ + extracted_values(d, off0, bits as int, k).map_values(f));
                    }
                },
                None => break,
            }
        }
        proof {
            lemma_count(d.len() * 8 - off0, bits as int, k as int);
            assert(ints_fit(d, off0, min, max));
        }
        Ok(())
    }
}

} // verus!
