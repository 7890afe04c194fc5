use crate::bit_seq::{bit_at, bits_of, le_nat};
use crate::bitpack::{low_mask, unpacked_int};
use crate::bs_read::{extracted_value, lemma_append_pending, ByteStreamReadBuffer};
use crate::bs_write::{tail_clear, ByteStreamWriteBuffer};
use crate::le_bytes::{lemma_le_u32, lemma_le_u64};
use crate::pc_writer::{chunk, chunk_taken, concat};
use crate::cv_writer::{column_bits, serialized};
use crate::queue_reader::{constant_value, min_items, parsed, parsed_offset, unpacked};
use crate::record::{
    bits_needed, lemma_bits_needed_bounds, lemma_bits_needed_le_64_all, packed_offset, u32_le, u64_le,
    Record, RecordDataType, RecordValue,
};
use vstd::arithmetic::div_mod::{
    lemma_basic_div, lemma_div_denominator, lemma_fundamental_div_mod, lemma_hoist_over_denominator,
    lemma_mod_breakdown, lemma_mod_mod, lemma_mod_multiples_basic, lemma_mod_multiples_vanish, lemma_small_mod,
};
use vstd::arithmetic::power2::*;
use vstd::bits::{lemma_u64_low_bits_mask_is_mod, lemma_u8_shr_is_div};
use vstd::prelude::*;

verus! {

/// The number that a sequence of bits stands for, its first bit being the least significant.
pub open spec fn bits_value(b: Seq<bool>) -> nat
    decreases b.len(),
{
    if b.len() == 0 {
        0
    } else {
        (if b[0] {
            1nat
        } else {
            0nat
        }) + 2 * bits_value(b.drop_first())
    }
}

/// A value of an integer kind lies between the limits of its data type; values of the
/// floating point kinds always do.
pub open spec fn value_in_range(t: RecordDataType, v: RecordValue) -> bool {
    match (t, v) {
        (RecordDataType::ScaledInteger { min, max, .. }, RecordValue::ScaledInteger(x)) => min <= x <= max,
        (RecordDataType::Integer { min, max }, RecordValue::Integer(x)) => min <= x <= max,
        _ => true,
    }
}

proof fn lemma_low_bit(y: u8)
    ensures
        (y & 1u8 == 1u8) == (y % 2 == 1),
{
    assert((y & 1u8 == 1u8) == (y % 2 == 1)) by (bit_vector);
}

/// Bit `i` of a byte sequence is bit `i` of its little-endian value.
proof fn lemma_bit_at_le(s: Seq<u8>, i: int)
    requires
        0 <= i < 8 * s.len(),
    ensures
        bit_at(s, i) == ((le_nat(s) / pow2(i as nat)) % 2 == 1),
    decreases s.len(),
{
    let r = le_nat(s.drop_first());
    lemma2_to64();
    assert(le_nat(s) == s[0] + 256 * r);
    if i < 8 {
        let y = s[0] >> (i as u8);
        lemma_u8_shr_is_div(s[0], i as u8);
        lemma_low_bit(y);
        let e = pow2(i as nat);
        let f = pow2((8 - i) as nat);
        lemma_pow2_adds(i as nat, (8 - i) as nat);
        lemma_pow2_unfold((8 - i) as nat);
        lemma_pow2_pos(i as nat);
        let g = pow2((7 - i) as nat);
        let h = g * r;
        assert(le_nat(s) == s[0] + (2 * h) * e) by (nonlinear_arith)
            requires
                le_nat(s) == s[0] + 256 * r,
                e * f == 256,
                f == 2 * g,
                h == g * r,
        ;
        lemma_hoist_over_denominator(s[0] as int, (2 * h) as int, e);
        lemma_mod_multiples_vanish(h as int, s[0] as int / e as int, 2);
    } else {
        let t = s.drop_first();
        lemma_bit_at_le(t, i - 8);
        assert((i - 8) / 8 + 1 == i / 8);
        assert((i - 8) % 8 == i % 8);
        assert(bit_at(s, i) == bit_at(t, i - 8));
        lemma_pow2_adds(8, (i - 8) as nat);
        lemma_pow2_pos((i - 8) as nat);
        lemma_div_denominator(le_nat(s) as int, 256, pow2((i - 8) as nat) as int);
        lemma_hoist_over_denominator(s[0] as int, r as int, 256);
        assert(le_nat(s) / 256 == r);
    }
}

/// The bits `start .. start + n` of a byte sequence stand for the matching bits of its
/// little-endian value.
proof fn lemma_bits_value_le(s: Seq<u8>, start: int, n: nat)
    requires
        0 <= start,
        start + n <= 8 * s.len(),
    ensures
        bits_value(bits_of(s, start, n)) == (le_nat(s) / pow2(start as nat)) % pow2(n),
    decreases n,
{
    lemma_pow2_pos(start as nat);
    lemma2_to64();
    let x = le_nat(s) / pow2(start as nat);
    if n > 0 {
        let b = bits_of(s, start, n);
        assert(b.drop_first() =~= bits_of(s, start + 1, (n - 1) as nat));
        lemma_bits_value_le(s, start + 1, (n - 1) as nat);
        lemma_bit_at_le(s, start);
        lemma_pow2_adds(start as nat, 1);
        lemma_div_denominator(le_nat(s) as int, pow2(start as nat) as int, 2);
        lemma_pow2_unfold(n);
        lemma_pow2_pos((n - 1) as nat);
        lemma_mod_breakdown(x as int, 2, pow2((n - 1) as nat) as int);
    }
}

/// The value extracted at a bit offset agrees, in its low `bits` bits, with the bits there.
proof fn lemma_extracted_bits(data: Seq<u8>, off: int, bits: nat)
    requires
        0 <= off,
        0 < bits <= 64,
        off + bits <= 8 * data.len(),
    ensures
        extracted_value(data, off, bits as int) as nat % pow2(bits) == bits_value(bits_of(data, off, bits)),
{
    let lo = off / 8;
    let hi = (off + bits + 7) / 8;
    let window = data.subrange(lo, hi);
    let o = off % 8;
    assert forall|k: int| 0 <= k < bits implies #[trigger] bits_of(window, o, bits)[k] == bits_of(data, off, bits)[k] by {
        assert((o + k) / 8 + lo == (off + k) / 8);
        assert((o + k) % 8 == (off + k) % 8);
    }
    assert(bits_of(window, o, bits) =~= bits_of(data, off, bits));
    lemma_bits_value_le(window, o, bits);
    lemma_pow2_pos(o as nat);
    let y = le_nat(window) / pow2(o as nat);
    lemma_pow2_adds(bits, (64 - bits) as nat);
    lemma_pow2_pos(bits);
    lemma_pow2_pos((64 - bits) as nat);
    lemma2_to64_rest();
    lemma_mod_mod(y as int, pow2(bits) as int, pow2((64 - bits) as nat) as int);
}

/// The low `b` bits of the little-endian bytes of a `u64` stand for its value modulo `2^b`.
proof fn lemma_u64_bits_value(p: u64, b: nat)
    requires
        b <= 64,
    ensures
        bits_value(bits_of(u64_le(p), 0, b)) == p as nat % pow2(b),
{
    lemma_bits_value_le(u64_le(p), 0, b);
    lemma_le_u64(p);
    lemma2_to64();
}

/// The 32 bits of the little-endian bytes of a `u32` stand for its value.
proof fn lemma_u32_bits_value(p: u32)
    ensures
        bits_value(bits_of(u32_le(p), 0, 32)) == p,
{
    lemma_bits_value_le(u32_le(p), 0, 32);
    lemma_le_u32(p);
    lemma2_to64();
}

/// The value `p` taken modulo `2^b`, when `p < 2^b`, is `p` itself.
proof fn lemma_masked(raw: u64, b: nat, p: int)
    requires
        0 < b <= 64,
        0 <= p < pow2(b),
        raw as nat % pow2(b) == p,
    ensures
        (raw & low_mask(b)) == p,
{
    if b < 64 {
        lemma_u64_low_bits_mask_is_mod(raw, b);
        lemma_pow2_strictly_increases(b, 64);
        lemma2_to64_rest();
    } else {
        lemma2_to64_rest();
        assert(low_mask(64) == 0xffff_ffff_ffff_ffffu64);
        assert(raw & 0xffff_ffff_ffff_ffffu64 == raw) by (bit_vector);
    }
}

/// Bits read back as they were written: the bits added to a clean byte stream write buffer,
/// handed out with all its bytes and appended to a read buffer with nothing pending, are the
/// first pending bits of the read buffer, the rest of the last byte is zero, and extracting
/// `n` bits (at most 64) after the first `k` of them gives the written bits `k .. k + n`.
pub proof fn lemma_bits_roundtrip(w: ByteStreamWriteBuffer, r0: ByteStreamReadBuffer, r1: ByteStreamReadBuffer, k: int, n: int)
    requires
        w.wf(),
        w.clean(),
        r0.wf(),
        r1.wf(),
        r0.pending().len() == 0,
        r1.pending() == r0.pending() + bits_of(w.data(), 0, (w.data().len() * 8) as nat),
        0 <= k,
        0 < n <= 64,
        k + n <= w.bit_len(),
    ensures
        r1.pending().take(w.bit_len()) == w.written(),
        forall|i: int| w.bit_len() <= i < r1.pending().len() ==> !#[trigger] r1.pending()[i],
        extracted_value(r1.data(), r1.bit_offset() + k, n) as nat % pow2(n as nat) == bits_value(
            w.written().subrange(k, k + n),
        ),
{
    let all = bits_of(w.data(), 0, (w.data().len() * 8) as nat);
    assert(r1.pending() =~= all);
    assert(r1.pending().take(w.bit_len()) =~= w.written());
    assert forall|i: int| w.bit_len() <= i < r1.pending().len() implies !#[trigger] r1.pending()[i] by {
        assert(r1.pending()[i] == bit_at(w.data(), i));
    }
    let off = r1.bit_offset() + k;
    assert(r1.pending().len() == r1.data().len() * 8 - r1.bit_offset());
    assert(bits_of(r1.data(), off, n as nat) =~= w.written().subrange(k, k + n)) by {
        assert forall|j: int| 0 <= j < n implies #[trigger] bits_of(r1.data(), off, n as nat)[j] == w.written().subrange(k, k + n)[j] by {
            assert(r1.pending()[k + j] == bit_at(r1.data(), r1.bit_offset() + (k + j)));
            assert(all[k + j] == bit_at(w.data(), k + j));
        }
    }
    lemma_extracted_bits(r1.data(), off, n as nat);
}

/// A value that a data type writes reads back as the same value: where the `k`-th group of
/// `bit_size` bits after the bit offset `off` of a stream holds the bits the type writes for
/// `v`, the values unpacked from the stream at `off` hold `v` at position `k`.
pub proof fn lemma_value_roundtrip(t: RecordDataType, v: RecordValue, data: Seq<u8>, off: int, k: int)
    requires
        t.accepts(v),
        value_in_range(t, v),
        t.bit_size_spec() > 0,
        0 <= off,
        0 <= k,
        off + (k + 1) * t.bit_size_spec() <= data.len() * 8,
        bits_of(data, off + k * t.bit_size_spec(), t.bit_size_spec()) == t.value_bits(v),
    ensures
        k < unpacked(t, data, off).len(),
        unpacked(t, data, off)[k] == v,
{
    let bits = t.bit_size_spec() as int;
    let p = off + k * bits;
    lemma_bits_needed_le_64_all(t);
    assert(k * bits + bits == (k + 1) * bits) by (nonlinear_arith);
    assert(k * bits >= 0) by (nonlinear_arith)
        requires
            k >= 0,
            bits > 0,
    ;
    assert((data.len() * 8 - off) / bits >= k + 1) by (nonlinear_arith)
        requires
            (k + 1) * bits <= data.len() * 8 - off,
            bits > 0,
    ;
    lemma_extracted_bits(data, p, bits as nat);
    let raw = extracted_value(data, p, bits);
    assert(raw as nat % pow2(bits as nat) == bits_value(t.value_bits(v)));
    lemma2_to64_rest();
    match v {
        RecordValue::Single(x) => {
            lemma_u32_bits_value(x);
            lemma2_to64();
            assert(bits == 32);
            assert(t.value_bits(v) == bits_of(u32_le(x), 0, 32));
            assert(raw % 0x1_0000_0000 == x);
            assert(raw % 0x1_0000_0000 == (raw as u32)) by (bit_vector);
            assert(raw as u32 == x);
        },
        RecordValue::Double(x) => {
            lemma_u64_bits_value(x, 64);
            assert(bits == 64);
            assert(t.value_bits(v) == bits_of(u64_le(x), 0, 64));
            lemma_small_mod(x as nat, pow2(64));
            lemma_small_mod(raw as nat, pow2(64));
            assert(raw == x);
        },
        RecordValue::ScaledInteger(x) => {
            let (min, max) = match t {
                RecordDataType::ScaledInteger { min, max, .. } => (min, max),
                _ => (0i64, 0i64),
            };
            let b = bits_needed(max - min);
            let po = packed_offset(x, min);
            assert(po == x - min);
            lemma_u64_bits_value(po, b);
            lemma_bits_needed_bounds(max - min);
            lemma_small_mod(po as nat, pow2(b));
            assert(bits == b);
            assert(t.value_bits(v) == bits_of(u64_le(po), 0, b));
            lemma_masked(raw, b, x - min);
            assert(unpacked_int(raw, min, max) == x);
        },
        RecordValue::Integer(x) => {
            let (min, max) = match t {
                RecordDataType::Integer { min, max } => (min, max),
                _ => (0i64, 0i64),
            };
            let b = bits_needed(max - min);
            let po = packed_offset(x, min);
            assert(po == x - min);
            lemma_u64_bits_value(po, b);
            lemma_bits_needed_bounds(max - min);
            lemma_small_mod(po as nat, pow2(b));
            assert(bits == b);
            assert(t.value_bits(v) == bits_of(u64_le(po), 0, b));
            lemma_masked(raw, b, x - min);
            assert(unpacked_int(raw, min, max) == x);
        },
    }
}

/// Writing a value into a byte stream buffer, then unpacking the buffer's bytes at the bit
/// offset where the value starts, gives the value back.
pub proof fn lemma_write_then_unpack(
    t: RecordDataType,
    v: RecordValue,
    before: ByteStreamWriteBuffer,
    after: ByteStreamWriteBuffer,
)
    requires
        before.wf(),
        after.wf(),
        t.accepts(v),
        value_in_range(t, v),
        t.bit_size_spec() > 0,
        after.written() == before.written() + t.value_bits(v),
    ensures
        unpacked(t, after.data(), before.bit_len()).len() >= 1,
        unpacked(t, after.data(), before.bit_len())[0] == v,
{
    let bits = t.bit_size_spec();
    let start = before.bit_len();
    assert(t.value_bits(v).len() == bits);
    assert(start >= 0 && after.bit_len() >= 0);
    assert(after.written().len() == before.written().len() + t.value_bits(v).len());
    assert(after.bit_len() == start + bits);
    assert forall|j: int| 0 <= j < bits implies #[trigger] bits_of(after.data(), start, bits)[j] == t.value_bits(v)[j] by {
        assert(after.written()[start + j] == t.value_bits(v)[j]);
    }
    assert(bits_of(after.data(), start, bits) =~= t.value_bits(v));
    lemma_value_roundtrip(t, v, after.data(), start, 0);
}

/// A value in the range of its data type leaves the bits after its own clear, so writing it
/// keeps a clean buffer clean.
pub proof fn lemma_in_range_clean(t: RecordDataType, v: RecordValue)
    requires
        t.accepts(v),
        value_in_range(t, v),
    ensures
        t.clean_value(v),
{
    match (t, v) {
        (RecordDataType::ScaledInteger { min, max, .. }, RecordValue::ScaledInteger(x)) => {
            lemma_offset_tail_clear(x, min, max);
        },
        (RecordDataType::Integer { min, max }, RecordValue::Integer(x)) => {
            lemma_offset_tail_clear(x, min, max);
        },
        _ => {},
    }
}

proof fn lemma_offset_tail_clear(x: i64, min: i64, max: i64)
    requires
        min <= x <= max,
    ensures
        tail_clear(u64_le(packed_offset(x, min)), bits_needed(max - min) as int),
{
    let b = bits_needed(max - min);
    let po = packed_offset(x, min);
    lemma2_to64_rest();
    assert(po == x - min);
    lemma_bits_needed_le_64_all(RecordDataType::Integer { min, max });
    if max > min {
        lemma_bits_needed_bounds(max - min);
    }
    assert forall|i: int| b <= i < 8 * ((b + 7) / 8) implies !#[trigger] bit_at(u64_le(po), i) by {
        lemma_bit_at_le(u64_le(po), i);
        lemma_le_u64(po);
        lemma_pow2_pos(i as nat);
        if b < i {
            lemma_pow2_strictly_increases(b, i as nat);
        }
        if max == min {
            lemma2_to64();
        }
        assert(po < pow2(i as nat));
        lemma_basic_div(po as int, pow2(i as nat) as int);
    }
}

/// The value of a record of type `t` that the number `raw`, below `2^bit_size`, packs.
pub open spec fn decode_value(t: RecordDataType, raw: nat) -> RecordValue {
    match t {
        RecordDataType::Single { .. } => RecordValue::Single(raw as u32),
        RecordDataType::Double { .. } => RecordValue::Double(raw as u64),
        RecordDataType::ScaledInteger { min, .. } => RecordValue::ScaledInteger((raw + min) as i64),
        RecordDataType::Integer { min, .. } => RecordValue::Integer((raw + min) as i64),
    }
}

/// The values that a sequence of bits decodes to for a record of type `t`: one value for each
/// complete group of `bit_size` bits.
pub open spec fn decoded(t: RecordDataType, p: Seq<bool>) -> Seq<RecordValue> {
    let b = t.bit_size_spec() as int;
    Seq::new(
        (p.len() as int / b) as nat,
        |k: int| decode_value(t, bits_value(p.subrange(k * b, k * b + b))),
    )
}

/// The value unpacked from a raw group of bits depends only on the group's low `bit_size` bits.
proof fn lemma_decode_raw(t: RecordDataType, raw: u64)
    requires
        t.bit_size_spec() > 0,
    ensures
        ({
            let b = t.bit_size_spec();
            decode_value(t, raw as nat % pow2(b)) == match t {
                RecordDataType::Single { .. } => RecordValue::Single(raw as u32),
                RecordDataType::Double { .. } => RecordValue::Double(raw),
                RecordDataType::ScaledInteger { min, max, .. } => RecordValue::ScaledInteger(unpacked_int(raw, min, max)),
                RecordDataType::Integer { min, max } => RecordValue::Integer(unpacked_int(raw, min, max)),
            }
        }),
{
    let b = t.bit_size_spec();
    lemma_bits_needed_le_64_all(t);
    lemma2_to64();
    lemma2_to64_rest();
    lemma_pow2_pos(b);
    match t {
        RecordDataType::Single { .. } => {
            assert(raw % 0x1_0000_0000 == (raw as u32)) by (bit_vector);
        },
        RecordDataType::Double { .. } => {
            lemma_small_mod(raw as nat, pow2(64));
        },
        RecordDataType::ScaledInteger { min, max, .. } => {
            lemma_masked(raw, b, (raw as nat % pow2(b)) as int);
        },
        RecordDataType::Integer { min, max } => {
            lemma_masked(raw, b, (raw as nat % pow2(b)) as int);
        },
    }
}

/// Unpacking a stream at a bit offset decodes the stream's bits from that offset on.
pub proof fn lemma_unpacked_decoded(t: RecordDataType, data: Seq<u8>, off: int)
    requires
        t.bit_size_spec() > 0,
        0 <= off <= data.len() * 8,
    ensures
        unpacked(t, data, off) == decoded(t, bits_of(data, off, (data.len() * 8 - off) as nat)),
{
    let b = t.bit_size_spec() as int;
    let p = bits_of(data, off, (data.len() * 8 - off) as nat);
    let u = unpacked(t, data, off);
    let d = decoded(t, p);
    lemma_bits_needed_le_64_all(t);
    assert(u.len() == d.len());
    assert forall|k: int| 0 <= k < u.len() implies #[trigger] u[k] == d[k] by {
        assert(0 <= k * b) by (nonlinear_arith)
            requires
                0 <= k,
                0 < b,
        ;
        assert(k * b + b <= p.len()) by (nonlinear_arith)
            requires
                0 <= k < p.len() as int / b,
                0 < b,
        ;
        assert(p.subrange(k * b, k * b + b) =~= bits_of(data, off + k * b, b as nat));
        lemma_extracted_bits(data, off + k * b, b as nat);
        lemma_decode_raw(t, extracted_value(data, off + k * b, b));
    }
    assert(u =~= d);
}

/// Decoding bits whose first part holds complete groups decodes each part on its own.
pub proof fn lemma_decoded_append(t: RecordDataType, x: Seq<bool>, y: Seq<bool>)
    requires
        t.bit_size_spec() > 0,
        (x.len() as int) % (t.bit_size_spec() as int) == 0,
    ensures
        decoded(t, x + y) == decoded(t, x) + decoded(t, y),
{
    let b = t.bit_size_spec() as int;
    let nx = x.len() as int / b;
    let ny = y.len() as int / b;
    let l = decoded(t, x + y);
    let r = decoded(t, x) + decoded(t, y);
    assert(x.len() == nx * b) by (nonlinear_arith)
        requires
            b > 0,
            (x.len() as int) % b == 0,
            nx == x.len() as int / b,
    ;
    assert((x.len() + y.len()) as int / b == nx + ny) by (nonlinear_arith)
        requires
            b > 0,
            x.len() == nx * b,
            ny == y.len() as int / b,
    ;
    assert(l.len() == r.len());
    assert forall|k: int| 0 <= k < l.len() implies #[trigger] l[k] == r[k] by {
        if k < nx {
            assert(k * b + b <= x.len()) by (nonlinear_arith)
                requires
                    0 <= k < nx,
                    b > 0,
                    x.len() == nx * b,
            ;
            assert(0 <= k * b) by (nonlinear_arith)
                requires
                    0 <= k,
                    b > 0,
            ;
            assert((x + y).subrange(k * b, k * b + b) =~= x.subrange(k * b, k * b + b));
        } else {
            let j = k - nx;
            assert(k * b == x.len() + j * b) by (nonlinear_arith)
                requires
                    j == k - nx,
                    x.len() == nx * b,
            ;
            assert(j * b + b <= y.len()) by (nonlinear_arith)
                requires
                    0 <= j < ny,
                    b > 0,
                    ny == y.len() as int / b,
            ;
            assert(0 <= j * b) by (nonlinear_arith)
                requires
                    0 <= j,
                    b > 0,
            ;
            assert((x + y).subrange(k * b, k * b + b) =~= y.subrange(j * b, j * b + b));
        }
    }
    assert(l =~= r);
}

/// The bits of two byte sequences one after the other: all bits of the first, then the first
/// `n` bits of the second.
proof fn lemma_bits_of_concat(a: Seq<u8>, b: Seq<u8>, n: nat)
    requires
        n <= 8 * b.len(),
    ensures
        bits_of(a + b, 0, (8 * a.len() + n) as nat) == bits_of(a, 0, (8 * a.len()) as nat) + bits_of(b, 0, n),
{
    let l = bits_of(a + b, 0, (8 * a.len() + n) as nat);
    let r = bits_of(a, 0, (8 * a.len()) as nat) + bits_of(b, 0, n);
    assert forall|k: int| 0 <= k < l.len() implies #[trigger] l[k] == r[k] by {
        if k >= 8 * a.len() {
            let j = k - 8 * a.len();
            assert(k / 8 == a.len() + j / 8);
            assert(k % 8 == j % 8);
        }
    }
    assert(l =~= r);
}

/// Values one after the other.
pub open spec fn joined(parts: Seq<Seq<RecordValue>>) -> Seq<RecordValue>
    decreases parts.len(),
{
    if parts.len() == 0 {
        Seq::empty()
    } else {
        joined(parts.drop_last()) + parts.last()
    }
}

/// Bits that hold no complete group decode to no value.
proof fn lemma_decoded_short(t: RecordDataType, p: Seq<bool>)
    requires
        0 <= p.len() < t.bit_size_spec(),
    ensures
        decoded(t, p) == Seq::<RecordValue>::empty(),
{
    lemma_basic_div(p.len() as int, t.bit_size_spec() as int);
    assert(decoded(t, p) =~= Seq::<RecordValue>::empty());
}

/// What the chunks appended so far hold: the bits the values produced so far came from,
/// followed by the pending bits of the read buffer, fewer than a value takes.
spec fn stream_state(
    t: RecordDataType,
    s: ByteStreamReadBuffer,
    chunks: Seq<Seq<u8>>,
    produced: Seq<Seq<RecordValue>>,
) -> bool {
    let all = bits_of(concat(chunks), 0, (concat(chunks).len() * 8) as nat);
    let p = s.pending();
    let b = t.bit_size_spec() as int;
    &&& p.len() <= all.len()
    &&& p.len() < b
    &&& all.skip(all.len() - p.len()) == p
    &&& (all.len() - p.len()) % b == 0
    &&& decoded(t, all.take(all.len() - p.len())) == joined(produced)
}

proof fn lemma_chunks_decode_step(
    t: RecordDataType,
    s0: ByteStreamReadBuffer,
    s1: ByteStreamReadBuffer,
    chunks: Seq<Seq<u8>>,
    produced: Seq<Seq<RecordValue>>,
    chunk: Seq<u8>,
    values: Seq<RecordValue>,
)
    requires
        t.bit_size_spec() > 0,
        0 <= s0.bit_offset() <= s0.data().len() * 8,
        stream_state(t, s0, chunks, produced),
        ({
            let md = s0.data().skip(s0.bit_offset() / 8) + chunk;
            let mo = s0.bit_offset() % 8;
            &&& values == unpacked(t, md, mo)
            &&& s1.data() == md
            &&& s1.bit_offset() == parsed_offset(t, md, mo)
        }),
    ensures
        stream_state(t, s1, chunks.push(chunk), produced.push(values)),
{
    let b = t.bit_size_spec() as int;
    let off = s0.bit_offset();
    let md = s0.data().skip(off / 8) + chunk;
    let mo = off % 8;
    let all = bits_of(concat(chunks), 0, (concat(chunks).len() * 8) as nat);
    let cb = bits_of(chunk, 0, (chunk.len() * 8) as nat);
    let p = s0.pending();
    let g = all.take(all.len() - p.len());
    // The bits of all chunks.
    let chunks2 = chunks.push(chunk);
    assert(chunks2.drop_last() =~= chunks);
    let all2 = bits_of(concat(chunks2), 0, (concat(chunks2).len() * 8) as nat);
    lemma_bits_of_concat(concat(chunks), chunk, (chunk.len() * 8) as nat);
    assert(all2 == all + cb);
    // The pending bits once the chunk is appended.
    lemma_append_pending(s0.data(), off, chunk);
    let m = bits_of(md, mo, (md.len() * 8 - mo) as nat);
    assert(m == p + cb);
    assert(0 <= mo <= md.len() * 8);
    lemma_unpacked_decoded(t, md, mo);
    // The complete groups are consumed, the rest stays pending.
    let n = (md.len() * 8 - mo) / b;
    assert(0 <= n * b <= m.len()) by (nonlinear_arith)
        requires
            n == (md.len() * 8 - mo) / b,
            m.len() == md.len() * 8 - mo,
            b > 0,
            md.len() * 8 - mo >= 0,
    ;
    assert(m.len() - n * b < b) by (nonlinear_arith)
        requires
            n == (md.len() * 8 - mo) / b,
            m.len() == md.len() * 8 - mo,
            b > 0,
    ;
    let p1 = s1.pending();
    assert(p1 =~= m.skip(n * b));
    let taken = m.take(n * b);
    assert(taken + p1 =~= m);
    assert((n * b) % b == 0) by (nonlinear_arith)
        requires
            b > 0,
    ;
    lemma_decoded_append(t, taken, p1);
    lemma_decoded_short(t, p1);
    assert(decoded(t, taken + p1) == decoded(t, taken) + Seq::<RecordValue>::empty());
    assert(decoded(t, taken) + Seq::<RecordValue>::empty() =~= decoded(t, taken));
    assert(values == decoded(t, taken));
    // The bits of the values produced so far.
    assert(all =~= g + p);
    assert(all2 =~= (g + taken) + p1);
    let g2 = all2.take(all2.len() - p1.len());
    assert(g2 =~= g + taken);
    assert((g.len() as int) % b == 0);
    let q = g.len() as int / b;
    lemma_fundamental_div_mod(g.len() as int, b);
    assert(g.len() + taken.len() == (q + n) * b) by (nonlinear_arith)
        requires
            g.len() == b * q + 0,
            taken.len() == n * b,
    ;
    lemma_mod_multiples_basic(q + n, b);
    lemma_decoded_append(t, g, taken);
    let produced2 = produced.push(values);
    assert(produced2.drop_last() =~= produced);
    assert(joined(produced2) == joined(produced) + values);
    assert(all2.skip(all2.len() - p1.len()) =~= p1);
}

/// A byte stream that arrives in chunks decodes to the values its bits hold: where a read
/// buffer that starts empty gets each chunk appended after its consumed bytes, and each time
/// gives up all complete values it holds, the values it gives up, one after the other, are
/// those that the bits of all chunks decode to.
pub proof fn lemma_chunks_decode(
    t: RecordDataType,
    s: Seq<ByteStreamReadBuffer>,
    chunks: Seq<Seq<u8>>,
    produced: Seq<Seq<RecordValue>>,
)
    requires
        t.bit_size_spec() > 0,
        s.len() == chunks.len() + 1,
        produced.len() == chunks.len(),
        s[0].data().len() == 0,
        s[0].bit_offset() == 0,
        forall|j: int|
            0 <= j < chunks.len() ==> {
                let md = s[j].data().skip(s[j].bit_offset() / 8) + chunks[j];
                let mo = s[j].bit_offset() % 8;
                &&& 0 <= (#[trigger] s[j]).bit_offset() <= s[j].data().len() * 8
                &&& produced[j] == unpacked(t, md, mo)
                &&& s[j + 1].data() == md
                &&& s[j + 1].bit_offset() == parsed_offset(t, md, mo)
            },
    ensures
        joined(produced) == decoded(t, bits_of(concat(chunks), 0, (concat(chunks).len() * 8) as nat)),
    decreases chunks.len(),
{
    lemma_chunks_decode_state(t, s, chunks, produced, chunks.len() as int);
    assert(chunks.take(chunks.len() as int) =~= chunks);
    assert(produced.take(produced.len() as int) =~= produced);
    let all = bits_of(concat(chunks), 0, (concat(chunks).len() * 8) as nat);
    let p = s[chunks.len() as int].pending();
    let g = all.take(all.len() - p.len());
    assert(all =~= g + p);
    lemma_decoded_append(t, g, p);
    lemma_decoded_short(t, p);
    assert(decoded(t, g) + Seq::<RecordValue>::empty() =~= decoded(t, g));
}

proof fn lemma_chunks_decode_state(
    t: RecordDataType,
    s: Seq<ByteStreamReadBuffer>,
    chunks: Seq<Seq<u8>>,
    produced: Seq<Seq<RecordValue>>,
    j: int,
)
    requires
        t.bit_size_spec() > 0,
        s.len() == chunks.len() + 1,
        produced.len() == chunks.len(),
        s[0].data().len() == 0,
        s[0].bit_offset() == 0,
        forall|j: int|
            0 <= j < chunks.len() ==> {
                let md = s[j].data().skip(s[j].bit_offset() / 8) + chunks[j];
                let mo = s[j].bit_offset() % 8;
                &&& 0 <= (#[trigger] s[j]).bit_offset() <= s[j].data().len() * 8
                &&& produced[j] == unpacked(t, md, mo)
                &&& s[j + 1].data() == md
                &&& s[j + 1].bit_offset() == parsed_offset(t, md, mo)
            },
        0 <= j <= chunks.len(),
    ensures
        stream_state(t, s[j], chunks.take(j), produced.take(j)),
    decreases j,
{
    if j == 0 {
        assert(chunks.take(0) =~= Seq::<Seq<u8>>::empty());
        assert(produced.take(0) =~= Seq::<Seq<RecordValue>>::empty());
        assert(s[0].pending() =~= Seq::<bool>::empty());
        let all = bits_of(concat(chunks.take(0)), 0, 0);
        assert(all =~= Seq::<bool>::empty());
        assert(decoded(t, Seq::<bool>::empty()) =~= Seq::<RecordValue>::empty());
        assert(all.take(0) =~= Seq::<bool>::empty());
        assert(all.skip(0) =~= Seq::<bool>::empty());
    } else {
        lemma_chunks_decode_state(t, s, chunks, produced, j - 1);
        assert(s[j - 1].bit_offset() <= s[j - 1].data().len() * 8);
        lemma_chunks_decode_step(t, s[j - 1], s[j], chunks.take(j - 1), produced.take(j - 1), chunks[j - 1], produced[j - 1]);
        assert(chunks.take(j - 1).push(chunks[j - 1]) =~= chunks.take(j));
        assert(produced.take(j - 1).push(produced[j - 1]) =~= produced.take(j));
    }
}

/// Bits one after the other.
pub open spec fn joined_bits(parts: Seq<Seq<bool>>) -> Seq<bool>
    decreases parts.len(),
{
    if parts.len() == 0 {
        Seq::empty()
    } else {
        joined_bits(parts.drop_last()) + parts.last()
    }
}

/// The chunks of a buffer so far, one after the other.
spec fn handed_out(mids: Seq<ByteStreamWriteBuffer>, j: int) -> Seq<u8> {
    concat(Seq::new(j as nat, |i: int| chunk(mids[i], false)))
}

proof fn lemma_chunks_carry_bits_state(
    bufs: Seq<ByteStreamWriteBuffer>,
    mids: Seq<ByteStreamWriteBuffer>,
    bits: Seq<Seq<bool>>,
    j: int,
)
    requires
        bufs.len() == mids.len() + 1,
        bits.len() == mids.len(),
        bufs[0].wf(),
        bufs[0].data().len() == 0,
        forall|i: int|
            0 <= i < mids.len() ==> (#[trigger] mids[i]).wf() && mids[i].written() == bufs[i].written() + bits[i]
                && chunk_taken(mids[i], bufs[i + 1], false),
        0 <= j <= mids.len(),
    ensures
        bufs[j].wf(),
        8 * handed_out(mids, j).len() + bufs[j].bit_len() == joined_bits(bits.take(j)).len(),
        bits_of(handed_out(mids, j) + bufs[j].data(), 0, joined_bits(bits.take(j)).len()) == joined_bits(bits.take(j)),
    decreases j,
{
    if j == 0 {
        assert(bits.take(0) =~= Seq::<Seq<bool>>::empty());
        assert(Seq::new(0, |i: int| chunk(mids[i], false)) =~= Seq::<Seq<u8>>::empty());
        assert(bits_of(handed_out(mids, 0) + bufs[0].data(), 0, 0) =~= Seq::<bool>::empty());
    } else {
        let k = j - 1;
        lemma_chunks_carry_bits_state(bufs, mids, bits, k);
        let c = handed_out(mids, k);
        let mid = mids[k];
        let rest = bufs[j];
        let fbc = mid.full_byte_count();
        let ch = chunk(mid, false);
        assert(Seq::new(j as nat, |i: int| chunk(mids[i], false)).drop_last() =~= Seq::new(
            k as nat,
            |i: int| chunk(mids[i], false),
        ));
        assert(handed_out(mids, j) == c + ch);
        assert(ch + rest.data() =~= mid.data());
        assert(handed_out(mids, j) + rest.data() =~= c + mid.data());
        assert(8 * ch.len() + rest.bit_len() == mid.bit_len());
        assert(mid.bit_len() == bufs[k].bit_len() + bits[k].len()) by {
            assert(mid.written().len() == bufs[k].written().len() + bits[k].len());
        }
        assert(bits.take(j).drop_last() =~= bits.take(k));
        assert(joined_bits(bits.take(j)) == joined_bits(bits.take(k)) + bits[k]);
        lemma_bits_of_concat(c, mid.data(), mid.bit_len() as nat);
        lemma_bits_of_concat(c, bufs[k].data(), bufs[k].bit_len() as nat);
        assert(bits_of(c + mid.data(), 0, (8 * c.len() + mid.bit_len()) as nat) =~= joined_bits(bits.take(k)) + bits[k]);
    }
}

/// The chunks that a byte stream buffer hands out carry the bits written into it: where a
/// buffer that starts empty, step by step, has bits written into it and hands out its complete
/// bytes, then the chunks one after the other, followed by the bytes the buffer keeps, which
/// the last data packet takes, begin with all the bits written, in order.
pub proof fn lemma_chunks_carry_bits(
    bufs: Seq<ByteStreamWriteBuffer>,
    mids: Seq<ByteStreamWriteBuffer>,
    bits: Seq<Seq<bool>>,
)
    requires
        bufs.len() == mids.len() + 1,
        bits.len() == mids.len(),
        bufs[0].wf(),
        bufs[0].data().len() == 0,
        forall|i: int|
            0 <= i < mids.len() ==> (#[trigger] mids[i]).wf() && mids[i].written() == bufs[i].written() + bits[i]
                && chunk_taken(mids[i], bufs[i + 1], false),
    ensures
        ({
            let out = concat(Seq::new(mids.len(), |i: int| chunk(mids[i], false))) + bufs.last().data();
            let w = joined_bits(bits);
            &&& w.len() <= 8 * out.len()
            &&& bits_of(out, 0, w.len()) == w
        }),
{
    let m = mids.len() as int;
    lemma_chunks_carry_bits_state(bufs, mids, bits, m);
    assert(bits.take(m) =~= bits);
}

/// The bits of parts of equal length, one after the other, hold part `k` at `k` times the length.
proof fn lemma_joined_bits_part(parts: Seq<Seq<bool>>, b: int, k: int)
    requires
        b >= 0,
        forall|i: int| 0 <= i < parts.len() ==> (#[trigger] parts[i]).len() == b,
        0 <= k < parts.len(),
    ensures
        joined_bits(parts).len() == parts.len() * b,
        joined_bits(parts).subrange(k * b, k * b + b) == parts[k],
    decreases parts.len(),
{
    let front = parts.drop_last();
    let n = front.len() as int;
    lemma_joined_bits_len(parts, b);
    lemma_joined_bits_len(front, b);
    assert(parts.len() * b == n * b + b) by (nonlinear_arith)
        requires
            parts.len() == n + 1,
    ;
    if k == n {
        assert(joined_bits(parts).subrange(k * b, k * b + b) =~= parts[k]);
    } else {
        assert(front[k] == parts[k]);
        lemma_joined_bits_part(front, b, k);
        assert(k * b + b <= n * b) by (nonlinear_arith)
            requires
                0 <= k < n,
                b >= 0,
        ;
        assert(0 <= k * b) by (nonlinear_arith)
            requires
                0 <= k,
                b >= 0,
        ;
        assert(joined_bits(parts).subrange(k * b, k * b + b) =~= joined_bits(front).subrange(k * b, k * b + b));
    }
}

proof fn lemma_joined_bits_len(parts: Seq<Seq<bool>>, b: int)
    requires
        b >= 0,
        forall|i: int| 0 <= i < parts.len() ==> (#[trigger] parts[i]).len() == b,
    ensures
        joined_bits(parts).len() == parts.len() * b,
    decreases parts.len(),
{
    if parts.len() > 0 {
        let front = parts.drop_last();
        assert forall|i: int| 0 <= i < front.len() implies (#[trigger] front[i]).len() == b by {
            assert(front[i] == parts[i]);
        }
        lemma_joined_bits_len(front, b);
        assert(parts.len() * b == front.len() * b + b) by (nonlinear_arith)
            requires
                parts.len() == front.len() + 1,
        ;
    }
}

/// The bits a data type writes for a value in its range decode back to the value.
pub proof fn lemma_value_bits_decode(t: RecordDataType, v: RecordValue)
    requires
        t.accepts(v),
        value_in_range(t, v),
        t.bit_size_spec() > 0,
    ensures
        t.value_bits(v).len() == t.bit_size_spec(),
        decode_value(t, bits_value(t.value_bits(v))) == v,
{
    lemma_bits_needed_le_64_all(t);
    lemma2_to64();
    lemma2_to64_rest();
    match v {
        RecordValue::Single(x) => {
            lemma_u32_bits_value(x);
        },
        RecordValue::Double(x) => {
            lemma_u64_bits_value(x, 64);
            lemma_small_mod(x as nat, pow2(64));
        },
        RecordValue::ScaledInteger(x) => {
            let (min, max) = match t {
                RecordDataType::ScaledInteger { min, max, .. } => (min, max),
                _ => (0i64, 0i64),
            };
            let b = bits_needed(max - min);
            let po = packed_offset(x, min);
            assert(po == x - min);
            lemma_u64_bits_value(po, b);
            lemma_bits_needed_bounds(max - min);
            lemma_small_mod(po as nat, pow2(b));
        },
        RecordValue::Integer(x) => {
            let (min, max) = match t {
                RecordDataType::Integer { min, max } => (min, max),
                _ => (0i64, 0i64),
            };
            let b = bits_needed(max - min);
            let po = packed_offset(x, min);
            assert(po == x - min);
            lemma_u64_bits_value(po, b);
            lemma_bits_needed_bounds(max - min);
            lemma_small_mod(po as nat, pow2(b));
        },
    }
}

/// Values written one after the other into a byte stream decode back from its bytes: where the
/// first bits of some bytes are the bits that a data type writes for each value in turn, the
/// bytes decode to these values first.
pub proof fn lemma_values_decode(t: RecordDataType, vs: Seq<RecordValue>, bytes: Seq<u8>)
    requires
        t.bit_size_spec() > 0,
        forall|k: int| 0 <= k < vs.len() ==> t.accepts(#[trigger] vs[k]) && value_in_range(t, vs[k]),
        ({
            let w = joined_bits(Seq::new(vs.len(), |k: int| t.value_bits(vs[k])));
            &&& w.len() <= 8 * bytes.len()
            &&& bits_of(bytes, 0, w.len()) == w
        }),
    ensures
        decoded(t, bits_of(bytes, 0, (8 * bytes.len()) as nat)).len() >= vs.len(),
        decoded(t, bits_of(bytes, 0, (8 * bytes.len()) as nat)).take(vs.len() as int) == vs,
{
    let b = t.bit_size_spec() as int;
    let parts = Seq::new(vs.len(), |k: int| t.value_bits(vs[k]));
    let w = joined_bits(parts);
    let all = bits_of(bytes, 0, (8 * bytes.len()) as nat);
    let d = decoded(t, all);
    assert forall|i: int| 0 <= i < parts.len() implies (#[trigger] parts[i]).len() == b by {
        lemma_value_bits_decode(t, vs[i]);
    }
    lemma_joined_bits_len(parts, b);
    assert(vs.len() <= all.len() as int / b) by (nonlinear_arith)
        requires
            w.len() == vs.len() * b,
            w.len() <= all.len(),
            b > 0,
    ;
    assert forall|k: int| 0 <= k < vs.len() implies #[trigger] d[k] == vs[k] by {
        lemma_joined_bits_part(parts, b, k);
        lemma_value_bits_decode(t, vs[k]);
        assert(k * b + b <= w.len()) by (nonlinear_arith)
            requires
                0 <= k < vs.len(),
                w.len() == vs.len() * b,
                b > 0,
        ;
        assert(0 <= k * b) by (nonlinear_arith)
            requires
                0 <= k,
                b > 0,
        ;
        assert(all.subrange(k * b, k * b + b) =~= w.subrange(k * b, k * b + b)) by {
            assert forall|i: int| 0 <= i < b implies #[trigger] all.subrange(k * b, k * b + b)[i] == w.subrange(k * b, k * b + b)[i] by {
                assert(bits_of(bytes, 0, w.len())[k * b + i] == w[k * b + i]);
            }
        }
    }
    assert(d.take(vs.len() as int) =~= vs);
}

/// The chunks that a write buffer hands out: its complete bytes after each step, then at the
/// end all bytes it keeps, as the last data packet takes them.
pub open spec fn stream_chunks(bufs: Seq<ByteStreamWriteBuffer>, mids: Seq<ByteStreamWriteBuffer>) -> Seq<Seq<u8>> {
    Seq::new(mids.len(), |i: int| chunk(mids[i], false)).push(bufs.last().data())
}

/// A byte stream round trip: the chunks that a write buffer hands out for a record, where a
/// read buffer receives them in order and each time gives up the complete values it holds,
/// give back the values written, in order.
pub proof fn lemma_stream_roundtrip(
    t: RecordDataType,
    vs: Seq<RecordValue>,
    bufs: Seq<ByteStreamWriteBuffer>,
    mids: Seq<ByteStreamWriteBuffer>,
    bits: Seq<Seq<bool>>,
    reads: Seq<ByteStreamReadBuffer>,
    produced: Seq<Seq<RecordValue>>,
)
    requires
        t.bit_size_spec() > 0,
        forall|k: int| 0 <= k < vs.len() ==> t.accepts(#[trigger] vs[k]) && value_in_range(t, vs[k]),
        joined_bits(bits) == joined_bits(Seq::new(vs.len(), |k: int| t.value_bits(vs[k]))),
        bufs.len() == mids.len() + 1,
        bits.len() == mids.len(),
        bufs[0].wf(),
        bufs[0].data().len() == 0,
        forall|i: int|
            0 <= i < mids.len() ==> (#[trigger] mids[i]).wf() && mids[i].written() == bufs[i].written() + bits[i]
                && chunk_taken(mids[i], bufs[i + 1], false),
        reads.len() == stream_chunks(bufs, mids).len() + 1,
        produced.len() == stream_chunks(bufs, mids).len(),
        reads[0].data().len() == 0,
        reads[0].bit_offset() == 0,
        forall|j: int|
            0 <= j < stream_chunks(bufs, mids).len() ==> {
                let md = reads[j].data().skip(reads[j].bit_offset() / 8) + stream_chunks(bufs, mids)[j];
                let mo = reads[j].bit_offset() % 8;
                &&& 0 <= (#[trigger] reads[j]).bit_offset() <= reads[j].data().len() * 8
                &&& produced[j] == unpacked(t, md, mo)
                &&& reads[j + 1].data() == md
                &&& reads[j + 1].bit_offset() == parsed_offset(t, md, mo)
            },
    ensures
        joined(produced).len() >= vs.len(),
        joined(produced).take(vs.len() as int) == vs,
{
    let chunks = stream_chunks(bufs, mids);
    let handed = Seq::new(mids.len(), |i: int| chunk(mids[i], false));
    assert(chunks.drop_last() =~= handed);
    let out = concat(chunks);
    assert(out == concat(handed) + bufs.last().data());
    lemma_chunks_carry_bits(bufs, mids, bits);
    lemma_values_decode(t, vs, out);
    lemma_chunks_decode(t, reads, chunks, produced);
}


/// The values of one record across points.
pub open spec fn column(pts: Seq<Vec<RecordValue>>, i: int) -> Seq<RecordValue> {
    Seq::new(pts.len(), |j: int| pts[j]@[i])
}

/// The bits that serializing the values of record `i` of these points writes are the bits of
/// each value one after the other.
proof fn lemma_column_bits_joined(t: RecordDataType, pts: Seq<Vec<RecordValue>>, i: int)
    ensures
        column_bits(t, pts, i) == joined_bits(Seq::new(pts.len(), |k: int| t.value_bits(column(pts, i)[k]))),
    decreases pts.len(),
{
    let parts = Seq::new(pts.len(), |k: int| t.value_bits(column(pts, i)[k]));
    if pts.len() > 0 {
        let front = pts.drop_last();
        lemma_column_bits_joined(t, front, i);
        assert(parts.drop_last() =~= Seq::new(front.len(), |k: int| t.value_bits(column(front, i)[k])));
    } else {
        assert(parts =~= Seq::<Seq<bool>>::empty());
    }
}

/// The smallest number of values the queues hold is at least `n` where each record with a
/// non-zero bit size makes its queue hold at least `n` values.
proof fn lemma_min_items_at_least(proto: Seq<Record>, ss: Seq<ByteStreamReadBuffer>, qs: Seq<Seq<RecordValue>>, k: int, n: int)
    requires
        0 <= k <= proto.len(),
        n <= usize::MAX,
        forall|i: int| 0 <= i < k && proto[i].data_type.bit_size_spec() != 0 ==> n <= #[trigger] crate::queue_reader::items(
            proto[i].data_type,
            ss[i].data(),
            ss[i].bit_offset(),
            qs[i],
        ),
    ensures
        min_items(proto, ss, qs, k) >= n,
    decreases k,
{
    if k > 0 {
        lemma_min_items_at_least(proto, ss, qs, k - 1, n);
    }
}

/// A data packet round trip: points serialized into fresh byte streams, whose bytes a fresh
/// read buffer per record receives as the streams of one data packet, parse back to the
/// points. Every queue then holds at least as many values as there were points, and value `j`
/// of the queue of record `i` is value `i` of point `j`.
pub proof fn lemma_packet_values_roundtrip(
    proto: Seq<Record>,
    old: Seq<ByteStreamWriteBuffer>,
    mid: Seq<ByteStreamWriteBuffer>,
    pts: Seq<Vec<RecordValue>>,
    rs: Seq<ByteStreamReadBuffer>,
)
    requires
        serialized(proto, old, mid, pts),
        old.len() == proto.len(),
        rs.len() == proto.len(),
        pts.len() <= usize::MAX,
        forall|i: int| 0 <= i < old.len() ==> (#[trigger] old[i]).data().len() == 0 && old[i].last_bit() == 0,
        forall|i: int| 0 <= i < rs.len() ==> (#[trigger] rs[i]).data() == mid[i].data() && rs[i].bit_offset() == 0,
        forall|j: int| 0 <= j < pts.len() ==> (#[trigger] pts[j])@.len() == proto.len(),
        forall|j: int, i: int|
            0 <= j < pts.len() && 0 <= i < proto.len() ==> proto[i].data_type.accepts(#[trigger] pts[j]@[i])
                && value_in_range(proto[i].data_type, pts[j]@[i]),
    ensures
        ({
            let qs = Seq::new(proto.len(), |i: int| Seq::<RecordValue>::empty());
            let m = min_items(proto, rs, qs, proto.len() as int);
            &&& m >= pts.len()
            &&& forall|i: int| 0 <= i < proto.len() ==> {
                let q = #[trigger] parsed(proto[i].data_type, rs[i].data(), rs[i].bit_offset(), qs[i], m);
                &&& q.len() >= pts.len()
                &&& q.take(pts.len() as int) == column(pts, i)
            }
        }),
{
    let qs = Seq::new(proto.len(), |i: int| Seq::<RecordValue>::empty());
    let n = pts.len() as int;
    assert forall|i: int| 0 <= i < proto.len() && proto[i].data_type.bit_size_spec() != 0 implies n
        <= #[trigger] crate::queue_reader::items(proto[i].data_type, rs[i].data(), rs[i].bit_offset(), qs[i]) by {
        let b = proto[i].data_type.bit_size_spec() as int;
        assert(mid[i].bit_len() == n * b);
        assert(mid[i].bit_len() <= mid[i].data().len() * 8);
        let len8 = (mid[i].data().len() * 8) as int;
        assert(len8 / b >= n) by (nonlinear_arith)
            requires
                n * b <= len8,
                b > 0,
                n >= 0,
        ;
    }
    lemma_min_items_at_least(proto, rs, qs, proto.len() as int, n);
    let m = min_items(proto, rs, qs, proto.len() as int);
    assert forall|i: int| 0 <= i < proto.len() implies {
        let q = #[trigger] parsed(proto[i].data_type, rs[i].data(), rs[i].bit_offset(), qs[i], m);
        &&& q.len() >= pts.len()
        &&& q.take(pts.len() as int) == column(pts, i)
    } by {
        let t = proto[i].data_type;
        let vs = column(pts, i);
        let q = parsed(t, rs[i].data(), rs[i].bit_offset(), qs[i], m);
        if t.bit_size_spec() == 0 {
            assert forall|j: int| 0 <= j < n implies #[trigger] vs[j] == constant_value(t) by {
                assert(t.accepts(pts[j]@[i]) && value_in_range(t, pts[j]@[i]));
                match t {
                    RecordDataType::Integer { min, max } => {
                        if max - min >= 1 {
                            lemma_bits_needed_bounds(max - min);
                        }
                    },
                    RecordDataType::ScaledInteger { min, max, .. } => {
                        if max - min >= 1 {
                            lemma_bits_needed_bounds(max - min);
                        }
                    },
                    _ => {},
                }
            }
            assert(q.take(n) =~= vs);
        } else {
            assert forall|j: int| 0 <= j < n implies t.accepts(#[trigger] vs[j]) && value_in_range(t, vs[j]) by {
                assert(vs[j] == pts[j]@[i]);
            }
            assert forall|j: int| 0 <= j < n implies #[trigger] t.clean_value(pts[j]@[i]) by {
                lemma_in_range_clean(t, pts[j]@[i]);
            }
            assert(old[i].written() =~= Seq::<bool>::empty());
            assert(old[i].clean());
            lemma_column_bits_joined(t, pts, i);
            let w = joined_bits(Seq::new(vs.len(), |k: int| t.value_bits(vs[k])));
            assert(mid[i].written() == w);
            assert(bits_of(mid[i].data(), 0, w.len()) == w);
            lemma_values_decode(t, vs, mid[i].data());
            lemma_unpacked_decoded(t, mid[i].data(), 0);
            assert(q =~= unpacked(t, mid[i].data(), 0));
        }
    }
}


} // verus!
