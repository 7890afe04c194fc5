use crate::bit_seq::{lemma_le_nat_bound, le_nat};
use crate::record::{u32_le, u64_le};
use vstd::arithmetic::power2::*;
use vstd::prelude::*;

verus! {

/// Little-endian value of the `n` bytes of `s` starting at `at`.
pub open spec fn le_at(s: Seq<u8>, at: int, n: int) -> nat {
    le_nat(s.subrange(at, at + n))
}

/// Reads the little-endian value of `n` (at most eight) bytes starting at `at`.
pub fn read_le(b: &[u8], at: usize, n: usize) -> (r: u64)
    requires
        n <= 8,
        at + n <= b@.len(),
    ensures
        r == le_at(b@, at as int, n as int),
        r < pow2(8 * n as nat),
{
    let len = b.len();
    let mut value: u64 = 0;
    let mut i = n;
    proof {
        lemma2_to64();
        assert(b@.subrange(at + n, at + n) =~= Seq::<u8>::empty());
    }
    while i > 0
        invariant
            i <= n,
            n <= 8,
            at + n <= b@.len(),
            len == b@.len(),
            value == le_nat(b@.subrange(at + i, at + n)),
            value < pow2((8 * (n - i)) as nat),
        decreases i,
    {
        let ghost prev = b@.subrange(at + i, at + n);
        proof {
            if 8 * (n - i) < 56 {
                lemma_pow2_strictly_increases((8 * (n - i)) as nat, 56);
            }
            lemma2_to64();
            lemma2_to64_rest();
        }
        i = i - 1;
        value = value * 256 + b[at + i] as u64;
        proof {
            let cur = b@.subrange(at + i, at + n);
            assert(cur.drop_first() =~= prev);
            lemma_pow2_adds(8, (8 * (n - i - 1)) as nat);
            assert(8 + 8 * (n - i - 1) == 8 * (n - i));
        }
    }
    value
}

/// Reads a little-endian `u16` starting at `at`.
pub fn read_u16_le(b: &[u8], at: usize) -> (r: u16)
    requires
        at + 2 <= b@.len(),
    ensures
        r == le_at(b@, at as int, 2),
{
    proof {
        lemma2_to64();
    }
    read_le(b, at, 2) as u16
}

/// Reads a little-endian `u32` starting at `at`.
pub fn read_u32_le(b: &[u8], at: usize) -> (r: u32)
    requires
        at + 4 <= b@.len(),
    ensures
        r == le_at(b@, at as int, 4),
{
    proof {
        lemma2_to64();
    }
    read_le(b, at, 4) as u32
}

/// Reads a little-endian `u64` starting at `at`.
pub fn read_u64_le(b: &[u8], at: usize) -> (r: u64)
    requires
        at + 8 <= b@.len(),
    ensures
        r == le_at(b@, at as int, 8),
{
    read_le(b, at, 8)
}

/// The little-endian bytes of a `u64` stand for the `u64`.
pub proof fn lemma_le_u64(v: u64)
    ensures
        le_nat(u64_le(v)) == v,
{
    let s = u64_le(v);
    let b0 = ((v >> 0u64) & 0xff) as u8;
    let b1 = ((v >> 8u64) & 0xff) as u8;
    let b2 = ((v >> 16u64) & 0xff) as u8;
    let b3 = ((v >> 24u64) & 0xff) as u8;
    let b4 = ((v >> 32u64) & 0xff) as u8;
    let b5 = ((v >> 40u64) & 0xff) as u8;
    let b6 = ((v >> 48u64) & 0xff) as u8;
    let b7 = ((v >> 56u64) & 0xff) as u8;
    assert(s[0] == b0);
    assert(s[1] == b1);
    assert(s[2] == b2);
    assert(s[3] == b3);
    assert(s[4] == b4);
    assert(s[5] == b5);
    assert(s[6] == b6);
    assert(s[7] == b7);
    assert(v == b0 + 256 * (b1 + 256 * (b2 + 256 * (b3 + 256 * (b4 + 256 * (b5 + 256 * (b6 + 256 * (b7 as int))))))))
        by (bit_vector)
        requires
            b0 == ((v >> 0u64) & 0xff) as u8,
            b1 == ((v >> 8u64) & 0xff) as u8,
            b2 == ((v >> 16u64) & 0xff) as u8,
            b3 == ((v >> 24u64) & 0xff) as u8,
            b4 == ((v >> 32u64) & 0xff) as u8,
            b5 == ((v >> 40u64) & 0xff) as u8,
            b6 == ((v >> 48u64) & 0xff) as u8,
            b7 == ((v >> 56u64) & 0xff) as u8,
    ;
    reveal_with_fuel(le_nat, 9);
    assert(s.drop_first().drop_first().drop_first().drop_first().drop_first().drop_first().drop_first().drop_first().len() == 0);
}

/// The little-endian bytes of a `u32` stand for the `u32`.
pub proof fn lemma_le_u32(v: u32)
    ensures
        le_nat(u32_le(v)) == v,
{
    let s = u32_le(v);
    let b0 = ((v >> 0u32) & 0xff) as u8;
    let b1 = ((v >> 8u32) & 0xff) as u8;
    let b2 = ((v >> 16u32) & 0xff) as u8;
    let b3 = ((v >> 24u32) & 0xff) as u8;
    assert(s[0] == b0);
    assert(s[1] == b1);
    assert(s[2] == b2);
    assert(s[3] == b3);
    assert(v == b0 + 256 * (b1 + 256 * (b2 + 256 * (b3 as int)))) by (bit_vector)
        requires
            b0 == ((v >> 0u32) & 0xff) as u8,
            b1 == ((v >> 8u32) & 0xff) as u8,
            b2 == ((v >> 16u32) & 0xff) as u8,
            b3 == ((v >> 24u32) & 0xff) as u8,
    ;
    reveal_with_fuel(le_nat, 5);
}

} // verus!
