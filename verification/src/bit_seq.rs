use vstd::arithmetic::power2::*;
use vstd::prelude::*;

verus! {

/// Little-endian value of a byte sequence: the first byte is the least significant one.
pub open spec fn le_nat(s: Seq<u8>) -> nat
    decreases s.len(),
{
    if s.len() == 0 {
        0
    } else {
        s[0] as nat + 256 * le_nat(s.drop_first())
    }
}

/// Bit `i` of a byte sequence, counting from the least significant bit of the first byte.
pub open spec fn bit_at(s: Seq<u8>, i: int) -> bool {
    (s[i / 8] >> ((i % 8) as u8)) & 1u8 == 1u8
}

/// The bits `start .. start + n` of a byte sequence.
pub open spec fn bits_of(s: Seq<u8>, start: int, n: nat) -> Seq<bool> {
    Seq::new(n, |k: int| bit_at(s, start + k))
}

/// The little-endian value of `n` bytes is below `2^(8n)`.
pub proof fn lemma_le_nat_bound(s: Seq<u8>)
    ensures
        le_nat(s) < pow2(8 * s.len()),
    decreases s.len(),
{
    if s.len() == 0 {
        lemma2_to64();
    } else {
        lemma_le_nat_bound(s.drop_first());
        lemma_pow2_adds(8, (8 * (s.len() - 1)) as nat);
        lemma2_to64();
        assert(8 + 8 * (s.len() - 1) == 8 * s.len());
    }
}

/// Appends all bytes of `src` to `dst`.
pub fn push_all(dst: &mut Vec<u8>, src: &[u8])
    ensures
        final(dst)@ == old(dst)@ + src@,
{
    let mut i: usize = 0;
    while i < src.len()
        invariant
            i <= src.len(),
            dst@ == old(dst)@ + src@.subrange(0, i as int),
        decreases src.len() - i,
    {
        dst.push(src[i]);
        i = i + 1;
        assert(dst@ == old(dst)@ + src@.subrange(0, i as int));
    }
    assert(src@.subrange(0, src.len() as int) == src@);
}

/// Appends the bytes `src[from..]` to `dst`.
pub fn push_from(dst: &mut Vec<u8>, src: &Vec<u8>, from: usize)
    requires
        from <= src.len(),
    ensures
        final(dst)@ == old(dst)@ + src@.skip(from as int),
{
    let mut i: usize = from;
    while i < src.len()
        invariant
            from <= i <= src.len(),
            dst@ == old(dst)@ + src@.subrange(from as int, i as int),
        decreases src.len() - i,
    {
        dst.push(src[i]);
        i = i + 1;
        assert(dst@ == old(dst)@ + src@.subrange(from as int, i as int));
    }
    assert(src@.subrange(from as int, src.len() as int) == src@.skip(from as int));
}

} // verus!
