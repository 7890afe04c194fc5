use crc::{Crc, CRC_32_ISCSI};
use vstd::prelude::*;

verus! {

/// The CRC register after `k` steps of the bit-reflected division by the polynomial
/// `0x1edc6f41`, whose reflection is `0x82f63b78`: each step shifts the register right by one
/// bit and XORs in the reflected polynomial where the bit shifted out was set.
pub open spec fn crc_shift(c: u32, k: nat) -> u32
    decreases k,
{
    if k == 0 {
        c
    } else {
        let s = crc_shift(c, (k - 1) as nat);
        if s & 1 == 1 {
            (s >> 1u32) ^ 0x82f6_3b78u32
        } else {
            s >> 1u32
        }
    }
}

/// The CRC register after the bytes: it starts at `0xffffffff`, and each byte is XORed into
/// its low bits before eight division steps.
pub open spec fn crc_register(data: Seq<u8>) -> u32
    decreases data.len(),
{
    if data.len() == 0 {
        0xffff_ffffu32
    } else {
        crc_shift(crc_register(data.drop_last()) ^ (data.last() as u32), 8)
    }
}

/// The CRC-32C (iSCSI, Castagnoli) checksum of a byte sequence, with the parameters of the
/// `CRC_32_ISCSI` algorithm of the `crc` crate: width 32, polynomial `0x1edc6f41`, initial
/// value `0xffffffff`, input and output reflected, final XOR `0xffffffff`.
pub open spec fn crc32_iscsi(data: Seq<u8>) -> u32 {
    crc_register(data) ^ 0xffff_ffffu32
}

/// Computes the CRC-32C checksum of `data` by calling `crc::Crc::<u32>::checksum` with the
/// `CRC_32_ISCSI` algorithm of the `crc` crate. The contract claims that the result is the
/// CRC-32C checksum with the algorithm's parameters, which `crc32_iscsi` states; the crate
/// computes it with a lookup table, which is not proved equal here.
#[verifier::external_body]
pub(crate) fn checksum(data: &[u8]) -> (r: u32)
    ensures
        r == crc32_iscsi(data@),
{
    Crc::<u32>::new(&CRC_32_ISCSI).checksum(data)
}

/// The four big-endian bytes of a `u32`, the order in which E57 pages store their checksum.
pub open spec fn u32_be(v: u32) -> Seq<u8> {
    seq![(v >> 24u32) as u8, ((v >> 16u32) & 0xff) as u8, ((v >> 8u32) & 0xff) as u8, (v & 0xff) as u8]
}

/// The four big-endian bytes of a `u32`.
pub fn u32_to_be_bytes(v: u32) -> (r: Vec<u8>)
    ensures
        r@ == u32_be(v),
{
    let mut r: Vec<u8> = Vec::new();
    r.push((v >> 24u32) as u8);
    r.push(((v >> 16u32) & 0xff) as u8);
    r.push(((v >> 8u32) & 0xff) as u8);
    r.push((v & 0xff) as u8);
    assert(r@ =~= u32_be(v));
    r
}

} // verus!
