//! The checksum both halves of a GPT carry.

use vstd::prelude::*;

verus! {

/// `n` bits of a register shifted out at its low end. Where a one leaves,
/// the register takes the IEEE polynomial, lowest bit first.
pub open spec fn shifted_out(register: u32, n: nat) -> u32
    decreases n,
{
    if n == 0 {
        register
    } else {
        let before = shifted_out(register, (n - 1) as nat);
        if before & 1 == 1 {
            (before >> 1) ^ 0xEDB8_8320
        } else {
            before >> 1
        }
    }
}

/// The register once the bytes have gone through it, from one full of ones.
pub open spec fn crc_register(bytes: Seq<u8>) -> u32
    decreases bytes.len(),
{
    if bytes.len() == 0 {
        0xFFFF_FFFF
    } else {
        shifted_out(crc_register(bytes.drop_last()) ^ (bytes.last() as u32), 8)
    }
}

/// The CRC-32 (IEEE) of a byte string.
#[verifier::opaque]
pub open spec fn crc32(bytes: Seq<u8>) -> u32 {
    !crc_register(bytes)
}

/// Calls `crc32fast::hash`, which computes the CRC-32 (IEEE) of the bytes:
/// each goes through a register bit by bit, and what it then holds is
/// inverted.
#[verifier::external_body]
pub(crate) fn crc32_of(bytes: &[u8]) -> (r: u32)
    ensures
        r == crc32(bytes@),
{
    crc32fast::hash(bytes)
}

} // verus!
