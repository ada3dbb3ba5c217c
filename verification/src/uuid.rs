//! Random (version 4) UUIDs.
//!
//! Where the randomness comes from is the caller's business; this stamps it,
//! and spins a fallback from a clock and a process number for a system that
//! offers none.

use vstd::prelude::*;

use crate::codec::{le64, put_u64};

pub mod laws;

verus! {

/// The bytes with the version and variant of a random UUID stamped in.
pub open spec fn v4(bytes: Seq<u8>) -> Seq<u8> {
    bytes.update(7, (bytes[7] & 0x0F) | 0x40).update(8, (bytes[8] & 0x3F) | 0x80)
}

/// A UUID of 16 random bytes: version 4 in the high nibble of byte 7,
/// variant 10 in the two high bits of byte 8, the rest as given.
pub fn random_uuid(random: [u8; 16]) -> (uuid: [u8; 16])
    ensures
        uuid@ == v4(random@),
{
    let mut bytes: [u8; 16] = random;
    bytes[7] = (bytes[7] & 0x0F) | 0x40;
    bytes[8] = (bytes[8] & 0x3F) | 0x80;
    bytes
}

/// Whatever the randomness, the UUID is a version-4 one of variant 10.
pub proof fn lemma_v4_bits(bytes: Seq<u8>)
    requires
        bytes.len() == 16,
    ensures
        v4(bytes).len() == 16,
        v4(bytes)[7] & 0xF0 == 0x40,
        v4(bytes)[8] & 0xC0 == 0x80,
        forall|i: int| 0 <= i < 16 && i != 7 && i != 8 ==> v4(bytes)[i] == bytes[i],
{
    let a = bytes[7];
    let b = bytes[8];
    assert(((a & 0x0F) | 0x40) & 0xF0 == 0x40) by (bit_vector);
    assert(((b & 0x3F) | 0x80) & 0xC0 == 0x80) by (bit_vector);
}

/// What seeds the generator, and scrambles a clock into a seed.
pub const GOLDEN: u64 = 0x9E37_79B9_7F4A_7C15;

/// The state the generator starts from. It is never zero, which the
/// generator could not leave.
pub open spec fn seed(nanos: u64, pid: u64) -> u64 {
    let state = nanos.wrapping_mul(GOLDEN).wrapping_add(pid);
    if state == 0 {
        GOLDEN
    } else {
        state
    }
}

/// One step of a xorshift64 generator.
pub open spec fn xorshift(state: u64) -> u64 {
    let a = state ^ (state << 13);
    let b = a ^ (a >> 7);
    b ^ (b << 17)
}

fn step(state: u64) -> (r: u64)
    ensures
        r == xorshift(state),
{
    let a: u64 = state ^ (state << 13);
    let b: u64 = a ^ (a >> 7);
    b ^ (b << 17)
}

/// 16 bytes from a xorshift64 generator seeded by a clock and a process
/// number: its first two states, little-endian. Not unguessable, which a
/// UUID in a partition table need not be.
pub fn fill_from_prng(nanos: u64, pid: u64) -> (r: [u8; 16])
    ensures
        le64(r@, 0) == xorshift(seed(nanos, pid)),
        le64(r@, 8) == xorshift(xorshift(seed(nanos, pid))),
{
    let mixed: u64 = nanos.wrapping_mul(GOLDEN).wrapping_add(pid);
    let start: u64 = if mixed == 0 { GOLDEN } else { mixed };
    let first: u64 = step(start);
    let second: u64 = step(first);
    let mut out: [u8; 16] = [0u8; 16];
    put_u64(&mut out, 0, first);
    put_u64(&mut out, 8, second);
    out
}

} // verus!
