//! What a random UUID keeps of the randomness.

use vstd::prelude::*;

use crate::uuid::{seed, v4, xorshift};

verus! {

/// Of 128 random bits 122 stay as they are: byte 7 keeps its low nibble, byte
/// 8 its six low bits, every other byte all of it.
pub proof fn lemma_v4_keeps_the_randomness(bytes: Seq<u8>)
    requires
        bytes.len() == 16,
    ensures
        v4(bytes).len() == 16,
        v4(bytes)[7] & 0x0F == bytes[7] & 0x0F,
        v4(bytes)[7] & 0xF0 == 0x40,
        v4(bytes)[8] & 0x3F == bytes[8] & 0x3F,
        v4(bytes)[8] & 0xC0 == 0x80,
        forall|i: int| 0 <= i < 16 && i != 7 && i != 8 ==> #[trigger] v4(bytes)[i] == bytes[i],
{
    let a = bytes[7];
    let b = bytes[8];
    assert(((a & 0x0F) | 0x40) & 0x0F == a & 0x0F && ((a & 0x0F) | 0x40) & 0xF0 == 0x40)
        by (bit_vector);
    assert(((b & 0x3F) | 0x80) & 0x3F == b & 0x3F && ((b & 0x3F) | 0x80) & 0xC0 == 0x80)
        by (bit_vector);
}

/// The generator never starts from zero, never reaches it, and never takes
/// two states to one.
pub proof fn lemma_generator_does_not_stall(nanos: u64, pid: u64, a: u64, b: u64)
    ensures
        seed(nanos, pid) != 0,
        a != 0 ==> xorshift(a) != 0,
        xorshift(a) == xorshift(b) ==> a == b,
{
    assert(a != 0u64 ==> ({
        let x = a ^ (a << 13);
        let y = x ^ (x >> 7);
        y ^ (y << 17)
    }) != 0u64) by (bit_vector);
    let a1: u64 = a ^ (a << 13);
    let b1: u64 = b ^ (b << 13);
    let a2: u64 = a1 ^ (a1 >> 7);
    let b2: u64 = b1 ^ (b1 >> 7);
    assert(a2 ^ (a2 << 17) == b2 ^ (b2 << 17) ==> a2 == b2) by (bit_vector);
    assert(a1 ^ (a1 >> 7) == b1 ^ (b1 >> 7) ==> a1 == b1) by (bit_vector);
    assert(a ^ (a << 13) == b ^ (b << 13) ==> a == b) by (bit_vector);
}

} // verus!
