//! Little-endian fields in byte strings, and overwriting part of one.

use vstd::prelude::*;

pub mod laws;

verus! {

/// The 16-bit little-endian number at `i`.
pub open spec fn le16(s: Seq<u8>, i: int) -> int {
    s[i] + 0x100 * s[i + 1]
}

/// The 32-bit little-endian number at `i`.
pub open spec fn le32(s: Seq<u8>, i: int) -> int {
    le16(s, i) + 0x1_0000 * le16(s, i + 2)
}

/// The 64-bit little-endian number at `i`.
pub open spec fn le64(s: Seq<u8>, i: int) -> int {
    le32(s, i) + 0x1_0000_0000 * le32(s, i + 4)
}

/// `s` with the bytes from `at` on overwritten by `data`.
pub open spec fn splice(s: Seq<u8>, at: int, data: Seq<u8>) -> Seq<u8> {
    Seq::new(
        s.len(),
        |i: int|
            if at <= i < at + data.len() {
                data[i - at]
            } else {
                s[i]
            },
    )
}

/// The `len` bytes of `s` at `at`.
pub open spec fn window(s: Seq<u8>, at: int, len: nat) -> Seq<u8> {
    Seq::new(len, |i: int| s[at + i])
}

/// `n` zero bytes.
pub open spec fn zeros(n: nat) -> Seq<u8> {
    Seq::new(n, |i: int| 0u8)
}

/// `a` and `b` agree outside the `len` bytes at `at`.
pub open spec fn same_outside(a: Seq<u8>, b: Seq<u8>, at: int, len: int) -> bool {
    &&& a.len() == b.len()
    &&& forall|i: int| 0 <= i < a.len() && !(at <= i < at + len) ==> a[i] == b[i]
}

/// Reads the 16-bit little-endian number at `i`.
pub fn get_u16(b: &[u8], i: usize) -> (r: u16)
    requires
        i + 2 <= b.len(),
    ensures
        r == le16(b@, i as int),
{
    b[i] as u16 + 0x100 * (b[i + 1] as u16)
}

/// Reads the 32-bit little-endian number at `i`.
pub fn get_u32(b: &[u8], i: usize) -> (r: u32)
    requires
        i + 4 <= b.len(),
    ensures
        r == le32(b@, i as int),
{
    get_u16(b, i) as u32 + 0x1_0000 * (get_u16(b, i + 2) as u32)
}

/// Reads the 64-bit little-endian number at `i`.
pub fn get_u64(b: &[u8], i: usize) -> (r: u64)
    requires
        i + 8 <= b.len(),
    ensures
        r == le64(b@, i as int),
{
    get_u32(b, i) as u64 + 0x1_0000_0000 * (get_u32(b, i + 4) as u64)
}

/// Reads the 16 bytes at `i`.
pub fn get_guid(b: &[u8], i: usize) -> (r: [u8; 16])
    requires
        i + 16 <= b.len(),
    ensures
        r@ == b@.subrange(i as int, i + 16),
{
    let mut out: [u8; 16] = [0u8; 16];
    let mut k: usize = 0;
    while k < 16
        invariant
            k <= 16,
            i + 16 <= b.len(),
            forall|j: int| 0 <= j < k ==> out@[j] == b@[i + j],
        decreases 16 - k,
    {
        out[k] = b[i + k];
        k = k + 1;
    }
    assert(out@ =~= b@.subrange(i as int, i + 16));
    out
}

/// Writes `x` at `i`, little-endian.
pub fn put_u16(b: &mut [u8], i: usize, x: u16)
    requires
        i + 2 <= old(b).len(),
    ensures
        le16(final(b)@, i as int) == x,
        same_outside(final(b)@, old(b)@, i as int, 2),
{
    b[i] = (x % 0x100) as u8;
    b[i + 1] = (x / 0x100) as u8;
}

/// Writes `x` at `i`, little-endian.
pub fn put_u32(b: &mut [u8], i: usize, x: u32)
    requires
        i + 4 <= old(b).len(),
    ensures
        le32(final(b)@, i as int) == x,
        same_outside(final(b)@, old(b)@, i as int, 4),
{
    put_u16(b, i, (x % 0x1_0000) as u16);
    put_u16(b, i + 2, (x / 0x1_0000) as u16);
}

/// Writes `x` at `i`, little-endian.
pub fn put_u64(b: &mut [u8], i: usize, x: u64)
    requires
        i + 8 <= old(b).len(),
    ensures
        le64(final(b)@, i as int) == x,
        same_outside(final(b)@, old(b)@, i as int, 8),
{
    put_u32(b, i, (x % 0x1_0000_0000) as u32);
    put_u32(b, i + 4, (x / 0x1_0000_0000) as u32);
}

/// Overwrites the bytes from `at` on with `data`.
pub fn put_bytes(b: &mut [u8], at: usize, data: &[u8])
    requires
        at + data.len() <= old(b).len(),
    ensures
        final(b)@ == splice(old(b)@, at as int, data@),
{
    let mut k: usize = 0;
    while k < data.len()
        invariant
            k <= data.len(),
            at + data.len() <= b.len(),
            b@ =~= splice(old(b)@, at as int, data@.take(k as int)),
        decreases data.len() - k,
    {
        b[at + k] = data[k];
        k = k + 1;
    }
    assert(data@.take(k as int) =~= data@);
}

/// Whether two byte strings are equal.
pub fn bytes_eq(a: &[u8], b: &[u8]) -> (r: bool)
    ensures
        r == (a@ == b@),
{
    if a.len() != b.len() {
        return false;
    }
    let mut k: usize = 0;
    while k < a.len()
        invariant
            k <= a.len(),
            a.len() == b.len(),
            forall|j: int| 0 <= j < k ==> a@[j] == b@[j],
        decreases a.len() - k,
    {
        if a[k] != b[k] {
            return false;
        }
        k = k + 1;
    }
    assert(a@ =~= b@);
    true
}

/// Whether the bytes of `b` at `at` are those of `tag`, and all there.
pub fn bytes_at(b: &[u8], at: usize, tag: &[u8]) -> (r: bool)
    ensures
        r == has_at(b@, at as int, tag@),
{
    if at > b.len() || tag.len() > b.len() - at {
        return false;
    }
    let mut k: usize = 0;
    while k < tag.len()
        invariant
            k <= tag.len(),
            at + tag.len() <= b.len(),
            forall|j: int| 0 <= j < k ==> b@[at + j] == tag@[j],
        decreases tag.len() - k,
    {
        if b[at + k] != tag[k] {
            assert(b@.subrange(at as int, at + tag.len())[k as int] != tag@[k as int]);
            return false;
        }
        k = k + 1;
    }
    assert(b@.subrange(at as int, at + tag.len()) =~= tag@);
    true
}

/// The bytes of `s` at `at` are those of `tag`, and all there.
pub open spec fn has_at(s: Seq<u8>, at: int, tag: Seq<u8>) -> bool {
    &&& at + tag.len() <= s.len()
    &&& s.subrange(at, at + tag.len()) == tag
}

/// A copy of part of a byte string.
pub fn copy_range(b: &[u8], from: usize, to: usize) -> (r: Vec<u8>)
    requires
        from <= to <= b.len(),
    ensures
        r@ == b@.subrange(from as int, to as int),
{
    let mut out: Vec<u8> = Vec::new();
    let mut k: usize = from;
    while k < to
        invariant
            from <= k <= to <= b.len(),
            out@ =~= b@.subrange(from as int, k as int),
        decreases to - k,
    {
        out.push(b[k]);
        k = k + 1;
    }
    out
}

} // verus!
