//! What the fields of a byte string are, byte by byte.

use vstd::prelude::*;

use crate::codec::{has_at, le16, le32, le64, same_outside, splice, window, zeros};

verus! {

/// The bytes of a little-endian number are its digits, the lowest first.
pub proof fn lemma_digits(s: Seq<u8>, i: int)
    ensures
        0 <= le16(s, i) < 0x1_0000,
        le16(s, i) % 0x100 == s[i],
        le16(s, i) / 0x100 == s[i + 1],
        0 <= le32(s, i) < 0x1_0000_0000,
        le32(s, i) % 0x100 == s[i],
        le32(s, i) / 0x100 % 0x100 == s[i + 1],
        le32(s, i) / 0x1_0000 % 0x100 == s[i + 2],
        le32(s, i) / 0x100_0000 == s[i + 3],
        0 <= le64(s, i) < 0x1_0000_0000_0000_0000,
        le64(s, i) % 0x1_0000_0000 == le32(s, i),
        le64(s, i) / 0x1_0000_0000 == le32(s, i + 4),
{
}

/// A tag stands at a place exactly where each of its bytes does.
pub proof fn lemma_tag_bytes(s: Seq<u8>, at: int, tag: Seq<u8>)
    requires
        0 <= at,
    ensures
        has_at(s, at, tag) <==> at + tag.len() <= s.len() && forall|k: int|
            0 <= k < tag.len() ==> s[at + k] == #[trigger] tag[k],
{
    if at + tag.len() <= s.len() {
        let here = s.subrange(at, at + tag.len());
        if forall|k: int| 0 <= k < tag.len() ==> s[at + k] == #[trigger] tag[k] {
            assert(here =~= tag);
        }
        if here == tag {
            assert forall|k: int| 0 <= k < tag.len() implies s[at + k] == #[trigger] tag[k] by {
                assert(here[k] == tag[k]);
            }
        }
    }
}

/// Overwriting part of a byte string changes that part and nothing else.
pub proof fn lemma_splice_bytes(s: Seq<u8>, at: int, data: Seq<u8>, i: int)
    requires
        0 <= i < s.len(),
    ensures
        splice(s, at, data).len() == s.len(),
        at <= i < at + data.len() ==> splice(s, at, data)[i] == data[i - at],
        !(at <= i < at + data.len()) ==> splice(s, at, data)[i] == s[i],
{
}

/// A window shows the bytes from its place on, as many as it is long.
pub proof fn lemma_window_bytes(s: Seq<u8>, at: int, len: nat)
    requires
        0 <= at,
        at + len <= s.len(),
    ensures
        window(s, at, len) == s.subrange(at, at + len),
{
    assert(window(s, at, len) =~= s.subrange(at, at + len));
}

/// A blank string is zeros and nothing else.
pub proof fn lemma_blank(n: nat, i: int)
    requires
        0 <= i < n,
    ensures
        zeros(n).len() == n,
        zeros(n)[i] == 0,
{
}

/// Two byte strings are the same outside a range exactly where they are as
/// long, and alike both ahead of it and behind it.
pub proof fn lemma_same_outside(a: Seq<u8>, b: Seq<u8>, at: int, len: int)
    requires
        0 <= at && 0 <= len && at + len <= a.len(),
    ensures
        same_outside(a, b, at, len) <==> a.len() == b.len() && a.take(at) == b.take(at) && a.skip(
            at + len,
        ) == b.skip(at + len),
{
    if a.len() == b.len() && a.take(at) == b.take(at) && a.skip(at + len) == b.skip(at + len) {
        assert forall|i: int| 0 <= i < a.len() && !(at <= i < at + len) implies a[i] == b[i] by {
            if i < at {
                assert(a[i] == a.take(at)[i]);
                assert(b[i] == b.take(at)[i]);
            } else {
                assert(a[i] == a.skip(at + len)[i - at - len]);
                assert(b[i] == b.skip(at + len)[i - at - len]);
            }
        }
    }
    if same_outside(a, b, at, len) {
        assert(a.take(at) =~= b.take(at));
        assert(a.skip(at + len) =~= b.skip(at + len));
    }
}

} // verus!
