//! How the rules an entry breaks are worded.

use vstd::prelude::*;

use crate::gpt::entry_issue::{joined, reasons};

verus! {

/// Each of the three bits has its own words, said exactly where it is set, in
/// the order of the bits.
pub proof fn lemma_reasons(issues: u32)
    ensures
        issues & 1 != 0 <==> reasons(issues).contains("starts before the first usable LBA"@)
            && reasons(issues)[0] == "starts before the first usable LBA"@,
        reasons(issues).len() == (if issues & 1 != 0 {
            1int
        } else {
            0
        }) + (if issues & 2 != 0 {
            1int
        } else {
            0
        }) + (if issues & 4 != 0 {
            1int
        } else {
            0
        }),
        issues & 2 != 0 ==> reasons(issues)[if issues & 1 != 0 {
            1int
        } else {
            0
        }] == "ends past the last usable LBA"@,
        issues & 4 != 0 ==> reasons(issues).last() == "overlaps another partition"@,
{
    let r = reasons(issues);
    reveal_strlit("starts before the first usable LBA");
    reveal_strlit("ends past the last usable LBA");
    reveal_strlit("overlaps another partition");
    let a = "starts before the first usable LBA"@;
    let b = "ends past the last usable LBA"@;
    let c = "overlaps another partition"@;
    assert(a.len() == 34 && b.len() == 29 && c.len() == 26);
    if issues & 1 != 0 {
        assert(r[0] == a);
    }
}

/// Reasons are put one behind the other with the separator between each two.
pub proof fn lemma_joined(parts: Seq<Seq<char>>, separator: Seq<char>, next: Seq<char>)
    ensures
        joined(Seq::empty(), separator) == Seq::<char>::empty(),
        joined(seq![next], separator) == next,
        parts.len() > 0 ==> joined(parts.push(next), separator) == joined(parts, separator)
            + separator + next,
{
    assert(parts.push(next).drop_last() =~= parts);
}

} // verus!
