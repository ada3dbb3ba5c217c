//! The rules a GPT entry has to satisfy, named so that a caller can be
//! told which one an entry breaks.

use vstd::prelude::*;

pub mod laws;

verus! {

/// The entry breaks none of the rules.
pub const NONE: u32 = 0;

/// Starts before the header's `first_usable_lba`: inside the protective
/// MBR, the header itself, or the entry array.
pub const BEFORE_FIRST_USABLE: u32 = 0x1;

/// Ends past the header's `last_usable_lba`: inside the backup entry array
/// or the backup header.
pub const PAST_LAST_USABLE: u32 = 0x2;

/// Shares at least one sector with another entry in the same table.
pub const OVERLAPS_ANOTHER: u32 = 0x4;

/// Every bit this crate defines.
pub const ALL: u32 = 0x7;

/// The rules `issues` breaks, each in words.
pub open spec fn reasons(issues: u32) -> Seq<Seq<char>> {
    (if issues & BEFORE_FIRST_USABLE != 0 {
        seq!["starts before the first usable LBA"@]
    } else {
        seq![]
    }) + (if issues & PAST_LAST_USABLE != 0 {
        seq!["ends past the last usable LBA"@]
    } else {
        seq![]
    }) + (if issues & OVERLAPS_ANOTHER != 0 {
        seq!["overlaps another partition"@]
    } else {
        seq![]
    })
}

/// `parts` with `separator` between each two.
pub open spec fn joined(parts: Seq<Seq<char>>, separator: Seq<char>) -> Seq<char>
    decreases parts.len(),
{
    if parts.len() == 0 {
        Seq::empty()
    } else if parts.len() == 1 {
        parts[0]
    } else {
        joined(parts.drop_last(), separator) + separator + parts.last()
    }
}

/// Puts `reason` behind what `text` already says.
fn add_reason(text: &mut String, said: bool, reason: &str, parts: Ghost<Seq<Seq<char>>>)
    requires
        old(text)@ == joined(parts@, ", "@),
        said == (parts@.len() > 0),
    ensures
        final(text)@ == joined(parts@.push(reason@), ", "@),
{
    assert(parts@.push(reason@).drop_last() =~= parts@);
    if said {
        text.append(", ");
        text.append(reason);
    } else {
        text.append(reason);
        assert(text@ =~= reason@);
    }
}

/// The rules `issues` breaks, in words, for an error message a person
/// reads.
pub fn describe(issues: u32) -> (text: String)
    ensures
        text@ == (if reasons(issues).len() == 0 {
            "no issues"@
        } else {
            joined(reasons(issues), ", "@)
        }),
{
    let mut text: String = String::new();
    let mut said: bool = false;
    let ghost mut parts: Seq<Seq<char>> = Seq::empty();
    if issues & BEFORE_FIRST_USABLE != 0 {
        add_reason(&mut text, said, "starts before the first usable LBA", Ghost(parts));
        proof {
            parts = parts.push("starts before the first usable LBA"@);
        }
        said = true;
    }
    if issues & PAST_LAST_USABLE != 0 {
        add_reason(&mut text, said, "ends past the last usable LBA", Ghost(parts));
        proof {
            parts = parts.push("ends past the last usable LBA"@);
        }
        said = true;
    }
    if issues & OVERLAPS_ANOTHER != 0 {
        add_reason(&mut text, said, "overlaps another partition", Ghost(parts));
        proof {
            parts = parts.push("overlaps another partition"@);
        }
        said = true;
    }
    assert(parts =~= reasons(issues));
    if !said {
        return String::from_str("no issues");
    }
    text
}

} // verus!
