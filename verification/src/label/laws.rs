//! What a name field holds.

use vstd::prelude::*;

use crate::codec::le16;
use crate::label::{
    field_units, fitting, label_field, label_in, label_units, surrogate, utf16_lossy, utf16_units,
};

verus! {

/// A character is one unit, its own number, or outside the basic multilingual
/// plane a high and a low surrogate that together are its number.
pub proof fn lemma_units_of_a_character(c: char)
    ensures
        c as int <= 0xFFFF ==> utf16_units(c).len() == 1 && utf16_units(c)[0] == c as int,
        c as int > 0xFFFF ==> {
            &&& utf16_units(c).len() == 2
            &&& 0xD800 <= utf16_units(c)[0] < 0xDC00
            &&& 0xDC00 <= utf16_units(c)[1] < 0xE000
            &&& (utf16_units(c)[0] - 0xD800) * 0x400 + (utf16_units(c)[1] - 0xDC00) + 0x1_0000
                == c as int
        },
{
    assert(0 <= (c as int) <= 0x10_FFFF);
}

/// How many units the characters take.
pub open spec fn units_taken(chars: Seq<char>) -> int
    decreases chars.len(),
{
    if chars.len() == 0 {
        0
    } else {
        utf16_units(chars[0]).len() + units_taken(chars.drop_first())
    }
}

/// What fits is a beginning of the label that takes no more units than there
/// are, and with one character more it would.
pub proof fn lemma_what_fits(chars: Seq<char>, room: int)
    requires
        room >= 0,
    ensures
        ({
            let kept = fitting(chars, room);
            &&& kept.len() <= chars.len()
            &&& kept == chars.take(kept.len() as int)
            &&& units_taken(kept) <= room
            &&& kept.len() < chars.len() ==> units_taken(kept) + utf16_units(
                chars[kept.len() as int],
            ).len() > room
            &&& label_units(chars, room).len() == units_taken(kept)
        }),
    decreases chars.len(),
{
    if chars.len() == 0 || utf16_units(chars[0]).len() > room {
        assert(chars.take(0) =~= Seq::<char>::empty());
    } else {
        let rest = chars.drop_first();
        let left = room - utf16_units(chars[0]).len();
        lemma_what_fits(rest, left);
        let kept = fitting(chars, room);
        let behind = fitting(rest, left);
        assert(kept == seq![chars[0]] + behind);
        assert(kept.drop_first() =~= behind);
        assert(kept =~= chars.take(kept.len() as int)) by {
            assert forall|i: int| 0 <= i < kept.len() implies kept[i] == chars[i] by {
                if i > 0 {
                    assert(kept[i] == behind[i - 1]);
                    assert(behind[i - 1] == rest.take(behind.len() as int)[i - 1]);
                }
            }
        }
        if kept.len() < chars.len() {
            assert(rest[behind.len() as int] == chars[kept.len() as int]);
        }
    }
}

proof fn lemma_plain_units(chars: Seq<char>, room: int, i: int)
    requires
        chars.len() <= room,
        forall|k: int| 0 <= k < chars.len() ==> (#[trigger] chars[k]) as int <= 0xFFFF,
        0 <= i < chars.len(),
    ensures
        label_units(chars, room).len() == chars.len(),
        label_units(chars, room)[i] == chars[i] as int,
    decreases chars.len(),
{
    let rest = chars.drop_first();
    assert(utf16_units(chars[0]).len() == 1);
    assert forall|k: int| 0 <= k < rest.len() implies (#[trigger] rest[k]) as int <= 0xFFFF by {
        assert(rest[k] == chars[k + 1]);
    }
    let behind = label_units(rest, room - 1);
    assert(label_units(chars, room) == utf16_units(chars[0]) + behind);
    if rest.len() > 0 {
        lemma_plain_units(rest, room - 1, if i > 0 {
            i - 1
        } else {
            0
        });
    } else {
        assert(behind.len() == 0);
    }
    if i > 0 {
        assert(label_units(chars, room)[i] == behind[i - 1]);
        assert(rest[i - 1] == chars[i]);
    } else {
        lemma_units_of_a_character(chars[0]);
        assert(label_units(chars, room)[0] == utf16_units(chars[0])[0]);
    }
}

/// A label of up to 36 characters of the basic multilingual plane is written
/// one character after the other, each in two bytes with the low one first,
/// and the rest of the field is blank.
pub proof fn lemma_name_bytes(chars: Seq<char>, i: int)
    requires
        chars.len() <= 36,
        forall|k: int| 0 <= k < chars.len() ==> (#[trigger] chars[k]) as int <= 0xFFFF,
        0 <= i < 36,
    ensures
        label_field(chars).len() == 72,
        label_field(chars)[2 * i] == (if i < chars.len() {
            chars[i] as int % 0x100
        } else {
            0
        }),
        label_field(chars)[2 * i + 1] == (if i < chars.len() {
            chars[i] as int / 0x100
        } else {
            0
        }),
{
    assert((2 * i) / 2 == i && (2 * i + 1) / 2 == i);
    assert((2 * i) % 2 == 0 && (2 * i + 1) % 2 == 1);
    if i < chars.len() {
        lemma_plain_units(chars, 36, i);
    } else if chars.len() > 0 {
        lemma_plain_units(chars, 36, 0);
    }
}

proof fn lemma_units_read(field: Seq<u8>, i: int, n: int)
    requires
        0 <= i,
        0 <= n,
        i + 2 * n <= field.len(),
        forall|k: int| 0 <= k < n ==> le16(field, #[trigger] unit_at(i, k)) != 0,
        i + 2 * n + 2 > field.len() || le16(field, i + 2 * n) == 0,
    ensures
        field_units(field, i).len() == n,
        forall|k: int| 0 <= k < n ==> #[trigger] field_units(field, i)[k] == le16(field, i + 2 * k),
    decreases n,
{
    if n > 0 {
        assert(unit_at(i, 0) == i);
        assert forall|k: int| 0 <= k < n - 1 implies le16(field, #[trigger] unit_at(i + 2, k))
            != 0 by {
            assert(unit_at(i, k + 1) == unit_at(i + 2, k));
        }
        lemma_units_read(field, i + 2, n - 1);
        let units = field_units(field, i);
        assert(units == seq![le16(field, i) as u16] + field_units(field, i + 2));
        assert forall|k: int| 0 <= k < n implies #[trigger] units[k] == le16(field, i + 2 * k) by {
            if k > 0 {
                assert(units[k] == field_units(field, i + 2)[k - 1]);
            }
        }
    }
}

/// Where the `k`th unit behind byte `i` stands.
pub open spec fn unit_at(i: int, k: int) -> int {
    i + 2 * k
}

proof fn lemma_plain_text(units: Seq<u16>)
    requires
        forall|k: int| 0 <= k < units.len() ==> !surrogate(#[trigger] units[k]),
    ensures
        utf16_lossy(units).len() == units.len(),
        forall|k: int|
            0 <= k < units.len() ==> (#[trigger] utf16_lossy(units)[k]) as int == units[k] as int,
    decreases units.len(),
{
    if units.len() > 0 {
        let rest = units.drop_first();
        assert forall|k: int| 0 <= k < rest.len() implies !surrogate(#[trigger] rest[k]) by {
            assert(rest[k] == units[k + 1]);
        }
        lemma_plain_text(rest);
        let text = utf16_lossy(units);
        assert(text == seq![units[0] as char] + utf16_lossy(rest));
        assert(!surrogate(units[0]));
        assert forall|k: int| 0 <= k < units.len() implies (#[trigger] text[k]) as int
            == units[k] as int by {
            if k > 0 {
                assert(text[k] == utf16_lossy(rest)[k - 1]);
                assert(rest[k - 1] == units[k]);
            }
        }
    }
}

/// A name field is read up to its first zero unit, two bytes a unit with the
/// low one first; of units that are no surrogates each is the character of
/// that number. A field that opens with zero holds no label.
pub proof fn lemma_label_is_read(field: Seq<u8>, n: int)
    requires
        0 <= n,
        2 * n <= field.len(),
        forall|k: int| 0 <= k < n ==> le16(field, #[trigger] unit_at(0, k)) != 0,
        2 * n + 2 > field.len() || le16(field, 2 * n) == 0,
        forall|k: int|
            0 <= k < n ==> le16(field, #[trigger] unit_at(0, k)) < 0xD800 || le16(
                field,
                unit_at(0, k),
            ) >= 0xE000,
    ensures
        n == 0 <==> label_in(field) is None,
        label_in(field) matches Some(text) ==> text.len() == n && forall|k: int|
            0 <= k < n ==> (#[trigger] text[k]) as int == le16(field, 2 * k),
{
    lemma_units_read(field, 0, n);
    let units = field_units(field, 0);
    assert forall|k: int| 0 <= k < units.len() implies !surrogate(#[trigger] units[k]) by {
        assert(le16(field, unit_at(0, k)) < 0xD800 || le16(field, unit_at(0, k)) >= 0xE000);
    }
    lemma_plain_text(units);
}

} // verus!
