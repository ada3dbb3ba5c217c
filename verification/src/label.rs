//! Partition names: UTF-16 in a field of 36 code units.

use vstd::prelude::*;

use crate::codec::{get_u16, le16};

pub mod laws;

verus! {

/// Code units the name field of a GPT entry holds.
pub const NAME_UNITS: usize = 36;

/// Bytes of the name field of a GPT entry.
pub const NAME_BYTES: usize = 72;

/// The UTF-16 code units of a character: one, or a surrogate pair outside
/// the basic multilingual plane.
pub open spec fn utf16_units(c: char) -> Seq<u16> {
    let x = c as int;
    if x < 0x1_0000 {
        seq![x as u16]
    } else {
        seq![
            (0xD800 + (x - 0x1_0000) / 0x400) as u16,
            (0xDC00 + (x - 0x1_0000) % 0x400) as u16,
        ]
    }
}

/// The code units of as many leading characters as fit `room` units. A
/// character is cut off whole.
pub open spec fn label_units(chars: Seq<char>, room: int) -> Seq<u16>
    decreases chars.len(),
{
    if chars.len() == 0 || utf16_units(chars[0]).len() > room {
        Seq::empty()
    } else {
        utf16_units(chars[0]) + label_units(
            chars.drop_first(),
            room - utf16_units(chars[0]).len(),
        )
    }
}

/// The leading characters that fit `room` units.
pub open spec fn fitting(chars: Seq<char>, room: int) -> Seq<char>
    decreases chars.len(),
{
    if chars.len() == 0 || utf16_units(chars[0]).len() > room {
        Seq::empty()
    } else {
        seq![chars[0]] + fitting(chars.drop_first(), room - utf16_units(chars[0]).len())
    }
}

/// The byte at `i` of a field that holds `units`, little-endian and padded
/// with zeros.
pub open spec fn unit_byte(units: Seq<u16>, i: int) -> u8 {
    let unit: int = if i / 2 < units.len() {
        units[i / 2] as int
    } else {
        0
    };
    if i % 2 == 0 {
        (unit % 0x100) as u8
    } else {
        (unit / 0x100) as u8
    }
}

/// The name field that holds a label.
pub open spec fn label_field(chars: Seq<char>) -> Seq<u8> {
    Seq::new(
        NAME_BYTES as nat,
        |i: int| unit_byte(label_units(chars, NAME_UNITS as int), i),
    )
}

/// The code units of a name field from byte `i` up to the first zero unit.
pub open spec fn field_units(field: Seq<u8>, i: int) -> Seq<u16>
    decreases field.len() - i,
{
    if i + 2 > field.len() || le16(field, i) == 0 {
        Seq::empty()
    } else {
        seq![le16(field, i) as u16] + field_units(field, i + 2)
    }
}

/// The unit is half of a surrogate pair.
pub open spec fn surrogate(unit: u16) -> bool {
    0xD800 <= unit < 0xE000
}

/// The units open with a surrogate pair.
pub open spec fn opens_with_pair(units: Seq<u16>) -> bool {
    &&& units.len() >= 2
    &&& 0xD800 <= units[0] < 0xDC00
    &&& 0xDC00 <= units[1] < 0xE000
}

/// The text that UTF-16 code units spell, U+FFFD for each unpaired
/// surrogate.
pub open spec fn utf16_lossy(units: Seq<u16>) -> Seq<char>
    decreases units.len(),
{
    if units.len() == 0 {
        Seq::empty()
    } else if !surrogate(units[0]) {
        seq![units[0] as char] + utf16_lossy(units.drop_first())
    } else if opens_with_pair(units) {
        seq![(0x1_0000 + (units[0] - 0xD800) * 0x400 + (units[1] - 0xDC00)) as char]
            + utf16_lossy(units.subrange(2, units.len() as int))
    } else {
        seq!['\u{FFFD}'] + utf16_lossy(units.drop_first())
    }
}

/// The label a name field holds, if any.
pub open spec fn label_in(field: Seq<u8>) -> Option<Seq<char>> {
    let units = field_units(field, 0);
    if units.len() == 0 {
        None
    } else {
        Some(utf16_lossy(units))
    }
}

/// Calls `String::from_utf16_lossy`, which decodes UTF-16 and puts U+FFFD
/// for what is not valid: one for each unpaired surrogate.
#[verifier::external_body]
fn decode_lossy(units: &[u16]) -> (text: String)
    ensures
        text@ == utf16_lossy(units@),
{
    String::from_utf16_lossy(units)
}

/// The label that the name field `field` holds, `None` for an empty one.
///
/// Decoding is lossy: a name that some other writer cut inside a surrogate
/// pair is still shown, with a replacement character in its place.
pub fn parse_utf16_label(field: &[u8]) -> (label: Option<String>)
    ensures
        match label {
            Some(text) => label_in(field@) == Some(text@),
            None => label_in(field@) is None,
        },
{
    let mut units: Vec<u16> = Vec::new();
    let mut i: usize = 0;
    while i < field.len() && field.len() - i >= 2 && get_u16(field, i) != 0
        invariant
            i <= field.len(),
            units@ + field_units(field@, i as int) == field_units(field@, 0),
        decreases field.len() - i,
    {
        let ghost rest = field_units(field@, i + 2);
        let unit: u16 = get_u16(field, i);
        proof {
            assert(field_units(field@, i as int) == seq![unit] + rest);
            assert(units@.push(unit) + rest =~= units@ + (seq![unit] + rest));
        }
        units.push(unit);
        i = i + 2;
    }
    assert(field_units(field@, i as int) =~= Seq::<u16>::empty());
    assert(units@ + Seq::<u16>::empty() =~= units@);
    if units.len() == 0 {
        return None;
    }
    Some(decode_lossy(units.as_slice()))
}

/// The characters of `text`.
fn chars_of(text: &str) -> (chars: Vec<char>)
    ensures
        chars@ == text@,
{
    let mut chars: Vec<char> = Vec::new();
    for c in it: text.chars()
        invariant
            chars@ == it.seq().take(it.index()),
    {
        chars.push(c);
    }
    chars
}

/// The code units of as many leading characters of `text` as the name field
/// takes.
fn fitting_units(text: &str) -> (units: Vec<u16>)
    ensures
        units@ == label_units(text@, NAME_UNITS as int),
        units@.len() <= NAME_UNITS,
{
    let chars: Vec<char> = chars_of(text);
    let mut units: Vec<u16> = Vec::new();
    let mut i: usize = 0;
    assert(text@.skip(0) =~= text@);
    assert(units@ + label_units(text@, NAME_UNITS as int) =~= label_units(text@, NAME_UNITS as int));
    while i < chars.len()
        invariant
            chars@ == text@,
            i <= chars@.len(),
            units@.len() <= NAME_UNITS,
            units@ + label_units(text@.skip(i as int), NAME_UNITS - units@.len()) == label_units(
                text@,
                NAME_UNITS as int,
            ),
        decreases chars@.len() - i,
    {
        let c: char = chars[i];
        proof {
            lemma_char_range(c);
        }
        let x: u32 = c as u32;
        let ghost rest = text@.skip(i as int);
        let ghost room = NAME_UNITS - units@.len();
        let ghost before = units@;
        assert(rest.drop_first() =~= text@.skip(i + 1));
        let wide: usize = if x < 0x1_0000 { 1 } else { 2 };
        assert(wide == utf16_units(rest[0]).len());
        if units.len() + wide > NAME_UNITS {
            assert(label_units(rest, room) =~= Seq::<u16>::empty());
            assert(units@ + Seq::<u16>::empty() =~= units@);
            return units;
        }
        if x < 0x1_0000 {
            units.push(x as u16);
            assert(units@ =~= before + utf16_units(rest[0]));
        } else {
            units.push((0xD800 + (x - 0x1_0000) / 0x400) as u16);
            units.push((0xDC00 + (x - 0x1_0000) % 0x400) as u16);
            assert(units@ =~= before + utf16_units(rest[0]));
        }
        proof {
            let tail = label_units(text@.skip(i + 1), room - wide);
            assert(label_units(rest, room) == utf16_units(rest[0]) + tail);
            assert(before + (utf16_units(rest[0]) + tail) =~= units@ + tail);
        }
        i = i + 1;
    }
    assert(label_units(text@.skip(i as int), NAME_UNITS - units@.len()) =~= Seq::<u16>::empty());
    assert(units@ + Seq::<u16>::empty() =~= units@);
    units
}

/// The name field that holds `label`: as many of its leading characters as
/// fit, padded with zeros.
pub fn encode_label(label: &str) -> (field: Vec<u8>)
    ensures
        field@ == label_field(label@),
{
    let units: Vec<u16> = fitting_units(label);
    let mut field: Vec<u8> = Vec::new();
    let mut i: usize = 0;
    while i < NAME_BYTES
        invariant
            i <= NAME_BYTES,
            units@ == label_units(label@, NAME_UNITS as int),
            field@ =~= label_field(label@).take(i as int),
        decreases NAME_BYTES - i,
    {
        let unit: u16 = if i / 2 < units.len() { units[i / 2] } else { 0 };
        let byte: u8 = if i % 2 == 0 { (unit % 0x100) as u8 } else { (unit / 0x100) as u8 };
        field.push(byte);
        i = i + 1;
    }
    assert(field@ =~= label_field(label@));
    field
}

/// A label written and read back is as much of it as fits, cut between
/// characters; an empty one is none. (A zero character would end the field
/// early.)
pub proof fn lemma_label_round_trip(chars: Seq<char>)
    requires
        !chars.contains('\0'),
    ensures
        label_in(label_field(chars)) == (if chars.len() == 0 {
            None
        } else {
            Some(fitting(chars, NAME_UNITS as int))
        }),
{
    let units = label_units(chars, NAME_UNITS as int);
    lemma_units_bounded(chars, NAME_UNITS as int);
    lemma_units_decode(chars, NAME_UNITS as int);
    lemma_field_units(units, label_field(chars), 0);
    assert(units.subrange(0, units.len() as int) =~= units);
    if chars.len() > 0 {
        assert(units.len() > 0);
    }
}

/// A character is a Unicode scalar value.
proof fn lemma_char_range(c: char)
    ensures
        0 <= (c as int) <= 0x10_FFFF,
        (c as int) < 0xD800 || 0xE000 <= (c as int),
        c as int as char == c,
        c as int == c as u32,
{
}

/// The units fit the room, and none of them is zero.
proof fn lemma_units_bounded(chars: Seq<char>, room: int)
    requires
        room >= 0,
        !chars.contains('\0'),
    ensures
        label_units(chars, room).len() <= room,
        forall|k: int| 0 <= k < label_units(chars, room).len() ==> label_units(chars, room)[k] != 0,
    decreases chars.len(),
{
    if chars.len() > 0 && utf16_units(chars[0]).len() <= room {
        let rest = chars.drop_first();
        assert forall|c: char| rest.contains(c) implies chars.contains(c) by {
            let k = choose|k: int| 0 <= k < rest.len() && rest[k] == c;
            assert(chars[k + 1] == c);
        }
        lemma_units_bounded(rest, room - utf16_units(chars[0]).len());
        assert(chars.contains(chars[0]));
        lemma_char_range(chars[0]);
        assert(chars[0] as int != 0);
        assert(forall|k: int|
            0 <= k < utf16_units(chars[0]).len() ==> utf16_units(chars[0])[k] != 0);
    }
}

/// Decoding gives the characters that fit.
proof fn lemma_units_decode(chars: Seq<char>, room: int)
    ensures
        utf16_lossy(label_units(chars, room)) == fitting(chars, room),
    decreases chars.len(),
{
    if chars.len() > 0 && utf16_units(chars[0]).len() <= room {
        let c = chars[0];
        let width = utf16_units(c).len() as int;
        lemma_units_decode(chars.drop_first(), room - width);
        let rest = label_units(chars.drop_first(), room - width);
        let units = label_units(chars, room);
        assert(units == utf16_units(c) + rest);
        let x = c as int;
        lemma_char_range(c);
        if x < 0x1_0000 {
            assert(units.drop_first() =~= rest);
            assert(units[0] == x);
            assert(!surrogate(units[0]));
            assert(units[0] as char == c);
        } else {
            assert(units.subrange(2, units.len() as int) =~= rest);
            assert(units[0] == 0xD800 + (x - 0x1_0000) / 0x400);
            assert(units[1] == 0xDC00 + (x - 0x1_0000) % 0x400);
            assert(opens_with_pair(units));
            assert(0x1_0000 + (units[0] - 0xD800) * 0x400 + (units[1] - 0xDC00) == x);
        }
    }
}

/// The field read from unit `k` on gives the units from `k` on.
proof fn lemma_field_units(units: Seq<u16>, field: Seq<u8>, k: int)
    requires
        0 <= k <= units.len() <= NAME_UNITS,
        field == Seq::new(NAME_BYTES as nat, |i: int| unit_byte(units, i)),
        forall|j: int| 0 <= j < units.len() ==> units[j] != 0,
    ensures
        field_units(field, 2 * k) == units.subrange(k, units.len() as int),
    decreases units.len() - k,
{
    if k < units.len() {
        lemma_field_units(units, field, k + 1);
        assert(field[2 * k] == units[k] % 0x100);
        assert(field[2 * k + 1] == units[k] / 0x100);
        assert(le16(field, 2 * k) == units[k]);
        assert(units.subrange(k, units.len() as int) =~= seq![units[k]] + units.subrange(
            k + 1,
            units.len() as int,
        ));
    } else {
        if k < NAME_UNITS {
            assert(field[2 * k] == 0);
            assert(field[2 * k + 1] == 0);
        }
        assert(field_units(field, 2 * k) =~= units.subrange(k, units.len() as int));
    }
}

/// Code units that the characters take.
pub open spec fn width(chars: Seq<char>) -> int
    decreases chars.len(),
{
    if chars.len() == 0 {
        0
    } else {
        utf16_units(chars[0]).len() + width(chars.drop_first())
    }
}

/// Characters that take no more units than there is room for all fit.
proof fn lemma_all_fit(chars: Seq<char>, room: int)
    requires
        width(chars) <= room,
    ensures
        fitting(chars, room) == chars,
    decreases chars.len(),
{
    if chars.len() > 0 {
        lemma_width_grows(chars.drop_first());
        lemma_all_fit(chars.drop_first(), room - utf16_units(chars[0]).len());
        assert(seq![chars[0]] + chars.drop_first() =~= chars);
    } else {
        assert(fitting(chars, room) =~= chars);
    }
}

proof fn lemma_width_grows(chars: Seq<char>)
    ensures
        width(chars) >= 0,
    decreases chars.len(),
{
    if chars.len() > 0 {
        lemma_width_grows(chars.drop_first());
    }
}

/// Decoding takes as many units as it is given, makes something of them,
/// and makes a zero character only of a zero unit.
proof fn lemma_decoded(units: Seq<u16>)
    requires
        forall|k: int| 0 <= k < units.len() ==> units[k] != 0,
    ensures
        width(utf16_lossy(units)) == units.len(),
        units.len() > 0 ==> utf16_lossy(units).len() > 0,
        !utf16_lossy(units).contains('\0'),
    decreases units.len(),
{
    if units.len() > 0 {
        let taken: int = if opens_with_pair(units) {
            2
        } else {
            1
        };
        let rest = units.subrange(taken, units.len() as int);
        assert(units.drop_first() =~= units.subrange(1, units.len() as int));
        lemma_decoded(rest);
        let text = utf16_lossy(units);
        let tail = utf16_lossy(rest);
        assert(text.drop_first() =~= tail);
        let c = text[0];
        assert(utf16_units(c).len() == taken && c != '\0') by {
            lemma_char_range(c);
            if !surrogate(units[0]) {
                assert(c as int == units[0]);
            } else if opens_with_pair(units) {
                let x = 0x1_0000 + (units[0] - 0xD800) * 0x400 + (units[1] - 0xDC00);
                assert(c as int == x);
            } else {
                assert(c == '\u{FFFD}');
            }
        }
        assert forall|k: int| 0 <= k < text.len() implies text[k] != '\0' by {
            if k > 0 {
                assert(text[k] == tail[k - 1]);
                assert(tail.contains(tail[k - 1]));
            }
        }
    }
}

proof fn lemma_field_units_bounded(field: Seq<u8>, i: int)
    requires
        0 <= i,
    ensures
        2 * field_units(field, i).len() <= (if i <= field.len() {
            field.len() - i
        } else {
            0
        }),
        forall|k: int| 0 <= k < field_units(field, i).len() ==> field_units(field, i)[k] != 0,
    decreases field.len() - i,
{
    if i + 2 <= field.len() && le16(field, i) != 0 {
        lemma_field_units_bounded(field, i + 2);
    }
}

/// A label that was read from a table is not empty, holds no zero character,
/// and fits the field it is written back into.
pub proof fn lemma_read_label_fits(field: Seq<u8>)
    requires
        field.len() == NAME_BYTES,
        label_in(field) is Some,
    ensures
        label_in(field)->Some_0.len() > 0,
        !label_in(field)->Some_0.contains('\0'),
        fitting(label_in(field)->Some_0, NAME_UNITS as int) == label_in(field)->Some_0,
{
    lemma_field_units_bounded(field, 0);
    lemma_decoded(field_units(field, 0));
    lemma_all_fit(label_in(field)->Some_0, NAME_UNITS as int);
}

} // verus!
