//! What may be written as a GPT, and the bytes that are.

use vstd::prelude::*;

use crate::codec::laws::lemma_tag_bytes;
use crate::codec::{le16, le32, le64, window, zeros};
use crate::crc::crc32;
use crate::error::Error;
use crate::gpt::laws::header_without_crc;
use crate::gpt::{
    crc_covered, entry_bytes, forwards, lemma_runs_into_is_sharing, lemma_slot_inside, overlapped,
    runs_into, type_guids, SIGNATURE,
};
use crate::gpt_write::geometry::{lemma_usable_range_is_clear_of_the_table, GptGeometry};
use crate::gpt_write::image::{
    array_holds, carried, entry_holds, front_entry, front_written, header_written, marker_entry,
    mirrors, name_field, recorded_for, records_hybrid, records_marker, slot_entry, u32_bytes,
    HeaderPlan,
};
use crate::gpt_write::plan::{
    gpt_fault, gpt_plan, lemma_gpt_plan_is_writable, lemma_no_first_fault, spans_of, GptPlanView,
};
use crate::gpt_write::slots::{claims, slots_for};
use crate::gpt_write::{backup_entry_lba, gpt_image, header_plan, GptTable};
use crate::mbr::laws::lemma_roles;
use crate::mbr::{chs, entry_in, reserved_span, role, role_of, EntryRole, ReservedView};
use crate::probe::{span, PartitionView};
use crate::sniff::laws::spells;

verus! {

/// A partition may go into a GPT exactly where it has a GPT type that is not
/// all zeros, is not empty, lies on sector bounds, and lies in the usable
/// range from `first` to `last`.
pub proof fn lemma_gpt_accepts(p: PartitionView, first: u64, last: u64)
    ensures
        gpt_fault(p, first, last) is None <==> {
            &&& p.kind is Gpt
            &&& p.kind->type_guid != zeros(16)
            &&& p.length > 0
            &&& p.start % 512 == 0 && p.length % 512 == 0
            &&& p.start + p.length <= u64::MAX
            &&& first * 512 <= p.start
            &&& p.start + p.length <= (last + 1) * 512
        },
        gpt_fault(p, first, last) matches Some(e) ==> e is Invalid,
{
    assert(type_guids::UNUSED@ =~= zeros(16));
}

/// The partitions can be written as a GPT exactly where the shape leaves a
/// usable range, there are entries for all, each may go into the table and
/// has a UUID, no two share a byte, and there are slots for them. The plan
/// is that range and those slots.
pub proof fn lemma_gpt_is_accepted(parts: Seq<PartitionView>, geometry: GptGeometry, total: int)
    requires
        total <= u64::MAX,
    ensures
        gpt_plan(parts, geometry, total) is Ok <==> {
            &&& geometry.usable(total) is Ok
            &&& parts.len() <= geometry.num_entries
            &&& forall|k: int|
                0 <= k < parts.len() ==> gpt_fault(
                    #[trigger] parts[k],
                    geometry.usable(total)->Ok_0.0,
                    geometry.usable(total)->Ok_0.1,
                ) is None
            &&& forall|k: int| 0 <= k < parts.len() ==> (#[trigger] parts[k]).uuid is Some
            &&& forall|j: int, k: int|
                0 <= j < parts.len() && 0 <= k < parts.len() && j != k ==> {
                    ||| (#[trigger] parts[j]).start + parts[j].length <= (
                    #[trigger] parts[k]).start
                    ||| parts[k].start + parts[k].length <= parts[j].start
                }
            &&& slots_for(claims(parts), geometry.num_entries as int, Seq::empty()) is Ok
        },
        gpt_plan(parts, geometry, total) matches Ok(plan) ==> {
            &&& geometry.usable(total) == Ok::<(u64, u64), Error>(
                (plan.first_usable, plan.last_usable),
            )
            &&& slots_for(claims(parts), geometry.num_entries as int, Seq::empty()) == Ok::<
                Seq<u32>,
                Error,
            >(plan.slots)
        },
        geometry.usable(total) matches Err(e) ==> gpt_plan(parts, geometry, total) == Err::<
            GptPlanView,
            Error,
        >(e),
{
    let spans = spans_of(parts);
    if gpt_plan(parts, geometry, total) is Ok {
        lemma_gpt_plan_is_writable(parts, geometry, total);
        let (first, last) = geometry.usable(total)->Ok_0;
        assert forall|j: int, k: int|
            0 <= j < parts.len() && 0 <= k < parts.len() && j != k implies {
            ||| (#[trigger] parts[j]).start + parts[j].length <= (#[trigger] parts[k]).start
            ||| parts[k].start + parts[k].length <= parts[j].start
        } by {
            assert(gpt_fault(parts[j], first, last) is None && gpt_fault(parts[k], first, last)
                is None);
            assert(!overlapped(spans, j));
            assert(!runs_into(spans, j, k));
            assert(spans[j] == span(parts[j])->Ok_0 && spans[k] == span(parts[k])->Ok_0);
        }
    }
    if {
        &&& geometry.usable(total) is Ok
        &&& parts.len() <= geometry.num_entries
        &&& forall|k: int|
            0 <= k < parts.len() ==> gpt_fault(
                #[trigger] parts[k],
                geometry.usable(total)->Ok_0.0,
                geometry.usable(total)->Ok_0.1,
            ) is None
        &&& forall|k: int| 0 <= k < parts.len() ==> (#[trigger] parts[k]).uuid is Some
        &&& forall|j: int, k: int|
            0 <= j < parts.len() && 0 <= k < parts.len() && j != k ==> {
                ||| (#[trigger] parts[j]).start + parts[j].length <= (#[trigger] parts[k]).start
                ||| parts[k].start + parts[k].length <= parts[j].start
            }
    } {
        let (first, last) = geometry.usable(total)->Ok_0;
        lemma_no_first_fault(parts, 0, first, last);
        assert forall|i: int| 0 <= i < parts.len() implies !#[trigger] overlapped(spans, i) by {
            if overlapped(spans, i) {
                let j = choose|j: int|
                    0 <= j < spans.len() && j != i && #[trigger] runs_into(spans, i, j);
                assert(forwards(spans)) by {
                    assert forall|k: int| 0 <= k < spans.len() implies (#[trigger] spans[k]).0
                        <= spans[k].1 by {
                        assert(gpt_fault(parts[k], first, last) is None);
                    }
                }
                lemma_runs_into_is_sharing(spans, i, j);
                assert(gpt_fault(parts[i], first, last) is None && gpt_fault(parts[j], first, last)
                    is None);
                assert(parts[i].start + parts[i].length <= parts[j].start || parts[j].start
                    + parts[j].length <= parts[i].start);
            }
        }
    }
}

/// The 512 bytes at `at` are a header at LBA `my_lba` that says this, with
/// the right CRC, of revision 1.0, and blank behind its 92 bytes.
pub open spec fn header_at(
    s: Seq<u8>,
    at: int,
    my_lba: int,
    alternate_lba: int,
    entry_lba: int,
    plan: GptPlanView,
    t: GptTable,
    array: Seq<u8>,
) -> bool {
    &&& spells(s, at, seq![0x45u8, 0x46, 0x49, 0x20, 0x50, 0x41, 0x52, 0x54])
    &&& le32(s, at + 8) == 0x1_0000
    &&& le32(s, at + 12) == 92
    &&& le32(s, at + 16) == crc32(header_without_crc(s.subrange(at, at + 512)))
    &&& le32(s, at + 20) == 0
    &&& le64(s, at + 24) == my_lba
    &&& le64(s, at + 32) == alternate_lba
    &&& le64(s, at + 40) == plan.first_usable
    &&& le64(s, at + 48) == plan.last_usable
    &&& s.subrange(at + 56, at + 72) == t.disk_guid
    &&& le64(s, at + 72) == entry_lba
    &&& le32(s, at + 80) == t.geometry.num_entries
    &&& le32(s, at + 84) == t.geometry.entry_size
    &&& le32(s, at + 88) == crc32(array)
    &&& s.subrange(at + 92, at + 512) == zeros(420)
}

proof fn lemma_shifted(s: Seq<u8>, at: int, i: int)
    requires
        0 <= at,
        at + 512 <= s.len(),
        0 <= i,
        i + 8 <= 512,
    ensures
        le16(window(s, at, 512), i) == le16(s, at + i),
        le32(window(s, at, 512), i) == le32(s, at + i),
        le64(window(s, at, 512), i) == le64(s, at + i),
{
    let w = window(s, at, 512);
    assert(w[i] == s[at + i] && w[i + 1] == s[at + i + 1] && w[i + 2] == s[at + i + 2] && w[i + 3]
        == s[at + i + 3]);
    assert(w[i + 4] == s[at + i + 4] && w[i + 5] == s[at + i + 5] && w[i + 6] == s[at + i + 6]
        && w[i + 7] == s[at + i + 7]);
}

proof fn lemma_header_bytes(
    s: Seq<u8>,
    at: int,
    my_lba: int,
    alternate_lba: int,
    entry_lba: int,
    plan: GptPlanView,
    t: GptTable,
    array: Seq<u8>,
)
    requires
        0 <= at,
        at + 512 <= s.len(),
        0 <= my_lba <= u64::MAX,
        0 <= alternate_lba <= u64::MAX,
        0 <= entry_lba <= u64::MAX,
        header_written(
            window(s, at, 512),
            header_plan(t, plan, array, my_lba, alternate_lba, entry_lba),
        ),
    ensures
        header_at(s, at, my_lba, alternate_lba, entry_lba, plan, t, array),
{
    let w = window(s, at, 512);
    let tag = seq![0x45u8, 0x46, 0x49, 0x20, 0x50, 0x41, 0x52, 0x54];
    assert(SIGNATURE@ =~= tag);
    lemma_tag_bytes(w, 0, tag);
    assert(spells(s, at, tag)) by {
        assert forall|k: int| 0 <= k < tag.len() implies s[at + k] == #[trigger] tag[k] by {
            assert(w[0 + k] == tag[k]);
            assert(w[k] == s[at + k]);
        }
    }
    lemma_shifted(s, at, 8);
    lemma_shifted(s, at, 12);
    lemma_shifted(s, at, 16);
    lemma_shifted(s, at, 20);
    lemma_shifted(s, at, 24);
    lemma_shifted(s, at, 32);
    lemma_shifted(s, at, 40);
    lemma_shifted(s, at, 48);
    lemma_shifted(s, at, 72);
    lemma_shifted(s, at, 80);
    lemma_shifted(s, at, 84);
    lemma_shifted(s, at, 88);
    assert(w =~= s.subrange(at, at + 512));
    assert(crc_covered(w, 92) =~= header_without_crc(w));
    assert(w.subrange(56, 72) =~= s.subrange(at + 56, at + 72));
    assert(w.subrange(92, 512) =~= s.subrange(at + 92, at + 512));
}

/// The bytes of a GPT that was written. A header stands in the second sector
/// and another in the last one, each naming itself and the other, both with
/// the disk GUID, the usable range and the shape of the table. The primary
/// array stands where the shape puts it and the backup array right ahead of
/// the last header, both alike, and both headers carry the CRC of it. No
/// byte beside these and the first sector has changed.
pub proof fn lemma_written_gpt_bytes(
    before: Seq<u8>,
    after: Seq<u8>,
    t: GptTable,
    plan: GptPlanView,
    total: int,
)
    requires
        total <= u64::MAX,
        gpt_plan(t.parts, t.geometry, total) == Ok::<GptPlanView, Error>(plan),
        gpt_image(before, after, t, plan, total),
    ensures
        ({
            let sectors = t.geometry.sectors_spec();
            let len = t.geometry.num_entries * t.geometry.entry_size;
            let at = t.geometry.entry_lba * 512;
            let backup_lba = total - 1 - sectors;
            let array = after.subrange(at, at + len);
            &&& after.len() == before.len()
            &&& total * 512 <= after.len()
            &&& header_at(
                after,
                512,
                1,
                total - 1,
                t.geometry.entry_lba as int,
                plan,
                t,
                array,
            )
            &&& header_at(after, (total - 1) * 512, total - 1, 1, backup_lba, plan, t, array)
            &&& after.subrange(backup_lba * 512, backup_lba * 512 + len) == array
            &&& forall|i: int|
                1024 <= i < after.len() && !(at <= i < at + len) && !(backup_lba * 512 <= i
                    < backup_lba * 512 + len) && !((total - 1) * 512 <= i < total * 512)
                    ==> #[trigger] after[i] == before[i]
        }),
{
    lemma_gpt_plan_is_writable(t.parts, t.geometry, total);
    lemma_usable_range_is_clear_of_the_table(t.geometry, total);
    let len = t.geometry.bytes_spec();
    let at = t.geometry.entry_lba * 512;
    let backup_lba = backup_entry_lba(t, total);
    crate::gpt_write::geometry::laws::lemma_array_sectors(t.geometry);
    let array = window(after, at, len as nat);
    assert(0 <= at && at + len <= after.len());
    assert(array =~= after.subrange(at, at + len));
    assert(0 <= backup_lba * 512 && backup_lba * 512 + len <= after.len());
    assert(window(after, backup_lba * 512, len as nat) =~= after.subrange(
        backup_lba * 512,
        backup_lba * 512 + len,
    ));
    lemma_header_bytes(
        after,
        512,
        1,
        total - 1,
        t.geometry.entry_lba as int,
        plan,
        t,
        array,
    );
    lemma_header_bytes(after, (total - 1) * 512, total - 1, 1, backup_lba, plan, t, array);
}

/// The `size` bytes at `at` describe partition `p`: its type and UUID, its
/// first and its last sector, its attributes, its name, and behind byte 128
/// its tail, cut or padded with zeros.
pub open spec fn entry_at(
    array: Seq<u8>,
    at: int,
    size: int,
    p: PartitionView,
    tails: Map<Seq<u8>, Seq<u8>>,
) -> bool {
    &&& p.kind is Gpt && p.uuid is Some
    &&& array.subrange(at, at + 16) == p.kind->type_guid
    &&& array.subrange(at + 16, at + 32) == p.uuid->Some_0
    &&& le64(array, at + 32) * 512 == p.start
    &&& (le64(array, at + 40) + 1) * 512 == p.start + p.length
    &&& le64(array, at + 48) == p.kind->attributes
    &&& array.subrange(at + 56, at + 128) == name_field(p.label)
    &&& p.label is None ==> array.subrange(at + 56, at + 128) == zeros(72)
    &&& forall|j: int|
        128 <= j < size ==> #[trigger] array[at + j] == (if tails.contains_key(p.uuid->Some_0) && j
            - 128 < tails[p.uuid->Some_0].len() {
            tails[p.uuid->Some_0][j - 128]
        } else {
            0u8
        })
}

/// Slot `i` is blank.
pub open spec fn blank_entry(array: Seq<u8>, size: int, i: int) -> bool {
    forall|j: int| 0 <= j < size ==> #[trigger] array[i * size + j] == 0
}

/// The entries of a GPT that was written: each partition in its slot, and
/// every other slot blank.
pub proof fn lemma_written_entries(
    array: Seq<u8>,
    parts: Seq<PartitionView>,
    slots: Seq<u32>,
    tails: Map<Seq<u8>, Seq<u8>>,
    num: int,
    size: int,
    first: u64,
    last: u64,
)
    requires
        size >= 128,
        0 <= num <= u32::MAX,
        array_holds(array, parts, slots, tails, num, size),
        slots.len() == parts.len(),
        forall|k: int| 0 <= k < slots.len() ==> #[trigger] slots[k] < num,
        forall|k: int| 0 <= k < parts.len() ==> gpt_fault(#[trigger] parts[k], first, last) is None,
    ensures
        array.len() == num * size,
        forall|k: int|
            0 <= k < parts.len() ==> entry_at(
                array,
                #[trigger] slots[k] * size,
                size,
                parts[k],
                tails,
            ),
        forall|i: int|
            0 <= i < num && !slots.contains(i as u32) ==> #[trigger] blank_entry(array, size, i),
{
    assert forall|k: int| 0 <= k < parts.len() implies entry_at(
        array,
        #[trigger] slots[k] * size,
        size,
        parts[k],
        tails,
    ) by {
        let i = slots[k] as int;
        let p = parts[k];
        lemma_slot_inside(i, num, size);
        let at = i * size;
        let e = entry_bytes(array, size, i);
        assert(slot_entry(e, parts, slots, tails, size, i));
        assert(entry_holds(e, p, tails, size));
        assert(gpt_fault(p, first, last) is None);
        assert forall|j: int| 0 <= j < size implies #[trigger] e[j] == array[at + j] by {}
        assert(le16(e, 32) == le16(array, at + 32) && le16(e, 34) == le16(array, at + 34));
        assert(le16(e, 36) == le16(array, at + 36) && le16(e, 38) == le16(array, at + 38));
        assert(le16(e, 40) == le16(array, at + 40) && le16(e, 42) == le16(array, at + 42));
        assert(le16(e, 44) == le16(array, at + 44) && le16(e, 46) == le16(array, at + 46));
        assert(le16(e, 48) == le16(array, at + 48) && le16(e, 50) == le16(array, at + 50));
        assert(le16(e, 52) == le16(array, at + 52) && le16(e, 54) == le16(array, at + 54));
        assert(e.take(16) =~= array.subrange(at, at + 16));
        assert(e.subrange(16, 32) =~= array.subrange(at + 16, at + 32));
        assert(e.subrange(56, 128) =~= array.subrange(at + 56, at + 128));
        assert forall|j: int| 128 <= j < size implies #[trigger] array[at + j] == (if tails.contains_key(
            p.uuid->Some_0,
        ) && j - 128 < tails[p.uuid->Some_0].len() {
            tails[p.uuid->Some_0][j - 128]
        } else {
            0u8
        }) by {
            assert(e.subrange(128, size)[j - 128] == e[j]);
        }
    }
    assert forall|i: int| 0 <= i < num && !slots.contains(i as u32) implies #[trigger] blank_entry(
        array,
        size,
        i,
    ) by {
        lemma_slot_inside(i, num, size);
        let e = entry_bytes(array, size, i);
        assert(slot_entry(e, parts, slots, tails, size, i));
        assert forall|k: int| 0 <= k < slots.len() implies #[trigger] slots[k] != i by {
            if slots[k] == i {
                assert(slots.contains(i as u32));
            }
        }
        assert forall|j: int| 0 <= j < size implies #[trigger] array[i * size + j] == 0 by {
            assert(e[j] == array[i * size + j]);
        }
    }
}

proof fn lemma_number_bytes(n: int)
    requires
        0 <= n <= 0xFFFF_FFFF,
    ensures
        le32(u32_bytes(n), 0) == n,
{
}

/// The entry that marks a disk as a GPT's: not active, of type EE, from LBA 1
/// to the last sector, or as many sectors as 32 bits hold.
#[verifier::rlimit(40)]
pub proof fn lemma_marker_entry(total: int)
    requires
        1 <= total,
    ensures
        ({
            let e = marker_entry(total);
            &&& e.len() == 16
            &&& e[0] == 0 && e[1] == 0 && e[2] == 2 && e[3] == 0
            &&& e[4] == 0xEE
            &&& e.subrange(5, 8) == chs(total - 1)
            &&& le32(e, 8) == 1
            &&& le32(e, 12) == (if total - 1 < 0xFFFF_FFFF {
                total - 1
            } else {
                0xFFFF_FFFF
            })
        }),
{
    let e = marker_entry(total);
    let count = if total - 1 < 0xFFFF_FFFF {
        total - 1
    } else {
        0xFFFF_FFFF
    };
    lemma_number_bytes(count);
    let low = u32_bytes(count);
    assert(low.len() == 4 && chs(total - 1).len() == 3);
    assert(e[12] == low[0] && e[13] == low[1] && e[14] == low[2] && e[15] == low[3]);
    assert(e.subrange(5, 8) =~= chs(total - 1));
}

/// The first sector of a disk that gets a GPT of its own: blank but for the
/// marker in the first slot and 55 AA at the end.
pub proof fn lemma_fresh_front(
    sector: Seq<u8>,
    base: Seq<u8>,
    recorded: Seq<ReservedView>,
    parts: Seq<PartitionView>,
    total: int,
)
    requires
        front_written(sector, base, recorded, parts, total),
        forall|r: int| 0 <= r < recorded.len() ==> (#[trigger] recorded[r]).bytes[4] != 0xEE,
        1 <= total,
    ensures
        sector.len() == 512,
        sector.take(446) == zeros(446),
        sector.subrange(446, 462) == marker_entry(total),
        sector.subrange(462, 510) == zeros(48),
        sector[510] == 0x55 && sector[511] == 0xAA,
{
    assert forall|r: int| 0 <= r < recorded.len() implies role_of((#[trigger] recorded[r]).bytes)
        != EntryRole::GptMarker by {
        lemma_roles(recorded[r].bytes[4]);
    }
    assert(!records_marker(recorded));
    assert(entry_in(sector, 0) =~= sector.subrange(446, 462));
    assert forall|j: int| 462 <= j < 510 implies #[trigger] sector[j] == 0 by {
        let i = (j - 446) / 16;
        assert(entry_in(sector, i) == zeros(16));
        assert(entry_in(sector, i)[(j - 446) % 16] == sector[j]);
    }
    assert(sector.subrange(462, 510) =~= zeros(48));
}

proof fn lemma_only_record(recorded: Seq<ReservedView>, i: int, r: int, q: int)
    requires
        0 <= q <= r < recorded.len(),
        recorded[r].slot == i,
        forall|a: int, b: int|
            0 <= a < b < recorded.len() ==> (#[trigger] recorded[a]).slot != (
            #[trigger] recorded[b]).slot,
    ensures
        recorded_for(recorded, i, q) == Some(recorded[r].bytes),
    decreases r - q,
{
    if q < r {
        assert(recorded[q].slot != recorded[r].slot);
        lemma_only_record(recorded, i, r, q + 1);
    }
}

/// The entry covers the very sectors of one of the partitions.
pub open spec fn covers_one(entry: Seq<u8>, parts: Seq<PartitionView>) -> bool {
    exists|k: int|
        0 <= k < parts.len() && entry[4] != 0xEE && le32(entry, 12) > 0 && span(
            #[trigger] parts[k],
        ) == Ok::<(u64, u64), Error>(
            (le32(entry, 8) as u64, (le32(entry, 8) + le32(entry, 12) - 1) as u64),
        )
}

/// The first sector of a disk whose GPT is written again, where the entries
/// of its MBR were recorded with the marker among them: its boot code stays.
/// Where another entry was recorded the marker stays as it is; a marker alone
/// is drawn anew. Any other entry stays as long as it covers the sectors of a
/// partition that is written, and is blank from then on.
pub proof fn lemma_recorded_front(
    sector: Seq<u8>,
    base: Seq<u8>,
    recorded: Seq<ReservedView>,
    parts: Seq<PartitionView>,
    total: int,
    r: int,
)
    requires
        base.len() == 512,
        front_written(sector, base, recorded, parts, total),
        0 <= r < recorded.len(),
        recorded[r].slot < 4,
        exists|q: int| 0 <= q < recorded.len() && (#[trigger] recorded[q]).bytes[4] == 0xEE,
        forall|a: int, b: int|
            0 <= a < b < recorded.len() ==> (#[trigger] recorded[a]).slot != (
            #[trigger] recorded[b]).slot,
    ensures
        sector.len() == 512,
        forall|i: int| 0 <= i < 446 ==> #[trigger] sector[i] == base[i],
        sector[510] == 0x55 && sector[511] == 0xAA,
        ({
            let e = recorded[r].bytes;
            let now = sector.subrange(446 + 16 * recorded[r].slot, 462 + 16 * recorded[r].slot);
            let hybrid = exists|q: int|
                0 <= q < recorded.len() && (#[trigger] recorded[q]).bytes[4] != 0xEE;
            if e[4] == 0xEE {
                now == (if hybrid {
                    e
                } else {
                    marker_entry(total)
                })
            } else if covers_one(e, parts) {
                now == e
            } else {
                now == zeros(16)
            }
        }),
{
    let e = recorded[r].bytes;
    let i = recorded[r].slot as int;
    assert forall|q: int| 0 <= q < recorded.len() implies (role_of((#[trigger] recorded[q]).bytes)
        == EntryRole::GptMarker) == (recorded[q].bytes[4] == 0xEE) by {
        lemma_roles(recorded[q].bytes[4]);
    }
    assert(records_marker(recorded)) by {
        let q = choose|q: int| 0 <= q < recorded.len() && (#[trigger] recorded[q]).bytes[4] == 0xEE;
        assert(role_of(recorded[q].bytes) == EntryRole::GptMarker);
    }
    let hybrid = exists|q: int|
        0 <= q < recorded.len() && (#[trigger] recorded[q]).bytes[4] != 0xEE;
    assert(records_hybrid(recorded) == hybrid) by {
        if hybrid {
            let q = choose|q: int|
                0 <= q < recorded.len() && (#[trigger] recorded[q]).bytes[4] != 0xEE;
            assert(role_of(recorded[q].bytes) != EntryRole::GptMarker);
        }
    }
    lemma_only_record(recorded, i, r, 0);
    assert(entry_in(sector, i) == carried(e, records_hybrid(recorded), parts, total));
    assert(entry_in(sector, i) =~= sector.subrange(446 + 16 * i, 462 + 16 * i));
    assert(e[4] != 0xEE ==> mirrors(e, parts) == covers_one(e, parts)) by {
        lemma_roles(e[4]);
        if mirrors(e, parts) {
            let k = choose|k: int|
                0 <= k < parts.len() && reserved_span(e) is Some && span(#[trigger] parts[k])
                    == Ok::<(u64, u64), Error>(reserved_span(e)->Some_0);
            assert(span(parts[k]) is Ok);
            assert(e[4] != 0xEE ==> covers_one(e, parts));
        }
        if covers_one(e, parts) {
            let k = choose|k: int|
                0 <= k < parts.len() && e[4] != 0xEE && le32(e, 12) > 0 && span(#[trigger] parts[k])
                    == Ok::<(u64, u64), Error>(
                    (le32(e, 8) as u64, (le32(e, 8) + le32(e, 12) - 1) as u64),
                );
            assert(reserved_span(e) is Some);
            assert(mirrors(e, parts));
        }
    }
    assert forall|j: int| 0 <= j < 446 implies #[trigger] sector[j] == base[j] by {
        assert(sector.take(446)[j] == base.take(446)[j]);
    }
}

} // verus!
