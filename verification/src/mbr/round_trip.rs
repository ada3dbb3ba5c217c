//! What an MBR that was written says when it is read, and writing back one
//! that was read.

use vstd::prelude::*;

use crate::codec::{has_at, le16, le32, window, zeros};
use crate::error::Error;
use crate::gpt::{part_starts, share_sector, SIGNATURE};
use crate::gpt_write::round_trip::{lemma_slot_order, seats, slot_holder, slot_order, slot_taken};
use crate::gpt_write::slots::claims;
use crate::mbr::{
    describes, entry_in, is_volume, lemma_plan_is_writable, mbr_fault, mbr_plan, mbr_walk,
    over_reserved, partition_of, reserved_slots, role, role_of, signed, slot_holds, table_written,
    unlisted, volumes, EntryRole, ReservedView, STATUS_ACTIVE,
};
use crate::order::{key_order, lemma_key_order_sorts};
use crate::probe::{lba1_on, span, table_found, PartitionView, TableKind};

verus! {

/// A partition as it is read back from the slot it was written into: an MBR
/// holds no label and no UUID.
pub open spec fn as_read(p: PartitionView, slot: u32) -> PartitionView {
    PartitionView { label: None, uuid: None, slot: Some(slot), issues: 0, ..p }
}

/// The partitions in the slots below `n` as they are read back, in slot
/// order.
pub open spec fn read_back(
    parts: Seq<PartitionView>,
    slots: Seq<u32>,
    n: int,
) -> Seq<PartitionView> {
    slot_order(slots, n).map_values(|k: int| as_read(parts[k], slots[k]))
}

/// Every partition is of a type that describes a volume.
pub open spec fn all_volumes(parts: Seq<PartitionView>) -> bool {
    forall|k: int|
        0 <= k < parts.len() ==> (#[trigger] parts[k]).kind is Mbr && role(
            parts[k].kind->type_byte,
        ) == EntryRole::Volume
}

/// None of the reserved entries is a volume.
pub open spec fn no_volumes(reserved: Seq<ReservedView>) -> bool {
    forall|r: int| 0 <= r < reserved.len() ==> !is_volume((#[trigger] reserved[r]).bytes)
}

/// An entry that describes a partition is read back as it.
proof fn lemma_entry_round_trip(
    entry: Seq<u8>,
    p: PartitionView,
    base: Seq<u8>,
    slot: u32,
    total: u64,
)
    requires
        describes(entry, p, base),
        mbr_fault(p, total) is None,
        role(p.kind->type_byte) == EntryRole::Volume,
    ensures
        is_volume(entry),
        partition_of(entry, slot as int) == as_read(p, slot),
{
    assert(0x80u8 & 0x80u8 != 0u8 && 0u8 & 0x80u8 == 0u8) by (bit_vector);
    assert(p.start / 512 * 512 == p.start);
    assert(p.length / 512 * 512 == p.length);
    assert(p.length / 512 != 0);
}

proof fn lemma_volumes_round_trip(
    sector: Seq<u8>,
    base: Seq<u8>,
    parts: Seq<PartitionView>,
    slots: Seq<u32>,
    reserved: Seq<ReservedView>,
    total: u64,
    n: int,
)
    requires
        0 <= n <= 4,
        mbr_plan(parts, reserved, total) == Ok::<Seq<u32>, Error>(slots),
        table_written(sector, base, parts, slots, reserved),
        all_volumes(parts),
        no_volumes(reserved),
    ensures
        volumes(sector, n) == read_back(parts, slots, n),
    decreases n,
{
    if n > 0 {
        lemma_volumes_round_trip(sector, base, parts, slots, reserved, total, n - 1);
        lemma_plan_is_writable(parts, reserved, total);
        let i = n - 1;
        let entry = entry_in(sector, i);
        assert(slot_holds(entry, entry_in(base, i), parts, slots, reserved, i));
        if slot_taken(slots, i) {
            let k = slot_holder(slots, i);
            assert(seats(slots, i, k));
            assert(mbr_fault(parts[k], total) is None);
            lemma_entry_round_trip(entry, parts[k], entry_in(base, i), slots[k], total);
            assert(read_back(parts, slots, n) =~= read_back(parts, slots, n - 1).push(
                as_read(parts[k], slots[k]),
            ));
        } else {
            assert forall|k: int| 0 <= k < slots.len() implies #[trigger] slots[k] != i by {
                assert(!seats(slots, i, k));
            }
            if exists|r: int| 0 <= r < reserved.len() && (#[trigger] reserved[r]).slot == i {
                let r = choose|r: int| 0 <= r < reserved.len() && (#[trigger] reserved[r]).slot == i;
                assert(entry == reserved[r].bytes);
            } else {
                assert(entry == zeros(16));
            }
            assert(!is_volume(entry));
        }
    } else {
        assert(read_back(parts, slots, n) =~= Seq::<PartitionView>::empty());
    }
}

/// What was written is what is read: the sector lists every partition in the
/// slot it was written into, with its range, type and active flag.
///
/// The partitions are to be of types that describe volumes, and the entries
/// put back beside them not: a container written as a partition is a
/// container when it is read.
pub proof fn lemma_mbr_round_trip(
    sector: Seq<u8>,
    base: Seq<u8>,
    parts: Seq<PartitionView>,
    slots: Seq<u32>,
    reserved: Seq<ReservedView>,
    total: u64,
)
    requires
        mbr_plan(parts, reserved, total) == Ok::<Seq<u32>, Error>(slots),
        table_written(sector, base, parts, slots, reserved),
        all_volumes(parts),
        no_volumes(reserved),
    ensures
        volumes(sector, 4) == read_back(parts, slots, 4),
        forall|k: int|
            0 <= k < parts.len() ==> volumes(sector, 4).contains(
                as_read(#[trigger] parts[k], slots[k]),
            ),
        forall|r: int|
            0 <= r < reserved.len() ==> entry_in(sector, (#[trigger] reserved[r]).slot as int)
                == reserved[r].bytes,
        sector.take(446) == base.take(446),
{
    lemma_volumes_round_trip(sector, base, parts, slots, reserved, total, 4);
    lemma_plan_is_writable(parts, reserved, total);
    lemma_slot_order(slots, 4);
    let order = slot_order(slots, 4);
    let back = read_back(parts, slots, 4);
    assert forall|k: int| 0 <= k < parts.len() implies back.contains(
        as_read(#[trigger] parts[k], slots[k]),
    ) by {
        assert(slots[k] < 4);
        let i = choose|i: int| 0 <= i < order.len() && order[i] == k;
        assert(back[i] == as_read(parts[k], slots[k]));
    }
    crate::gpt_write::slots::lemma_reserved_seated(
        reserved_slots(reserved),
        4,
        reserved.len() as int,
    );
    assert forall|r: int| 0 <= r < reserved.len() implies entry_in(
        sector,
        (#[trigger] reserved[r]).slot as int,
    ) == reserved[r].bytes by {
        assert(reserved_slots(reserved)[r] == reserved[r].slot);
        let i = reserved[r].slot as int;
        assert(slot_holds(entry_in(sector, i), entry_in(base, i), parts, slots, reserved, i));
    }
}

/// A probe of a disk whose MBR was written finds it, unless something says
/// that the disk holds a GPT: a GPT header at LBA 1, or a GPT marker among
/// the entries put back.
pub proof fn lemma_mbr_probe_round_trip(
    content: Seq<u8>,
    size: u64,
    base: Seq<u8>,
    parts: Seq<PartitionView>,
    slots: Seq<u32>,
    reserved: Seq<ReservedView>,
)
    requires
        content.len() >= 512,
        mbr_plan(parts, reserved, size) == Ok::<Seq<u32>, Error>(slots),
        table_written(window(content, 0, 512), base, parts, slots, reserved),
        all_volumes(parts),
        no_volumes(reserved),
        !has_at(lba1_on(content, size), 0, SIGNATURE@),
        forall|r: int|
            0 <= r < reserved.len() ==> role_of((#[trigger] reserved[r]).bytes)
                != EntryRole::GptMarker,
    ensures
        table_found(content, size) == Ok::<(TableKind, Seq<PartitionView>), Error>(
            (TableKind::Mbr, read_back(parts, slots, 4)),
        ),
{
    let sector = window(content, 0, 512);
    lemma_mbr_round_trip(sector, base, parts, slots, reserved, size);
    assert forall|i: int| 0 <= i < 4 implies role_of(#[trigger] entry_in(sector, i))
        != EntryRole::GptMarker by {
        let entry = entry_in(sector, i);
        assert(slot_holds(entry, entry_in(base, i), parts, slots, reserved, i));
        if slot_taken(slots, i) {
            let k = slot_holder(slots, i);
            assert(seats(slots, i, k));
            lemma_plan_is_writable(parts, reserved, size);
            assert(role(parts[k].kind->type_byte) == EntryRole::Volume);
        } else {
            assert forall|k: int| 0 <= k < slots.len() implies #[trigger] slots[k] != i by {
                assert(!seats(slots, i, k));
            }
            if exists|r: int| 0 <= r < reserved.len() && (#[trigger] reserved[r]).slot == i {
                let r = choose|r: int| 0 <= r < reserved.len() && (#[trigger] reserved[r]).slot == i;
                assert(entry == reserved[r].bytes);
            } else {
                assert(entry == zeros(16));
            }
        }
    }
}

/// Volumes are listed with the slot they stand in, each slot once.
proof fn lemma_volumes_listed(lba0: Seq<u8>, n: int)
    requires
        0 <= n <= 4,
    ensures
        forall|k: int|
            0 <= k < volumes(lba0, n).len() ==> {
                let p = #[trigger] volumes(lba0, n)[k];
                &&& p.slot is Some && p.slot->Some_0 < n
                &&& is_volume(entry_in(lba0, p.slot->Some_0 as int))
                &&& p == partition_of(entry_in(lba0, p.slot->Some_0 as int), p.slot->Some_0 as int)
            },
        forall|i: int|
            0 <= i < n && is_volume(#[trigger] entry_in(lba0, i)) ==> volumes(lba0, n).contains(
                partition_of(entry_in(lba0, i), i),
            ),
    decreases n,
{
    if n > 0 {
        lemma_volumes_listed(lba0, n - 1);
        let before = volumes(lba0, n - 1);
        let after = volumes(lba0, n);
        assert forall|i: int| 0 <= i < n && is_volume(
            #[trigger] entry_in(lba0, i),
        ) implies after.contains(partition_of(entry_in(lba0, i), i)) by {
            let p = partition_of(entry_in(lba0, i), i);
            if i == n - 1 {
                assert(after[before.len() as int] == p);
            } else {
                let k = choose|k: int| 0 <= k < before.len() && before[k] == p;
                assert(after[k] == p);
            }
        }
    }
}

/// Entries in use that are no volumes are kept with the slot they stand in.
proof fn lemma_unlisted_kept(lba0: Seq<u8>, n: int)
    requires
        0 <= n <= 4,
    ensures
        forall|r: int|
            0 <= r < unlisted(lba0, n).len() ==> {
                let e = #[trigger] unlisted(lba0, n)[r];
                &&& e.slot < n
                &&& e.bytes == entry_in(lba0, e.slot as int)
                &&& role_of(e.bytes) != EntryRole::Empty
                &&& !is_volume(e.bytes)
            },
        forall|i: int|
            0 <= i < n && role_of(#[trigger] entry_in(lba0, i)) != EntryRole::Empty && !is_volume(
                entry_in(lba0, i),
            ) ==> unlisted(lba0, n).contains(
                ReservedView { slot: i as u32, bytes: entry_in(lba0, i) },
            ),
    decreases n,
{
    if n > 0 {
        lemma_unlisted_kept(lba0, n - 1);
        let before = unlisted(lba0, n - 1);
        let after = unlisted(lba0, n);
        assert forall|i: int|
            0 <= i < n && role_of(#[trigger] entry_in(lba0, i)) != EntryRole::Empty && !is_volume(
                entry_in(lba0, i),
            ) implies after.contains(
            ReservedView { slot: i as u32, bytes: entry_in(lba0, i) },
        ) by {
            let e = ReservedView { slot: i as u32, bytes: entry_in(lba0, i) };
            if i == n - 1 {
                assert(after[before.len() as int] == e);
            } else {
                let r = choose|r: int| 0 <= r < before.len() && before[r] == e;
                assert(after[r] == e);
            }
        }
    }
}

/// The status byte of an entry is one this crate writes.
pub open spec fn plain_status(entry: Seq<u8>) -> bool {
    entry[0] == 0 || entry[0] == STATUS_ACTIVE
}

/// The same number in the same place is the same four bytes.
proof fn lemma_le32_bytes(a: Seq<u8>, b: Seq<u8>, i: int)
    requires
        le32(a, i) == le32(b, i),
    ensures
        a[i] == b[i],
        a[i + 1] == b[i + 1],
        a[i + 2] == b[i + 2],
        a[i + 3] == b[i + 3],
{
    assert(le16(a, i) == le16(b, i));
    assert(le16(a, i + 2) == le16(b, i + 2));
}

/// A commit that changed nothing changes nothing: writing back the volumes
/// of an MBR beside the entries that are none gives the very sector they
/// were read from, its boot code, disk identifier and CHS fields with it.
///
/// The status bytes of the volumes are to be ones this crate writes (0x00 or
/// 0x80), and the free slots blank.
pub proof fn lemma_unchanged_mbr_commit(
    lba0: Seq<u8>,
    sector: Seq<u8>,
    slots: Seq<u32>,
    total: u64,
)
    requires
        lba0.len() == 512,
        signed(lba0),
        forall|i: int|
            0 <= i < 4 && is_volume(#[trigger] entry_in(lba0, i)) ==> plain_status(
                entry_in(lba0, i),
            ),
        forall|i: int|
            0 <= i < 4 && role_of(#[trigger] entry_in(lba0, i)) == EntryRole::Empty ==> entry_in(
                lba0,
                i,
            ) == zeros(16),
        mbr_plan(volumes(lba0, 4), unlisted(lba0, 4), total) == Ok::<Seq<u32>, Error>(slots),
        table_written(sector, lba0, volumes(lba0, 4), slots, unlisted(lba0, 4)),
    ensures
        sector == lba0,
{
    let parts = volumes(lba0, 4);
    let reserved = unlisted(lba0, 4);
    lemma_volumes_listed(lba0, 4);
    lemma_unlisted_kept(lba0, 4);
    lemma_plan_is_writable(parts, reserved, total);
    assert forall|k: int| 0 <= k < slots.len() implies #[trigger] slots[k]
        == parts[k].slot->Some_0 by {
        assert(claims(parts)[k] == parts[k].slot);
    }
    assert forall|i: int| 0 <= i < 4 implies #[trigger] entry_in(sector, i) == entry_in(
        lba0,
        i,
    ) by {
        let entry = entry_in(sector, i);
        let was = entry_in(lba0, i);
        assert(slot_holds(entry, was, parts, slots, reserved, i));
        if is_volume(was) {
            let p = partition_of(was, i);
            let k = choose|k: int| 0 <= k < parts.len() && parts[k] == p;
            assert(slots[k] == i);
            assert(describes(entry, p, was));
            assert(p.start / 512 == le32(was, 8));
            assert(p.length / 512 == le32(was, 12));
            lemma_le32_bytes(entry, was, 8);
            lemma_le32_bytes(entry, was, 12);
            assert(0x80u8 & 0x80u8 != 0u8 && 0u8 & 0x80u8 == 0u8) by (bit_vector);
            assert(plain_status(was));
            assert(entry =~= was);
        } else if role_of(was) != EntryRole::Empty {
            let e = ReservedView { slot: i as u32, bytes: was };
            assert(reserved.contains(e));
            let r = choose|r: int| 0 <= r < reserved.len() && reserved[r] == e;
            assert(reserved[r].slot == i);
        } else {
            assert forall|k: int| 0 <= k < slots.len() implies #[trigger] slots[k] != i by {
                assert(parts[k].slot is Some);
            }
            assert forall|r: int| 0 <= r < reserved.len() implies (#[trigger] reserved[r]).slot
                != i by {}
        }
    }
    assert forall|b: int| 0 <= b < 512 implies sector[b] == lba0[b] by {
        if b < 446 {
            assert(sector.take(446)[b] == lba0.take(446)[b]);
        } else if b < 510 {
            let i = (b - 446) / 16;
            assert(entry_in(sector, i) == entry_in(lba0, i));
            assert(entry_in(sector, i)[b - 446 - 16 * i] == sector[b]);
            assert(entry_in(lba0, i)[b - 446 - 16 * i] == lba0[b]);
        }
    }
    assert(sector =~= lba0);
}

/// A walk that finds nothing wrong has found each partition behind the end
/// of all before it.
proof fn lemma_walk_ascends(
    parts: Seq<PartitionView>,
    order: Seq<int>,
    k: int,
    prev: Option<u64>,
    total: u64,
    at: int,
)
    requires
        0 <= k <= at < parts.len(),
        mbr_walk(parts, order, k, prev, total) is None,
        prev is Some,
    ensures
        prev->Some_0 < span(parts[order[at]])->Ok_0.0,
        span(parts[order[at]]) is Ok,
    decreases parts.len() - k,
{
    let p = parts[order[k]];
    assert(mbr_fault(p, total) is None);
    if k < at {
        let end = span(p)->Ok_0.1;
        lemma_walk_ascends(parts, order, k + 1, Some(end), total, at);
    }
}

proof fn lemma_walk_separates(
    parts: Seq<PartitionView>,
    order: Seq<int>,
    k: int,
    prev: Option<u64>,
    total: u64,
    a: int,
    b: int,
)
    requires
        0 <= k <= a < b < parts.len(),
        mbr_walk(parts, order, k, prev, total) is None,
    ensures
        span(parts[order[a]]) is Ok,
        span(parts[order[b]]) is Ok,
        span(parts[order[a]])->Ok_0.1 < span(parts[order[b]])->Ok_0.0,
    decreases parts.len() - k,
{
    let p = parts[order[k]];
    let end = span(p)->Ok_0.1;
    if k < a {
        lemma_walk_separates(parts, order, k + 1, Some(end), total, a, b);
    } else {
        lemma_walk_ascends(parts, order, k + 1, Some(end), total, b);
    }
}

/// An MBR is only written with partitions that share no sector with one
/// another, nor with what is kept beside them.
pub proof fn lemma_written_mbr_is_disjoint(
    parts: Seq<PartitionView>,
    reserved: Seq<ReservedView>,
    total: u64,
    i: int,
    j: int,
)
    requires
        mbr_plan(parts, reserved, total) is Ok,
        0 <= i < parts.len(),
        0 <= j < parts.len(),
        i != j,
    ensures
        span(parts[i]) is Ok,
        span(parts[j]) is Ok,
        !share_sector(span(parts[i])->Ok_0, span(parts[j])->Ok_0),
        forall|r: int|
            0 <= r < reserved.len() ==> !over_reserved(parts[i], (#[trigger] reserved[r]).bytes),
{
    let keys = part_starts(parts);
    let order = key_order(keys, parts.len() as int);
    lemma_key_order_sorts(keys, parts.len() as int);
    assert(order.contains(i) && order.contains(j));
    let a = choose|a: int| 0 <= a < order.len() && order[a] == i;
    let b = choose|b: int| 0 <= b < order.len() && order[b] == j;
    if a < b {
        lemma_walk_separates(parts, order, 0, None, total, a, b);
    } else {
        lemma_walk_separates(parts, order, 0, None, total, b, a);
    }
}

} // verus!
