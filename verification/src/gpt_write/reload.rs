//! The set that is read back from a disk a GPT set was written to.

use vstd::prelude::*;

use crate::codec::{window, zeros};
use crate::error::Error;
use crate::gpt::{
    array_len, array_misplaced, array_on, entry_bytes, header_in, holds_uuid, lemma_slot_inside,
    lemma_tails_in, partitions_in, slot_used, table_on, tail_bytes, tails_agree, tails_in, tails_of_entries,
    type_guids, unused, uuid_bytes,
};
use crate::gpt_write::geometry::{lemma_usable_range_is_clear_of_the_table, GptGeometry};
use crate::gpt_write::image::{array_holds, entry_holds, padded, slot_entry, tail_of};
use crate::gpt_write::plan::{gpt_fault, gpt_plan, lemma_gpt_plan_is_writable, GptPlanView};
use crate::gpt_write::round_trip::{
    labels_whole, lemma_gpt_round_trip, lemma_header_round_trip, read_back, seats, slot_holder,
    slot_taken,
};
use crate::gpt_write::unchanged::{
    lemma_clean_table_is_writable, lemma_listed_read_back, lemma_unchanged_gpt_commit,
};
use crate::gpt_write::{gpt_image, header_plan};
use crate::mbr::in_use;
use crate::mutation::{geometry_of, set_on, table_of, SetView};
use crate::probe::{lba1_on, PartitionView, TableKind};

verus! {

/// The tails as they are read back: one for each partition, cut or padded to
/// the room its entry has.
pub open spec fn tails_back(
    parts: Seq<PartitionView>,
    tails: Map<Seq<u8>, Seq<u8>>,
    size: int,
) -> Map<Seq<u8>, Seq<u8>> {
    Map::new(
        |uuid: Seq<u8>|
            exists|k: int| 0 <= k < parts.len() && (#[trigger] parts[k]).uuid == Some(uuid),
        |uuid: Seq<u8>| padded(tail_of(tails, uuid), (size - 128) as nat),
    )
}

/// A slot in use holds the partition that went into it.
proof fn lemma_used_slot(
    array: Seq<u8>,
    parts: Seq<PartitionView>,
    slots: Seq<u32>,
    tails: Map<Seq<u8>, Seq<u8>>,
    num: int,
    size: int,
    i: int,
) -> (k: int)
    requires
        size >= 128,
        0 <= i < num,
        slots.len() == parts.len(),
        array_holds(array, parts, slots, tails, num, size),
        slot_used(array, size, i),
    ensures
        0 <= k < parts.len(),
        slots[k] == i,
        parts[k].uuid == Some(uuid_bytes(array, size, i)),
        tail_bytes(array, size, i) == padded(
            tail_of(tails, uuid_bytes(array, size, i)),
            (size - 128) as nat,
        ),
{
    let entry = entry_bytes(array, size, i);
    assert(slot_entry(entry, parts, slots, tails, size, i));
    if !slot_taken(slots, i) {
        assert forall|k: int| 0 <= k < slots.len() implies #[trigger] slots[k] != i by {
            assert(!seats(slots, i, k));
        }
        assert(entry == zeros(size as nat));
        assert(entry.take(16) =~= type_guids::UNUSED@);
    }
    let k = slot_holder(slots, i);
    assert(seats(slots, i, k));
    assert(entry_holds(entry, parts[k], tails, size));
    k
}

/// The tails of an array that was written are read back.
proof fn lemma_tails_round_trip(
    array: Seq<u8>,
    parts: Seq<PartitionView>,
    slots: Seq<u32>,
    tails: Map<Seq<u8>, Seq<u8>>,
    num: int,
    size: int,
    first: u64,
    last: u64,
)
    requires
        size >= 128,
        slots.len() == parts.len(),
        forall|k: int| 0 <= k < slots.len() ==> #[trigger] slots[k] < num,
        forall|k: int| 0 <= k < parts.len() ==> gpt_fault(#[trigger] parts[k], first, last) is None,
        array_holds(array, parts, slots, tails, num, size),
    ensures
        tails_agree(array, size, num),
        tails_in(array, size, num) == tails_back(parts, tails, size),
{
    let back = tails_back(parts, tails, size);
    assert forall|i: int, j: int|
        0 <= i < num && 0 <= j < num && #[trigger] slot_used(array, size, i)
            && #[trigger] slot_used(array, size, j) && uuid_bytes(array, size, i) == uuid_bytes(
            array,
            size,
            j,
        ) implies tail_bytes(array, size, i) == tail_bytes(array, size, j) by {
        let _ = lemma_used_slot(array, parts, slots, tails, num, size, i);
        let _ = lemma_used_slot(array, parts, slots, tails, num, size, j);
    }
    assert(tails_of_entries(back, array, size, num)) by {
        assert forall|i: int| 0 <= i < num && #[trigger] slot_used(array, size, i) implies
            back.contains_key(uuid_bytes(array, size, i)) && back[uuid_bytes(array, size, i)]
            == tail_bytes(array, size, i) by {
            let k = lemma_used_slot(array, parts, slots, tails, num, size, i);
            assert(parts[k].uuid == Some(uuid_bytes(array, size, i)));
        }
        assert forall|uuid: Seq<u8>| #[trigger] back.contains_key(uuid) implies exists|i: int|
            0 <= i < num && #[trigger] slot_used(array, size, i) && uuid_bytes(array, size, i)
                == uuid by {
            let k = choose|k: int| 0 <= k < parts.len() && (#[trigger] parts[k]).uuid == Some(uuid);
            let i = slots[k] as int;
            let entry = entry_bytes(array, size, i);
            assert(slot_entry(entry, parts, slots, tails, size, i));
            assert(entry_holds(entry, parts[k], tails, size));
            assert(gpt_fault(parts[k], first, last) is None);
            assert(!unused(entry));
            assert(slot_used(array, size, i));
        }
    }
    lemma_tails_in(back, array, size, num);
}

/// The set as it is read back: its partitions in their slots, its shape with
/// the usable range that was written, and the MBR in front as it now is.
pub open spec fn reloaded(s: SetView, after: Seq<u8>, size: u64, plan: GptPlanView) -> SetView {
    SetView {
        table_kind: TableKind::Gpt,
        parts: read_back(s.parts, plan.slots, s.geometry.num_entries as int),
        disk_size: size,
        disk_guid: s.disk_guid,
        geometry: GptGeometry {
            declared_usable: Some((plan.first_usable, plan.last_usable)),
            ..s.geometry
        },
        reserved: in_use(window(after, 0, 512), 4),
        tails: if s.geometry.entry_size == 128 {
            Map::empty()
        } else {
            tails_back(s.parts, s.tails, s.geometry.entry_size as int)
        },
    }
}

/// The set that is read from a disk a GPT set was written to says what that
/// one said: its disk GUID, the shape of its table, its partitions and what
/// follows the standard bytes of their entries.
///
/// The table's shape is to be one the reader takes (at most 4096 entries of
/// at most 4096 bytes), and no label may hold a zero character.
pub proof fn lemma_written_gpt_set_is_reloaded(
    before: Seq<u8>,
    after: Seq<u8>,
    size: u64,
    s: SetView,
    plan: GptPlanView,
)
    requires
        s.table_kind == TableKind::Gpt,
        gpt_plan(s.parts, s.geometry, size as int / 512) == Ok::<GptPlanView, Error>(plan),
        gpt_image(before, after, table_of(s), plan, size as int / 512),
        s.geometry.num_entries <= 4096,
        s.geometry.entry_size <= 4096,
        labels_whole(s.parts),
    ensures
        set_on(after, size) == Ok::<SetView, Error>(reloaded(s, after, size, plan)),
{
    let t = table_of(s);
    let total = size as int / 512;
    let num = s.geometry.num_entries as int;
    let entry_size = s.geometry.entry_size as int;
    lemma_gpt_round_trip(before, after, size, t, plan);
    lemma_gpt_plan_is_writable(s.parts, s.geometry, total);
    lemma_usable_range_is_clear_of_the_table(s.geometry, total);
    let len = s.geometry.bytes_spec() as nat;
    let array = window(after, s.geometry.entry_lba * 512, len);
    let lba1 = window(after, 512, 512);
    assert(lba1_on(after, size) == lba1);
    lemma_header_round_trip(
        lba1,
        header_plan(t, plan, array, 1, total - 1, s.geometry.entry_lba as int),
    );
    let h = header_in(lba1)->Ok_0;
    assert(geometry_of(h) == reloaded(s, after, size, plan).geometry);
    assert(array_len(h) == s.geometry.bytes_spec());
    assert(array_misplaced(h, size) is None);
    assert(array_on(after, size, h) == Ok::<Seq<u8>, Error>(array));
    lemma_tails_round_trip(
        array,
        s.parts,
        plan.slots,
        s.tails,
        num,
        entry_size,
        plan.first_usable,
        plan.last_usable,
    );
}

/// The UUIDs of the partitions listed from an array are those of its entries
/// in use.
proof fn lemma_listed_uuids(array: Seq<u8>, size: int, n: int, uuid: Seq<u8>)
    requires
        partitions_in(array, size, n) is Ok,
    ensures
        (exists|i: int| holds_uuid(array, size, n, uuid, i)) <==> (exists|k: int|
            0 <= k < partitions_in(array, size, n)->Ok_0.len() && (#[trigger] partitions_in(
                array,
                size,
                n,
            )->Ok_0[k]).uuid == Some(uuid)),
    decreases n,
{
    if n > 0 {
        let m = n - 1;
        lemma_listed_uuids(array, size, m, uuid);
        let before = partitions_in(array, size, n - 1)->Ok_0;
        let after = partitions_in(array, size, n)->Ok_0;
        if exists|i: int| holds_uuid(array, size, n, uuid, i) {
            let i = choose|i: int| holds_uuid(array, size, n, uuid, i);
            if i < n - 1 {
                assert(holds_uuid(array, size, m, uuid, i));
                let k = choose|k: int| 0 <= k < before.len() && (#[trigger] before[k]).uuid == Some(uuid);
                assert(after[k].uuid == Some(uuid));
            } else {
                assert(after[before.len() as int].uuid == Some(uuid));
            }
        }
        if exists|k: int| 0 <= k < after.len() && (#[trigger] after[k]).uuid == Some(uuid) {
            let k = choose|k: int| 0 <= k < after.len() && (#[trigger] after[k]).uuid == Some(uuid);
            if k < before.len() {
                assert(before[k].uuid == Some(uuid));
                let i = choose|i: int| holds_uuid(array, size, m, uuid, i);
                assert(holds_uuid(array, size, n, uuid, i));
            } else {
                assert(holds_uuid(array, size, n, uuid, n - 1));
            }
        }
    }
}

/// Tails that were read from an array come back as they are with the
/// partitions listed from it.
proof fn lemma_tails_stay(array: Seq<u8>, size: int, n: int, parts: Seq<PartitionView>)
    requires
        size >= 128,
        array.len() == n * size,
        partitions_in(array, size, n) is Ok,
        parts.len() == partitions_in(array, size, n)->Ok_0.len(),
        forall|k: int|
            0 <= k < parts.len() ==> (#[trigger] parts[k]).uuid == partitions_in(
                array,
                size,
                n,
            )->Ok_0[k].uuid,
    ensures
        tails_back(parts, tails_in(array, size, n), size) == tails_in(array, size, n),
{
    let raw = partitions_in(array, size, n)->Ok_0;
    let tails = tails_in(array, size, n);
    let back = tails_back(parts, tails, size);
    assert forall|uuid: Seq<u8>|
        #![trigger back.dom().contains(uuid)]
        #![trigger tails.dom().contains(uuid)]
        back.contains_key(uuid) == tails.contains_key(uuid) && (tails.contains_key(uuid)
            ==> back[uuid] == tails[uuid]) by {
        lemma_listed_uuids(array, size, n, uuid);
        if tails.contains_key(uuid) {
            let k = choose|k: int| 0 <= k < raw.len() && (#[trigger] raw[k]).uuid == Some(uuid);
            assert(parts[k].uuid == Some(uuid));
            let i = choose|i: int| holds_uuid(array, size, n, uuid, i);
            lemma_slot_inside(i, n, size);
            assert(tails[uuid].len() == size - 128);
            assert(back[uuid] =~= tails[uuid]);
        }
        if back.contains_key(uuid) {
            let k = choose|k: int| 0 <= k < parts.len() && (#[trigger] parts[k]).uuid == Some(uuid);
            assert(raw[k].uuid == Some(uuid));
        }
    }
    assert(back =~= tails);
}

/// A commit that changed nothing gives the same set back: a GPT that the
/// reader finds nothing wrong with, probed into a set and written, is probed
/// into that set again; only the MBR in front may have been drawn anew.
///
/// The header's usable range is to be one that the table's own metadata
/// leaves free.
pub proof fn lemma_unchanged_gpt_set_is_reloaded(
    content: Seq<u8>,
    after: Seq<u8>,
    size: u64,
    s: SetView,
    plan: GptPlanView,
)
    requires
        set_on(content, size) == Ok::<SetView, Error>(s),
        s.table_kind == TableKind::Gpt,
        forall|i: int| 0 <= i < s.parts.len() ==> (#[trigger] s.parts[i]).issues == 0,
        gpt_plan(s.parts, s.geometry, size as int / 512) == Ok::<GptPlanView, Error>(plan),
        gpt_image(content, after, table_of(s), plan, size as int / 512),
    ensures
        set_on(after, size) == Ok::<SetView, Error>(
            SetView { reserved: in_use(window(after, 0, 512), 4), ..s },
        ),
{
    let h = header_in(lba1_on(content, size))->Ok_0;
    let num = h.num_partition_entries as int;
    let entry_size = h.partition_entry_size as int;
    let array = array_on(content, size, h)->Ok_0;
    lemma_unchanged_gpt_commit(content, after, size, s);
    assert(table_on(content, size, h) == Ok::<Seq<PartitionView>, Error>(s.parts));
    lemma_clean_table_is_writable(content, size, h);
    lemma_listed_read_back(s.parts, num);
    lemma_written_gpt_set_is_reloaded(content, after, size, s, plan);
    if entry_size != 128 {
        lemma_tails_stay(array, entry_size, num, s.parts);
    }
}

} // verus!
