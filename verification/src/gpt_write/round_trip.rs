//! What a GPT that was written says when it is read.

use vstd::prelude::*;

use crate::codec::{has_at, le16, le32, window, zeros};
use crate::crc::crc32;
use crate::error::Error;
use crate::gpt::{
    array_len, array_misplaced, backup_on, backup_status, by_start, entry_bytes, entry_issue,
    first_difference, forwards, header_in, issues_of, judged, lba_span, lba_spans,
    lemma_runs_into_is_sharing, overlapped, partition_in, partitions_in, runs_into, share_sector,
    table_on, type_guids, unused, BackupStatus, HeaderView, SIGNATURE,
};
use crate::gpt_write::geometry::lemma_usable_range_is_clear_of_the_table;
use crate::gpt_write::image::{array_holds, entry_holds, header_written, slot_entry, HeaderPlan};
use crate::gpt_write::plan::{
    gpt_fault, gpt_plan, lemma_gpt_plan_is_writable, lemma_range_bits, spans_of, GptPlanView,
};
use crate::gpt_write::{backup_entry_lba, gpt_image, header_plan, GptTable};
use crate::label::{field_units, fitting, lemma_label_round_trip, NAME_UNITS};
use crate::probe::{
    lba1_on, span, table_found, table_recovered, PartitionView, TableKind, TableSource,
};

verus! {

/// A label as it is read back: as much of it as fits, nothing of an empty
/// one.
pub open spec fn label_back(label: Option<Seq<char>>) -> Option<Seq<char>> {
    match label {
        None => None,
        Some(chars) => if chars.len() == 0 {
            None
        } else {
            Some(fitting(chars, NAME_UNITS as int))
        },
    }
}

/// A partition as it is read back from the slot it was written into.
pub open spec fn as_read(p: PartitionView, slot: u32) -> PartitionView {
    PartitionView { label: label_back(p.label), slot: Some(slot), issues: entry_issue::NONE, ..p }
}

/// The slot `s` is that of the `k`th partition.
pub open spec fn seats(slots: Seq<u32>, s: int, k: int) -> bool {
    0 <= k < slots.len() && slots[k] == s
}

/// Some partition went into slot `s`.
pub open spec fn slot_taken(slots: Seq<u32>, s: int) -> bool {
    exists|k: int| seats(slots, s, k)
}

/// The partition that went into slot `s`.
pub open spec fn slot_holder(slots: Seq<u32>, s: int) -> int {
    choose|k: int| seats(slots, s, k)
}

/// Which partitions went into the slots below `n`, in slot order.
pub open spec fn slot_order(slots: Seq<u32>, n: int) -> Seq<int>
    decreases n,
{
    if n <= 0 {
        Seq::empty()
    } else if slot_taken(slots, n - 1) {
        slot_order(slots, n - 1).push(slot_holder(slots, n - 1))
    } else {
        slot_order(slots, n - 1)
    }
}

/// The partitions in the slots below `n` as they are read back, in slot
/// order.
pub open spec fn read_back(
    parts: Seq<PartitionView>,
    slots: Seq<u32>,
    n: int,
) -> Seq<PartitionView> {
    slot_order(slots, n).map_values(|k: int| as_read(parts[k], slots[k]))
}

/// No label holds a zero character, which would end its field early.
pub open spec fn labels_whole(parts: Seq<PartitionView>) -> bool {
    forall|k: int|
        0 <= k < parts.len() && (#[trigger] parts[k]).label is Some ==> !parts[k].label->Some_0.contains(
            '\0',
        )
}

/// The order by slot visits partitions, none twice, and all of those in the
/// slots below `n`.
pub proof fn lemma_slot_order(slots: Seq<u32>, n: int)
    requires
        forall|j: int, k: int| 0 <= j < k < slots.len() ==> #[trigger] slots[j] != #[trigger] slots[k],
    ensures
        forall|i: int|
            0 <= i < slot_order(slots, n).len() ==> 0 <= (#[trigger] slot_order(slots, n)[i])
                < slots.len() && slots[slot_order(slots, n)[i]] < n,
        forall|i: int, j: int|
            0 <= i < j < slot_order(slots, n).len() ==> slots[#[trigger] slot_order(slots, n)[i]]
                < slots[#[trigger] slot_order(slots, n)[j]],
        forall|k: int|
            0 <= k < slots.len() && #[trigger] slots[k] < n ==> slot_order(slots, n).contains(k),
    decreases n,
{
    if n > 0 {
        lemma_slot_order(slots, n - 1);
        let before = slot_order(slots, n - 1);
        let after = slot_order(slots, n);
        assert forall|k: int| 0 <= k < slots.len() && #[trigger] slots[k] < n implies after.contains(
            k,
        ) by {
            if slots[k] < n - 1 {
                assert(before.contains(k));
                let i = choose|i: int| 0 <= i < before.len() && before[i] == k;
                assert(after[i] == k);
            } else {
                assert(seats(slots, n - 1, k));
                let m = slot_holder(slots, n - 1);
                assert(m == k) by {
                    if m < k {
                        assert(slots[m] != slots[k]);
                    } else if k < m {
                        assert(slots[k] != slots[m]);
                    }
                }
                assert(after[before.len() as int] == k);
            }
        }
    } else {
        assert forall|k: int| 0 <= k < slots.len() && #[trigger] slots[k] < n implies slot_order(
            slots,
            n,
        ).contains(k) by {}
    }
}

/// As many come back as went in.
proof fn lemma_slot_order_len(slots: Seq<u32>, n: int)
    requires
        forall|j: int, k: int| 0 <= j < k < slots.len() ==> #[trigger] slots[j] != #[trigger] slots[k],
        forall|k: int| 0 <= k < slots.len() ==> #[trigger] slots[k] < n,
    ensures
        slot_order(slots, n).len() == slots.len(),
{
    lemma_slot_order(slots, n);
    let order = slot_order(slots, n);
    let all = Seq::new(slots.len(), |k: int| k);
    assert(order.no_duplicates()) by {
        assert forall|i: int, j: int| 0 <= i < order.len() && 0 <= j < order.len() && i
            != j implies order[i] != order[j] by {
            if i < j {
                assert(slots[order[i]] < slots[order[j]]);
            } else {
                assert(slots[order[j]] < slots[order[i]]);
            }
        }
    }
    assert(all.no_duplicates());
    assert(order.to_set() =~= all.to_set()) by {
        assert forall|k: int| order.to_set().contains(k) <==> all.to_set().contains(k) by {
            if order.to_set().contains(k) {
                let i = choose|i: int| 0 <= i < order.len() && order[i] == k;
                assert(all[order[i]] == k);
            }
            if all.to_set().contains(k) {
                let i = choose|i: int| 0 <= i < all.len() && all[i] == k;
                assert(slots[k] < n);
                assert(order.contains(k));
            }
        }
    }
    order.unique_seq_to_set();
    all.unique_seq_to_set();
}

/// What a header that was written says.
pub open spec fn header_read(h: HeaderPlan, crc: u32) -> HeaderView {
    HeaderView {
        my_lba: h.my_lba,
        alternate_lba: h.alternate_lba,
        first_usable_lba: h.first_usable,
        last_usable_lba: h.last_usable,
        disk_guid: h.disk_guid,
        partition_entry_lba: h.entry_lba,
        num_partition_entries: h.num_entries,
        partition_entry_size: h.entry_size,
        partition_entry_array_crc32: h.array_crc,
        header_crc32: crc,
        header_size: 92,
    }
}

/// A header that was written is read back field by field, as long as the
/// table's shape is one the reader takes.
pub proof fn lemma_header_round_trip(sector: Seq<u8>, h: HeaderPlan)
    requires
        header_written(sector, h),
        h.num_entries <= 4096,
        128 <= h.entry_size <= 4096,
        crate::gpt::doubles_128(h.entry_size as int),
    ensures
        header_in(sector) == Ok::<HeaderView, Error>(
            header_read(h, le32(sector, 16) as u32),
        ),
{
    assert(le16(sector, 10) == 1);
    assert(sector.subrange(56, 72) == h.disk_guid);
}

/// An entry that was written is read back as the partition it was written
/// for.
proof fn lemma_entry_round_trip(
    entry: Seq<u8>,
    p: PartitionView,
    tails: Map<Seq<u8>, Seq<u8>>,
    size: int,
    slot: u32,
    first: u64,
    last: u64,
)
    requires
        size >= 128,
        entry_holds(entry, p, tails, size),
        gpt_fault(p, first, last) is None,
        p.label is Some ==> !p.label->Some_0.contains('\0'),
    ensures
        !unused(entry),
        partition_in(entry, slot as int) == Ok::<PartitionView, Error>(as_read(p, slot)),
        lba_span(as_read(p, slot)) == span(p)->Ok_0,
{
    let (start_lba, end_lba) = span(p)->Ok_0;
    assert(start_lba * 512 == p.start);
    assert((end_lba - start_lba + 1) * 512 == p.length);
    match p.label {
        Some(chars) => {
            lemma_label_round_trip(chars);
        },
        None => {
            let field = zeros(72);
            assert(field_units(field, 0) =~= Seq::<u16>::empty());
        },
    }
}

/// The slots of an array that was written are read back in order.
proof fn lemma_slots_round_trip(
    array: Seq<u8>,
    parts: Seq<PartitionView>,
    slots: Seq<u32>,
    tails: Map<Seq<u8>, Seq<u8>>,
    num: int,
    size: int,
    first: u64,
    last: u64,
    n: int,
)
    requires
        size >= 128,
        0 <= n <= num <= u32::MAX,
        slots.len() == parts.len(),
        array_holds(array, parts, slots, tails, num, size),
        labels_whole(parts),
        forall|k: int| 0 <= k < parts.len() ==> gpt_fault(#[trigger] parts[k], first, last) is None,
    ensures
        partitions_in(array, size, n) == Ok::<Seq<PartitionView>, Error>(
            read_back(parts, slots, n),
        ),
    decreases n,
{
    if n > 0 {
        lemma_slots_round_trip(array, parts, slots, tails, num, size, first, last, n - 1);
        let entry = entry_bytes(array, size, n - 1);
        assert(slot_entry(entry, parts, slots, tails, size, n - 1));
        let before = slot_order(slots, n - 1);
        if slot_taken(slots, n - 1) {
            let k = slot_holder(slots, n - 1);
            assert(slots[k] == n - 1);
            lemma_entry_round_trip(entry, parts[k], tails, size, slots[k], first, last);
            assert(read_back(parts, slots, n) =~= read_back(parts, slots, n - 1).push(
                as_read(parts[k], slots[k]),
            ));
        } else {
            assert forall|k: int| 0 <= k < slots.len() implies #[trigger] slots[k] != n - 1 by {
                assert(!seats(slots, n - 1, k));
            }
            assert(entry == zeros(size as nat));
            assert(entry.take(16) =~= type_guids::UNUSED@);
        }
    } else {
        assert(read_back(parts, slots, n) =~= Seq::<PartitionView>::empty());
    }
}

/// Partitions that were written break no rule when they are read.
proof fn lemma_read_back_is_clean(
    parts: Seq<PartitionView>,
    slots: Seq<u32>,
    num: int,
    first: u64,
    last: u64,
)
    requires
        slots.len() == parts.len(),
        forall|j: int, k: int| 0 <= j < k < slots.len() ==> #[trigger] slots[j] != #[trigger] slots[k],
        forall|k: int| 0 <= k < parts.len() ==> gpt_fault(#[trigger] parts[k], first, last) is None,
        forall|k: int| 0 <= k < parts.len() ==> !#[trigger] overlapped(spans_of(parts), k),
    ensures
        judged(read_back(parts, slots, num), first as int, last as int) == read_back(
            parts,
            slots,
            num,
        ),
{
    let order = slot_order(slots, num);
    let back = read_back(parts, slots, num);
    lemma_slot_order(slots, num);
    let spans = lba_spans(back);
    let own = spans_of(parts);
    assert forall|i: int| 0 <= i < back.len() implies #[trigger] spans[i] == own[order[i]] by {
        let p = parts[order[i]];
        assert(gpt_fault(p, first, last) is None);
        let (start_lba, end_lba) = span(p)->Ok_0;
        assert(start_lba * 512 == p.start);
        assert((end_lba - start_lba + 1) * 512 == p.length);
    }
    assert forall|k: int| 0 <= k < own.len() implies (#[trigger] own[k]).0 <= own[k].1 by {
        assert(gpt_fault(parts[k], first, last) is None);
    }
    assert forall|i: int| 0 <= i < back.len() implies !#[trigger] overlapped(spans, i) by {
        if overlapped(spans, i) {
            let j = choose|j: int| 0 <= j < spans.len() && j != i && #[trigger] runs_into(spans, i, j);
            assert(forwards(spans));
            lemma_runs_into_is_sharing(spans, i, j);
            assert(share_sector(own[order[i]], own[order[j]]));
            assert(order[i] != order[j]) by {
                if i < j {
                    assert(slots[order[i]] < slots[order[j]]);
                } else {
                    assert(slots[order[j]] < slots[order[i]]);
                }
            }
            lemma_runs_into_is_sharing(own, order[i], order[j]);
            assert(runs_into(own, order[i], order[j]));
            assert(overlapped(own, order[i]));
        }
    }
    assert forall|i: int| 0 <= i < back.len() implies judged(back, first as int, last as int)[i]
        == back[i] by {
        let p = parts[order[i]];
        assert(gpt_fault(p, first, last) is None);
        assert(spans[i] == own[order[i]]);
        lemma_range_bits(spans[i].0 as int, spans[i].1 as int, first as int, last as int);
        assert(!overlapped(spans, i));
        assert(0u32 | 0u32 == 0u32) by (bit_vector);
        assert(issues_of(back, first as int, last as int, i) == 0);
    }
    assert(judged(back, first as int, last as int) =~= back);
}

/// One copy of a table that was written is read back.
proof fn lemma_copy_round_trip(
    content: Seq<u8>,
    size: u64,
    t: GptTable,
    plan: GptPlanView,
    total_sectors: int,
    sector: Seq<u8>,
    array: Seq<u8>,
    h: HeaderPlan,
)
    requires
        total_sectors == size / 512,
        gpt_plan(t.parts, t.geometry, total_sectors) == Ok::<GptPlanView, Error>(plan),
        t.geometry.num_entries <= 4096,
        t.geometry.entry_size <= 4096,
        labels_whole(t.parts),
        total_sectors * 512 <= content.len(),
        header_written(sector, h),
        h.num_entries == t.geometry.num_entries,
        h.entry_size == t.geometry.entry_size,
        h.first_usable == plan.first_usable,
        h.last_usable == plan.last_usable,
        h.array_crc == crc32(array),
        h.entry_lba * 512 + t.geometry.bytes_spec() <= total_sectors * 512,
        window(content, h.entry_lba * 512, t.geometry.bytes_spec() as nat) == array,
        array_holds(
            array,
            t.parts,
            plan.slots,
            t.tails,
            t.geometry.num_entries as int,
            t.geometry.entry_size as int,
        ),
    ensures
        header_in(sector) is Ok,
        header_in(sector)->Ok_0.my_lba == h.my_lba,
        table_on(content, size, header_in(sector)->Ok_0) == Ok::<Seq<PartitionView>, Error>(
            read_back(t.parts, plan.slots, t.geometry.num_entries as int),
        ),
{
    lemma_gpt_plan_is_writable(t.parts, t.geometry, total_sectors);
    lemma_header_round_trip(sector, h);
    let read = header_in(sector)->Ok_0;
    assert(array_len(read) == t.geometry.bytes_spec());
    assert(array_misplaced(read, size) is None);
    lemma_slots_round_trip(
        array,
        t.parts,
        plan.slots,
        t.tails,
        t.geometry.num_entries as int,
        t.geometry.entry_size as int,
        plan.first_usable,
        plan.last_usable,
        t.geometry.num_entries as int,
    );
    lemma_read_back_is_clean(
        t.parts,
        plan.slots,
        t.geometry.num_entries as int,
        plan.first_usable,
        plan.last_usable,
    );
}

/// A list compared with itself has no difference.
proof fn lemma_no_difference(parts: Seq<PartitionView>, k: int)
    ensures
        first_difference(parts, parts, k) == BackupStatus::Agrees,
    decreases parts.len() - k,
{
    if k < parts.len() {
        lemma_no_difference(parts, k + 1);
    }
}

/// What was written is what is read: a probe of the device finds a GPT with
/// every partition in the slot it was written into, breaking no rule; the
/// backup copy says the same; and the two agree.
///
/// The table's shape is to be one the reader takes (at most 4096 entries of
/// at most 4096 bytes), and no label may hold a zero character. A label
/// comes back cut to what its field holds.
pub proof fn lemma_gpt_round_trip(
    before: Seq<u8>,
    after: Seq<u8>,
    size: u64,
    t: GptTable,
    plan: GptPlanView,
)
    requires
        gpt_plan(t.parts, t.geometry, size as int / 512) == Ok::<GptPlanView, Error>(plan),
        gpt_image(before, after, t, plan, size as int / 512),
        t.geometry.num_entries <= 4096,
        t.geometry.entry_size <= 4096,
        labels_whole(t.parts),
    ensures
        ({
            let back = read_back(t.parts, plan.slots, t.geometry.num_entries as int);
            &&& back.len() == t.parts.len()
            &&& forall|k: int|
                0 <= k < t.parts.len() ==> back.contains(
                    as_read(#[trigger] t.parts[k], plan.slots[k]),
                )
            &&& table_found(after, size) == Ok::<(TableKind, Seq<PartitionView>), Error>(
                (TableKind::Gpt, back),
            )
            &&& backup_on(after, size) == Ok::<Seq<PartitionView>, Error>(back)
            &&& backup_status(after, size, back) == BackupStatus::Agrees
            &&& table_recovered(after, size) == Ok::<
                (TableKind, Seq<PartitionView>, TableSource),
                Error,
            >((TableKind::Gpt, back, TableSource::Primary))
        }),
{
    let total = size as int / 512;
    lemma_gpt_plan_is_writable(t.parts, t.geometry, total);
    lemma_usable_range_is_clear_of_the_table(t.geometry, total);
    let back = read_back(t.parts, plan.slots, t.geometry.num_entries as int);
    let order = slot_order(plan.slots, t.geometry.num_entries as int);
    lemma_slot_order(plan.slots, t.geometry.num_entries as int);
    lemma_slot_order_len(plan.slots, t.geometry.num_entries as int);
    assert forall|k: int| 0 <= k < t.parts.len() implies back.contains(
        as_read(#[trigger] t.parts[k], plan.slots[k]),
    ) by {
        assert(plan.slots[k] < t.geometry.num_entries);
        let i = choose|i: int| 0 <= i < order.len() && order[i] == k;
        assert(back[i] == as_read(t.parts[k], plan.slots[k]));
    }
    let entry_lba = t.geometry.entry_lba as int;
    let len = t.geometry.bytes_spec() as nat;
    let array = window(after, entry_lba * 512, len);
    let lba1 = window(after, 512, 512);
    lemma_copy_round_trip(
        after,
        size,
        t,
        plan,
        total,
        lba1,
        array,
        header_plan(t, plan, array, 1, total - 1, entry_lba),
    );
    assert(lba1_on(after, size) == lba1);
    assert(has_at(lba1, 0, SIGNATURE@));
    let last = window(after, (total - 1) * 512, 512);
    lemma_copy_round_trip(
        after,
        size,
        t,
        plan,
        total,
        last,
        array,
        header_plan(t, plan, array, total - 1, 1, backup_entry_lba(t, total)),
    );
    lemma_no_difference(by_start(back), 0);
}

/// The backup copy alone is enough: on a disk that was written and whose
/// front was then damaged so that no table is found there, the same
/// partitions are recovered from the backup.
pub proof fn lemma_gpt_recovery(
    before: Seq<u8>,
    after: Seq<u8>,
    damaged: Seq<u8>,
    size: u64,
    t: GptTable,
    plan: GptPlanView,
)
    requires
        gpt_plan(t.parts, t.geometry, size as int / 512) == Ok::<GptPlanView, Error>(plan),
        gpt_image(before, after, t, plan, size as int / 512),
        t.geometry.num_entries <= 4096,
        t.geometry.entry_size <= 4096,
        labels_whole(t.parts),
        damaged.len() == after.len(),
        forall|i: int|
            backup_entry_lba(t, size as int / 512) * 512 <= i < after.len() ==> #[trigger] damaged[i]
                == after[i],
        table_found(damaged, size) is Err,
        !(table_found(damaged, size)->Err_0 is UnsupportedSectorSize),
    ensures
        table_recovered(damaged, size) == Ok::<(TableKind, Seq<PartitionView>, TableSource), Error>(
            (
                TableKind::Gpt,
                read_back(t.parts, plan.slots, t.geometry.num_entries as int),
                TableSource::RecoveredFromBackup,
            ),
        ),
{
    let total = size as int / 512;
    lemma_gpt_plan_is_writable(t.parts, t.geometry, total);
    lemma_usable_range_is_clear_of_the_table(t.geometry, total);
    let backup_lba = backup_entry_lba(t, total);
    let len = t.geometry.bytes_spec() as nat;
    let array = window(after, t.geometry.entry_lba * 512, len);
    let last = window(after, (total - 1) * 512, 512);
    assert(window(damaged, (total - 1) * 512, 512) =~= last);
    assert(window(damaged, backup_lba * 512, len) =~= window(after, backup_lba * 512, len));
    lemma_copy_round_trip(
        damaged,
        size,
        t,
        plan,
        total,
        last,
        array,
        header_plan(t, plan, array, total - 1, 1, backup_lba),
    );
}

} // verus!
