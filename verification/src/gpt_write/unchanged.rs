//! Writing back a GPT that was read.

use vstd::prelude::*;

use crate::error::Error;
use crate::gpt::{
    array_on, entry_bytes, entry_issue, forwards, header_in, issues_of, judged, lba_span,
    lba_spans, lemma_runs_into_is_sharing, overlapped, partition_in, partitions_in,
    range_issues_spec, runs_into, table_on, type_guids, unused, HeaderView,
};
use crate::gpt_write::geometry::lemma_usable_range_is_clear_of_the_table;
use crate::gpt_write::plan::{
    gpt_fault, gpt_plan, lemma_no_first_fault, lemma_range_bits, spans_of, GptPlanView,
};
use crate::gpt_write::round_trip::{
    label_back, labels_whole, lemma_gpt_round_trip, read_back, seats, slot_holder, slot_order,
    slot_taken,
};
use crate::gpt_write::slots::{claims, claims_all, lemma_claims_are_honoured};
use crate::gpt_write::gpt_image;
use crate::label::lemma_read_label_fits;
use crate::mutation::sound::well_placed;
use crate::mutation::{geometry_of, meets, set_on, table_of, SetView};
use crate::probe::{lba1_on, span, table_found, PartitionView, TableKind};

verus! {

/// Partitions as a table holds them: each with a slot, a UUID and a type, on
/// sector bounds, its label one that its field holds; in slot order.
pub open spec fn as_listed(parts: Seq<PartitionView>, n: int) -> bool {
    &&& parts.len() <= n
    &&& forall|i: int|
        0 <= i < parts.len() ==> {
            let p = #[trigger] parts[i];
            &&& p.slot is Some && p.slot->Some_0 < n
            &&& p.uuid is Some
            &&& p.kind is Gpt && p.kind->type_guid != type_guids::UNUSED@
            &&& p.start % 512 == 0 && p.length % 512 == 0 && p.length > 0
            &&& label_back(p.label) == p.label
            &&& p.label is Some ==> !p.label->Some_0.contains('\0')
        }
    &&& forall|i: int, j: int|
        0 <= i < j < parts.len() ==> (#[trigger] parts[i]).slot->Some_0 < (
        #[trigger] parts[j]).slot->Some_0
}

proof fn lemma_read_parts_are_listed(array: Seq<u8>, size: int, n: int)
    requires
        0 <= n <= u32::MAX,
        size >= 128,
        array.len() >= n * size,
        partitions_in(array, size, n) is Ok,
    ensures
        as_listed(partitions_in(array, size, n)->Ok_0, n),
        forall|i: int|
            0 <= i < partitions_in(array, size, n)->Ok_0.len() ==> (#[trigger] partitions_in(
                array,
                size,
                n,
            )->Ok_0[i]).issues == entry_issue::NONE,
    decreases n,
{
    if n > 0 {
        crate::gpt::lemma_slot_inside(n - 1, n, size);
        lemma_read_parts_are_listed(array, size, n - 1);
        let entry = entry_bytes(array, size, n - 1);
        let before = partitions_in(array, size, n - 1)->Ok_0;
        let after = partitions_in(array, size, n)->Ok_0;
        if !unused(entry) {
            let p = partition_in(entry, n - 1)->Ok_0;
            assert(after == before.push(p));
            if p.label is Some {
                lemma_read_label_fits(entry.subrange(56, 128));
            }
            assert forall|i: int, j: int| 0 <= i < j < after.len() implies (
            #[trigger] after[i]).slot->Some_0 < (#[trigger] after[j]).slot->Some_0 by {
                if j == before.len() {
                    assert(before[i].slot->Some_0 < n - 1);
                } else {
                    assert(before[i].slot->Some_0 < before[j].slot->Some_0);
                }
            }
            assert forall|i: int| 0 <= i < after.len() implies {
                let p = #[trigger] after[i];
                &&& p.slot is Some && p.slot->Some_0 < n
                &&& p.uuid is Some
                &&& p.kind is Gpt && p.kind->type_guid != type_guids::UNUSED@
                &&& p.start % 512 == 0 && p.length % 512 == 0 && p.length > 0
                &&& label_back(p.label) == p.label
                &&& p.label is Some ==> !p.label->Some_0.contains('\0')
            } by {
                if i < before.len() {
                    assert(after[i] == before[i]);
                }
            }
            assert forall|i: int| 0 <= i < after.len() implies (#[trigger] after[i]).issues
                == entry_issue::NONE by {
                if i < before.len() {
                    assert(after[i] == before[i]);
                }
            }
        }
    }
}

/// A report of no issues says that the span is in range and meets no other.
proof fn lemma_no_issues(parts: Seq<PartitionView>, first: int, last: int, i: int)
    requires
        issues_of(parts, first, last, i) == 0,
    ensures
        first <= lba_spans(parts)[i].0 <= last,
        lba_spans(parts)[i].1 <= last,
        !overlapped(lba_spans(parts), i),
{
    let span = lba_spans(parts)[i];
    let range = range_issues_spec(span.0 as int, span.1 as int, first, last);
    lemma_range_bits(span.0 as int, span.1 as int, first, last);
    assert((range | 4u32) != 0u32) by (bit_vector);
    assert((range | 0u32) == range) by (bit_vector);
}

/// The slots that listed partitions came from.
pub open spec fn own_slots(parts: Seq<PartitionView>) -> Seq<u32> {
    parts.map_values(|p: PartitionView| p.slot->Some_0)
}

/// What the reader finds nothing wrong with lies in the usable range, apart
/// from the others it finds nothing wrong with.
pub proof fn lemma_clean_entries(content: Seq<u8>, size: u64, h: HeaderView)
    requires
        128 <= h.partition_entry_size,
        table_on(content, size, h) is Ok,
        geometry_of(h).usable(size as int / 512) is Ok,
    ensures
        as_listed(table_on(content, size, h)->Ok_0, h.num_partition_entries as int),
        forall|i: int|
            0 <= i < table_on(content, size, h)->Ok_0.len() && (#[trigger] table_on(
                content,
                size,
                h,
            )->Ok_0[i]).issues == 0 ==> well_placed(
                table_on(content, size, h)->Ok_0[i],
                h.first_usable_lba,
                h.last_usable_lba,
            ),
        forall|i: int, j: int|
            0 <= i < table_on(content, size, h)->Ok_0.len() && 0 <= j < table_on(
                content,
                size,
                h,
            )->Ok_0.len() && i != j && (#[trigger] table_on(content, size, h)->Ok_0[i]).issues == 0
                && (#[trigger] table_on(content, size, h)->Ok_0[j]).issues == 0 ==> !meets(
                table_on(content, size, h)->Ok_0[i],
                table_on(content, size, h)->Ok_0[j],
            ),
{
    let n = h.num_partition_entries as int;
    let entry_size = h.partition_entry_size as int;
    let array = array_on(content, size, h)->Ok_0;
    let raw = partitions_in(array, entry_size, n)->Ok_0;
    let parts = table_on(content, size, h)->Ok_0;
    let first = h.first_usable_lba;
    let last = h.last_usable_lba;
    lemma_usable_range_is_clear_of_the_table(geometry_of(h), size as int / 512);
    assert(geometry_of(h).usable(size as int / 512) == Ok::<(u64, u64), Error>((first, last)));
    lemma_read_parts_are_listed(array, entry_size, n);
    assert(parts == judged(raw, first as int, last as int));
    assert(as_listed(parts, n)) by {
        assert forall|i: int, j: int| 0 <= i < j < parts.len() implies (
        #[trigger] parts[i]).slot->Some_0 < (#[trigger] parts[j]).slot->Some_0 by {
            assert(raw[i].slot->Some_0 < raw[j].slot->Some_0);
        }
        assert forall|i: int| 0 <= i < parts.len() implies (#[trigger] parts[i]) == (
        PartitionView { issues: parts[i].issues, ..raw[i] }) by {}
    }
    let spans = lba_spans(raw);
    assert forall|i: int| 0 <= i < parts.len() && (#[trigger] parts[i]).issues == 0 implies
        well_placed(parts[i], first, last) && span(parts[i]) == Ok::<(u64, u64), Error>(spans[i])
        && !overlapped(spans, i) by {
        assert(parts[i].issues == issues_of(raw, first as int, last as int, i));
        lemma_no_issues(raw, first as int, last as int, i);
        let p = raw[i];
        assert(p.issues == 0);
        assert(parts[i] == p);
        assert(spans[i] == lba_span(p));
        assert(p.start / 512 + p.length / 512 - 1 <= u64::MAX);
    }
    assert forall|i: int, j: int|
        0 <= i < parts.len() && 0 <= j < parts.len() && i != j && (#[trigger] parts[i]).issues == 0
            && (#[trigger] parts[j]).issues == 0 implies !meets(parts[i], parts[j]) by {
        assert(!overlapped(spans, i));
        assert(!runs_into(spans, i, j));
    }
}

/// The reader and the writer go by the same rules: a table in which the
/// reader finds nothing wrong is one that the writer takes, in the shape it
/// was found in, every partition in the slot it came from.
pub proof fn lemma_clean_table_is_writable(content: Seq<u8>, size: u64, h: HeaderView)
    requires
        128 <= h.partition_entry_size,
        table_on(content, size, h) is Ok,
        forall|i: int|
            0 <= i < table_on(content, size, h)->Ok_0.len() ==> (#[trigger] table_on(
                content,
                size,
                h,
            )->Ok_0[i]).issues == 0,
        geometry_of(h).usable(size as int / 512) is Ok,
    ensures
        gpt_plan(table_on(content, size, h)->Ok_0, geometry_of(h), size as int / 512) == Ok::<
            GptPlanView,
            Error,
        >(
            GptPlanView {
                first_usable: h.first_usable_lba,
                last_usable: h.last_usable_lba,
                slots: own_slots(table_on(content, size, h)->Ok_0),
            },
        ),
        as_listed(table_on(content, size, h)->Ok_0, h.num_partition_entries as int),
{
    let n = h.num_partition_entries as int;
    let parts = table_on(content, size, h)->Ok_0;
    let first = h.first_usable_lba;
    let last = h.last_usable_lba;
    let spans = spans_of(parts);
    lemma_usable_range_is_clear_of_the_table(geometry_of(h), size as int / 512);
    lemma_clean_entries(content, size, h);
    assert forall|i: int| 0 <= i < parts.len() implies gpt_fault(
        #[trigger] parts[i],
        first,
        last,
    ) is None && well_placed(parts[i], first, last) by {
        assert(parts[i].issues == 0);
    }
    assert forall|i: int| 0 <= i < parts.len() implies !#[trigger] overlapped(spans, i) by {
        if overlapped(spans, i) {
            let j = choose|j: int| 0 <= j < spans.len() && j != i && #[trigger] runs_into(spans, i, j);
            assert(forwards(spans)) by {
                assert forall|k: int| 0 <= k < spans.len() implies (#[trigger] spans[k]).0
                    <= spans[k].1 by {
                    assert(well_placed(parts[k], first, last));
                }
            }
            lemma_runs_into_is_sharing(spans, i, j);
            assert(parts[i].issues == 0 && parts[j].issues == 0);
            assert(!meets(parts[i], parts[j]));
        }
    }
    lemma_no_first_fault(parts, 0, first, last);
    let slots = own_slots(parts);
    assert forall|k: int| 0 <= k < slots.len() implies #[trigger] slots[k] < n by {
        assert(parts[k].slot->Some_0 < n);
    }
    assert forall|j: int, k: int| 0 <= j < k < slots.len() implies #[trigger] slots[j]
        != #[trigger] slots[k] by {
        assert(parts[j].slot->Some_0 < parts[k].slot->Some_0);
    }
    lemma_claims_are_honoured(slots, n, Seq::empty());
    assert(claims(parts) =~= claims_all(slots)) by {
        assert forall|k: int| 0 <= k < parts.len() implies claims(parts)[k] == claims_all(
            slots,
        )[k] by {
            assert(parts[k].slot is Some);
        }
    }
    assert forall|i: int| 0 <= i < parts.len() implies (#[trigger] parts[i]).uuid is Some by {}
}

/// Slots that ascend are visited in the order they are listed in.
proof fn lemma_ascending_slot_order(slots: Seq<u32>, n: int, m: int)
    requires
        0 <= m <= slots.len(),
        0 <= n,
        forall|j: int, k: int| 0 <= j < k < slots.len() ==> #[trigger] slots[j] < #[trigger] slots[k],
        forall|k: int| 0 <= k < m ==> #[trigger] slots[k] < n,
        forall|k: int| m <= k < slots.len() ==> #[trigger] slots[k] >= n,
    ensures
        slot_order(slots, n) == Seq::new(m as nat, |i: int| i),
    decreases n,
{
    if n > 0 {
        if m > 0 && slots[m - 1] == n - 1 {
            assert(seats(slots, n - 1, m - 1));
            let k = slot_holder(slots, n - 1);
            assert(seats(slots, n - 1, k));
            assert(k == m - 1) by {
                if k < m - 1 {
                    assert(slots[k] < slots[m - 1]);
                } else if k > m - 1 {
                    assert(slots[m - 1] < slots[k]);
                }
            }
            assert forall|j: int| 0 <= j < m - 1 implies #[trigger] slots[j] < n - 1 by {
                assert(slots[j] < slots[m - 1]);
            }
            lemma_ascending_slot_order(slots, n - 1, m - 1);
            assert(slot_order(slots, n) =~= Seq::new(m as nat, |i: int| i));
        } else {
            assert forall|j: int| 0 <= j < m implies #[trigger] slots[j] < n - 1 by {
                if j < m - 1 {
                    assert(slots[j] < slots[m - 1]);
                }
            }
            assert(!slot_taken(slots, n - 1)) by {
                let s = n - 1;
                assert forall|k: int| !seats(slots, s, k) by {
                    if 0 <= k < slots.len() {
                        assert(slots[k] == slots[k]);
                    }
                }
            }
            lemma_ascending_slot_order(slots, n - 1, m);
        }
    } else {
        assert(m == 0) by {
            if m > 0 {
                assert(slots[0] < n);
            }
        }
        assert(slot_order(slots, n) =~= Seq::new(m as nat, |i: int| i));
    }
}

/// Listed partitions that are written into their own slots are read back as
/// they were.
pub proof fn lemma_listed_read_back(parts: Seq<PartitionView>, n: int)
    requires
        0 <= n,
        as_listed(parts, n),
        forall|i: int| 0 <= i < parts.len() ==> (#[trigger] parts[i]).issues == 0,
    ensures
        read_back(parts, own_slots(parts), n) == parts,
        labels_whole(parts),
{
    let slots = own_slots(parts);
    assert forall|j: int, k: int| 0 <= j < k < slots.len() implies #[trigger] slots[j]
        < #[trigger] slots[k] by {
        assert(parts[j].slot->Some_0 < parts[k].slot->Some_0);
    }
    assert forall|k: int| 0 <= k < slots.len() implies #[trigger] slots[k] < n by {
        assert(parts[k].slot->Some_0 < n);
    }
    lemma_ascending_slot_order(slots, n, slots.len() as int);
    assert(read_back(parts, slots, n) =~= parts) by {
        assert forall|i: int| 0 <= i < parts.len() implies read_back(parts, slots, n)[i]
            == parts[i] by {
            assert(parts[i].slot is Some);
        }
    }
}

/// A commit that changed nothing leaves the table saying what it said: a GPT
/// that the reader finds nothing wrong with, probed into a set and written
/// back, is accepted, and is read back partition for partition, each in the
/// slot it came from.
///
/// The header's usable range is to be one that the table's own metadata
/// leaves free.
pub proof fn lemma_unchanged_gpt_commit(content: Seq<u8>, after: Seq<u8>, size: u64, s: SetView)
    requires
        set_on(content, size) == Ok::<SetView, Error>(s),
        s.table_kind == TableKind::Gpt,
        s.geometry.usable(size as int / 512) is Ok,
        forall|i: int| 0 <= i < s.parts.len() ==> (#[trigger] s.parts[i]).issues == 0,
    ensures
        gpt_plan(s.parts, s.geometry, size as int / 512) is Ok,
        gpt_image(
            content,
            after,
            table_of(s),
            gpt_plan(s.parts, s.geometry, size as int / 512)->Ok_0,
            size as int / 512,
        ) ==> table_found(after, size) == table_found(content, size),
{
    let h = header_in(lba1_on(content, size))->Ok_0;
    assert(table_on(content, size, h) == Ok::<Seq<PartitionView>, Error>(s.parts));
    lemma_clean_table_is_writable(content, size, h);
    let plan = gpt_plan(s.parts, s.geometry, size as int / 512)->Ok_0;
    lemma_listed_read_back(s.parts, h.num_partition_entries as int);
    if gpt_image(content, after, table_of(s), plan, size as int / 512) {
        lemma_gpt_round_trip(content, after, size, table_of(s), plan);
    }
}

} // verus!
