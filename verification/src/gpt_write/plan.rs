//! What has to hold of partitions that are written as a GPT.

use vstd::prelude::*;

use crate::codec::bytes_eq;
use crate::error::{Error, Result};
use crate::gpt::{
    entry_issue, mark_overlaps, overlapped, range_issues, range_issues_spec, type_guids,
};
use crate::gpt_write::geometry::GptGeometry;
use crate::gpt_write::slots::{
    assign_slots, claims, lemma_slots_are_sound, slots_for, sound_slots,
};
use crate::probe::{span, views, Partition, PartitionKind, PartitionView};
use crate::SECTOR_SIZE;

verus! {

/// What keeps a partition out of a GPT whose usable range is `first` to
/// `last`.
pub open spec fn gpt_fault(p: PartitionView, first: u64, last: u64) -> Option<Error> {
    if !(p.kind is Gpt) {
        Some(Error::Invalid("non-GPT partition kind in GPT write"))
    } else if p.length == 0 {
        Some(Error::Invalid("partition has zero length"))
    } else if p.start % 512 != 0 || p.length % 512 != 0 {
        Some(Error::Invalid("partition not sector-aligned"))
    } else if span(p) is Err {
        Some(span(p)->Err_0)
    } else if span(p)->Ok_0.0 < first {
        Some(Error::Invalid("partition starts before first usable LBA"))
    } else if span(p)->Ok_0.0 > last || span(p)->Ok_0.1 > last {
        Some(Error::Invalid("partition runs past last usable LBA"))
    } else if p.kind->type_guid == type_guids::UNUSED@ {
        Some(Error::Invalid("partition type GUID is the unused sentinel"))
    } else {
        None
    }
}

/// The bits of a range report, one by one.
pub proof fn lemma_range_bits(start: int, end: int, first: int, last: int)
    ensures
        (range_issues_spec(start, end, first, last) & entry_issue::BEFORE_FIRST_USABLE != 0) == (
        start < first),
        (range_issues_spec(start, end, first, last) & entry_issue::PAST_LAST_USABLE != 0) == (start
            > last || end > last),
        range_issues_spec(start, end, first, last) == 0 <==> first <= start <= last && end <= last,
{
    assert((0u32 | 0u32) & 1u32 == 0u32 && (0u32 | 0u32) & 2u32 == 0u32 && (1u32 | 0u32) & 1u32
        == 1u32 && (1u32 | 0u32) & 2u32 == 0u32 && (0u32 | 2u32) & 1u32 == 0u32 && (0u32 | 2u32)
        & 2u32 == 2u32 && (1u32 | 2u32) & 1u32 == 1u32 && (1u32 | 2u32) & 2u32 == 2u32 && (0u32
        | 0u32) == 0u32) by (bit_vector);
}

fn validate_partition(p: &Partition, first_usable: u64, last_usable: u64) -> (r: Result<()>)
    ensures
        match r {
            Ok(()) => gpt_fault(p@, first_usable, last_usable) is None,
            Err(e) => gpt_fault(p@, first_usable, last_usable) == Some(e),
        },
{
    let type_guid: [u8; 16] = match p.kind {
        PartitionKind::Gpt { type_guid, .. } => type_guid,
        _ => return Err(Error::Invalid("non-GPT partition kind in GPT write")),
    };
    if p.length == 0 {
        return Err(Error::Invalid("partition has zero length"));
    }
    if p.start % SECTOR_SIZE != 0 || p.length % SECTOR_SIZE != 0 {
        return Err(Error::Invalid("partition not sector-aligned"));
    }
    let (start_lba, end_lba) = match p.sector_span() {
        Ok(s) => s,
        Err(e) => return Err(e),
    };
    // The same statement of the usable-range rules that the reader applies.
    let issues: u32 = range_issues(start_lba, end_lba, first_usable, last_usable);
    proof {
        lemma_range_bits(
            start_lba as int,
            end_lba as int,
            first_usable as int,
            last_usable as int,
        );
    }
    if issues & entry_issue::BEFORE_FIRST_USABLE != 0 {
        return Err(Error::Invalid("partition starts before first usable LBA"));
    }
    if issues & entry_issue::PAST_LAST_USABLE != 0 {
        return Err(Error::Invalid("partition runs past last usable LBA"));
    }
    if bytes_eq(&type_guid, &type_guids::UNUSED) {
        return Err(Error::Invalid("partition type GUID is the unused sentinel"));
    }
    Ok(())
}

/// What is wrong with the first partition from `k` on that cannot be in the
/// table.
pub open spec fn first_fault(
    parts: Seq<PartitionView>,
    k: int,
    first: u64,
    last: u64,
) -> Option<Error>
    decreases parts.len() - k,
{
    if k >= parts.len() {
        None
    } else if gpt_fault(parts[k], first, last) is Some {
        gpt_fault(parts[k], first, last)
    } else {
        first_fault(parts, k + 1, first, last)
    }
}

/// Where no partition has a fault, none comes first.
pub proof fn lemma_no_first_fault(parts: Seq<PartitionView>, k: int, first: u64, last: u64)
    requires
        0 <= k <= parts.len(),
        forall|i: int| 0 <= i < parts.len() ==> gpt_fault(#[trigger] parts[i], first, last) is None,
    ensures
        first_fault(parts, k, first, last) is None,
    decreases parts.len() - k,
{
    if k < parts.len() {
        lemma_no_first_fault(parts, k + 1, first, last);
    }
}

/// The spans of partitions that have one.
pub open spec fn spans_of(parts: Seq<PartitionView>) -> Seq<(u64, u64)> {
    parts.map_values(|p: PartitionView| span(p)->Ok_0)
}

/// Where a table goes, and what into which slot.
pub struct GptPlanView {
    pub first_usable: u64,
    pub last_usable: u64,
    pub slots: Seq<u32>,
}

/// How partitions are written as a GPT of this geometry on a device of
/// `total_sectors`, or why they cannot be.
pub open spec fn gpt_plan(
    parts: Seq<PartitionView>,
    geometry: GptGeometry,
    total_sectors: int,
) -> core::result::Result<GptPlanView, Error> {
    match geometry.usable(total_sectors) {
        Err(e) => Err(e),
        Ok((first, last)) => if parts.len() > geometry.num_entries {
            Err(Error::Invalid("more partitions than the table has entry slots"))
        } else if first_fault(parts, 0, first, last) is Some {
            Err(first_fault(parts, 0, first, last)->Some_0)
        } else if exists|i: int| 0 <= i < parts.len() && #[trigger] overlapped(spans_of(parts), i) {
            Err(Error::Invalid("partitions overlap"))
        } else {
            match slots_for(claims(parts), geometry.num_entries as int, Seq::empty()) {
                Err(e) => Err(e),
                Ok(slots) => if exists|i: int|
                    0 <= i < parts.len() && (#[trigger] parts[i]).uuid is None {
                    Err(Error::Invalid("GPT partition missing UUID"))
                } else {
                    Ok(GptPlanView { first_usable: first, last_usable: last, slots })
                },
            }
        },
    }
}

/// Where a table goes, and what into which slot.
#[derive(Debug)]
pub struct GptPlan {
    pub first_usable: u64,
    pub last_usable: u64,
    pub slots: Vec<u32>,
}

impl View for GptPlan {
    type V = GptPlanView;

    open spec fn view(&self) -> GptPlanView {
        GptPlanView {
            first_usable: self.first_usable,
            last_usable: self.last_usable,
            slots: self.slots@,
        }
    }
}

/// How the partitions are written as a GPT of this geometry on a device of
/// `total_sectors`, or why they cannot be.
///
/// - Each partition carries a GPT type GUID and a UUID.
/// - Each lies within the table's usable range, is sector-aligned, and
///   overlaps no other.
/// - There are at most as many as the table has entry slots, and no two
///   claim the same one.
pub fn plan_gpt(partitions: &[Partition], geometry: &GptGeometry, total_sectors: u64) -> (r: Result<
    GptPlan,
>)
    ensures
        match r {
            Ok(plan) => gpt_plan(views(partitions@), *geometry, total_sectors as int) == Ok::<
                GptPlanView,
                Error,
            >(plan@),
            Err(e) => gpt_plan(views(partitions@), *geometry, total_sectors as int) == Err::<
                GptPlanView,
                Error,
            >(e),
        },
{
    let ghost parts = views(partitions@);
    let (first, last) = match geometry.usable_range(total_sectors) {
        Ok(range) => range,
        Err(e) => return Err(e),
    };
    if partitions.len() > geometry.num_entries as usize {
        return Err(Error::Invalid("more partitions than the table has entry slots"));
    }
    let mut spans: Vec<(u64, u64)> = Vec::new();
    let mut k: usize = 0;
    while k < partitions.len()
        invariant
            k <= partitions.len(),
            parts == views(partitions@),
            parts.len() <= geometry.num_entries,
            geometry.usable(total_sectors as int) == Ok::<(u64, u64), Error>((first, last)),
            spans@ =~= spans_of(parts).take(k as int),
            first_fault(parts, k as int, first, last) == first_fault(parts, 0, first, last),
        decreases partitions.len() - k,
    {
        assert(parts[k as int] == partitions@[k as int]@);
        match validate_partition(&partitions[k], first, last) {
            Ok(()) => {},
            Err(e) => return Err(e),
        }
        match partitions[k].sector_span() {
            Ok(s) => spans.push(s),
            Err(e) => return Err(e),
        }
        k = k + 1;
    }
    assert(spans@ =~= spans_of(parts));
    let flags: Vec<bool> = mark_overlaps(spans.as_slice());
    let mut k: usize = 0;
    while k < flags.len()
        invariant
            k <= flags@.len() == parts.len(),
            parts.len() <= geometry.num_entries,
            geometry.usable(total_sectors as int) == Ok::<(u64, u64), Error>((first, last)),
            first_fault(parts, 0, first, last) is None,
            parts == views(partitions@),
            forall|i: int|
                0 <= i < parts.len() ==> #[trigger] flags@[i] == overlapped(spans_of(parts), i),
            forall|i: int| 0 <= i < k ==> !#[trigger] overlapped(spans_of(parts), i),
        decreases flags@.len() - k,
    {
        assert(flags@[k as int] == overlapped(spans_of(parts), k as int));
        if flags[k] {
            return Err(Error::Invalid("partitions overlap"));
        }
        k = k + 1;
    }
    let slots: Vec<u32> = match assign_slots(partitions, geometry.num_entries) {
        Ok(s) => s,
        Err(e) => return Err(e),
    };
    let mut k: usize = 0;
    while k < partitions.len()
        invariant
            k <= partitions.len() == parts.len(),
            parts == views(partitions@),
            parts.len() <= geometry.num_entries,
            geometry.usable(total_sectors as int) == Ok::<(u64, u64), Error>((first, last)),
            first_fault(parts, 0, first, last) is None,
            forall|i: int| 0 <= i < parts.len() ==> !#[trigger] overlapped(spans_of(parts), i),
            slots_for(claims(parts), geometry.num_entries as int, Seq::empty()) == Ok::<
                Seq<u32>,
                Error,
            >(slots@),
            forall|i: int| 0 <= i < k ==> (#[trigger] parts[i]).uuid is Some,
        decreases partitions.len() - k,
    {
        assert(parts[k as int] == partitions@[k as int]@);
        if partitions[k].uuid.is_none() {
            return Err(Error::Invalid("GPT partition missing UUID"));
        }
        k = k + 1;
    }
    Ok(GptPlan { first_usable: first, last_usable: last, slots })
}

/// What a plan says of the table: no partition has a fault or overlaps
/// another, each has a UUID, and the slots are sound.
pub proof fn lemma_gpt_plan_is_writable(
    parts: Seq<PartitionView>,
    geometry: GptGeometry,
    total_sectors: int,
)
    requires
        gpt_plan(parts, geometry, total_sectors) is Ok,
    ensures
        ({
            let plan = gpt_plan(parts, geometry, total_sectors)->Ok_0;
            &&& geometry.usable(total_sectors) == Ok::<(u64, u64), Error>(
                (plan.first_usable, plan.last_usable),
            )
            &&& parts.len() <= geometry.num_entries
            &&& forall|k: int|
                0 <= k < parts.len() ==> gpt_fault(
                    #[trigger] parts[k],
                    plan.first_usable,
                    plan.last_usable,
                ) is None
            &&& forall|k: int|
                0 <= k < parts.len() ==> !#[trigger] overlapped(spans_of(parts), k)
            &&& forall|k: int| 0 <= k < parts.len() ==> (#[trigger] parts[k]).uuid is Some
            &&& sound_slots(
                plan.slots,
                claims(parts),
                geometry.num_entries as int,
                Seq::empty(),
            )
        }),
{
    let plan = gpt_plan(parts, geometry, total_sectors)->Ok_0;
    lemma_slots_are_sound(claims(parts), geometry.num_entries as int, Seq::empty());
    assert forall|k: int| 0 <= k < parts.len() implies gpt_fault(
        #[trigger] parts[k],
        plan.first_usable,
        plan.last_usable,
    ) is None by {
        lemma_no_fault(parts, 0, plan.first_usable, plan.last_usable, k);
    }
}

proof fn lemma_no_fault(parts: Seq<PartitionView>, k: int, first: u64, last: u64, at: int)
    requires
        0 <= k <= at < parts.len(),
        first_fault(parts, k, first, last) is None,
    ensures
        gpt_fault(parts[at], first, last) is None,
    decreases parts.len() - k,
{
    if k < at {
        lemma_no_fault(parts, k + 1, first, last, at);
    }
}

} // verus!
