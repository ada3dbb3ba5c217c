//! Which reason is given for a refusal: of all that is wrong, the first.

use vstd::prelude::*;

use crate::codec::laws::lemma_tag_bytes;
use crate::codec::{le16, le32, le64, window, zeros};
use crate::crc::crc32;
use crate::error::{BlockError, Error, Result};
use crate::gpt::laws::header_without_crc;
use crate::gpt::{
    array_on, backup_on, backup_status, crc_covered, difference, doubles_128, forwards, header_in,
    lemma_runs_into_is_sharing, overlapped, part_starts, partition_in, primary_header_in,
    runs_into, type_guids, BackupStatus, HeaderView, SIGNATURE,
};
use crate::gpt_write::geometry::GptGeometry;
use crate::gpt_write::plan::{
    first_fault, gpt_fault, gpt_plan, lemma_no_first_fault, spans_of, GptPlanView,
};
use crate::gpt_write::slots::{claims, seated, slots_for};
use crate::mbr::{mbr_fault, mbr_plan, mbr_walk, reserved_slots, ReservedView};
use crate::mutation::{
    add_len, add_refused, added, fits, meant, occupied, place_refused, set_on, set_usable,
    uuid_index, Addition, PartitionRef, PartitionTypeId, SetView,
};
use crate::order::{key_order, lemma_key_order_sorts};
use crate::probe::laws::{big_sectors, gpt_sign, lemma_first_sector_decides};
use crate::probe::{span, table_found, PartitionView, TableKind};
use crate::sniff::laws::spells;

verus! {

/// What is wrong with a GPT header, in the order in which it is looked at:
/// its signature, its size, its checksum, its revision, the size of an entry
/// and how many there are.
pub proof fn lemma_header_reasons(block: Seq<u8>)
    requires
        block.len() >= 92,
    ensures
        ({
            let sign = spells(block, 0, seq![0x45u8, 0x46, 0x49, 0x20, 0x50, 0x41, 0x52, 0x54]);
            let fits = 92 <= le32(block, 12) <= block.len();
            let sound = crc32(header_without_crc(block)) == le32(block, 16);
            let known = sign && fits && sound && le16(block, 10) == 1;
            let size = le32(block, 84);
            let sized = known && 128 <= size <= 4096;
            let said = header_in(block);
            &&& !sign ==> said == Err::<HeaderView, Error>(
                Error::GptCorrupt("missing EFI PART signature"),
            )
            &&& sign && !fits ==> said == Err::<HeaderView, Error>(
                Error::GptCorrupt("header_size out of range"),
            )
            &&& sign && fits && !sound ==> said == Err::<HeaderView, Error>(Error::GptHeaderCrc)
            &&& sign && fits && sound && !known ==> said == Err::<HeaderView, Error>(
                Error::GptCorrupt("major revision is not 1"),
            )
            &&& known && !sized ==> said == Err::<HeaderView, Error>(
                Error::GptCorrupt("partition_entry_size out of range"),
            )
            &&& sized && !doubles_128(size) ==> said == Err::<HeaderView, Error>(
                Error::GptCorrupt("partition_entry_size is not 128 times a power of two"),
            )
            &&& sized && doubles_128(size) && le32(block, 80) > 4096 ==> said == Err::<
                HeaderView,
                Error,
            >(Error::GptCorrupt("num_partition_entries > 4096"))
        }),
{
    let tag = seq![0x45u8, 0x46, 0x49, 0x20, 0x50, 0x41, 0x52, 0x54];
    assert(SIGNATURE@ =~= tag);
    lemma_tag_bytes(block, 0, tag);
    if le32(block, 12) <= block.len() {
        assert(crc_covered(block, le32(block, 12)) =~= header_without_crc(block));
    }
}

/// A header that says it is somewhere else than where it was read is refused:
/// the primary at LBA 1, the backup in the last sector. A disk of less than
/// two sectors has no backup.
pub proof fn lemma_stray_header_reasons(lba1: Seq<u8>, content: Seq<u8>, size: u64, h: HeaderView)
    requires
        lba1.len() == 512,
    ensures
        header_in(lba1) is Ok && le64(lba1, 24) != 1 ==> primary_header_in(lba1) == Err::<
            HeaderView,
            Error,
        >(Error::GptCorrupt("primary my_lba != 1")),
        size < 1024 ==> backup_on(content, size) == Err::<Seq<PartitionView>, Error>(
            Error::GptCorrupt("device too small for GPT backup"),
        ),
        ({
            let at = size as int / 512 * 512 - 512;
            &&& size >= 1024 && at + 512 > content.len() ==> backup_on(content, size) == Err::<
                Seq<PartitionView>,
                Error,
            >(Error::Block(BlockError::ShortRead { offset: at as u64, want: 512, got: 0 }))
            &&& size >= 1024 && at + 512 <= content.len() && header_in(
                content.subrange(at, at + 512),
            ) == Ok::<HeaderView, Error>(h) && h.my_lba * 512 != at ==> backup_on(content, size)
                == Err::<Seq<PartitionView>, Error>(Error::GptCorrupt("backup my_lba != last LBA"))
        }),
{
    let at = size as int / 512 * 512 - 512;
    if size >= 1024 && at + 512 <= content.len() {
        assert(window(content, at, 512) =~= content.subrange(at, at + 512));
        assert((size / 512 - 1) * 512 == at);
    }
}

/// What is wrong with where a header puts its array: its offset or its end
/// does not fit a `u64`, or it reaches past the end of a device that states
/// one.
pub proof fn lemma_array_reasons(content: Seq<u8>, size: u64, h: HeaderView)
    ensures
        ({
            let at = h.partition_entry_lba * 512;
            let end = at + h.num_partition_entries * h.partition_entry_size;
            let said = array_on(content, size, h);
            &&& at > u64::MAX ==> said == Err::<Seq<u8>, Error>(
                Error::GptCorrupt("partition_entry_lba overflows a byte offset"),
            )
            &&& at <= u64::MAX && end > u64::MAX ==> said == Err::<Seq<u8>, Error>(
                Error::GptCorrupt("partition entry array overflows"),
            )
            &&& at <= u64::MAX && end <= u64::MAX && 0 < size < end ==> said == Err::<
                Seq<u8>,
                Error,
            >(Error::GptCorrupt("partition entry array reaches past the end of the device"))
        }),
{
}

/// What is wrong with an entry: it ends before it starts, or its start or its
/// length does not fit.
pub proof fn lemma_entry_reasons(entry: Seq<u8>, slot: int)
    ensures
        ({
            let start = le64(entry, 32);
            let count = le64(entry, 40) - start + 1;
            let said = partition_in(entry, slot);
            &&& count <= 0 ==> said == Err::<PartitionView, Error>(
                Error::GptCorrupt("ending_lba < starting_lba"),
            )
            &&& count > 0 && start * 512 > u64::MAX ==> said == Err::<PartitionView, Error>(
                Error::GptCorrupt("starting_lba overflows a byte offset"),
            )
            &&& count > u64::MAX && start * 512 <= u64::MAX ==> said == Err::<
                PartitionView,
                Error,
            >(Error::GptCorrupt("partition sector count overflows"))
            &&& 0 < count <= u64::MAX && start * 512 <= u64::MAX && count * 512 > u64::MAX
                ==> said == Err::<PartitionView, Error>(
                Error::GptCorrupt("partition length overflows a byte count"),
            )
        }),
{
}

/// What is said of two copies that agree on everything that is looked at
/// before: the slot, then the label.
pub proof fn lemma_last_differences(a: PartitionView, b: PartitionView)
    requires
        a.start == b.start && a.length == b.length && a.uuid == b.uuid && a.kind == b.kind,
    ensures
        a.slot != b.slot ==> difference(a, b) == Some("partition slot differs"),
        a.slot == b.slot && a.label != b.label ==> difference(a, b) == Some(
            "partition label differs",
        ),
{
}

/// What is said of a backup that cannot be read, and of one with more or
/// fewer partitions.
pub proof fn lemma_backup_reasons(content: Seq<u8>, size: u64, primary: Seq<PartitionView>)
    ensures
        match backup_on(content, size) {
            Err(e) => backup_status(content, size, primary) == BackupStatus::Mismatch(
                match e {
                    Error::GptHeaderCrc => "backup header CRC",
                    Error::GptEntriesCrc => "backup entries CRC",
                    Error::GptCorrupt(_) => "backup header corrupt",
                    _ => "backup unreadable",
                },
            ),
            Ok(backup) => backup.len() != primary.len() ==> backup_status(content, size, primary)
                == BackupStatus::Mismatch("partition count differs"),
        },
{
}

/// What is said of a disk without a GPT signature whose first sector carries
/// the GPT marker and no table of its own.
pub proof fn lemma_marker_reasons(content: Seq<u8>, size: u64)
    requires
        content.len() >= 512,
        !gpt_sign(content, size),
        table_found(content, size) is Err,
        content[510] == 0x55 && content[511] == 0xAA,
    ensures
        table_found(content, size) == Err::<(TableKind, Seq<PartitionView>), Error>(
            if big_sectors(content) {
                Error::UnsupportedSectorSize("the GPT counts its LBAs in 4096-byte sectors")
            } else {
                Error::GptCorrupt("protective MBR present but no GPT signature")
            },
        ),
{
    lemma_first_sector_decides(content, size);
}

/// What is said of a partition without sectors.
pub proof fn lemma_span_reasons(p: PartitionView)
    ensures
        p.length == 0 ==> span(p) == Err::<(u64, u64), Error>(
            Error::Invalid("a zero-length partition has no last sector"),
        ),
        p.length > 0 && p.start + p.length > u64::MAX ==> span(p) == Err::<(u64, u64), Error>(
            Error::Invalid("a partition's start and length overflow a u64"),
        ),
{
}

/// What is wrong with a shape: it has no entry, or its entries are too small,
/// or of a size no table has, or its array starts too early or ends too late.
pub proof fn lemma_shape_reasons(g: GptGeometry)
    ensures
        ({
            let eights = g.entry_size >= 128 && g.entry_size % 8 == 0;
            let entries = g.num_entries > 0 && eights && doubles_128(g.entry_size as int);
            let said = g.shape_fault();
            &&& g.num_entries == 0 ==> said == Some(Error::Invalid("a GPT with no entry slots"))
            &&& g.num_entries > 0 && !eights ==> said == Some(
                Error::Invalid("a GPT entry size below 128 bytes or not a multiple of 8"),
            )
            &&& g.num_entries > 0 && eights && !entries ==> said == Some(
                Error::Invalid("a GPT entry size that is not 128 times a power of two"),
            )
            &&& entries && g.entry_lba < 2 ==> said == Some(
                Error::Invalid("a GPT entry array starting at or before the header"),
            )
            &&& entries && g.entry_lba > 0x7F_FFFF_FFFF_FFFF ==> said == Some(
                Error::Invalid("a GPT entry array at an LBA whose byte offset does not fit a u64"),
            )
            &&& entries && 2 <= g.entry_lba <= 0x7F_FFFF_FFFF_FFFF && g.sectors_spec()
                > 0x7F_FFFF_FFFF_FFFF ==> said == Some(
                Error::Invalid("a GPT entry array longer than any device could hold"),
            )
            &&& entries && 2 <= g.entry_lba <= 0x7F_FFFF_FFFF_FFFF && g.sectors_spec()
                <= 0x7F_FFFF_FFFF_FFFF && g.entry_lba + g.sectors_spec() > 0x7F_FFFF_FFFF_FFFF
                ==> said == Some(
                Error::Invalid("a GPT whose entry array ends past the last addressable LBA"),
            )
        }),
{
}

/// What is wrong with a usable range that a disk declares.
pub proof fn lemma_range_reasons(g: GptGeometry, total: int, a: u64, b: u64)
    requires
        g.shape_fault() is None,
        g.declared_usable == Some((a, b)),
        g.entry_lba + g.sectors_spec() <= total - 2 - g.sectors_spec(),
    ensures
        ({
            let first = g.entry_lba + g.sectors_spec();
            let last = total - 2 - g.sectors_spec();
            let said = g.usable(total);
            &&& a < first ==> said == Err::<(u64, u64), Error>(
                Error::Invalid("the table's first usable LBA is inside its own entry array"),
            )
            &&& a >= first && b > last ==> said == Err::<(u64, u64), Error>(
                Error::Invalid(
                    "the table's last usable LBA is inside the space the backup copy needs",
                ),
            )
            &&& a >= first && b <= last && a > b ==> said == Err::<(u64, u64), Error>(
                Error::Invalid("the table's usable range runs backwards"),
            )
        }),
{
}

/// What keeps a partition out of a GPT: its kind, its length, its alignment,
/// its end, the usable range, its type.
pub proof fn lemma_gpt_partition_reasons(p: PartitionView, first: u64, last: u64)
    ensures
        ({
            let said = gpt_fault(p, first, last);
            let solid = p.kind is Gpt && p.length > 0 && p.start % 512 == 0 && p.length % 512 == 0;
            let ends = solid && p.start + p.length <= u64::MAX;
            &&& !(p.kind is Gpt) ==> said == Some(
                Error::Invalid("non-GPT partition kind in GPT write"),
            )
            &&& p.kind is Gpt && p.length == 0 ==> said == Some(
                Error::Invalid("partition has zero length"),
            )
            &&& p.kind is Gpt && p.length > 0 && !solid ==> said == Some(
                Error::Invalid("partition not sector-aligned"),
            )
            &&& solid && !ends ==> said == Some(
                Error::Invalid("a partition's start and length overflow a u64"),
            )
            &&& ends && p.start < first * 512 ==> said == Some(
                Error::Invalid("partition starts before first usable LBA"),
            )
            &&& ends && p.start >= first * 512 && p.start + p.length > (last + 1) * 512 ==> said
                == Some(Error::Invalid("partition runs past last usable LBA"))
            &&& ends && p.start >= first * 512 && p.start + p.length <= (last + 1) * 512
                && p.kind->type_guid == zeros(16) ==> said == Some(
                Error::Invalid("partition type GUID is the unused sentinel"),
            )
        }),
{
    assert(type_guids::UNUSED@ =~= zeros(16));
}

/// What keeps a partition out of an MBR: its kind, its length, its alignment,
/// its end, 32 bits, the table itself, the end of the device.
pub proof fn lemma_mbr_partition_reasons(p: PartitionView, total: u64)
    ensures
        ({
            let said = mbr_fault(p, total);
            let solid = p.kind is Mbr && p.length > 0 && p.start % 512 == 0 && p.length % 512 == 0;
            let ends = solid && p.start + p.length <= u64::MAX;
            let narrow = ends && p.start < 0x200_0000_0000 && p.length < 0x200_0000_0000;
            &&& !(p.kind is Mbr) ==> said == Some(
                Error::Invalid("non-MBR partition kind in MBR write"),
            )
            &&& p.kind is Mbr && p.length == 0 ==> said == Some(
                Error::Invalid("partition has zero length"),
            )
            &&& p.kind is Mbr && p.length > 0 && !solid ==> said == Some(
                Error::Invalid("partition not sector-aligned"),
            )
            &&& solid && !ends ==> said == Some(
                Error::Invalid("a partition's start and length overflow a u64"),
            )
            &&& ends && !narrow ==> said == Some(
                Error::Invalid("partition exceeds MBR 32-bit LBA range"),
            )
            &&& narrow && p.start < 512 ==> said == Some(
                Error::Invalid("MBR partition cannot start at LBA 0"),
            )
            &&& narrow && p.start >= 512 && p.start + p.length > total ==> said == Some(
                Error::Invalid("partition extends past device end"),
            )
        }),
{
}

proof fn lemma_first_fault_is_first(
    parts: Seq<PartitionView>,
    from: int,
    k: int,
    first: u64,
    last: u64,
)
    requires
        0 <= from <= k < parts.len(),
        forall|j: int| from <= j < k ==> gpt_fault(#[trigger] parts[j], first, last) is None,
        gpt_fault(parts[k], first, last) is Some,
    ensures
        first_fault(parts, from, first, last) == gpt_fault(parts[k], first, last),
    decreases k - from,
{
    if from < k {
        assert(gpt_fault(parts[from], first, last) is None);
        lemma_first_fault_is_first(parts, from + 1, k, first, last);
    }
}

/// What is said of partitions that cannot be written as a GPT: that there are
/// too many, else what is wrong with the first that may not go into it.
pub proof fn lemma_gpt_plan_reasons(
    parts: Seq<PartitionView>,
    geometry: GptGeometry,
    total: int,
    first: u64,
    last: u64,
    k: int,
)
    requires
        geometry.usable(total) == Ok::<(u64, u64), Error>((first, last)),
    ensures
        parts.len() > geometry.num_entries ==> gpt_plan(parts, geometry, total) == Err::<
            GptPlanView,
            Error,
        >(Error::Invalid("more partitions than the table has entry slots")),
        parts.len() <= geometry.num_entries && 0 <= k < parts.len() && gpt_fault(
            parts[k],
            first,
            last,
        ) is Some && (forall|j: int|
            0 <= j < k ==> gpt_fault(#[trigger] parts[j], first, last) is None) ==> gpt_plan(
            parts,
            geometry,
            total,
        ) == Err::<GptPlanView, Error>(gpt_fault(parts[k], first, last)->Some_0),
{
    if 0 <= k < parts.len() && gpt_fault(parts[k], first, last) is Some && (forall|j: int|
        0 <= j < k ==> gpt_fault(#[trigger] parts[j], first, last) is None) {
        lemma_first_fault_is_first(parts, 0, k, first, last);
    }
}

/// What is said of sound partitions that overlap, and else of one without a
/// UUID where there are slots for all.
pub proof fn lemma_gpt_layout_reasons(
    parts: Seq<PartitionView>,
    geometry: GptGeometry,
    total: int,
    first: u64,
    last: u64,
    i: int,
    j: int,
)
    requires
        geometry.usable(total) == Ok::<(u64, u64), Error>((first, last)),
        parts.len() <= geometry.num_entries,
        forall|k: int| 0 <= k < parts.len() ==> gpt_fault(#[trigger] parts[k], first, last) is None,
        0 <= i < parts.len() && 0 <= j < parts.len(),
    ensures
        i != j && parts[i].start < parts[j].start + parts[j].length && parts[j].start
            < parts[i].start + parts[i].length ==> gpt_plan(parts, geometry, total) == Err::<
            GptPlanView,
            Error,
        >(Error::Invalid("partitions overlap")),
        parts[i].uuid is None && slots_for(
            claims(parts),
            geometry.num_entries as int,
            Seq::empty(),
        ) is Ok && (forall|a: int, b: int|
            0 <= a < parts.len() && 0 <= b < parts.len() && a != b ==> (#[trigger] parts[a]).start
                + parts[a].length <= (#[trigger] parts[b]).start || parts[b].start
                + parts[b].length <= parts[a].start) ==> gpt_plan(parts, geometry, total) == Err::<
            GptPlanView,
            Error,
        >(Error::Invalid("GPT partition missing UUID")),
{
    lemma_no_first_fault(parts, 0, first, last);
    let spans = spans_of(parts);
    assert forall|k: int| 0 <= k < spans.len() implies #[trigger] spans[k] == span(parts[k])->Ok_0
        && spans[k].0 <= spans[k].1 by {
        assert(gpt_fault(parts[k], first, last) is None);
    }
    assert(forwards(spans));
    if i != j && parts[i].start < parts[j].start + parts[j].length && parts[j].start
        < parts[i].start + parts[i].length {
        assert(spans[i] == span(parts[i])->Ok_0 && spans[j] == span(parts[j])->Ok_0);
        assert(gpt_fault(parts[i], first, last) is None);
        assert(gpt_fault(parts[j], first, last) is None);
        lemma_runs_into_is_sharing(spans, i, j);
        assert(overlapped(spans, i));
    }
    if forall|a: int, b: int|
        0 <= a < parts.len() && 0 <= b < parts.len() && a != b ==> (#[trigger] parts[a]).start
            + parts[a].length <= (#[trigger] parts[b]).start || parts[b].start + parts[b].length
            <= parts[a].start {
        assert forall|k: int| 0 <= k < parts.len() implies !#[trigger] overlapped(spans, k) by {
            if overlapped(spans, k) {
                let m = choose|m: int|
                    0 <= m < spans.len() && m != k && #[trigger] runs_into(spans, k, m);
                lemma_runs_into_is_sharing(spans, k, m);
                assert(gpt_fault(parts[k], first, last) is None);
                assert(gpt_fault(parts[m], first, last) is None);
                assert(parts[k].start + parts[k].length <= parts[m].start || parts[m].start
                    + parts[m].length <= parts[k].start);
            }
        }
    }
}

/// What is said of more entries than an MBR has.
pub proof fn lemma_mbr_plan_reasons(
    parts: Seq<PartitionView>,
    reserved: Seq<ReservedView>,
    total: u64,
)
    requires
        parts.len() + reserved.len() > 4,
    ensures
        mbr_plan(parts, reserved, total) == Err::<Seq<u32>, Error>(
            Error::Invalid("MBR supports at most 4 primary partitions"),
        ),
{
}

proof fn lemma_walk_reasons(
    parts: Seq<PartitionView>,
    order: Seq<int>,
    k: int,
    prev: Option<u64>,
    total: u64,
)
    requires
        0 <= k,
        forall|a: int| 0 <= a < parts.len() ==> 0 <= #[trigger] order[a] < parts.len(),
    ensures
        mbr_walk(parts, order, k, prev, total) matches Some(e) ==> {
            ||| e == Error::Invalid("partitions overlap")
            ||| exists|i: int|
                0 <= i < parts.len() && mbr_fault(#[trigger] parts[i], total) == Some(e)
        },
    decreases parts.len() - k,
{
    if k < parts.len() {
        let p = parts[order[k]];
        if mbr_fault(p, total) is None {
            lemma_walk_reasons(parts, order, k + 1, Some(span(p)->Ok_0.1), total);
        }
    }
}

/// Of partitions that an MBR has entries and slots for, and that cannot be
/// written, what is said is what is wrong with one of them, or that they
/// overlap: that and nothing else where each may go into the table.
pub proof fn lemma_mbr_layout_reasons(
    parts: Seq<PartitionView>,
    reserved: Seq<ReservedView>,
    total: u64,
    e: Error,
)
    requires
        parts.len() + reserved.len() <= 4,
        total >= 512,
        slots_for(claims(parts), 4, reserved_slots(reserved)) is Ok,
        mbr_plan(parts, reserved, total) == Err::<Seq<u32>, Error>(e),
    ensures
        e == Error::Invalid("partitions overlap") || exists|i: int|
            0 <= i < parts.len() && mbr_fault(#[trigger] parts[i], total) == Some(e),
        (forall|i: int| 0 <= i < parts.len() ==> mbr_fault(#[trigger] parts[i], total) is None)
            ==> e == Error::Invalid("partitions overlap"),
{
    let keys = part_starts(parts);
    lemma_key_order_sorts(keys, parts.len() as int);
    lemma_walk_reasons(parts, key_order(keys, parts.len() as int), 0, None, total);
}

/// What is said of a slot that is named: that it is past the end of the
/// table, or that somebody has it.
pub proof fn lemma_slot_reasons(taken: Set<int>, slot: u32, num: int, past: &'static str)
    ensures
        slot >= num ==> seated(taken, slot, num, past) == Err::<Set<int>, Error>(
            Error::Invalid(past),
        ),
        slot < num && taken.contains(slot as int) ==> seated(taken, slot, num, past) == Err::<
            Set<int>,
            Error,
        >(Error::Invalid("two entries claim the same table slot")),
{
}

proof fn lemma_uuid_is_missed(parts: Seq<PartitionView>, uuid: Seq<u8>, k: int)
    requires
        forall|j: int| k <= j < parts.len() ==> (#[trigger] parts[j]).uuid != Some(uuid),
    ensures
        uuid_index(parts, uuid, k) == Err::<int, Error>(Error::Invalid("uuid not found")),
    decreases parts.len() - k,
{
    if k < parts.len() {
        assert(parts[k].uuid != Some(uuid));
        lemma_uuid_is_missed(parts, uuid, k + 1);
    }
}

/// What is said of a partition that is not there.
pub proof fn lemma_target_reasons(parts: Seq<PartitionView>, target: PartitionRef)
    ensures
        match target {
            PartitionRef::Index(n) => n >= parts.len() ==> meant(parts, target) == Err::<
                int,
                Error,
            >(Error::Invalid("index out of range")),
            PartitionRef::Uuid(u) => (forall|j: int|
                0 <= j < parts.len() ==> (#[trigger] parts[j]).uuid != Some(u@)) ==> meant(
                parts,
                target,
            ) == Err::<int, Error>(Error::Invalid("uuid not found")),
        },
{
    if let PartitionRef::Uuid(u) = target {
        if forall|j: int| 0 <= j < parts.len() ==> (#[trigger] parts[j]).uuid != Some(u@) {
            lemma_uuid_is_missed(parts, u@, 0);
        }
    }
}

/// What is said of a type that the table has no word for.
pub proof fn lemma_type_reasons(id: PartitionTypeId)
    ensures
        id is MbrCustom ==> id.guid() == Err::<Seq<u8>, Error>(
            Error::Invalid("MBR type byte used in GPT context"),
        ),
        id is GptCustom ==> id.byte() == Err::<u8, Error>(
            Error::Invalid("GPT type GUID used in MBR context"),
        ),
        id is AppleApfs ==> id.byte() == Err::<u8, Error>(
            Error::Invalid("APFS has no MBR type byte; use GPT"),
        ),
{
}

/// What is said of an addition that is refused before a place is looked for:
/// that it is empty, else that no entry is left.
pub proof fn lemma_addition_reasons(
    before: SetView,
    after: SetView,
    r: Result<usize>,
    hint: Option<u64>,
    a: Addition,
)
    requires
        added(before, after, r, hint, a),
    ensures
        a.length == 0 ==> r == Err::<usize, Error>(Error::Invalid("zero length")),
        a.length > 0 && before.table_kind == TableKind::Mbr && before.parts.len()
            + before.reserved.len() >= 4 ==> r == Err::<usize, Error>(
            Error::Invalid("MBR primary table is full (4 entries)"),
        ),
        a.length > 0 && before.table_kind == TableKind::Gpt && before.parts.len()
            >= before.geometry.num_entries ==> r == Err::<usize, Error>(
            Error::Invalid(
                if before.geometry.num_entries == 128 {
                    "GPT canonical table is full (128 entries)"
                } else {
                    "GPT table is full (every entry slot is taken)"
                },
            ),
        ),
{
}

/// What is said of a place that does not do: that it reaches past the usable
/// range, else that an MBR cannot say it.
pub proof fn lemma_place_reasons(s: SetView, start: int, len: int, id: PartitionTypeId)
    requires
        set_usable(s) is Ok,
    ensures
        start + len > set_usable(s)->Ok_0.1 + 1 ==> place_refused(s, start, len, id) == Some(
            Error::Invalid("partition extends past last usable LBA"),
        ),
        start + len <= set_usable(s)->Ok_0.1 + 1 && s.table_kind == TableKind::Mbr && (start
            > 0xFFFF_FFFF || len > 0xFFFF_FFFF) ==> place_refused(s, start, len, id) == Some(
            Error::Invalid("partition exceeds MBR 32-bit LBA range"),
        ),
{
}

/// An addition without a wish for which no place does says so.
pub proof fn lemma_no_room_reason(
    before: SetView,
    after: SetView,
    r: Result<usize>,
    a: Addition,
    spans: Seq<(u64, u64)>,
)
    requires
        added(before, after, r, None, a),
        add_refused(before, a.length) is None,
        occupied(before) == Ok::<Seq<(u64, u64)>, Error>(spans),
        forall|start: int|
            !#[trigger] fits(
                start,
                add_len(a),
                set_usable(before)->Ok_0.0 as int,
                set_usable(before)->Ok_0.1 as int,
                spans,
            ),
    ensures
        r == Err::<usize, Error>(Error::Invalid("no free space large enough")),
        after == before,
{
}

/// What is said of a GPT that was found and cannot be edited.
pub proof fn lemma_torn_tails_reason(content: Seq<u8>, size: u64)
    requires
        table_found(content, size) is Ok,
        set_on(content, size) is Err,
    ensures
        set_on(content, size) == Err::<SetView, Error>(
            Error::GptCorrupt("two entries share a UUID and differ in their tails"),
        ),
{
}

} // verus!
