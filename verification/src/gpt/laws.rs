//! What the bytes of a GPT mean.

use vstd::arithmetic::power2::{lemma_pow2_unfold, pow2};
use vstd::prelude::*;

use crate::codec::laws::lemma_tag_bytes;
use crate::codec::{le16, le32, le64, window};
use crate::crc::crc32;
use crate::error::Error;
use crate::gpt::{
    array_on, backup_on, compared, crc_covered, difference, doubles_128, entries_in, entry_bytes,
    header_in, holds_uuid, issues_of, judged, lba_span, lba_spans, lemma_runs_into_is_sharing,
    lemma_slot_inside, overlapped, partition_in, partitions_in, primary_header_in, primary_on,
    range_issues_spec, runs_into, slot_used, table_on, tail_bytes, tails_agree, tails_in,
    type_guids, unparsed, unused, uuid_bytes, BackupStatus, HeaderView, SIGNATURE,
};
use crate::gpt_write::plan::lemma_range_bits;
use crate::label::label_in;
use crate::probe::{KindView, PartitionView};
use crate::sniff::laws::spells;

verus! {

/// The entry sizes: 128 times a power of two.
pub proof fn lemma_entry_sizes(n: int)
    ensures
        doubles_128(n) <==> exists|k: nat| n == 128 * #[trigger] pow2(k),
    decreases n,
{
    if n > 128 && n % 2 == 0 {
        lemma_entry_sizes(n / 2);
        if doubles_128(n / 2) {
            let k = choose|k: nat| n / 2 == 128 * #[trigger] pow2(k);
            lemma_pow2_unfold(k + 1);
            assert(n == 128 * pow2(k + 1));
        }
    }
    vstd::arithmetic::power2::lemma2_to64();
    if n == 128 {
        assert(n == 128 * pow2(0));
    }
    if exists|k: nat| n == 128 * #[trigger] pow2(k) {
        let k = choose|k: nat| n == 128 * #[trigger] pow2(k);
        if k > 0 {
            lemma_pow2_unfold(k);
            vstd::arithmetic::power2::lemma_pow2_pos((k - 1) as nat);
            assert(n / 2 == 128 * pow2((k - 1) as nat));
        }
    }
}

/// The bytes a header CRC is taken over: the header, with zeros where the CRC
/// stands.
pub open spec fn header_without_crc(block: Seq<u8>) -> Seq<u8> {
    Seq::new(
        le32(block, 12) as nat,
        |i: int|
            if 16 <= i < 20 {
                0
            } else {
                block[i]
            },
    )
}

/// A header is taken exactly where it opens with "EFI PART", fits its block,
/// carries the right CRC, is of revision 1, and describes an array the reader
/// takes: entries of 128 times a power of two bytes, up to 4096, and up to
/// 4096 of them.
pub proof fn lemma_header_is_taken(block: Seq<u8>)
    requires
        block.len() >= 92,
    ensures
        ({
            let sign = spells(block, 0, seq![0x45u8, 0x46, 0x49, 0x20, 0x50, 0x41, 0x52, 0x54]);
            let fits = 92 <= le32(block, 12) <= block.len();
            let sound = crc32(header_without_crc(block)) == le32(block, 16);
            let size = le32(block, 84);
            &&& header_in(block) is Ok <==> {
                &&& sign && fits && sound
                &&& le16(block, 10) == 1
                &&& 128 <= size <= 4096 && doubles_128(size)
                &&& le32(block, 80) <= 4096
            }
            &&& header_in(block) == Err::<HeaderView, Error>(Error::GptHeaderCrc) <==> sign && fits
                && !sound
            &&& header_in(block) matches Err(e) ==> e is GptHeaderCrc || e is GptCorrupt
        }),
{
    let tag = seq![0x45u8, 0x46, 0x49, 0x20, 0x50, 0x41, 0x52, 0x54];
    assert(SIGNATURE@ =~= tag);
    lemma_tag_bytes(block, 0, tag);
    if le32(block, 12) <= block.len() {
        assert(crc_covered(block, le32(block, 12)) =~= header_without_crc(block));
    }
}

/// The fields of a header, each from its place.
pub proof fn lemma_header_fields(block: Seq<u8>, h: HeaderView)
    requires
        header_in(block) == Ok::<HeaderView, Error>(h),
    ensures
        h.header_size == le32(block, 12),
        h.header_crc32 == le32(block, 16),
        h.my_lba == le64(block, 24),
        h.alternate_lba == le64(block, 32),
        h.first_usable_lba == le64(block, 40),
        h.last_usable_lba == le64(block, 48),
        h.disk_guid == block.subrange(56, 72),
        h.partition_entry_lba == le64(block, 72),
        h.num_partition_entries == le32(block, 80),
        h.partition_entry_size == le32(block, 84),
        h.partition_entry_array_crc32 == le32(block, 88),
{
}

/// Slot `i` of an array of entries of `size` bytes is in use: its type GUID
/// is not all zeros.
pub open spec fn used_at(array: Seq<u8>, size: int, i: int) -> bool {
    exists|b: int| 0 <= b < 16 && #[trigger] array[i * size + b] != 0
}

/// Slot `i` describes sectors whose byte offset and length fit a `u64`, its
/// last one not before its first.
pub open spec fn readable_at(array: Seq<u8>, size: int, i: int) -> bool {
    let first = le64(array, i * size + 32);
    let last = le64(array, i * size + 40);
    first <= last && first * 512 <= u64::MAX && (last - first + 1) * 512 <= u64::MAX
}

/// `p` says what slot `i` says: its sectors in bytes, both ends included, its
/// type, attributes, UUID and name.
pub open spec fn entry_read(p: PartitionView, array: Seq<u8>, size: int, i: int) -> bool {
    let at = i * size;
    &&& p.start == 512 * le64(array, at + 32)
    &&& p.length == 512 * (le64(array, at + 40) - le64(array, at + 32) + 1)
    &&& p.kind == (KindView::Gpt {
        type_guid: array.subrange(at, at + 16),
        attributes: le64(array, at + 48) as u64,
    })
    &&& p.uuid == Some(array.subrange(at + 16, at + 32))
    &&& p.label == label_in(array.subrange(at + 56, at + 128))
    &&& p.slot == Some(i as u32)
}

proof fn lemma_entry_fields(array: Seq<u8>, size: int, n: int, i: int)
    requires
        size >= 128,
        0 <= i < n <= u32::MAX,
        array.len() >= n * size,
    ensures
        unused(entry_bytes(array, size, i)) == !used_at(array, size, i),
        partition_in(entry_bytes(array, size, i), i) is Ok == readable_at(array, size, i),
        partition_in(entry_bytes(array, size, i), i) matches Ok(p) ==> entry_read(p, array, size, i)
            && p.issues == 0,
{
    lemma_slot_inside(i, n, size);
    let at = i * size;
    let e = entry_bytes(array, size, i);
    assert forall|k: int| 0 <= k < size implies #[trigger] e[k] == array[at + k] by {}
    assert(le16(e, 32) == le16(array, at + 32) && le16(e, 34) == le16(array, at + 34));
    assert(le16(e, 36) == le16(array, at + 36) && le16(e, 38) == le16(array, at + 38));
    assert(le16(e, 40) == le16(array, at + 40) && le16(e, 42) == le16(array, at + 42));
    assert(le16(e, 44) == le16(array, at + 44) && le16(e, 46) == le16(array, at + 46));
    assert(le16(e, 48) == le16(array, at + 48) && le16(e, 50) == le16(array, at + 50));
    assert(le16(e, 52) == le16(array, at + 52) && le16(e, 54) == le16(array, at + 54));
    assert(e.take(16) =~= array.subrange(at, at + 16));
    assert(e.subrange(16, 32) =~= array.subrange(at + 16, at + 32));
    assert(e.subrange(56, 128) =~= array.subrange(at + 56, at + 128));
    let none = type_guids::UNUSED@;
    assert forall|b: int| 0 <= b < 16 implies #[trigger] none[b] == 0 by {}
    if used_at(array, size, i) {
        let b = choose|b: int| 0 <= b < 16 && #[trigger] array[i * size + b] != 0;
        assert(e.take(16)[b] != none[b]);
    } else {
        assert forall|b: int| 0 <= b < 16 implies e.take(16)[b] == #[trigger] none[b] by {
            assert(array[i * size + b] == 0);
        }
        assert(e.take(16) =~= none);
    }
}

/// The partitions of an entry array are listed slot by slot: each slot in
/// use, and no other, with what stands there. The array is refused exactly
/// where a slot in use describes no sectors, or more than a `u64` of bytes.
pub proof fn lemma_entries_are_listed(array: Seq<u8>, size: int, n: int)
    requires
        size >= 128,
        0 <= n <= u32::MAX,
        array.len() >= n * size,
    ensures
        partitions_in(array, size, n) is Ok <==> forall|i: int|
            0 <= i < n && #[trigger] used_at(array, size, i) ==> readable_at(array, size, i),
        partitions_in(array, size, n) matches Err(e) ==> e is GptCorrupt,
        partitions_in(array, size, n) matches Ok(parts) ==> {
            &&& forall|i: int|
                0 <= i < n && #[trigger] used_at(array, size, i) ==> exists|k: int|
                    0 <= k < parts.len() && entry_read(#[trigger] parts[k], array, size, i)
            &&& forall|k: int|
                0 <= k < parts.len() ==> {
                    let p = #[trigger] parts[k];
                    p.slot is Some && p.slot->Some_0 < n && used_at(
                        array,
                        size,
                        p.slot->Some_0 as int,
                    ) && entry_read(p, array, size, p.slot->Some_0 as int)
                }
            &&& forall|j: int, k: int|
                0 <= j < k < parts.len() ==> (#[trigger] parts[j]).slot->Some_0 < (
                #[trigger] parts[k]).slot->Some_0
        },
    decreases n,
{
    if n > 0 {
        lemma_slot_inside(n - 1, n, size);
        lemma_entries_are_listed(array, size, n - 1);
        lemma_entry_fields(array, size, n, n - 1);
        if forall|i: int|
            0 <= i < n && #[trigger] used_at(array, size, i) ==> readable_at(array, size, i) {
            assert(used_at(array, size, n - 1) ==> readable_at(array, size, n - 1));
        }
        if let Ok(after) = partitions_in(array, size, n) {
            let before = partitions_in(array, size, n - 1)->Ok_0;
            assert forall|i: int| 0 <= i < n && #[trigger] used_at(array, size, i) implies exists|
                k: int,
            |
                0 <= k < after.len() && entry_read(#[trigger] after[k], array, size, i) by {
                if i < n - 1 {
                    let k = choose|k: int|
                        0 <= k < before.len() && entry_read(#[trigger] before[k], array, size, i);
                    assert(after[k] == before[k]);
                } else {
                    assert(entry_read(after[before.len() as int], array, size, i));
                }
            }
            assert forall|k: int| 0 <= k < after.len() implies {
                let p = #[trigger] after[k];
                p.slot is Some && p.slot->Some_0 < n && used_at(array, size, p.slot->Some_0 as int)
                    && entry_read(p, array, size, p.slot->Some_0 as int)
            } by {
                if k < before.len() {
                    assert(after[k] == before[k]);
                }
            }
            assert forall|j: int, k: int| 0 <= j < k < after.len() implies (
            #[trigger] after[j]).slot->Some_0 < (#[trigger] after[k]).slot->Some_0 by {
                assert(after[j] == before[j]);
                if k < before.len() {
                    assert(after[k] == before[k]);
                }
            }
        }
    }
}

/// What is reported of an entry: bit 0 where it starts before the usable
/// range, bit 1 where it starts or ends past it, bit 2 where it shares a
/// sector with another, and no other bit. Nothing else of it changes.
pub proof fn lemma_issues(parts: Seq<PartitionView>, first: int, last: int, i: int)
    requires
        0 <= i < parts.len(),
        forall|k: int|
            0 <= k < parts.len() ==> (#[trigger] parts[k]).start % 512 == 0 && parts[k].length % 512
                == 0 && parts[k].length > 0 && parts[k].start + parts[k].length <= u64::MAX,
    ensures
        judged(parts, first, last).len() == parts.len(),
        judged(parts, first, last)[i] == (PartitionView {
            issues: judged(parts, first, last)[i].issues,
            ..parts[i]
        }),
        ({
            let issues = judged(parts, first, last)[i].issues;
            let p = parts[i];
            &&& issues & 1 != 0 <==> p.start < first * 512
            &&& issues & 2 != 0 <==> p.start >= (last + 1) * 512 || p.start + p.length > (last + 1)
                * 512
            &&& issues & 4 != 0 <==> exists|j: int|
                0 <= j < parts.len() && j != i && p.start < (#[trigger] parts[j]).start
                    + parts[j].length && parts[j].start < p.start + p.length
            &&& issues & !7u32 == 0
        }),
{
    let spans = lba_spans(parts);
    let p = parts[i];
    assert forall|k: int| 0 <= k < parts.len() implies {
        &&& (#[trigger] spans[k]).0 * 512 == parts[k].start
        &&& (spans[k].1 + 1) * 512 == parts[k].start + parts[k].length
        &&& spans[k].0 <= spans[k].1
    } by {
        assert(spans[k] == lba_span(parts[k]));
        assert(parts[k].start / 512 + parts[k].length / 512 - 1 <= u64::MAX);
    }
    let range = range_issues_spec(spans[i].0 as int, spans[i].1 as int, first, last);
    lemma_range_bits(spans[i].0 as int, spans[i].1 as int, first, last);
    let issues = issues_of(parts, first, last, i);
    assert(range == 0 || range == 1 || range == 2 || range == 3) by {
        assert((0u32 | 0u32) == 0u32 && (1u32 | 0u32) == 1u32 && (0u32 | 2u32) == 2u32 && (1u32
            | 2u32) == 3u32) by (bit_vector);
    }
    assert((range | 4u32) & 1u32 == range & 1u32 && (range | 4u32) & 2u32 == range & 2u32 && (range
        | 0u32) == range && (range | 4u32) & 4u32 != 0u32) by (bit_vector);
    assert(range <= 3 ==> range & 4u32 == 0u32 && range & !7u32 == 0u32 && (range | 4u32) & !7u32
        == 0u32) by (bit_vector);
    let shares = exists|j: int|
        0 <= j < parts.len() && j != i && p.start < (#[trigger] parts[j]).start + parts[j].length
            && parts[j].start < p.start + p.length;
    if overlapped(spans, i) {
        let j = choose|j: int| 0 <= j < spans.len() && j != i && #[trigger] runs_into(spans, i, j);
        lemma_runs_into_is_sharing(spans, i, j);
        assert(spans[i].0 * 512 == p.start && (spans[j].1 + 1) * 512 == parts[j].start
            + parts[j].length);
        assert(shares);
    }
    if shares {
        let j = choose|j: int|
            0 <= j < parts.len() && j != i && p.start < (#[trigger] parts[j]).start
                + parts[j].length && parts[j].start < p.start + p.length;
        assert(spans[i].0 * 512 == p.start && (spans[j].1 + 1) * 512 == parts[j].start
            + parts[j].length);
        lemma_runs_into_is_sharing(spans, i, j);
        assert(runs_into(spans, i, j));
    }
    assert(judged(parts, first, last)[i].issues == issues);
}

/// The entry array is read from where the header says: `n` entries of `size`
/// bytes from its first LBA on, which the device must hold. It is refused
/// where its bytes do not have the CRC that the header gives; else its
/// partitions are the table's, held against the header's usable range.
pub proof fn lemma_array_is_where_the_header_says(content: Seq<u8>, size: u64, h: HeaderView)
    ensures
        ({
            let at = h.partition_entry_lba * 512;
            let len = h.num_partition_entries * h.partition_entry_size;
            let entries = partitions_in(
                content.subrange(at, at + len),
                h.partition_entry_size as int,
                h.num_partition_entries as int,
            );
            &&& at + len > u64::MAX || size != 0 && at + len > size ==> table_on(
                content,
                size,
                h,
            ) is Err && table_on(content, size, h)->Err_0 is GptCorrupt
            &&& len > 0 && at + len > content.len() ==> table_on(content, size, h) is Err
            &&& at + len <= u64::MAX && (size == 0 || at + len <= size) && at + len
                <= content.len() ==> {
                &&& array_on(content, size, h) == Ok::<Seq<u8>, Error>(
                    content.subrange(at, at + len),
                )
                &&& crc32(content.subrange(at, at + len)) != h.partition_entry_array_crc32
                    ==> table_on(content, size, h) == Err::<Seq<PartitionView>, Error>(
                    Error::GptEntriesCrc,
                )
                &&& crc32(content.subrange(at, at + len)) == h.partition_entry_array_crc32 ==> {
                    match entries {
                        Ok(parts) => table_on(content, size, h) == Ok::<Seq<PartitionView>, Error>(
                            judged(parts, h.first_usable_lba as int, h.last_usable_lba as int),
                        ),
                        Err(e) => table_on(content, size, h) == Err::<Seq<PartitionView>, Error>(e),
                    }
                }
            }
        }),
{
    let at = h.partition_entry_lba * 512;
    let len = h.num_partition_entries * h.partition_entry_size;
    assert(0 <= len) by (nonlinear_arith)
        requires
            len == h.num_partition_entries * h.partition_entry_size,
            h.num_partition_entries >= 0,
            h.partition_entry_size >= 0,
    ;
    if at + len <= content.len() {
        assert(window(content, at, len as nat) =~= content.subrange(at, at + len));
    }
}

/// The primary table is the one its header describes, and that header has to
/// take itself to be at LBA 1.
pub proof fn lemma_primary_is_at_lba_1(content: Seq<u8>, size: u64, lba1: Seq<u8>)
    ensures
        match header_in(lba1) {
            Ok(h) => if h.my_lba == 1 {
                primary_on(content, size, lba1) == table_on(content, size, h)
            } else {
                primary_on(content, size, lba1) matches Err(Error::GptCorrupt(_))
            },
            Err(e) => primary_on(content, size, lba1) == Err::<Seq<PartitionView>, Error>(e),
        },
        primary_header_in(lba1) matches Ok(h) ==> h.my_lba == 1 && header_in(lba1) == Ok::<
            HeaderView,
            Error,
        >(h),
{
}

/// A device that does not hold its last sector, or states less than two, has
/// no backup table.
pub proof fn lemma_no_last_sector_no_backup(content: Seq<u8>, size: u64)
    ensures
        size < 1024 ==> backup_on(content, size) is Err && backup_on(
            content,
            size,
        )->Err_0 is GptCorrupt,
        size >= 1024 && content.len() < size / 512 * 512 ==> backup_on(content, size) is Err,
{
}

/// The backup table is the one described by the header in the last whole
/// sector of the device, and that header has to take itself to be there.
pub proof fn lemma_backup_is_in_the_last_sector(content: Seq<u8>, size: u64, sector: Seq<u8>)
    requires
        size >= 1024,
        content.len() >= size / 512 * 512,
        sector == content.subrange(size / 512 * 512 - 512, size / 512 * 512),
    ensures
        match header_in(sector) {
            Ok(h) => if h.my_lba == size / 512 - 1 {
                backup_on(content, size) == table_on(content, size, h)
            } else {
                backup_on(content, size) is Err && backup_on(content, size)->Err_0 is GptCorrupt
            },
            Err(e) => backup_on(content, size) == Err::<Seq<PartitionView>, Error>(e),
        },
{
    assert(window(content, (size / 512 - 1) * 512, 512) =~= sector);
}

/// What is said of two entries that differ: their range first, then their
/// UUID, their type, their slot, their label.
pub proof fn lemma_first_difference_is_named(a: PartitionView, b: PartitionView)
    ensures
        difference(a, b) is None <==> a.start == b.start && a.length == b.length && a.uuid == b.uuid
            && a.kind == b.kind && a.slot == b.slot && a.label == b.label,
        a.start != b.start || a.length != b.length ==> difference(a, b) == Some(
            "partition range differs",
        ),
        a.start == b.start && a.length == b.length && a.uuid != b.uuid ==> difference(a, b) == Some(
            "partition uuid differs",
        ),
        a.start == b.start && a.length == b.length && a.uuid == b.uuid && a.kind != b.kind
            ==> difference(a, b) == Some("partition type differs"),
{
}

/// Lists of different lengths never agree.
pub proof fn lemma_counts_are_compared(primary: Seq<PartitionView>, backup: Seq<PartitionView>)
    requires
        primary.len() != backup.len(),
    ensures
        compared(primary, backup) == BackupStatus::Mismatch("partition count differs"),
{
}

/// What is said of a backup that cannot be parsed: which of its checksums is
/// wrong, that its header is, or that it cannot be read.
pub proof fn lemma_unparsed_backup(e: Error)
    ensures
        match e {
            Error::GptHeaderCrc => unparsed(e) == BackupStatus::Mismatch("backup header CRC"),
            Error::GptEntriesCrc => unparsed(e) == BackupStatus::Mismatch("backup entries CRC"),
            Error::GptCorrupt(_) => unparsed(e) == BackupStatus::Mismatch("backup header corrupt"),
            _ => unparsed(e) == BackupStatus::Mismatch("backup unreadable"),
        },
{
}

/// The tails are what follows byte 128 of each entry in use, by the UUID in
/// bytes 16 to 31; of no other UUID is there one.
pub proof fn lemma_tails_are_what_follows(array: Seq<u8>, size: int, n: int, uuid: Seq<u8>)
    requires
        size >= 128,
        0 <= n <= u32::MAX,
        array.len() >= n * size,
        tails_agree(array, size, n),
    ensures
        tails_in(array, size, n).contains_key(uuid) <==> exists|i: int|
            0 <= i < n && #[trigger] used_at(array, size, i) && array.subrange(
                i * size + 16,
                i * size + 32,
            ) == uuid,
        forall|i: int|
            0 <= i < n && #[trigger] used_at(array, size, i) && array.subrange(
                i * size + 16,
                i * size + 32,
            ) == uuid ==> tails_in(array, size, n)[uuid] == array.subrange(
                i * size + 128,
                i * size + size,
            ),
{
    let tails = tails_in(array, size, n);
    assert forall|i: int| 0 <= i < n implies {
        &&& #[trigger] slot_used(array, size, i) == used_at(array, size, i)
        &&& uuid_bytes(array, size, i) == array.subrange(i * size + 16, i * size + 32)
        &&& tail_bytes(array, size, i) == array.subrange(i * size + 128, i * size + size)
    } by {
        lemma_slot_inside(i, n, size);
        lemma_entry_fields(array, size, n, i);
        assert(uuid_bytes(array, size, i) =~= array.subrange(i * size + 16, i * size + 32));
        assert(tail_bytes(array, size, i) =~= array.subrange(i * size + 128, i * size + size));
    }
    if tails.contains_key(uuid) {
        let i = choose|i: int| holds_uuid(array, size, n, uuid, i);
        assert(slot_used(array, size, i));
        assert(used_at(array, size, i));
    }
    assert forall|i: int|
        0 <= i < n && #[trigger] used_at(array, size, i) && array.subrange(
            i * size + 16,
            i * size + 32,
        ) == uuid implies tails.contains_key(uuid) && tails[uuid] == array.subrange(
        i * size + 128,
        i * size + size,
    ) by {
        assert(slot_used(array, size, i));
        assert(holds_uuid(array, size, n, uuid, i));
        let j = choose|j: int| holds_uuid(array, size, n, uuid, j);
        assert(slot_used(array, size, j));
    }
}

/// Tails are refused exactly where two entries in use share a UUID and differ
/// behind byte 128.
pub proof fn lemma_tails_are_refused(array: Seq<u8>, size: int, n: int)
    requires
        size >= 128,
        0 <= n <= u32::MAX,
        array.len() >= n * size,
    ensures
        tails_agree(array, size, n) <==> forall|i: int, j: int|
            0 <= i < n && 0 <= j < n && #[trigger] used_at(array, size, i) && #[trigger] used_at(
                array,
                size,
                j,
            ) && array.subrange(i * size + 16, i * size + 32) == array.subrange(
                j * size + 16,
                j * size + 32,
            ) ==> array.subrange(i * size + 128, i * size + size) == array.subrange(
                j * size + 128,
                j * size + size,
            ),
{
    assert forall|i: int| 0 <= i < n implies {
        &&& #[trigger] slot_used(array, size, i) == used_at(array, size, i)
        &&& uuid_bytes(array, size, i) == array.subrange(i * size + 16, i * size + 32)
        &&& tail_bytes(array, size, i) == array.subrange(i * size + 128, i * size + size)
    } by {
        lemma_slot_inside(i, n, size);
        lemma_entry_fields(array, size, n, i);
        assert(uuid_bytes(array, size, i) =~= array.subrange(i * size + 16, i * size + 32));
        assert(tail_bytes(array, size, i) =~= array.subrange(i * size + 128, i * size + size));
    }
    if tails_agree(array, size, n) {
        assert forall|i: int, j: int|
            0 <= i < n && 0 <= j < n && #[trigger] used_at(array, size, i) && #[trigger] used_at(
                array,
                size,
                j,
            ) && array.subrange(i * size + 16, i * size + 32) == array.subrange(
                j * size + 16,
                j * size + 32,
            ) implies array.subrange(i * size + 128, i * size + size) == array.subrange(
            j * size + 128,
            j * size + size,
        ) by {
            assert(slot_used(array, size, i) && slot_used(array, size, j));
        }
    } else {
        let (i, j) = choose|i: int, j: int|
            !(0 <= i < n && 0 <= j < n && #[trigger] slot_used(array, size, i)
                && #[trigger] slot_used(array, size, j) && uuid_bytes(array, size, i) == uuid_bytes(
                array,
                size,
                j,
            ) ==> tail_bytes(array, size, i) == tail_bytes(array, size, j));
        assert(used_at(array, size, i) && used_at(array, size, j));
    }
}

} // verus!
