//! Which table a disk has, and where it is taken from.

use vstd::prelude::*;

use crate::codec::laws::lemma_tag_bytes;
use crate::codec::window;
use crate::error::{BlockError, Error};
use crate::gpt::type_guids::EFI_SYSTEM;
use crate::gpt::{backup_on, backup_status, header_in, primary_on, BackupStatus, SIGNATURE};
use crate::mbr::laws::{lemma_marked, lemma_protective_is_sole, type_at};
use crate::mbr::volumes;
use crate::probe::{
    bootable, lba1_on, span, table_found, table_recovered, KindView, Partition, PartitionView,
    TableKind, TableSource,
};
use crate::sniff::laws::spells;

verus! {

/// The view of a partition leaves nothing of it out.
pub proof fn lemma_view_says_all(a: Partition, b: Partition)
    requires
        a@ == b@,
    ensures
        a.start == b.start,
        a.length == b.length,
        a.kind@ == b.kind@,
        a.slot == b.slot,
        a.issues == b.issues,
        a.label is Some == b.label is Some,
        a.label is Some ==> a.label->Some_0@ == b.label->Some_0@,
        a.uuid is Some == b.uuid is Some,
        a.uuid is Some ==> a.uuid->Some_0@ == b.uuid->Some_0@,
{
}

/// The sectors of a partition are those its first and its last byte lie in.
/// It has none exactly where it is empty or its end does not fit a `u64`.
pub proof fn lemma_span_holds_the_bytes(p: PartitionView)
    ensures
        span(p) is Ok <==> p.length > 0 && p.start + p.length <= u64::MAX,
        span(p) matches Ok((first, last)) ==> {
            &&& first * 512 <= p.start < (first + 1) * 512
            &&& last * 512 <= p.start + p.length - 1 < (last + 1) * 512
        },
{
}

/// What is marked bootable: the active entry of an MBR; of a GPT the EFI
/// System Partition, whatever its attributes, and any partition whose
/// attribute bit 2 is set; never a whole device.
pub proof fn lemma_bootable(type_guid: Seq<u8>, attributes: u64, type_byte: u8, active: bool)
    ensures
        bootable(KindView::Mbr { type_byte, active }) == active,
        !bootable(KindView::Whole),
        bootable(KindView::Gpt { type_guid, attributes }) <==> {
            ||| attributes & 4 != 0
            ||| type_guid == seq![
                0x28u8, 0x73, 0x2A, 0xC1, 0x1F, 0xF8, 0xD2, 0x11, 0xBA, 0x4B, 0x00, 0xA0, 0xC9,
                0x3E, 0xC9, 0x3B,
            ]
        },
{
    assert(EFI_SYSTEM@ =~= seq![
        0x28u8, 0x73, 0x2A, 0xC1, 0x1F, 0xF8, 0xD2, 0x11, 0xBA, 0x4B, 0x00, 0xA0, 0xC9, 0x3E, 0xC9,
        0x3B,
    ]);
}

/// "EFI PART" opens the second sector, and the device has one.
pub open spec fn gpt_sign(content: Seq<u8>, size: u64) -> bool {
    &&& size == 0 || size >= 1024
    &&& content.len() >= 1024
    &&& spells(content, 512, seq![0x45u8, 0x46, 0x49, 0x20, 0x50, 0x41, 0x52, 0x54])
}

/// The GPT signature at LBA 1 decides for a GPT: the table is then the one
/// its header describes, or why that one cannot be read, and never an MBR.
/// Without it there is never a GPT.
pub proof fn lemma_gpt_signature_decides(content: Seq<u8>, size: u64)
    requires
        content.len() >= 512,
    ensures
        gpt_sign(content, size) ==> match primary_on(content, size, content.subrange(512, 1024)) {
            Ok(parts) => table_found(content, size) == Ok::<(TableKind, Seq<PartitionView>), Error>(
                (TableKind::Gpt, parts),
            ),
            Err(e) => table_found(content, size) == Err::<(TableKind, Seq<PartitionView>), Error>(e),
        },
        !gpt_sign(content, size) ==> !(table_found(content, size) matches Ok((TableKind::Gpt, _))),
{
    let lba1 = lba1_on(content, size);
    let tag = seq![0x45u8, 0x46, 0x49, 0x20, 0x50, 0x41, 0x52, 0x54];
    assert(SIGNATURE@ =~= tag);
    lemma_tag_bytes(lba1, 0, tag);
    if (size == 0 || size >= 1024) && content.len() >= 1024 {
        assert(lba1 =~= content.subrange(512, 1024));
        if gpt_sign(content, size) {
            assert forall|k: int| 0 <= k < tag.len() implies lba1[0 + k] == #[trigger] tag[k] by {
                assert(content[512 + k] == tag[k]);
            }
        }
        if crate::codec::has_at(lba1, 0, tag) {
            assert forall|k: int| 0 <= k < tag.len() implies content[512 + k] == #[trigger] tag[k] by {
                assert(lba1[0 + k] == tag[k]);
            }
        }
    } else {
        assert(tag[0] == 0x45);
        assert(lba1[0int + 0int] == 0);
    }
}

/// A header that checks out and takes itself to be at LBA 1 stands at byte
/// 4096.
pub open spec fn big_sectors(content: Seq<u8>) -> bool {
    &&& content.len() >= 8192
    &&& header_in(content.subrange(4096, 8192)) matches Ok(h) && h.my_lba == 1
}

/// Without a GPT signature the first sector decides. Unsigned, it is no
/// table. With no GPT marker its volumes are the table. With a marker, a GPT
/// header at byte 4096 says that the disk counts in bigger sectors; without
/// one, a marker alone is a GPT that is missing, and a marker beside other
/// entries leaves the volumes as the table.
pub proof fn lemma_first_sector_decides(content: Seq<u8>, size: u64)
    requires
        content.len() >= 512,
        !gpt_sign(content, size),
    ensures
        ({
            let lba0 = content.subrange(0, 512);
            let found = table_found(content, size);
            let listed = Ok::<(TableKind, Seq<PartitionView>), Error>(
                (TableKind::Mbr, volumes(lba0, 4)),
            );
            let types = (type_at(lba0, 0), type_at(lba0, 1), type_at(lba0, 2), type_at(lba0, 3));
            let marked = types.0 == 0xEE || types.1 == 0xEE || types.2 == 0xEE || types.3 == 0xEE;
            let alone = {
                ||| types.1 == 0 && types.2 == 0 && types.3 == 0
                ||| types.0 == 0 && types.2 == 0 && types.3 == 0
                ||| types.0 == 0 && types.1 == 0 && types.3 == 0
                ||| types.0 == 0 && types.1 == 0 && types.2 == 0
            };
            if content[510] != 0x55 || content[511] != 0xAA {
                found == Err::<(TableKind, Seq<PartitionView>), Error>(Error::NoPartitionTable)
            } else if !marked {
                found == listed
            } else if big_sectors(content) {
                found is Err && found->Err_0 is UnsupportedSectorSize
            } else if alone {
                found is Err && found->Err_0 is GptCorrupt
            } else {
                found == listed
            }
        }),
{
    let lba0 = content.subrange(0, 512);
    lemma_gpt_signature_decides(content, size);
    assert(window(content, 0, 512) =~= lba0);
    lemma_marked(lba0);
    lemma_protective_is_sole(lba0);
    if content.len() >= 8192 {
        assert(window(content, 4096, 4096) =~= content.subrange(4096, 8192));
    }
    let tag = seq![0x45u8, 0x46, 0x49, 0x20, 0x50, 0x41, 0x52, 0x54];
    assert(SIGNATURE@ =~= tag);
    let lba1 = lba1_on(content, size);
    assert(!crate::codec::has_at(lba1, 0, tag)) by {
        lemma_tag_bytes(lba1, 0, tag);
        if (size == 0 || size >= 1024) && content.len() >= 1024 {
            if crate::codec::has_at(lba1, 0, tag) {
                assert forall|k: int| 0 <= k < tag.len() implies content[512 + k] == #[trigger] tag[k] by {
                    assert(lba1[0 + k] == tag[k]);
                }
            }
        } else {
            assert(tag[0] == 0x45);
            assert(lba1[0int + 0int] == 0);
        }
    }
}

/// A device too short for one sector has no table.
pub proof fn lemma_no_sector_no_table(content: Seq<u8>, size: u64)
    requires
        content.len() < 512,
    ensures
        table_found(content, size) == Err::<(TableKind, Seq<PartitionView>), Error>(
            Error::Block(BlockError::ShortRead { offset: 0, want: 512, got: 0 }),
        ),
{
}

/// A table that a probe finds is what is reported, whatever the backup says:
/// the same kind, the same partitions. The backup only decides what is said
/// beside it: nothing where the table is an MBR or the backup agrees, else
/// that it does not, and why.
pub proof fn lemma_primary_is_reported(
    content: Seq<u8>,
    size: u64,
    kind: TableKind,
    parts: Seq<PartitionView>,
)
    requires
        table_found(content, size) == Ok::<(TableKind, Seq<PartitionView>), Error>((kind, parts)),
    ensures
        table_recovered(content, size) matches Ok((k, p, source)) && k == kind && p == parts && {
            &&& source != TableSource::RecoveredFromBackup
            &&& source == TableSource::Primary <==> kind == TableKind::Mbr || backup_status(
                content,
                size,
                parts,
            ) == BackupStatus::Agrees
            &&& source matches TableSource::PrimaryBackupMismatch(why) ==> backup_status(
                content,
                size,
                parts,
            ) == BackupStatus::Mismatch(why)
        },
{
}

/// The backup stands in only where a probe finds no table, and then as a GPT
/// with the backup's own partitions. It does not stand in on a disk that
/// counts in bigger sectors. Where it cannot be read either, what is
/// reported is why the probe found none.
pub proof fn lemma_backup_stands_in(content: Seq<u8>, size: u64, e: Error)
    requires
        table_found(content, size) == Err::<(TableKind, Seq<PartitionView>), Error>(e),
    ensures
        match table_recovered(content, size) {
            Ok((kind, parts, source)) => {
                &&& kind == TableKind::Gpt
                &&& source == TableSource::RecoveredFromBackup
                &&& backup_on(content, size) == Ok::<Seq<PartitionView>, Error>(parts)
                &&& !(e is UnsupportedSectorSize)
            },
            Err(said) => {
                &&& said == e
                &&& e is UnsupportedSectorSize || backup_on(content, size) is Err
            },
        },
{
}

} // verus!
