//! What the C side is told.

use vstd::prelude::*;

use crate::capi::{
    cut_short, fs_code, info_of, label_shown, list_of, slice_of, source_code, table_code, whole,
    PartitionsTableSource, SliceRefusal, TableKindCode,
};
use crate::error::Error;
use crate::probe::{bootable, KindView, PartitionView, TableKind, TableSource};
use crate::sniff::{ExtVersion, FsKind};

verus! {

/// The number of each filesystem kind.
pub proof fn lemma_fs_numbers(kind: FsKind)
    ensures
        fs_code(kind).number() == (match kind {
            FsKind::Unknown => 0i32,
            FsKind::Ext { version: ExtVersion::Ext2OrAny } => 1,
            FsKind::Ext { version: ExtVersion::Ext3 } => 2,
            FsKind::Ext { version: ExtVersion::Ext4 } => 3,
            FsKind::Ntfs => 4,
            FsKind::ExFat => 5,
            FsKind::Fat32 => 6,
            FsKind::Fat16 => 7,
            FsKind::HfsPlus => 8,
            FsKind::Apfs => 9,
            FsKind::LinuxSwap => 10,
            FsKind::Iso9660 => 11,
            FsKind::Squashfs => 12,
        }),
{
}

/// The number of each table kind and of each table source.
pub proof fn lemma_table_numbers(kind: TableKind, source: TableSource)
    ensures
        TableKindCode::NoTable.number() == 0,
        table_code(kind).number() == (match kind {
            TableKind::Gpt => 1i32,
            TableKind::Mbr => 2,
        }),
        source_code(source).number() == (match source {
            TableSource::Primary => 0i32,
            TableSource::PrimaryBackupMismatch(_) => 1,
            TableSource::RecoveredFromBackup => 2,
        }),
{
}

/// What is told of a partition is what it says: its range, type, attributes,
/// bootable mark, slot and issues. What only the other table has is zero, a
/// slot that there is none of is -1, and nothing is said of what stands in
/// it.
pub proof fn lemma_what_is_told(p: PartitionView, table: TableKindCode)
    ensures
        info_of(p, table).start == p.start,
        info_of(p, table).length == p.length,
        info_of(p, table).fs_kind == 0,
        info_of(p, table).table_kind == table.number(),
        info_of(p, table).bootable == bootable(p.kind),
        info_of(p, table).issues == p.issues,
        info_of(p, table).label == label_shown(p.label),
        p.kind matches KindView::Gpt { type_guid, attributes } ==> info_of(p, table).type_guid
            == type_guid && info_of(p, table).attributes == attributes && info_of(
            p,
            table,
        ).type_byte == 0,
        p.kind matches KindView::Mbr { type_byte, .. } ==> info_of(p, table).type_byte == type_byte
            && info_of(p, table).attributes == 0 && info_of(p, table).type_guid.len() == 16
            && forall|i: int| 0 <= i < 16 ==> #[trigger] info_of(p, table).type_guid[i] == 0,
        p.slot is None ==> info_of(p, table).slot == -1,
        p.slot is Some && p.slot->Some_0 <= 0x7FFF_FFFF ==> info_of(p, table).slot
            == p.slot->Some_0,
        p.slot is Some && p.slot->Some_0 > 0x7FFF_FFFF ==> info_of(p, table).slot == -1,
{
}

/// A label is shown character by character, a question mark for a NUL. An
/// empty one is not shown.
pub proof fn lemma_label_shown(label: Option<Seq<char>>)
    ensures
        label_shown(label) is None <==> label is None || label->Some_0.len() == 0,
        label_shown(label) matches Some(text) ==> {
            &&& text.len() == label->Some_0.len()
            &&& forall|i: int|
                0 <= i < text.len() ==> #[trigger] text[i] == (if label->Some_0[i] == '\0' {
                    '?'
                } else {
                    label->Some_0[i]
                })
        },
{
}

/// A device is opened over a partition exactly where it breaks no rule and
/// begins on the device: from its start, as far as both it and the device
/// reach.
pub proof fn lemma_slice_is_the_partition(p: PartitionView, size: u64)
    ensures
        p.issues != 0 ==> slice_of(p, size) == Err::<(u64, u64), SliceRefusal>(
            SliceRefusal::BreaksRules(p.issues),
        ),
        p.issues == 0 && p.start >= size ==> slice_of(p, size) == Err::<(u64, u64), SliceRefusal>(
            SliceRefusal::PastDevice,
        ),
        p.issues == 0 && p.start < size ==> slice_of(p, size) is Ok && {
            let (start, length) = slice_of(p, size)->Ok_0;
            &&& start == p.start
            &&& p.start + p.length <= size ==> length == p.length
            &&& p.start + p.length > size ==> start + length == size
        },
{
}

/// A device without a table is one partition from its start, as long as it
/// is declared to be. What was declared hides something exactly where it is
/// less than the device has and less than 64 KiB.
pub proof fn lemma_whole_device(declared: u64, size: u64)
    ensures
        whole(declared).start == 0,
        whole(declared).length == declared,
        whole(declared).issues == 0,
        cut_short(declared, size) <==> declared < size && declared < 65536,
{
}

/// The list says what the probe found: its kind, its partitions as they are,
/// and where they came from.
pub proof fn lemma_list_is_what_was_found(
    found: core::result::Result<(TableKind, Seq<PartitionView>, TableSource), Error>,
)
    ensures
        match found {
            Ok((kind, parts, source)) => list_of(found) is Ok && {
                let list = list_of(found)->Ok_0;
                &&& list.entries == parts
                &&& list.table == TableKindCode::Gpt <==> kind == TableKind::Gpt
                &&& list.table == TableKindCode::Mbr <==> kind == TableKind::Mbr
                &&& list.source == PartitionsTableSource::Primary <==> source
                    == TableSource::Primary
                &&& list.source == PartitionsTableSource::RecoveredFromBackup <==> source
                    == TableSource::RecoveredFromBackup
            },
            Err(e) => list_of(found) is Err && list_of(found)->Err_0 == e,
        },
{
}

} // verus!
