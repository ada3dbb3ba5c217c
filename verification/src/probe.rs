//! Partitions, and the top-level probe.

use vstd::prelude::*;

use crate::block::BlockRead;
use crate::codec::{bytes_at, bytes_eq, has_at, window, zeros};
use crate::error::{device_failure, outcome, past_end, same_error, Error, Result};
use crate::gpt;
use crate::gpt::attr::LEGACY_BIOS_BOOTABLE;
use crate::gpt::type_guids::EFI_SYSTEM;
use crate::gpt::{
    backup_on, backup_status, header_in, parse_backup, primary_on, validate_backup, BackupStatus,
    SIGNATURE,
};
use crate::mbr;
use crate::mbr::{marked, protective, signed, volumes};
use crate::{Sector, SECTOR_SIZE, SECTOR_SIZE_USIZE};

pub mod laws;

verus! {

/// Which on-disk partition table produced a result.
#[derive(Debug, Clone, Copy, PartialEq, Eq, Structural)]
pub enum TableKind {
    Gpt,
    Mbr,
}

/// The on-disk type tag of a partition.
#[derive(Debug, Clone, Copy, PartialEq, Eq)]
pub enum PartitionKind {
    /// The type GUID of a GPT entry, and its attributes: see
    /// [`crate::gpt::attr`].
    Gpt { type_guid: [u8; 16], attributes: u64 },
    /// The type byte of an MBR entry, and whether it is the active
    /// (bootable) one.
    Mbr { type_byte: u8, active: bool },
    /// The whole device: no table at all.
    Whole,
}

/// What a [`PartitionKind`] says.
pub enum KindView {
    Gpt { type_guid: Seq<u8>, attributes: u64 },
    Mbr { type_byte: u8, active: bool },
    Whole,
}

impl View for PartitionKind {
    type V = KindView;

    open spec fn view(&self) -> KindView {
        match *self {
            PartitionKind::Gpt { type_guid, attributes } => KindView::Gpt {
                type_guid: type_guid@,
                attributes,
            },
            PartitionKind::Mbr { type_byte, active } => KindView::Mbr { type_byte, active },
            PartitionKind::Whole => KindView::Whole,
        }
    }
}

/// One partition. `start` and `length` are in bytes, from the start of the
/// whole device.
#[derive(Debug)]
pub struct Partition {
    pub start: u64,
    pub length: u64,
    pub kind: PartitionKind,
    pub label: Option<String>,
    pub uuid: Option<[u8; 16]>,
    /// The table slot the entry came from, counted from zero: the system's
    /// own number for the partition is one more. `None` for a partition
    /// that has not been in a table yet.
    pub slot: Option<u32>,
    /// The rules the entry breaks: see [`crate::gpt::entry_issue`].
    pub issues: u32,
}

/// What a [`Partition`] says.
pub struct PartitionView {
    pub start: u64,
    pub length: u64,
    pub kind: KindView,
    pub label: Option<Seq<char>>,
    pub uuid: Option<Seq<u8>>,
    pub slot: Option<u32>,
    pub issues: u32,
}

/// A label's characters.
pub open spec fn label_view(label: Option<String>) -> Option<Seq<char>> {
    match label {
        Some(s) => Some(s@),
        None => None,
    }
}

/// A UUID's bytes.
pub open spec fn uuid_view(uuid: Option<[u8; 16]>) -> Option<Seq<u8>> {
    match uuid {
        Some(u) => Some(u@),
        None => None,
    }
}

impl View for Partition {
    type V = PartitionView;

    open spec fn view(&self) -> PartitionView {
        PartitionView {
            start: self.start,
            length: self.length,
            kind: self.kind@,
            label: label_view(self.label),
            uuid: uuid_view(self.uuid),
            slot: self.slot,
            issues: self.issues,
        }
    }
}

/// What a list of partitions says.
pub open spec fn views(parts: Seq<Partition>) -> Seq<PartitionView> {
    parts.map_values(|p: Partition| p@)
}

impl Clone for Partition {
    fn clone(&self) -> (r: Self)
        ensures
            r@ == self@,
    {
        let label: Option<String> = match &self.label {
            Some(s) => Some(s.clone()),
            None => None,
        };
        Partition {
            start: self.start,
            length: self.length,
            kind: self.kind,
            label,
            uuid: self.uuid,
            slot: self.slot,
            issues: self.issues,
        }
    }
}

/// Whether two UUIDs are the same.
pub fn same_uuid(a: &Option<[u8; 16]>, b: &Option<[u8; 16]>) -> (r: bool)
    ensures
        r == (uuid_view(*a) == uuid_view(*b)),
{
    match (a, b) {
        (Some(x), Some(y)) => bytes_eq(x, y),
        (None, None) => true,
        _ => false,
    }
}

/// Whether two labels are the same.
pub fn same_label(a: &Option<String>, b: &Option<String>) -> (r: bool)
    ensures
        r == (label_view(*a) == label_view(*b)),
{
    match (a, b) {
        (Some(x), Some(y)) => *x == *y,
        (None, None) => true,
        _ => false,
    }
}

/// Whether two type tags are the same.
pub fn same_kind(a: &PartitionKind, b: &PartitionKind) -> (r: bool)
    ensures
        r == (a@ == b@),
{
    match (a, b) {
        (
            PartitionKind::Gpt { type_guid: x, attributes: m },
            PartitionKind::Gpt { type_guid: y, attributes: n },
        ) => bytes_eq(x, y) && *m == *n,
        (
            PartitionKind::Mbr { type_byte: x, active: m },
            PartitionKind::Mbr { type_byte: y, active: n },
        ) => *x == *y && *m == *n,
        (PartitionKind::Whole, PartitionKind::Whole) => true,
        _ => false,
    }
}

/// The first and last sector of a partition, both inclusive.
pub open spec fn span(p: PartitionView) -> core::result::Result<(u64, u64), Error> {
    if p.length == 0 {
        Err(Error::Invalid("a zero-length partition has no last sector"))
    } else if p.start + p.length > u64::MAX {
        Err(Error::Invalid("a partition's start and length overflow a u64"))
    } else {
        Ok((p.start / 512, ((p.start + p.length - 1) / 512) as u64))
    }
}

/// Marked bootable in the on-disk table: the active entry of an MBR; in a
/// GPT the EFI System Partition, or one with the legacy-BIOS attribute.
pub open spec fn bootable(kind: KindView) -> bool {
    match kind {
        KindView::Mbr { active, .. } => active,
        KindView::Gpt { type_guid, attributes } => {
            type_guid == EFI_SYSTEM@ || attributes & LEGACY_BIOS_BOOTABLE != 0
        },
        KindView::Whole => false,
    }
}

impl Partition {
    /// True when this partition is marked bootable in the on-disk table.
    ///
    /// - MBR: the active flag is set on the entry.
    /// - GPT: the type GUID is the EFI System Partition's, or the
    ///   legacy-BIOS-bootable attribute bit is set.
    /// - Whole: never.
    pub fn is_bootable(&self) -> (r: bool)
        ensures
            r == bootable(self.kind@),
    {
        match self.kind {
            PartitionKind::Mbr { active, .. } => active,
            PartitionKind::Gpt { type_guid, attributes } => {
                bytes_eq(&type_guid, &EFI_SYSTEM) || (attributes & LEGACY_BIOS_BOOTABLE) != 0
            },
            PartitionKind::Whole => false,
        }
    }

    /// The first and last sector the partition occupies, both inclusive.
    /// A last sector it only partly occupies counts.
    ///
    /// Refused for a partition of no length, which has no last sector, and
    /// for one whose end does not fit a `u64`.
    pub fn sector_span(&self) -> (r: Result<(u64, u64)>)
        ensures
            r == span(self@),
    {
        if self.length == 0 {
            return Err(Error::Invalid("a zero-length partition has no last sector"));
        }
        match self.start.checked_add(self.length) {
            Some(end) => Ok((self.start / SECTOR_SIZE, (end - 1) / SECTOR_SIZE)),
            None => Err(Error::Invalid("a partition's start and length overflow a u64")),
        }
    }
}

/// Bytes of the logical block that a 4Kn disk counts its LBAs in.
const BIG_BLOCK: usize = 4096;

/// The second sector of a device. There is none where the device states a
/// size that leaves no room for it, or ends before it does.
pub open spec fn lba1_on(content: Seq<u8>, size: u64) -> Seq<u8> {
    if 0 < size < 1024 || content.len() < 1024 {
        zeros(512)
    } else {
        window(content, 512, 512)
    }
}

/// A sound GPT header that takes itself to be at LBA 1 stands at byte 4096:
/// the disk counts its LBAs in 4096-byte units.
pub open spec fn big_blocks(content: Seq<u8>) -> bool {
    &&& content.len() >= 8192
    &&& header_in(window(content, 4096, 4096)) is Ok
    &&& header_in(window(content, 4096, 4096))->Ok_0.my_lba == 1
}

/// The partition table on a device, or why there is none to report.
///
/// The GPT whose signature stands at LBA 1; else the MBR that LBA 0 is
/// signed as. An MBR that only says that the real table is a GPT is not
/// reported as a table.
pub open spec fn table_found(content: Seq<u8>, size: u64) -> core::result::Result<
    (TableKind, Seq<PartitionView>),
    Error,
> {
    let lba0 = window(content, 0, 512);
    let lba1 = lba1_on(content, size);
    if content.len() < 512 {
        Err(past_end(0, 512))
    } else if has_at(lba1, 0, SIGNATURE@) {
        match primary_on(content, size, lba1) {
            Ok(parts) => Ok((TableKind::Gpt, parts)),
            Err(e) => Err(e),
        }
    } else if !signed(lba0) {
        Err(Error::NoPartitionTable)
    } else if marked(lba0) && big_blocks(content) {
        Err(Error::UnsupportedSectorSize("the GPT counts its LBAs in 4096-byte sectors"))
    } else if protective(lba0) {
        Err(Error::GptCorrupt("protective MBR present but no GPT signature"))
    } else {
        Ok((TableKind::Mbr, volumes(lba0, 4)))
    }
}

/// What a probe's result says.
pub open spec fn probe_view(r: Result<(TableKind, Vec<Partition>)>) -> core::result::Result<
    (TableKind, Seq<PartitionView>),
    Error,
> {
    match r {
        Ok(v) => Ok((v.0, views(v.1@))),
        Err(e) => Err(e),
    }
}

/// Reads the second sector of a device, zeros where there is none.
pub(crate) fn read_lba1<D: BlockRead + ?Sized>(dev: &D) -> (r: Result<Sector>)
    ensures
        match r {
            Ok(lba1) => lba1@ == lba1_on(dev.content(), dev.stated_size()),
            Err(e) => !dev.dependable() && device_failure(e, dev.answers()),
        },
{
    let mut lba1: Sector = [0u8; SECTOR_SIZE_USIZE];
    let none: Sector = [0u8; SECTOR_SIZE_USIZE];
    assert(none@ =~= zeros(512));
    let size: u64 = dev.size_bytes();
    if 0 < size && size < 2 * SECTOR_SIZE {
        return Ok(none);
    }
    match dev.read_at(SECTOR_SIZE, &mut lba1) {
        Ok(()) => {
            assert(lba1@ =~= window(dev.content(), 512, 512));
            Ok(lba1)
        },
        Err(e) => {
            if e.is_past_end() {
                Ok(none)
            } else {
                Err(Error::Block(e))
            }
        },
    }
}

/// Whether a sound GPT header that takes itself to be at LBA 1 stands at
/// byte 4096.
fn counts_big_blocks<D: BlockRead + ?Sized>(dev: &D) -> (r: Result<bool>)
    ensures
        match r {
            Ok(found) => found == big_blocks(dev.content()),
            Err(e) => !dev.dependable() && device_failure(e, dev.answers()),
        },
{
    let mut block: Vec<u8> = vec![0u8; BIG_BLOCK];
    match dev.read_at(BIG_BLOCK as u64, block.as_mut_slice()) {
        Ok(()) => {},
        Err(e) => {
            if e.is_past_end() {
                return Ok(false);
            }
            return Err(Error::Block(e));
        },
    }
    assert(block@ =~= window(dev.content(), 4096, 4096));
    match gpt::parse_header_block(block.as_slice()) {
        Ok(header) => Ok(header.my_lba == 1),
        Err(_) => Ok(false),
    }
}

/// Probe the device for a partition table.
///
/// A GPT header signature at LBA 1 decides for GPT. Else LBA 0 is read as an
/// MBR, unless it says that the real table is a GPT: then that one is
/// missing, or the disk counts its LBAs in 4096-byte units.
///
/// The backup GPT is not consulted: see [`probe_with_status`].
pub fn probe<D: BlockRead + ?Sized>(dev: &D) -> (r: Result<(TableKind, Vec<Partition>)>)
    ensures
        outcome(
            probe_view(r),
            table_found(dev.content(), dev.stated_size()),
            dev.dependable(),
            dev.answers(),
        ),
{
    let mut lba0: Sector = [0u8; SECTOR_SIZE_USIZE];
    match dev.read_at(0, &mut lba0) {
        Ok(()) => {},
        Err(e) => return Err(Error::Block(e)),
    }
    assert(lba0@ =~= window(dev.content(), 0, 512));
    let lba1: Sector = match read_lba1(dev) {
        Ok(s) => s,
        Err(e) => return Err(e),
    };
    if bytes_at(&lba1, 0, &SIGNATURE) {
        return match gpt::parse(dev, &lba1) {
            Ok(parts) => Ok((TableKind::Gpt, parts)),
            Err(e) => Err(e),
        };
    }
    if !mbr::has_signature(&lba0) {
        return Err(Error::NoPartitionTable);
    }
    if mbr::has_gpt_marker(&lba0) {
        let big: bool = match counts_big_blocks(dev) {
            Ok(b) => b,
            Err(e) => return Err(e),
        };
        if big {
            return Err(
                Error::UnsupportedSectorSize("the GPT counts its LBAs in 4096-byte sectors"),
            );
        }
    }
    if mbr::is_protective(&lba0) {
        return Err(Error::GptCorrupt("protective MBR present but no GPT signature"));
    }
    match mbr::parse(&lba0) {
        Ok(parts) => Ok((TableKind::Mbr, parts)),
        Err(e) => Err(e),
    }
}

/// Where a reported table came from.
#[derive(Debug, Clone, Copy, PartialEq, Eq)]
pub enum TableSource {
    /// The primary table; the backup agrees, or the format has none.
    Primary,
    /// The primary table; the backup is stale or damaged, and the reason
    /// says how.
    PrimaryBackupMismatch(&'static str),
    /// The backup table, because the primary could not be read.
    RecoveredFromBackup,
}

/// Where a table that the primary describes came from, given what its backup
/// says.
pub open spec fn primary_source(kind: TableKind, status: BackupStatus) -> TableSource {
    match (kind, status) {
        (TableKind::Gpt, BackupStatus::Mismatch(reason)) => TableSource::PrimaryBackupMismatch(
            reason,
        ),
        _ => TableSource::Primary,
    }
}

/// The partition table on a device and where it came from, or why there is
/// none to report: the table a probe finds, else the one that the backup GPT
/// describes. A disk that is refused for its sector size stays refused.
pub open spec fn table_recovered(content: Seq<u8>, size: u64) -> core::result::Result<
    (TableKind, Seq<PartitionView>, TableSource),
    Error,
> {
    match table_found(content, size) {
        Ok((kind, parts)) => Ok(
            (kind, parts, primary_source(kind, backup_status(content, size, parts))),
        ),
        Err(e) => if e is UnsupportedSectorSize {
            Err(e)
        } else {
            match backup_on(content, size) {
                Ok(parts) => Ok((TableKind::Gpt, parts, TableSource::RecoveredFromBackup)),
                Err(_) => Err(e),
            }
        },
    }
}

/// What a probe's result says, with where the table came from.
pub open spec fn status_view(
    r: Result<(TableKind, Vec<Partition>, TableSource)>,
) -> core::result::Result<(TableKind, Seq<PartitionView>, TableSource), Error> {
    match r {
        Ok(v) => Ok((v.0, views(v.1@), v.2)),
        Err(e) => Err(e),
    }
}

/// As [`probe`], consulting the backup GPT and saying where the table came
/// from: the primary with the backup agreeing, the primary with a stale or
/// damaged backup, or the backup because the primary could not be read.
pub fn probe_with_status<D: BlockRead + ?Sized>(dev: &D) -> (r: Result<
    (TableKind, Vec<Partition>, TableSource),
>)
    ensures
        dev.dependable() ==> outcome(
            status_view(r),
            table_recovered(dev.content(), dev.stated_size()),
            true,
            dev.answers(),
        ),
        match r {
            Ok((kind, parts, TableSource::RecoveredFromBackup)) => {
                &&& kind == TableKind::Gpt
                &&& backup_on(dev.content(), dev.stated_size()) == Ok::<Seq<PartitionView>, Error>(
                    views(parts@),
                )
            },
            Ok((kind, parts, source)) => {
                let status = backup_status(dev.content(), dev.stated_size(), views(parts@));
                &&& table_found(dev.content(), dev.stated_size()) == Ok::<
                    (TableKind, Seq<PartitionView>),
                    Error,
                >((kind, views(parts@)))
                &&& source == primary_source(kind, status) || source == primary_source(
                    kind,
                    BackupStatus::Mismatch("backup unreadable"),
                )
            },
            Err(e) => {
                ||| device_failure(e, dev.answers())
                ||| table_found(dev.content(), dev.stated_size()) is Err && same_error(
                    e,
                    table_found(dev.content(), dev.stated_size())->Err_0,
                    dev.answers(),
                )
            },
        },
{
    match probe(dev) {
        Ok((TableKind::Gpt, parts)) => {
            let source: TableSource = match validate_backup(dev, parts.as_slice()) {
                BackupStatus::Agrees => TableSource::Primary,
                BackupStatus::Mismatch(reason) => TableSource::PrimaryBackupMismatch(reason),
            };
            Ok((TableKind::Gpt, parts, source))
        },
        Ok((TableKind::Mbr, parts)) => Ok((TableKind::Mbr, parts, TableSource::Primary)),
        Err(Error::UnsupportedSectorSize(what)) => Err(Error::UnsupportedSectorSize(what)),
        Err(e) => match parse_backup(dev) {
            Ok(parts) => Ok((TableKind::Gpt, parts, TableSource::RecoveredFromBackup)),
            Err(_) => Err(e),
        },
    }
}

} // verus!
