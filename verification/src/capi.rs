//! What the C ABI answers, in plain values: the stable numbers it uses, the
//! list that a probe makes, and the decisions behind each call on it.
//! Pointers and handles are the business of the layer above.

use vstd::prelude::*;

use crate::block::BlockRead;
use crate::error::{device_failure, outcome, past_end, same_error, Error, Result};
use crate::gpt::{backup_on, entry_issue};
use crate::probe::{
    bootable, label_view, probe_with_status, table_found, table_recovered, views, KindView,
    Partition, PartitionKind, PartitionView, TableKind, TableSource,
};
use crate::sniff::{sniff, sniff_outcome, sniffed, wanted, ExtVersion, FsKind, WINDOW};

pub mod laws;

verus! {

/// The filesystem kinds as the C side knows them. The numbers are stable:
/// see [`FsKindCode::code`].
#[derive(Debug, Clone, Copy, PartialEq, Eq, Structural)]
pub enum FsKindCode {
    Unknown,
    Ext2,
    Ext3,
    Ext4,
    Ntfs,
    ExFat,
    Fat32,
    Fat16,
    HfsPlus,
    Apfs,
    LinuxSwap,
    Iso9660,
    Squashfs,
}

impl FsKindCode {
    /// The number of a filesystem kind. Never renumbered.
    pub open spec fn number(self) -> i32 {
        match self {
            FsKindCode::Unknown => 0,
            FsKindCode::Ext2 => 1,
            FsKindCode::Ext3 => 2,
            FsKindCode::Ext4 => 3,
            FsKindCode::Ntfs => 4,
            FsKindCode::ExFat => 5,
            FsKindCode::Fat32 => 6,
            FsKindCode::Fat16 => 7,
            FsKindCode::HfsPlus => 8,
            FsKindCode::Apfs => 9,
            FsKindCode::LinuxSwap => 10,
            FsKindCode::Iso9660 => 11,
            FsKindCode::Squashfs => 12,
        }
    }

    /// The number of a filesystem kind. Never renumbered.
    pub fn code(self) -> (n: i32)
        ensures
            n == self.number(),
    {
        match self {
            FsKindCode::Unknown => 0,
            FsKindCode::Ext2 => 1,
            FsKindCode::Ext3 => 2,
            FsKindCode::Ext4 => 3,
            FsKindCode::Ntfs => 4,
            FsKindCode::ExFat => 5,
            FsKindCode::Fat32 => 6,
            FsKindCode::Fat16 => 7,
            FsKindCode::HfsPlus => 8,
            FsKindCode::Apfs => 9,
            FsKindCode::LinuxSwap => 10,
            FsKindCode::Iso9660 => 11,
            FsKindCode::Squashfs => 12,
        }
    }
}

/// The code of a filesystem kind. An ext superblock that says neither ext3
/// nor ext4 counts as ext2.
pub open spec fn fs_code(kind: FsKind) -> FsKindCode {
    match kind {
        FsKind::Unknown => FsKindCode::Unknown,
        FsKind::Ext { version: ExtVersion::Ext2OrAny } => FsKindCode::Ext2,
        FsKind::Ext { version: ExtVersion::Ext3 } => FsKindCode::Ext3,
        FsKind::Ext { version: ExtVersion::Ext4 } => FsKindCode::Ext4,
        FsKind::Ntfs => FsKindCode::Ntfs,
        FsKind::ExFat => FsKindCode::ExFat,
        FsKind::Fat32 => FsKindCode::Fat32,
        FsKind::Fat16 => FsKindCode::Fat16,
        FsKind::HfsPlus => FsKindCode::HfsPlus,
        FsKind::Apfs => FsKindCode::Apfs,
        FsKind::LinuxSwap => FsKindCode::LinuxSwap,
        FsKind::Iso9660 => FsKindCode::Iso9660,
        FsKind::Squashfs => FsKindCode::Squashfs,
    }
}

impl vstd::std_specs::convert::FromSpecImpl<FsKind> for FsKindCode {
    open spec fn obeys_from_spec() -> bool {
        true
    }

    open spec fn from_spec(kind: FsKind) -> Self {
        fs_code(kind)
    }
}

impl From<FsKind> for FsKindCode {
    fn from(kind: FsKind) -> (code: Self) {
        match kind {
            FsKind::Unknown => FsKindCode::Unknown,
            FsKind::Ext { version } => match version {
                ExtVersion::Ext2OrAny => FsKindCode::Ext2,
                ExtVersion::Ext3 => FsKindCode::Ext3,
                ExtVersion::Ext4 => FsKindCode::Ext4,
            },
            FsKind::Ntfs => FsKindCode::Ntfs,
            FsKind::ExFat => FsKindCode::ExFat,
            FsKind::Fat32 => FsKindCode::Fat32,
            FsKind::Fat16 => FsKindCode::Fat16,
            FsKind::HfsPlus => FsKindCode::HfsPlus,
            FsKind::Apfs => FsKindCode::Apfs,
            FsKind::LinuxSwap => FsKindCode::LinuxSwap,
            FsKind::Iso9660 => FsKindCode::Iso9660,
            FsKind::Squashfs => FsKindCode::Squashfs,
        }
    }
}

/// No two filesystem kinds have one number.
pub proof fn lemma_fs_numbers_are_distinct(a: FsKindCode, b: FsKindCode)
    ensures
        a.number() == b.number() ==> a == b,
{
}

/// The partition tables as the C side knows them.
#[derive(Debug, Clone, Copy, PartialEq, Eq, Structural)]
pub enum TableKindCode {
    /// No table found.
    NoTable,
    Gpt,
    Mbr,
}

impl TableKindCode {
    /// The number of a table kind. Never renumbered.
    pub open spec fn number(self) -> i32 {
        match self {
            TableKindCode::NoTable => 0,
            TableKindCode::Gpt => 1,
            TableKindCode::Mbr => 2,
        }
    }

    /// The number of a table kind. Never renumbered.
    pub fn code(self) -> (n: i32)
        ensures
            n == self.number(),
    {
        match self {
            TableKindCode::NoTable => 0,
            TableKindCode::Gpt => 1,
            TableKindCode::Mbr => 2,
        }
    }
}

/// The code of a table kind.
pub open spec fn table_code(kind: TableKind) -> TableKindCode {
    match kind {
        TableKind::Gpt => TableKindCode::Gpt,
        TableKind::Mbr => TableKindCode::Mbr,
    }
}

impl vstd::std_specs::convert::FromSpecImpl<TableKind> for TableKindCode {
    open spec fn obeys_from_spec() -> bool {
        true
    }

    open spec fn from_spec(kind: TableKind) -> Self {
        table_code(kind)
    }
}

impl From<TableKind> for TableKindCode {
    fn from(kind: TableKind) -> (code: Self) {
        match kind {
            TableKind::Gpt => TableKindCode::Gpt,
            TableKind::Mbr => TableKindCode::Mbr,
        }
    }
}

/// Where a table came from, as the C side knows it.
#[derive(Debug, Clone, Copy, PartialEq, Eq, Structural)]
pub enum PartitionsTableSource {
    /// The primary table, and nothing is wrong with its backup.
    Primary,
    /// The primary table; the backup is stale or damaged.
    PrimaryBackupMismatch,
    /// The backup table, because the primary could not be read.
    RecoveredFromBackup,
}

impl PartitionsTableSource {
    /// The number of a table source. Never renumbered.
    pub open spec fn number(self) -> i32 {
        match self {
            PartitionsTableSource::Primary => 0,
            PartitionsTableSource::PrimaryBackupMismatch => 1,
            PartitionsTableSource::RecoveredFromBackup => 2,
        }
    }

    /// The number of a table source. Never renumbered.
    pub fn code(self) -> (n: i32)
        ensures
            n == self.number(),
    {
        match self {
            PartitionsTableSource::Primary => 0,
            PartitionsTableSource::PrimaryBackupMismatch => 1,
            PartitionsTableSource::RecoveredFromBackup => 2,
        }
    }
}

/// The code of a table source. Why a backup does not agree is not part of
/// it.
pub open spec fn source_code(source: TableSource) -> PartitionsTableSource {
    match source {
        TableSource::Primary => PartitionsTableSource::Primary,
        TableSource::PrimaryBackupMismatch(_) => PartitionsTableSource::PrimaryBackupMismatch,
        TableSource::RecoveredFromBackup => PartitionsTableSource::RecoveredFromBackup,
    }
}

impl vstd::std_specs::convert::FromSpecImpl<TableSource> for PartitionsTableSource {
    open spec fn obeys_from_spec() -> bool {
        true
    }

    open spec fn from_spec(source: TableSource) -> Self {
        source_code(source)
    }
}

impl From<TableSource> for PartitionsTableSource {
    fn from(source: TableSource) -> (code: Self) {
        match source {
            TableSource::Primary => PartitionsTableSource::Primary,
            TableSource::PrimaryBackupMismatch(_) => PartitionsTableSource::PrimaryBackupMismatch,
            TableSource::RecoveredFromBackup => PartitionsTableSource::RecoveredFromBackup,
        }
    }
}

/// One partition as the C side sees it.
#[derive(Debug)]
pub struct PartitionInfo {
    pub start: u64,
    pub length: u64,
    /// The number of a [`FsKindCode`]. What stands in the partition is only
    /// looked at on request, so this says that it is unknown.
    pub fs_kind: i32,
    /// The number of a [`TableKindCode`]: that of the whole list.
    pub table_kind: i32,
    /// The type GUID of a GPT partition, else all zeros.
    pub type_guid: [u8; 16],
    /// The type byte of an MBR partition, else 0.
    pub type_byte: u8,
    /// The label without a NUL in it, or `None` where there is none or an
    /// empty one.
    pub label: Option<String>,
    /// Whether the table marks the partition bootable.
    pub bootable: bool,
    /// The attributes of a GPT partition, else 0.
    pub attributes: u64,
    /// The table slot, counted from zero, or -1 for none that fits.
    pub slot: i32,
    /// The rules the entry breaks: see [`crate::gpt::entry_issue`].
    pub issues: u32,
}

/// What a [`PartitionInfo`] says.
pub struct InfoView {
    pub start: u64,
    pub length: u64,
    pub fs_kind: i32,
    pub table_kind: i32,
    pub type_guid: Seq<u8>,
    pub type_byte: u8,
    pub label: Option<Seq<char>>,
    pub bootable: bool,
    pub attributes: u64,
    pub slot: int,
    pub issues: u32,
}

impl View for PartitionInfo {
    type V = InfoView;

    open spec fn view(&self) -> InfoView {
        InfoView {
            start: self.start,
            length: self.length,
            fs_kind: self.fs_kind,
            table_kind: self.table_kind,
            type_guid: self.type_guid@,
            type_byte: self.type_byte,
            label: label_view(self.label),
            bootable: self.bootable,
            attributes: self.attributes,
            slot: self.slot as int,
            issues: self.issues,
        }
    }
}

/// A label as a C string can hold it: a NUL would end it early.
pub open spec fn without_nul(s: Seq<char>) -> Seq<char> {
    s.map_values(
        |c: char|
            if c == '\0' {
                '?'
            } else {
                c
            },
    )
}

/// The label the C side gets to see.
pub open spec fn label_shown(label: Option<Seq<char>>) -> Option<Seq<char>> {
    match label {
        Some(s) if s.len() > 0 => Some(without_nul(s)),
        _ => None,
    }
}

/// What the C side is told of a partition.
pub open spec fn info_of(p: PartitionView, table: TableKindCode) -> InfoView {
    InfoView {
        start: p.start,
        length: p.length,
        fs_kind: FsKindCode::Unknown.number(),
        table_kind: table.number(),
        type_guid: match p.kind {
            KindView::Gpt { type_guid, .. } => type_guid,
            _ => Seq::new(16, |i: int| 0u8),
        },
        type_byte: match p.kind {
            KindView::Mbr { type_byte, .. } => type_byte,
            _ => 0,
        },
        label: label_shown(p.label),
        bootable: bootable(p.kind),
        attributes: match p.kind {
            KindView::Gpt { attributes, .. } => attributes,
            _ => 0,
        },
        slot: match p.slot {
            Some(n) if n <= i32::MAX => n as int,
            _ => -1,
        },
        issues: p.issues,
    }
}

/// The label the C side gets to see.
fn make_label_string(label: &Option<String>) -> (r: Option<String>)
    ensures
        label_view(r) == label_shown(label_view(*label)),
{
    let s: &String = match label {
        Some(s) => s,
        None => return None,
    };
    let text: &str = s.as_str();
    let n: usize = text.unicode_len();
    if n == 0 {
        return None;
    }
    let mut out: String = String::new();
    let mut i: usize = 0;
    while i < n
        invariant
            i <= n == text@.len(),
            out@ =~= without_nul(text@).take(i as int),
        decreases n - i,
    {
        proof {
            reveal_strlit("?");
        }
        if text.get_char(i) == '\0' {
            out.append("?");
        } else {
            out.append(text.substring_char(i, i + 1));
        }
        i = i + 1;
    }
    assert(out@ =~= without_nul(text@));
    Some(out)
}

/// What the C side is told of a partition.
pub fn build_info(p: &Partition, table: TableKindCode) -> (info: PartitionInfo)
    ensures
        info@ == info_of(p@, table),
{
    let zero: [u8; 16] = [0u8; 16];
    assert(zero@ =~= Seq::new(16, |i: int| 0u8));
    let (type_guid, type_byte, attributes): ([u8; 16], u8, u64) = match p.kind {
        PartitionKind::Gpt { type_guid, attributes } => (type_guid, 0, attributes),
        PartitionKind::Mbr { type_byte, .. } => (zero, type_byte, 0),
        PartitionKind::Whole => (zero, 0, 0),
    };
    let slot: i32 = match p.slot {
        Some(n) => if n <= 0x7FFF_FFFF {
            n as i32
        } else {
            -1
        },
        None => -1,
    };
    PartitionInfo {
        start: p.start,
        length: p.length,
        fs_kind: FsKindCode::Unknown.code(),
        table_kind: table.code(),
        type_guid,
        type_byte,
        label: make_label_string(&p.label),
        bootable: p.is_bootable(),
        attributes,
        slot,
        issues: p.issues,
    }
}

/// Why there is no device to open over a partition.
#[derive(Debug, Clone, Copy, PartialEq, Eq, Structural)]
pub enum SliceRefusal {
    /// The list has no such entry.
    NoSuchEntry,
    /// The entry breaks these rules: see [`crate::gpt::entry_issue`].
    /// Writing through it could write over the table or another partition.
    BreaksRules(u32),
    /// The entry begins at or past the end of the device.
    PastDevice,
}

/// The bytes of a device of `size` bytes that a partition stands for, as
/// start and length. One that runs past the end stands for what is there.
pub open spec fn slice_of(p: PartitionView, size: u64) -> core::result::Result<
    (u64, u64),
    SliceRefusal,
> {
    if p.issues != entry_issue::NONE {
        Err(SliceRefusal::BreaksRules(p.issues))
    } else if p.start >= size {
        Err(SliceRefusal::PastDevice)
    } else if p.length <= size - p.start {
        Ok((p.start, p.length))
    } else {
        Ok((p.start, (size - p.start) as u64))
    }
}

/// A slice is inside the device, and inside the partition that it is of.
pub proof fn lemma_slice_is_inside(p: PartitionView, size: u64)
    requires
        slice_of(p, size) is Ok,
    ensures
        slice_of(p, size)->Ok_0.0 == p.start,
        slice_of(p, size)->Ok_0.0 + slice_of(p, size)->Ok_0.1 <= size,
        slice_of(p, size)->Ok_0.1 <= p.length,
{
}

/// The bytes of a device of `size` bytes that a partition stands for.
pub fn slice_on_device(p: &Partition, size: u64) -> (r: core::result::Result<
    (u64, u64),
    SliceRefusal,
>)
    ensures
        r == slice_of(p@, size),
{
    if p.issues != entry_issue::NONE {
        return Err(SliceRefusal::BreaksRules(p.issues));
    }
    if p.start >= size {
        return Err(SliceRefusal::PastDevice);
    }
    let available: u64 = size - p.start;
    if p.length <= available {
        Ok((p.start, p.length))
    } else {
        Ok((p.start, available))
    }
}

/// Why nothing can be said of a whole device.
#[derive(Debug)]
pub enum SniffRefusal {
    /// The device could not be read.
    Failed(Error),
    /// Nothing was recognised, but the declared size hid part of the
    /// window that there is.
    CutShort { declared: u64, size: u64 },
}

/// A device without a table, as one partition of the size it is declared to
/// have.
pub open spec fn whole(declared: u64) -> PartitionView {
    PartitionView {
        start: 0,
        length: declared,
        kind: KindView::Whole,
        label: None,
        uuid: None,
        slot: None,
        issues: entry_issue::NONE,
    }
}

/// A declared size that hides part of the window that the device has.
pub open spec fn cut_short(declared: u64, size: u64) -> bool {
    declared < size && declared < WINDOW
}

/// What stands on a whole device, with no table on it.
///
/// A size declared too small is no reason to withhold a filesystem that was
/// recognised in it, but nothing was established where none was.
pub fn sniff_device<D: BlockRead + ?Sized>(dev: &D, declared: u64) -> (r: core::result::Result<
    FsKind,
    SniffRefusal,
>)
    ensures
        match r {
            Ok(kind) => {
                &&& sniffed(dev.content(), dev.stated_size(), whole(declared)) == Ok::<
                    FsKind,
                    Error,
                >(kind)
                &&& kind == FsKind::Unknown ==> !cut_short(declared, dev.stated_size())
            },
            Err(SniffRefusal::CutShort { declared: d, size }) => {
                &&& d == declared && size == dev.stated_size()
                &&& cut_short(declared, dev.stated_size())
                &&& sniffed(dev.content(), dev.stated_size(), whole(declared)) == Ok::<
                    FsKind,
                    Error,
                >(FsKind::Unknown)
            },
            Err(SniffRefusal::Failed(e)) => sniff_outcome(
                Err::<FsKind, Error>(e),
                dev.content(),
                dev.stated_size(),
                whole(declared),
                dev.dependable(),
                dev.answers(),
            ),
        },
        dev.stated_size() == 0 ==> r == Err::<FsKind, SniffRefusal>(
            SniffRefusal::Failed(past_end(0, wanted(whole(declared)))),
        ),
{
    let all: Partition = Partition {
        start: 0,
        length: declared,
        kind: PartitionKind::Whole,
        label: None,
        uuid: None,
        slot: None,
        issues: entry_issue::NONE,
    };
    assert(all@ == whole(declared));
    let size: u64 = dev.size_bytes();
    match sniff(dev, &all) {
        Ok(FsKind::Unknown) => {
            if declared < size && declared < WINDOW {
                Err(SniffRefusal::CutShort { declared, size })
            } else {
                Ok(FsKind::Unknown)
            }
        },
        Ok(kind) => Ok(kind),
        Err(e) => Err(SniffRefusal::Failed(e)),
    }
}

/// The partitions that a probe found.
#[derive(Debug)]
pub struct PartitionList {
    pub table: TableKindCode,
    pub source: PartitionsTableSource,
    pub entries: Vec<Partition>,
}

/// What a [`PartitionList`] says.
pub struct ListView {
    pub table: TableKindCode,
    pub source: PartitionsTableSource,
    pub entries: Seq<PartitionView>,
}

impl View for PartitionList {
    type V = ListView;

    open spec fn view(&self) -> ListView {
        ListView { table: self.table, source: self.source, entries: views(self.entries@) }
    }
}

/// The list for a table and where it came from.
pub open spec fn list_of(
    found: core::result::Result<(TableKind, Seq<PartitionView>, TableSource), Error>,
) -> core::result::Result<ListView, Error> {
    match found {
        Ok((kind, parts, source)) => Ok(
            ListView { table: table_code(kind), source: source_code(source), entries: parts },
        ),
        Err(e) => Err(e),
    }
}

/// What a probe for the C side says.
pub open spec fn list_view(r: Result<PartitionList>) -> core::result::Result<ListView, Error> {
    match r {
        Ok(list) => Ok(list@),
        Err(e) => Err(e),
    }
}

/// Why nothing is said of an entry of the list.
#[derive(Debug)]
pub enum EntryRefusal {
    /// The list has no such entry.
    NoSuchEntry,
    /// The device could not be read.
    Failed(Error),
}

impl PartitionList {
    /// Probes a device, its backup table too where there is reason to.
    pub fn probe<D: BlockRead + ?Sized>(dev: &D) -> (r: Result<PartitionList>)
        ensures
            dev.dependable() ==> outcome(
                list_view(r),
                list_of(table_recovered(dev.content(), dev.stated_size())),
                true,
                dev.answers(),
            ),
            match r {
                Ok(list) => {
                    let found = table_found(dev.content(), dev.stated_size());
                    if list.source == PartitionsTableSource::RecoveredFromBackup {
                        list.table == TableKindCode::Gpt && backup_on(
                            dev.content(),
                            dev.stated_size(),
                        ) == Ok::<Seq<PartitionView>, Error>(list@.entries)
                    } else {
                        found is Ok && list.table == table_code(found->Ok_0.0) && list@.entries
                            == found->Ok_0.1
                    }
                },
                Err(e) => {
                    let found = table_found(dev.content(), dev.stated_size());
                    ||| device_failure(e, dev.answers())
                    ||| found is Err && same_error(e, found->Err_0, dev.answers())
                },
            },
    {
        match probe_with_status(dev) {
            Ok((kind, entries, source)) => Ok(
                PartitionList {
                    table: TableKindCode::from(kind),
                    source: PartitionsTableSource::from(source),
                    entries,
                },
            ),
            Err(e) => Err(e),
        }
    }

    /// How many entries there are.
    pub fn count(&self) -> (n: usize)
        ensures
            n == self@.entries.len(),
    {
        self.entries.len()
    }

    /// What the C side is told of an entry, or `None` where there is none.
    pub fn get(&self, index: usize) -> (info: Option<PartitionInfo>)
        ensures
            match info {
                Some(i) => index < self@.entries.len() && i@ == info_of(
                    self@.entries[index as int],
                    self@.table,
                ),
                None => index >= self@.entries.len(),
            },
    {
        if index >= self.entries.len() {
            return None;
        }
        Some(build_info(&self.entries[index], self.table))
    }

    /// What stands at the start of an entry on the device it was found on.
    pub fn sniff<D: BlockRead + ?Sized>(&self, dev: &D, index: usize) -> (r: core::result::Result<
        FsKindCode,
        EntryRefusal,
    >)
        ensures
            index >= self@.entries.len() <==> r matches Err(EntryRefusal::NoSuchEntry),
            match r {
                Ok(code) => {
                    let found = sniffed(
                        dev.content(),
                        dev.stated_size(),
                        self@.entries[index as int],
                    );
                    found is Ok && code == fs_code(found->Ok_0)
                },
                Err(EntryRefusal::NoSuchEntry) => true,
                Err(EntryRefusal::Failed(e)) => sniff_outcome(
                    Err::<FsKind, Error>(e),
                    dev.content(),
                    dev.stated_size(),
                    self@.entries[index as int],
                    dev.dependable(),
                    dev.answers(),
                ),
            },
            index < self@.entries.len() && self@.entries[index as int].start >= dev.stated_size()
                ==> r == Err::<FsKindCode, EntryRefusal>(
                EntryRefusal::Failed(
                    past_end(
                        self@.entries[index as int].start as int,
                        wanted(self@.entries[index as int]),
                    ),
                ),
            ),
    {
        if index >= self.entries.len() {
            return Err(EntryRefusal::NoSuchEntry);
        }
        match sniff(dev, &self.entries[index]) {
            Ok(kind) => Ok(FsKindCode::from(kind)),
            Err(e) => Err(EntryRefusal::Failed(e)),
        }
    }

    /// The bytes of a device of `size` bytes to open a device over an entry
    /// on, as start and length.
    pub fn slice(&self, index: usize, size: u64) -> (r: core::result::Result<
        (u64, u64),
        SliceRefusal,
    >)
        ensures
            r == (if index < self@.entries.len() {
                slice_of(self@.entries[index as int], size)
            } else {
                Err(SliceRefusal::NoSuchEntry)
            }),
    {
        if index >= self.entries.len() {
            return Err(SliceRefusal::NoSuchEntry);
        }
        slice_on_device(&self.entries[index], size)
    }
}

} // verus!
