//! Filesystem-magic sniffer: what a partition is likely to hold, by the
//! signature at its start. It does not validate the filesystem.

use vstd::prelude::*;

use crate::block::{inside, BlockRead};
use crate::codec::{bytes_at, get_u16, get_u32, has_at, le16, le32, window};
use crate::error::{outcome, past_end, BlockError, Error, Result};
use crate::probe::{Partition, PartitionView};

pub mod laws;

verus! {

/// Which of the ext family a superblock belongs to.
#[derive(Debug, Clone, Copy, PartialEq, Eq, Structural)]
pub enum ExtVersion {
    /// Neither a journal nor any ext4-only feature: ext2, as far as the
    /// flags tell.
    Ext2OrAny,
    /// A journal, and no ext4-only feature.
    Ext3,
    /// At least one ext4-only feature.
    Ext4,
}

/// Recognised filesystem signatures.
#[derive(Debug, Clone, Copy, PartialEq, Eq, Structural)]
pub enum FsKind {
    /// ext2 / ext3 / ext4: superblock magic 0xEF53 at byte 1080.
    Ext { version: ExtVersion },
    /// NTFS: "NTFS    " at boot-sector offset 3.
    Ntfs,
    /// exFAT: "EXFAT   " at boot-sector offset 3.
    ExFat,
    /// FAT32: "FAT32   " at boot-sector offset 0x52.
    Fat32,
    /// FAT16 / FAT12: "FAT16   " or "FAT12   " at boot-sector offset 0x36.
    Fat16,
    /// HFS+: "H+" or "HX" at offset 1024.
    HfsPlus,
    /// APFS container: "NXSB" at offset 32.
    Apfs,
    /// Linux swap: "SWAPSPACE2" at the end of the first page.
    LinuxSwap,
    /// ISO 9660: "CD001" at offset 0x8001.
    Iso9660,
    /// SquashFS: "hsqs" at offset 0.
    Squashfs,
    /// Nothing recognisable.
    Unknown,
}

/// "hsqs"
pub const SQUASHFS_TAG: [u8; 4] = [0x68, 0x73, 0x71, 0x73];

/// "NTFS    "
pub const NTFS_TAG: [u8; 8] = [0x4E, 0x54, 0x46, 0x53, 0x20, 0x20, 0x20, 0x20];

/// "EXFAT   "
pub const EXFAT_TAG: [u8; 8] = [0x45, 0x58, 0x46, 0x41, 0x54, 0x20, 0x20, 0x20];

/// "FAT32   "
pub const FAT32_TAG: [u8; 8] = [0x46, 0x41, 0x54, 0x33, 0x32, 0x20, 0x20, 0x20];

/// "FAT16   "
pub const FAT16_TAG: [u8; 8] = [0x46, 0x41, 0x54, 0x31, 0x36, 0x20, 0x20, 0x20];

/// "FAT12   "
pub const FAT12_TAG: [u8; 8] = [0x46, 0x41, 0x54, 0x31, 0x32, 0x20, 0x20, 0x20];

/// "H+"
pub const HFS_PLUS_TAG: [u8; 2] = [0x48, 0x2B];

/// "HX"
pub const HFSX_TAG: [u8; 2] = [0x48, 0x58];

/// "NXSB"
pub const APFS_TAG: [u8; 4] = [0x4E, 0x58, 0x53, 0x42];

/// "SWAPSPACE2"
pub const SWAP_TAG: [u8; 10] = [0x53, 0x57, 0x41, 0x50, 0x53, 0x50, 0x41, 0x43, 0x45, 0x32];

/// "CD001"
pub const ISO9660_TAG: [u8; 5] = [0x43, 0x44, 0x30, 0x30, 0x31];

/// The magic number of an ext superblock.
pub const EXT_MAGIC: u16 = 0xEF53;

/// The ext feature flag that says there is a journal.
pub const EXT_HAS_JOURNAL: u32 = 0x4;

/// The incompatible ext feature flags that only ext4 has: EXTENTS, 64BIT,
/// MMP, FLEX_BG, EA_INODE, DIRDATA, BG_USE_META_CSUM, LARGEDIR, INLINE_DATA.
pub const EXT4_ONLY: u32 = 0xF7C0;

/// The largest of the Linux swap pages that are looked for.
pub const LARGEST_SWAP_PAGE: usize = 65536;

/// How many bytes [`sniff`] reads from the start of a partition: up to the
/// end of the furthest signature, which is that of the largest swap page.
pub const WINDOW: u64 = 65536;

/// The bytes open with a boot sector.
pub open spec fn boot_sector(b: Seq<u8>) -> bool {
    b.len() >= 512 && b[510] == 0x55 && b[511] == 0xAA
}

/// A swap signature ends the page of `size` bytes that the bytes open with.
pub open spec fn swap_page(b: Seq<u8>, size: int) -> bool {
    has_at(b, size - 10, SWAP_TAG@)
}

/// A swap signature ends the first page, whatever its size.
pub open spec fn swap(b: Seq<u8>) -> bool {
    swap_page(b, 4096) || swap_page(b, 8192) || swap_page(b, 16384) || swap_page(b, 32768)
        || swap_page(b, LARGEST_SWAP_PAGE as int)
}

/// Which of the ext family the superblock in `b` belongs to, by its feature
/// flags.
pub open spec fn ext_version(b: Seq<u8>) -> ExtVersion {
    if b.len() < 0x468 {
        ExtVersion::Ext2OrAny
    } else if le32(b, 0x460) as u32 & EXT4_ONLY != 0 {
        ExtVersion::Ext4
    } else if le32(b, 0x45C) as u32 & EXT_HAS_JOURNAL != 0 {
        ExtVersion::Ext3
    } else {
        ExtVersion::Ext2OrAny
    }
}

/// What the bytes at the start of a partition are likely to be. The first
/// signature that matches decides, in this order.
pub open spec fn recognised(b: Seq<u8>) -> FsKind {
    if has_at(b, 0, SQUASHFS_TAG@) {
        FsKind::Squashfs
    } else if boot_sector(b) && has_at(b, 3, NTFS_TAG@) {
        FsKind::Ntfs
    } else if boot_sector(b) && has_at(b, 3, EXFAT_TAG@) {
        FsKind::ExFat
    } else if boot_sector(b) && has_at(b, 0x52, FAT32_TAG@) {
        FsKind::Fat32
    } else if boot_sector(b) && (has_at(b, 0x36, FAT16_TAG@) || has_at(b, 0x36, FAT12_TAG@)) {
        FsKind::Fat16
    } else if b.len() >= 1082 && le16(b, 1080) == EXT_MAGIC {
        FsKind::Ext { version: ext_version(b) }
    } else if has_at(b, 1024, HFS_PLUS_TAG@) || has_at(b, 1024, HFSX_TAG@) {
        FsKind::HfsPlus
    } else if has_at(b, 32, APFS_TAG@) {
        FsKind::Apfs
    } else if swap(b) {
        FsKind::LinuxSwap
    } else if has_at(b, 0x8001, ISO9660_TAG@) {
        FsKind::Iso9660
    } else {
        FsKind::Unknown
    }
}

/// Best-effort ext2/3/4 discrimination from the superblock feature flags.
fn classify_ext(buf: &[u8]) -> (v: ExtVersion)
    ensures
        v == ext_version(buf@),
{
    if buf.len() < 0x468 {
        return ExtVersion::Ext2OrAny;
    }
    let compat: u32 = get_u32(buf, 0x45C);
    let incompat: u32 = get_u32(buf, 0x460);
    if incompat & EXT4_ONLY != 0 {
        return ExtVersion::Ext4;
    }
    if compat & EXT_HAS_JOURNAL != 0 {
        return ExtVersion::Ext3;
    }
    ExtVersion::Ext2OrAny
}

/// Whether a swap signature ends the first page, whatever its size.
fn is_swap(buf: &[u8]) -> (r: bool)
    ensures
        r == swap(buf@),
{
    bytes_at(buf, 4096 - 10, &SWAP_TAG) || bytes_at(buf, 8192 - 10, &SWAP_TAG) || bytes_at(
        buf,
        16384 - 10,
        &SWAP_TAG,
    ) || bytes_at(buf, 32768 - 10, &SWAP_TAG) || bytes_at(buf, LARGEST_SWAP_PAGE - 10, &SWAP_TAG)
}

/// What the bytes at the start of a partition are likely to be. For callers
/// who already have them in hand.
pub fn classify(buf: &[u8]) -> (kind: FsKind)
    ensures
        kind == recognised(buf@),
{
    if bytes_at(buf, 0, &SQUASHFS_TAG) {
        return FsKind::Squashfs;
    }
    // FAT, NTFS and exFAT all start with a boot sector.
    if buf.len() >= 512 && buf[510] == 0x55 && buf[511] == 0xAA {
        if bytes_at(buf, 3, &NTFS_TAG) {
            return FsKind::Ntfs;
        }
        if bytes_at(buf, 3, &EXFAT_TAG) {
            return FsKind::ExFat;
        }
        if bytes_at(buf, 0x52, &FAT32_TAG) {
            return FsKind::Fat32;
        }
        if bytes_at(buf, 0x36, &FAT16_TAG) || bytes_at(buf, 0x36, &FAT12_TAG) {
            return FsKind::Fat16;
        }
    }
    // The ext superblock is at offset 1024.
    if buf.len() >= 1082 && get_u16(buf, 1080) == EXT_MAGIC {
        return FsKind::Ext { version: classify_ext(buf) };
    }
    if bytes_at(buf, 1024, &HFS_PLUS_TAG) || bytes_at(buf, 1024, &HFSX_TAG) {
        return FsKind::HfsPlus;
    }
    if bytes_at(buf, 32, &APFS_TAG) {
        return FsKind::Apfs;
    }
    if is_swap(buf) {
        return FsKind::LinuxSwap;
    }
    if bytes_at(buf, 0x8001, &ISO9660_TAG) {
        return FsKind::Iso9660;
    }
    FsKind::Unknown
}

/// The window is wide enough: whatever follows it does not change what is
/// recognised.
pub proof fn lemma_window_is_wide_enough(b: Seq<u8>)
    requires
        b.len() >= WINDOW,
    ensures
        recognised(b.take(WINDOW as int)) == recognised(b),
{
    let w = b.take(WINDOW as int);
    assert(forall|i: int| 0 <= i < WINDOW ==> w[i] == b[i]);
    assert forall|at: int, tag: Seq<u8>| 0 <= at && at + tag.len() <= WINDOW implies #[trigger] has_at(
        w,
        at,
        tag,
    ) == has_at(b, at, tag) by {
        assert(w.subrange(at, at + tag.len()) =~= b.subrange(at, at + tag.len()));
    }
}

/// How much of a partition is wanted: no more than the window, no more than
/// it claims.
pub open spec fn wanted(p: PartitionView) -> int {
    if p.length < WINDOW {
        p.length as int
    } else {
        WINDOW as int
    }
}

/// How much of a partition on a device of `size` bytes is read: what is
/// wanted, as far as the device reaches.
pub open spec fn window_len(p: PartitionView, size: int) -> int {
    if wanted(p) < size - p.start {
        wanted(p)
    } else {
        size - p.start
    }
}

/// What is at the start of a partition on a device, or why it cannot be
/// told.
pub open spec fn sniffed(content: Seq<u8>, size: u64, p: PartitionView) -> core::result::Result<
    FsKind,
    Error,
> {
    if p.start >= size {
        Err(past_end(p.start as int, wanted(p)))
    } else if !inside(p.start as int, window_len(p, size as int), content.len() as int) {
        Err(past_end(p.start as int, window_len(p, size as int)))
    } else {
        Ok(recognised(window(content, p.start as int, window_len(p, size as int) as nat)))
    }
}

/// `got` is what sniffing the partition gives. One that begins at or past the
/// end of the device is refused before anything is read, whatever the device.
pub open spec fn sniff_outcome(
    got: core::result::Result<FsKind, Error>,
    content: Seq<u8>,
    size: u64,
    p: PartitionView,
    dependable: bool,
    answers: Set<BlockError>,
) -> bool {
    if p.start >= size {
        got == Err::<FsKind, Error>(past_end(p.start as int, wanted(p)))
    } else {
        outcome(got, sniffed(content, size, p), dependable, answers)
    }
}

/// Sniff the filesystem at the start of `partition`.
///
/// The window is clamped to the partition, and to the device: one that runs
/// past the end of the device it was found on is ordinary, and is read as
/// far as it is there. One that begins at or past the end has nothing to
/// read and is an error.
pub fn sniff<D: BlockRead + ?Sized>(dev: &D, partition: &Partition) -> (r: Result<FsKind>)
    ensures
        sniff_outcome(
            r,
            dev.content(),
            dev.stated_size(),
            partition@,
            dev.dependable(),
            dev.answers(),
        ),
{
    let device_size: u64 = dev.size_bytes();
    let want: u64 = if partition.length < WINDOW { partition.length } else { WINDOW };
    if partition.start >= device_size {
        return Err(
            Error::Block(
                BlockError::ShortRead { offset: partition.start, want: want as usize, got: 0 },
            ),
        );
    }
    let available: u64 = device_size - partition.start;
    let len: u64 = if want < available { want } else { available };
    let mut buf: Vec<u8> = vec![0u8; len as usize];
    match dev.read_at(partition.start, buf.as_mut_slice()) {
        Ok(()) => {},
        Err(e) => return Err(Error::Block(e)),
    }
    assert(buf@ =~= window(dev.content(), partition.start as int, len as nat));
    Ok(classify(buf.as_slice()))
}

} // verus!
