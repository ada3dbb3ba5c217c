//! What each signature means.

use vstd::prelude::*;

use crate::codec::laws::lemma_tag_bytes;
use crate::codec::{has_at, le16, le32, window};
use crate::error::{BlockError, Error};
use crate::probe::PartitionView;
use crate::sniff::{
    ext_version, recognised, sniff_outcome, sniffed, swap, ExtVersion, FsKind, APFS_TAG, EXFAT_TAG, FAT12_TAG,
    FAT16_TAG, FAT32_TAG, HFSX_TAG, HFS_PLUS_TAG, ISO9660_TAG, NTFS_TAG, SQUASHFS_TAG, SWAP_TAG,
};

verus! {

/// The bytes of `tag` stand at `at`, all of them.
pub open spec fn spells(b: Seq<u8>, at: int, tag: Seq<u8>) -> bool {
    &&& at + tag.len() <= b.len()
    &&& forall|k: int| 0 <= k < tag.len() ==> b[at + k] == #[trigger] tag[k]
}

/// "hsqs" at the start.
pub open spec fn squashfs_sign(b: Seq<u8>) -> bool {
    spells(b, 0, seq![0x68u8, 0x73, 0x71, 0x73])
}

/// 55 AA ends the first sector.
pub open spec fn boot_sign(b: Seq<u8>) -> bool {
    b.len() >= 512 && b[510] == 0x55 && b[511] == 0xAA
}

/// "NTFS    " at byte 3 of a boot sector.
pub open spec fn ntfs_sign(b: Seq<u8>) -> bool {
    boot_sign(b) && spells(b, 3, seq![0x4Eu8, 0x54, 0x46, 0x53, 0x20, 0x20, 0x20, 0x20])
}

/// "EXFAT   " at byte 3 of a boot sector.
pub open spec fn exfat_sign(b: Seq<u8>) -> bool {
    boot_sign(b) && spells(b, 3, seq![0x45u8, 0x58, 0x46, 0x41, 0x54, 0x20, 0x20, 0x20])
}

/// "FAT32   " at byte 82 of a boot sector.
pub open spec fn fat32_sign(b: Seq<u8>) -> bool {
    boot_sign(b) && spells(b, 82, seq![0x46u8, 0x41, 0x54, 0x33, 0x32, 0x20, 0x20, 0x20])
}

/// "FAT16   " or "FAT12   " at byte 54 of a boot sector.
pub open spec fn fat16_sign(b: Seq<u8>) -> bool {
    boot_sign(b) && (spells(b, 54, seq![0x46u8, 0x41, 0x54, 0x31, 0x36, 0x20, 0x20, 0x20])
        || spells(b, 54, seq![0x46u8, 0x41, 0x54, 0x31, 0x32, 0x20, 0x20, 0x20]))
}

/// The bytes 53 EF at byte 1080.
pub open spec fn ext_sign(b: Seq<u8>) -> bool {
    b.len() >= 1082 && b[1080] == 0x53 && b[1081] == 0xEF
}

/// "H+" or "HX" at byte 1024.
pub open spec fn hfs_plus_sign(b: Seq<u8>) -> bool {
    b.len() >= 1026 && b[1024] == 0x48 && (b[1025] == 0x2B || b[1025] == 0x58)
}

/// "NXSB" at byte 32.
pub open spec fn apfs_sign(b: Seq<u8>) -> bool {
    spells(b, 32, seq![0x4Eu8, 0x58, 0x53, 0x42])
}

/// "SWAPSPACE2" at the end of the first page, of 4 to 64 KiB.
pub open spec fn swap_sign(b: Seq<u8>) -> bool {
    let tag = seq![0x53u8, 0x57, 0x41, 0x50, 0x53, 0x50, 0x41, 0x43, 0x45, 0x32];
    ||| spells(b, 4086, tag)
    ||| spells(b, 8182, tag)
    ||| spells(b, 16374, tag)
    ||| spells(b, 32758, tag)
    ||| spells(b, 65526, tag)
}

/// "CD001" at byte 32769.
pub open spec fn iso9660_sign(b: Seq<u8>) -> bool {
    spells(b, 32769, seq![0x43u8, 0x44, 0x30, 0x30, 0x31])
}

/// Each filesystem is recognised exactly where its own signature stands and
/// none that goes before it does. NTFS, exFAT and FAT go before ext, which
/// goes before HFS+, APFS, swap and ISO 9660; SquashFS goes before all.
pub proof fn lemma_signatures_decide(b: Seq<u8>)
    ensures
        recognised(b) == FsKind::Squashfs <==> squashfs_sign(b),
        recognised(b) == FsKind::Ntfs <==> ntfs_sign(b) && !squashfs_sign(b),
        recognised(b) == FsKind::ExFat <==> exfat_sign(b) && !squashfs_sign(b),
        recognised(b) == FsKind::Fat32 <==> fat32_sign(b) && !squashfs_sign(b) && !ntfs_sign(b)
            && !exfat_sign(b),
        recognised(b) == FsKind::Fat16 <==> fat16_sign(b) && !squashfs_sign(b) && !ntfs_sign(b)
            && !exfat_sign(b) && !fat32_sign(b),
        recognised(b) is Ext <==> ext_sign(b) && !squashfs_sign(b) && !ntfs_sign(b) && !exfat_sign(
            b,
        ) && !fat32_sign(b) && !fat16_sign(b),
        recognised(b) == FsKind::HfsPlus ==> hfs_plus_sign(b),
        recognised(b) == FsKind::Apfs ==> apfs_sign(b) && !hfs_plus_sign(b),
        recognised(b) == FsKind::LinuxSwap ==> swap_sign(b) && !hfs_plus_sign(b) && !apfs_sign(b),
        recognised(b) == FsKind::Iso9660 ==> iso9660_sign(b) && !hfs_plus_sign(b) && !apfs_sign(b)
            && !swap_sign(b),
        recognised(b) == FsKind::Unknown <==> !squashfs_sign(b) && !ntfs_sign(b) && !exfat_sign(b)
            && !fat32_sign(b) && !fat16_sign(b) && !ext_sign(b) && !hfs_plus_sign(b) && !apfs_sign(
            b,
        ) && !swap_sign(b) && !iso9660_sign(b),
{
    assert(SQUASHFS_TAG@ =~= seq![0x68u8, 0x73, 0x71, 0x73]);
    assert(NTFS_TAG@ =~= seq![0x4Eu8, 0x54, 0x46, 0x53, 0x20, 0x20, 0x20, 0x20]);
    assert(EXFAT_TAG@ =~= seq![0x45u8, 0x58, 0x46, 0x41, 0x54, 0x20, 0x20, 0x20]);
    assert(FAT32_TAG@ =~= seq![0x46u8, 0x41, 0x54, 0x33, 0x32, 0x20, 0x20, 0x20]);
    assert(FAT16_TAG@ =~= seq![0x46u8, 0x41, 0x54, 0x31, 0x36, 0x20, 0x20, 0x20]);
    assert(FAT12_TAG@ =~= seq![0x46u8, 0x41, 0x54, 0x31, 0x32, 0x20, 0x20, 0x20]);
    assert(HFS_PLUS_TAG@ =~= seq![0x48u8, 0x2B]);
    assert(HFSX_TAG@ =~= seq![0x48u8, 0x58]);
    assert(APFS_TAG@ =~= seq![0x4Eu8, 0x58, 0x53, 0x42]);
    assert(SWAP_TAG@ =~= seq![0x53u8, 0x57, 0x41, 0x50, 0x53, 0x50, 0x41, 0x43, 0x45, 0x32]);
    assert(ISO9660_TAG@ =~= seq![0x43u8, 0x44, 0x30, 0x30, 0x31]);
    assert forall|at: int, tag: Seq<u8>| 0 <= at implies #[trigger] has_at(b, at, tag) == spells(
        b,
        at,
        tag,
    ) by {
        lemma_tag_bytes(b, at, tag);
    }
    assert(swap(b) == swap_sign(b));
    assert(le16(b, 1080) == 0xEF53 <==> b[1080] == 0x53 && b[1081] == 0xEF);
    let h = seq![0x48u8, 0x2B];
    let x = seq![0x48u8, 0x58];
    assert(spells(b, 1024, h) <==> b.len() >= 1026 && b[1024] == 0x48 && b[1025] == 0x2B) by {
        assert(h[0] == 0x48 && h[1] == 0x2B);
    }
    assert(spells(b, 1024, x) <==> b.len() >= 1026 && b[1024] == 0x48 && b[1025] == 0x58) by {
        assert(x[0] == 0x48 && x[1] == 0x58);
    }
    let n = seq![0x4Eu8, 0x54, 0x46, 0x53, 0x20, 0x20, 0x20, 0x20];
    let e = seq![0x45u8, 0x58, 0x46, 0x41, 0x54, 0x20, 0x20, 0x20];
    assert(!(spells(b, 3, n) && spells(b, 3, e))) by {
        assert(n[0] == 0x4E && e[0] == 0x45);
    }
}

/// The ext4-only flags decide for ext4, whatever the journal flag says; the
/// journal flag decides between ext3 and ext2 where none of them is set. A
/// superblock that does not reach its flags says no more than ext2.
pub proof fn lemma_ext_flags(b: Seq<u8>)
    ensures
        b.len() < 0x468 ==> ext_version(b) == ExtVersion::Ext2OrAny,
        b.len() >= 0x468 ==> {
            &&& ext_version(b) == ExtVersion::Ext4 <==> le32(b, 0x460) as u32 & 0xF7C0u32 != 0
            &&& ext_version(b) == ExtVersion::Ext3 <==> le32(b, 0x460) as u32 & 0xF7C0u32 == 0
                && le32(b, 0x45C) as u32 & 4u32 != 0
        },
        recognised(b) matches FsKind::Ext { version } ==> version == ext_version(b),
{
}

/// What is sniffed is what the first bytes of the partition are recognised
/// as: 64 KiB of them, or as many as the partition and the device have. It
/// fails where the partition begins past the end of the device, or where the
/// device does not hold those bytes, and nowhere else.
pub proof fn lemma_sniff_looks_at_the_start(content: Seq<u8>, size: u64, p: PartitionView, n: int)
    requires
        n <= 65536 && n <= p.length && n <= size - p.start,
        n == 65536 || n == p.length || n == size - p.start,
    ensures
        p.start < size && p.start + n <= content.len() ==> sniffed(content, size, p) == Ok::<
            FsKind,
            Error,
        >(recognised(content.subrange(p.start as int, p.start + n))),
        p.start < size && n > 0 && p.start + n > content.len() ==> sniffed(content, size, p) == Err::<
            FsKind,
            Error,
        >(Error::Block(BlockError::ShortRead { offset: p.start, want: n as usize, got: 0 })),
{
    if p.start < size && p.start + n <= content.len() {
        assert(window(content, p.start as int, n as nat) =~= content.subrange(
            p.start as int,
            p.start + n,
        ));
    }
}

/// A partition that begins at or past the end of the device is refused, with
/// where it begins and how much of it is looked at: all of it, at most 64
/// KiB.
pub proof fn lemma_no_start_no_answer(content: Seq<u8>, size: u64, p: PartitionView)
    requires
        p.start >= size,
    ensures
        sniffed(content, size, p) == Err::<FsKind, Error>(
            Error::Block(
                BlockError::ShortRead {
                    offset: p.start,
                    want: if p.length < 65536 {
                        p.length as usize
                    } else {
                        65536
                    },
                    got: 0,
                },
            ),
        ),
{
}

/// What a sniff says of a partition on a device: what stands at its start on
/// a dependable one, and on any other that or the device's own failure. One
/// that begins at or past the end of the device is refused on every device
/// alike.
pub proof fn lemma_sniff_says_what_is_there(
    got: core::result::Result<FsKind, Error>,
    content: Seq<u8>,
    size: u64,
    p: PartitionView,
    dependable: bool,
    answers: Set<BlockError>,
)
    requires
        sniff_outcome(got, content, size, p, dependable, answers),
    ensures
        p.start >= size ==> got == sniffed(content, size, p),
        got is Ok ==> got == sniffed(content, size, p),
        got is Err && sniffed(content, size, p) is Ok ==> !dependable,
{
}

/// Two devices that agree on the start of the partition give the same
/// answer, whatever else they hold.
pub proof fn lemma_sniff_ignores_the_rest(a: Seq<u8>, b: Seq<u8>, size: u64, p: PartitionView)
    requires
        a.len() == b.len(),
        forall|i: int|
            p.start <= i < p.start + p.length && i < p.start + 65536 && i < a.len()
                ==> #[trigger] a[i] == b[i],
    ensures
        sniffed(a, size, p) == sniffed(b, size, p),
{
    let n = crate::sniff::window_len(p, size as int);
    if p.start < size && p.start + n <= a.len() {
        assert(window(a, p.start as int, n as nat) =~= window(b, p.start as int, n as nat));
    }
}

} // verus!
