//! Common MBR partition-type bytes.

use vstd::prelude::*;

verus! {

pub const EMPTY: u8 = 0x00;

pub const FAT12: u8 = 0x01;

pub const FAT16_SMALL: u8 = 0x04;

pub const EXTENDED_CHS: u8 = 0x05;

pub const FAT16: u8 = 0x06;

pub const NTFS_OR_EXFAT: u8 = 0x07;

pub const FAT32_CHS: u8 = 0x0B;

pub const FAT32_LBA: u8 = 0x0C;

pub const FAT16_LBA: u8 = 0x0E;

pub const EXTENDED_LBA: u8 = 0x0F;

pub const LINUX_SWAP: u8 = 0x82;

pub const LINUX: u8 = 0x83;

pub const LINUX_EXTENDED: u8 = 0x85;

pub const LINUX_LVM: u8 = 0x8E;

pub const FREEBSD: u8 = 0xA5;

pub const OPENBSD: u8 = 0xA6;

pub const NETBSD: u8 = 0xA9;

pub const HFS_PLUS: u8 = 0xAF;

pub const SOLARIS: u8 = 0xBF;

pub const GPT_PROTECTIVE: u8 = 0xEE;

pub const EFI_SYSTEM: u8 = 0xEF;

} // verus!
