//! Byte offsets within the 92-byte GPT header.

use vstd::prelude::*;

verus! {

/// `Signature`: `EFI PART`.
pub const SIGNATURE: usize = 0;

/// `Revision`.
pub const REVISION: usize = 8;

/// `HeaderSize`.
pub const HEADER_SIZE: usize = 12;

/// `HeaderCRC32`, computed with these four bytes zeroed.
pub const HEADER_CRC32: usize = 16;

/// `MyLBA`: the LBA this header itself sits at.
pub const MY_LBA: usize = 24;

/// `AlternateLBA`: where the other copy sits.
pub const ALTERNATE_LBA: usize = 32;

/// `FirstUsableLBA`.
pub const FIRST_USABLE_LBA: usize = 40;

/// `LastUsableLBA`.
pub const LAST_USABLE_LBA: usize = 48;

/// `DiskGUID`.
pub const DISK_GUID: usize = 56;

/// `PartitionEntryLBA`.
pub const PARTITION_ENTRY_LBA: usize = 72;

/// `NumberOfPartitionEntries`.
pub const NUM_PARTITION_ENTRIES: usize = 80;

/// `SizeOfPartitionEntry`.
pub const PARTITION_ENTRY_SIZE: usize = 84;

/// `PartitionEntryArrayCRC32`.
pub const PARTITION_ENTRY_ARRAY_CRC32: usize = 88;

} // verus!
