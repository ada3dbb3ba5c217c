//! The MBR partition table's layout.

use vstd::prelude::*;

verus! {

/// First byte of the partition table: the boot code ends here.
pub const TABLE_START: usize = 446;

/// Bytes per entry.
pub const ENTRY_SIZE: usize = 16;

/// Entries in the table.
pub const ENTRY_COUNT: usize = 4;

/// `status`: 0x80 for the active (bootable) entry.
pub const STATUS: usize = 0;

/// The `partition type` byte.
pub const TYPE_BYTE: usize = 4;

/// `first LBA`, four bytes little-endian.
pub const START_LBA: usize = 8;

/// `sector count`, four bytes little-endian.
pub const SECTOR_COUNT: usize = 12;

/// Byte offset of entry `i` within the sector.
pub fn entry_at(i: usize) -> (r: usize)
    requires
        TABLE_START + i * ENTRY_SIZE <= usize::MAX,
    ensures
        r == TABLE_START + i * ENTRY_SIZE,
{
    TABLE_START + i * ENTRY_SIZE
}

} // verus!
