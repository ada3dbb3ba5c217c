//! The canonical GPT layout: what a table made here looks like.

use vstd::prelude::*;

verus! {

/// Entries in the partition array of a table made here.
pub const NUM_ENTRIES: u32 = 128;

/// Bytes per entry of a table made here.
pub const ENTRY_SIZE: u32 = 128;

/// Sectors the entry array occupies.
pub const ENTRY_ARRAY_SECTORS: u64 = 128 * 128 / 512;

/// First LBA a partition may occupy: past the protective MBR, the primary
/// header, and the entry array.
pub const FIRST_USABLE_LBA: u64 = 2 + ENTRY_ARRAY_SECTORS;

/// Sectors reserved at the end of the disk: the backup entry array and the
/// backup header.
pub const BACKUP_RESERVE_SECTORS: u64 = ENTRY_ARRAY_SECTORS + 1;

/// Bytes of the GPT header that the header CRC covers.
pub const HEADER_SIZE: u32 = 92;

} // verus!
