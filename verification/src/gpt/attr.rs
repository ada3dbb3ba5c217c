//! Named bits of the 64-bit attributes field of a GPT entry. Bits 0..47 are
//! the table format's own; bits 48..63 belong to the partition type.

use vstd::prelude::*;

verus! {

/// Bit 0: the system depends on this partition.
pub const REQUIRED_PARTITION: u64 = 0x1;

/// Bit 1: firmware should expose no block I/O protocol for it.
pub const NO_BLOCK_IO_PROTOCOL: u64 = 0x2;

/// Bit 2: the partition holds a legacy (non-UEFI) boot loader.
pub const LEGACY_BIOS_BOOTABLE: u64 = 0x4;

/// Bit 60: read-only, on Microsoft basic-data partitions.
pub const MS_READ_ONLY: u64 = 0x1000_0000_0000_0000;

/// Bit 61: shadow copy, on Microsoft basic-data partitions.
pub const MS_SHADOW_COPY: u64 = 0x2000_0000_0000_0000;

/// Bit 62: hidden, on Microsoft basic-data partitions.
pub const MS_HIDDEN: u64 = 0x4000_0000_0000_0000;

/// Bit 63: no drive letter, on Microsoft basic-data partitions.
pub const MS_NO_AUTOMOUNT: u64 = 0x8000_0000_0000_0000;

} // verus!
