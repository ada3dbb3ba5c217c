//! Partition-table probe, editor and filesystem-magic sniffer over any
//! random-access block source.

use vstd::prelude::*;

pub mod block;
pub mod capi;
pub mod codec;
pub mod crc;
pub mod error;
pub mod gpt;
pub mod gpt_layout;
pub mod gpt_write;
pub mod label;
pub mod mbr;
pub mod mutation;
pub mod order;
pub mod probe;
pub mod reasons;
pub mod sniff;
pub mod uuid;
pub mod walk;

pub use crate::block::{BlockDevice, BlockRead, Bytes};
pub use crate::error::{BlockError, Error, Result};
pub use crate::mutation::{PartitionRef, PartitionSet, PartitionTypeId};
pub use crate::sniff::{sniff, FsKind};
pub use crate::probe::{
    probe, probe_with_status, Partition, PartitionKind, TableKind, TableSource,
};

verus! {

/// Bytes in a logical sector.
///
/// Tables are read and written in 512-byte units throughout, which is what
/// both formats count their LBAs in on a disk with 512-byte logical
/// sectors. A GPT disk that counts in 4096-byte units is refused by name:
/// see [`probe`](crate::probe::probe). An MBR says nothing of its unit, so
/// one that counts in 4096-byte units cannot be told apart.
pub const SECTOR_SIZE: u64 = 512;

/// [`SECTOR_SIZE`] where an array length or a slice index needs it.
pub const SECTOR_SIZE_USIZE: usize = 512;

/// One sector's worth of bytes.
pub type Sector = [u8; SECTOR_SIZE_USIZE];

/// The largest LBA an MBR entry can name: MBR LBAs are 32-bit.
pub const MBR_LBA_MAX: u64 = 0xFFFF_FFFF;

} // verus!
