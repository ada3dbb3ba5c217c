//! Partition type GUIDs, in their mixed-endian on-disk form.

use vstd::prelude::*;

verus! {

/// 00000000-0000-0000-0000-000000000000: an unused entry.
pub const UNUSED: [u8; 16] = [0, 0, 0, 0, 0, 0, 0, 0, 0, 0, 0, 0, 0, 0, 0, 0];

/// C12A7328-F81F-11D2-BA4B-00A0C93EC93B: EFI System Partition.
pub const EFI_SYSTEM: [u8; 16] = [
    0x28, 0x73, 0x2A, 0xC1, 0x1F, 0xF8, 0xD2, 0x11, 0xBA, 0x4B, 0x00, 0xA0, 0xC9, 0x3E, 0xC9, 0x3B,
];

/// EBD0A0A2-B9E5-4433-87C0-68B6B72699C7: Microsoft basic data.
pub const MICROSOFT_BASIC_DATA: [u8; 16] = [
    0xA2, 0xA0, 0xD0, 0xEB, 0xE5, 0xB9, 0x33, 0x44, 0x87, 0xC0, 0x68, 0xB6, 0xB7, 0x26, 0x99, 0xC7,
];

/// 0FC63DAF-8483-4772-8E79-3D69D8477DE4: Linux filesystem.
pub const LINUX_FILESYSTEM: [u8; 16] = [
    0xAF, 0x3D, 0xC6, 0x0F, 0x83, 0x84, 0x72, 0x47, 0x8E, 0x79, 0x3D, 0x69, 0xD8, 0x47, 0x7D, 0xE4,
];

/// 0657FD6D-A4AB-43C4-84E5-0933C84B4F4F: Linux swap.
pub const LINUX_SWAP: [u8; 16] = [
    0x6D, 0xFD, 0x57, 0x06, 0xAB, 0xA4, 0xC4, 0x43, 0x84, 0xE5, 0x09, 0x33, 0xC8, 0x4B, 0x4F, 0x4F,
];

/// 48465300-0000-11AA-AA11-00306543ECAC: Apple HFS+.
pub const APPLE_HFS_PLUS: [u8; 16] = [
    0x00, 0x53, 0x46, 0x48, 0x00, 0x00, 0xAA, 0x11, 0xAA, 0x11, 0x00, 0x30, 0x65, 0x43, 0xEC, 0xAC,
];

/// 7C3457EF-0000-11AA-AA11-00306543ECAC: Apple APFS.
pub const APPLE_APFS: [u8; 16] = [
    0xEF, 0x57, 0x34, 0x7C, 0x00, 0x00, 0xAA, 0x11, 0xAA, 0x11, 0x00, 0x30, 0x65, 0x43, 0xEC, 0xAC,
];

} // verus!
