//! Edit, commit, probe again.

use partitions::gpt::{type_guids, BackupStatus};
use partitions::gpt_write::{write_gpt_with_geometry, GptGeometry};
use partitions::{
    gpt, gpt_write, probe, BlockDevice, BlockRead, Bytes, Error, Partition, PartitionKind,
    PartitionRef, PartitionSet, PartitionTypeId, TableKind,
};

const ONE_MIB: u64 = 1024 * 1024;
const DISK_64M: u64 = 64 * ONE_MIB;

fn disk(size: usize) -> Bytes {
    Bytes(vec![0u8; size])
}

/// Adds a partition, with bytes for its UUID that differ from one to the
/// next.
fn add(
    set: &mut PartitionSet,
    hint: Option<u64>,
    length: u64,
    type_id: PartitionTypeId,
    label: Option<String>,
) -> Result<usize, Error> {
    let random = [set.partitions.len() as u8 + 1; 16];
    set.add(hint, length, type_id, label, random)
}

/// A partition whose end does not fit a `u64`.
fn overflowing_gpt_partition() -> Partition {
    Partition {
        start: u64::MAX - 511,
        length: 1024,
        kind: PartitionKind::Gpt {
            type_guid: type_guids::LINUX_FILESYSTEM,
            attributes: 0,
        },
        label: Some("overflowing".into()),
        uuid: Some([9u8; 16]),
        slot: None,
        issues: 0,
    }
}

fn gpt_partition(start: u64, length: u64, label: &str, uuid: u8, slot: Option<u32>) -> Partition {
    Partition {
        start,
        length,
        kind: PartitionKind::Gpt {
            type_guid: type_guids::LINUX_FILESYSTEM,
            attributes: 0,
        },
        label: Some(label.into()),
        uuid: Some([uuid; 16]),
        slot,
        issues: 0,
    }
}

/// Overwrites the name of the first entry, and repairs the checksums.
fn patch_entry_name_and_repair_crcs(dev: &mut Bytes, name_off: usize, name: &[u8]) {
    let b = &mut dev.0;
    b[name_off..name_off + name.len()].copy_from_slice(name);

    let array_lba = u64::from_le_bytes(b[512 + 72..512 + 80].try_into().unwrap()) as usize;
    let count = u32::from_le_bytes(b[512 + 80..512 + 84].try_into().unwrap()) as usize;
    let size = u32::from_le_bytes(b[512 + 84..512 + 88].try_into().unwrap()) as usize;
    let array = &b[array_lba * 512..array_lba * 512 + count * size];
    let array_crc = crc32fast::hash(array);
    b[512 + 88..512 + 92].copy_from_slice(&array_crc.to_le_bytes());

    let header_size = u32::from_le_bytes(b[512 + 12..512 + 16].try_into().unwrap()) as usize;
    b[512 + 16..512 + 20].fill(0);
    let header_crc = crc32fast::hash(&b[512..512 + header_size]);
    b[512 + 16..512 + 20].copy_from_slice(&header_crc.to_le_bytes());
}

fn plant_mbr_entry(dev: &mut Bytes, slot: usize, type_byte: u8, start_lba: u32, sectors: u32) {
    let b = &mut dev.0;
    let off = 446 + slot * 16;
    b[off + 4] = type_byte;
    b[off + 8..off + 12].copy_from_slice(&start_lba.to_le_bytes());
    b[off + 12..off + 16].copy_from_slice(&sectors.to_le_bytes());
    b[510] = 0x55;
    b[511] = 0xAA;
}

fn mbr_table(dev: &Bytes) -> [u8; 64] {
    let mut out = [0u8; 64];
    dev.read_at(446, &mut out).unwrap();
    out
}

/// Entry count, entry size, entry LBA and usable range, as the header says.
fn gpt_shape(dev: &Bytes) -> (u32, u32, u64, u64, u64) {
    let mut sector = [0u8; 512];
    dev.read_at(512, &mut sector).unwrap();
    let h = gpt::parse_header(&sector).unwrap();
    (
        h.num_partition_entries,
        h.partition_entry_size,
        h.partition_entry_lba,
        h.first_usable_lba,
        h.last_usable_lba,
    )
}

/// Writes a table of a given shape with one partition in it.
fn build_gpt_shaped(dev: &mut Bytes, geometry: GptGeometry, start_lba: u64) {
    let p = Partition {
        start: start_lba * 512,
        length: 4 * ONE_MIB,
        kind: PartitionKind::Gpt {
            type_guid: type_guids::LINUX_FILESYSTEM,
            attributes: 0,
        },
        label: Some("data".into()),
        uuid: Some([0x5Au8; 16]),
        slot: Some(0),
        issues: 0,
    };
    write_gpt_with_geometry(dev, &[p], [0x11u8; 16], geometry).unwrap();

    let (entries, size, entry_lba, first, _last) = gpt_shape(dev);
    assert_eq!(entries, geometry.num_entries, "fixture entry count");
    assert_eq!(size, geometry.entry_size, "fixture entry size");
    assert_eq!(entry_lba, geometry.entry_lba, "fixture entry array LBA");
    assert_eq!(
        first,
        geometry.entry_lba + geometry.array_sectors(),
        "fixture first usable LBA"
    );
}

/// As above, with a declared usable range.
fn build_gpt_shaped_declared(dev: &mut Bytes, geometry: GptGeometry, start_lba: u64) {
    let p = Partition {
        start: start_lba * 512,
        length: 4 * ONE_MIB,
        kind: PartitionKind::Gpt {
            type_guid: type_guids::LINUX_FILESYSTEM,
            attributes: 0,
        },
        label: Some("data".into()),
        uuid: Some([0x5Au8; 16]),
        slot: Some(0),
        issues: 0,
    };
    write_gpt_with_geometry(dev, &[p], [0x11u8; 16], geometry).unwrap();
    let (entries, _, _, first, last) = gpt_shape(dev);
    assert_eq!(entries, geometry.num_entries, "fixture entry count");
    let (want_first, want_last) = geometry.declared_usable.expect("a declared range");
    assert_eq!(first, want_first, "fixture first usable LBA");
    assert_eq!(last, want_last, "fixture last usable LBA");
}

/// Edits the backup entry array, and repairs the checksums.
fn edit_backup_entries(dev: &mut Bytes, edit: impl FnOnce(&mut [u8])) {
    let total = dev.size_bytes();
    let last_lba = total / 512 - 1;
    let header_off = last_lba * 512;

    let mut header = [0u8; 512];
    dev.read_at(header_off, &mut header).unwrap();
    let array_lba = u64::from_le_bytes(header[72..80].try_into().unwrap());
    let count = u32::from_le_bytes(header[80..84].try_into().unwrap()) as usize;
    let size = u32::from_le_bytes(header[84..88].try_into().unwrap()) as usize;
    let header_size = u32::from_le_bytes(header[12..16].try_into().unwrap()) as usize;

    let mut array = vec![0u8; count * size];
    dev.read_at(array_lba * 512, &mut array).unwrap();
    edit(&mut array);
    dev.write_at(array_lba * 512, &array).unwrap();

    header[88..92].copy_from_slice(&crc32fast::hash(&array).to_le_bytes());
    header[16..20].fill(0);
    let crc = crc32fast::hash(&header[..header_size]);
    header[16..20].copy_from_slice(&crc.to_le_bytes());
    dev.write_at(header_off, &header).unwrap();
}

#[test]
fn gpt_round_trip_two_partitions() {
    let mut dev = disk(DISK_64M as usize);
    let mut set = PartitionSet::empty_gpt(DISK_64M, [0xD1; 16]);

    let i0 = add(
        &mut set,
        None,
        8 * ONE_MIB,
        PartitionTypeId::EfiSystem,
        Some("EFI".into()),
    )
    .unwrap();
    let i1 = add(
        &mut set,
        None,
        16 * ONE_MIB,
        PartitionTypeId::LinuxFilesystem,
        Some("rootfs".into()),
    )
    .unwrap();
    assert_eq!(i0, 0);
    assert_eq!(i1, 1);

    set.commit(&mut dev).unwrap();

    let (kind, parts) = probe(&dev).unwrap();
    assert_eq!(kind, TableKind::Gpt);
    assert_eq!(parts.len(), 2);
    let mut parts = parts;
    parts.sort_by_key(|p| p.start);
    assert_eq!(parts[0].length, 8 * ONE_MIB);
    assert_eq!(parts[0].label.as_deref(), Some("EFI"));
    if let PartitionKind::Gpt { type_guid, .. } = parts[0].kind {
        assert_eq!(type_guid, type_guids::EFI_SYSTEM);
    } else {
        panic!("expected GPT kind");
    }
    assert_eq!(parts[1].length, 16 * ONE_MIB);
    assert_eq!(parts[1].label.as_deref(), Some("rootfs"));
}

#[test]
fn gpt_alignment_preserved() {
    let mut dev = disk(DISK_64M as usize);
    let mut set = PartitionSet::empty_gpt(DISK_64M, [0xD1; 16]);
    add(&mut set, None, 4 * ONE_MIB, PartitionTypeId::LinuxFilesystem, None)
        .unwrap();
    add(&mut set, None, 4 * ONE_MIB, PartitionTypeId::LinuxFilesystem, None)
        .unwrap();
    set.commit(&mut dev).unwrap();

    let (_, parts) = probe(&dev).unwrap();
    for p in &parts {
        assert_eq!(p.start % ONE_MIB, 0, "start not 1 MiB aligned: {}", p.start);
        assert_eq!(
            p.length % ONE_MIB,
            0,
            "length not 1 MiB aligned: {}",
            p.length
        );
    }
}

#[test]
fn gpt_unaligned_hint_silently_aligned() {
    let mut dev = disk(DISK_64M as usize);
    let mut set = PartitionSet::empty_gpt(DISK_64M, [0xD1; 16]);
    let idx = add(
        &mut set,
        Some(ONE_MIB + ONE_MIB / 2),
        4 * ONE_MIB,
        PartitionTypeId::LinuxFilesystem,
        None,
    )
    .unwrap();
    let p = &set.partitions[idx];
    assert_eq!(
        p.start,
        2 * ONE_MIB,
        "expected snap to 2 MiB, got {}",
        p.start
    );
    set.commit(&mut dev).unwrap();
    let (_, parts) = probe(&dev).unwrap();
    assert_eq!(parts.len(), 1);
    assert_eq!(parts[0].start, 2 * ONE_MIB);
}

#[test]
fn gpt_overlap_rejected() {
    let mut set = PartitionSet::empty_gpt(DISK_64M, [0xD1; 16]);
    add(
        &mut set,
        Some(ONE_MIB),
        8 * ONE_MIB,
        PartitionTypeId::LinuxFilesystem,
        None,
    )
    .unwrap();
    let result = add(
        &mut set,
        Some(2 * ONE_MIB),
        4 * ONE_MIB,
        PartitionTypeId::LinuxFilesystem,
        None,
    );
    match result {
        Err(Error::Invalid(_)) => {}
        other => panic!("expected Invalid, got {other:?}"),
    }
}

#[test]
fn gpt_remove_round_trip() {
    let mut dev = disk(DISK_64M as usize);
    let mut set = PartitionSet::empty_gpt(DISK_64M, [0xD1; 16]);
    add(
        &mut set,
        None,
        4 * ONE_MIB,
        PartitionTypeId::LinuxFilesystem,
        Some("a".into()),
    )
    .unwrap();
    let idx = add(
        &mut set,
        None,
        4 * ONE_MIB,
        PartitionTypeId::LinuxFilesystem,
        Some("b".into()),
    )
    .unwrap();
    set.remove(PartitionRef::Index(idx)).unwrap();
    set.commit(&mut dev).unwrap();

    let (kind, parts) = probe(&dev).unwrap();
    assert_eq!(kind, TableKind::Gpt);
    assert_eq!(parts.len(), 1);
    assert_eq!(parts[0].label.as_deref(), Some("a"));
}

#[test]
fn gpt_remove_by_uuid() {
    let mut set = PartitionSet::empty_gpt(DISK_64M, [0xD1; 16]);
    add(&mut set, None, 4 * ONE_MIB, PartitionTypeId::LinuxFilesystem, None)
        .unwrap();
    add(&mut set, None, 4 * ONE_MIB, PartitionTypeId::LinuxFilesystem, None)
        .unwrap();
    let uuid = set.partitions[1].uuid.unwrap();
    set.remove(PartitionRef::Uuid(uuid)).unwrap();
    assert_eq!(set.partitions.len(), 1);
}

#[test]
fn gpt_resize_round_trip() {
    let mut dev = disk(DISK_64M as usize);
    let mut set = PartitionSet::empty_gpt(DISK_64M, [0xD1; 16]);
    let idx = add(&mut set, None, 4 * ONE_MIB, PartitionTypeId::LinuxFilesystem, None)
        .unwrap();
    set.resize(PartitionRef::Index(idx), 12 * ONE_MIB).unwrap();
    set.commit(&mut dev).unwrap();
    let (_, parts) = probe(&dev).unwrap();
    assert_eq!(parts.len(), 1);
    assert_eq!(parts[0].length, 12 * ONE_MIB);
}

#[test]
fn gpt_primary_and_backup_match_after_commit() {
    let mut dev = disk(DISK_64M as usize);
    let mut set = PartitionSet::empty_gpt(DISK_64M, [0xD1; 16]);
    add(
        &mut set,
        None,
        4 * ONE_MIB,
        PartitionTypeId::EfiSystem,
        Some("EFI".into()),
    )
    .unwrap();
    add(
        &mut set,
        None,
        8 * ONE_MIB,
        PartitionTypeId::LinuxFilesystem,
        Some("root".into()),
    )
    .unwrap();
    set.commit(&mut dev).unwrap();

    let (kind, primary) = probe(&dev).unwrap();
    assert_eq!(kind, TableKind::Gpt);

    let backup = gpt::parse_backup(&dev).unwrap();
    assert_eq!(primary.len(), backup.len());
    let mut p = primary.clone();
    let mut b = backup;
    p.sort_by_key(|x| x.start);
    b.sort_by_key(|x| x.start);
    for (pa, pb) in p.iter().zip(b.iter()) {
        assert_eq!(pa.start, pb.start);
        assert_eq!(pa.length, pb.length);
        assert_eq!(pa.uuid, pb.uuid);
        assert_eq!(pa.kind, pb.kind);
    }

    assert_eq!(gpt::validate_backup(&dev, &primary), BackupStatus::Agrees);
}

#[test]
fn gpt_backup_mismatch_detected() {
    let mut dev = disk(DISK_64M as usize);
    let mut set = PartitionSet::empty_gpt(DISK_64M, [0xD1; 16]);
    add(&mut set, None, 4 * ONE_MIB, PartitionTypeId::LinuxFilesystem, None)
        .unwrap();
    set.commit(&mut dev).unwrap();

    let total = dev.size_bytes();
    let last_lba = total / 512 - 1;
    let backup_array_off = (last_lba - 32) * 512;
    let mut zap = [0u8; 1];
    dev.read_at(backup_array_off, &mut zap).unwrap();
    zap[0] ^= 0xFF;
    dev.write_at(backup_array_off, &zap).unwrap();

    let (_, primary) = probe(&dev).unwrap();
    match gpt::validate_backup(&dev, &primary) {
        BackupStatus::Mismatch(_) => {}
        BackupStatus::Agrees => panic!("expected backup mismatch"),
    }
}

#[test]
fn gpt_from_probe_then_mutate_then_commit() {
    let mut dev = disk(DISK_64M as usize);
    let mut set = PartitionSet::empty_gpt(DISK_64M, [0xD1; 16]);
    add(
        &mut set,
        None,
        4 * ONE_MIB,
        PartitionTypeId::LinuxFilesystem,
        Some("a".into()),
    )
    .unwrap();
    set.commit(&mut dev).unwrap();

    let mut reloaded = PartitionSet::from_probe(&dev).unwrap();
    assert_eq!(reloaded.partitions.len(), 1);
    add(
        &mut reloaded,
        None,
        4 * ONE_MIB,
        PartitionTypeId::LinuxFilesystem,
        Some("b".into()),
    )
    .unwrap();
    reloaded.commit(&mut dev).unwrap();

    let (_, parts) = probe(&dev).unwrap();
    assert_eq!(parts.len(), 2);
    let labels: Vec<_> = {
        let mut v: Vec<&Partition> = parts.iter().collect();
        v.sort_by_key(|p| p.start);
        v.iter().filter_map(|p| p.label.clone()).collect()
    };
    assert_eq!(labels, vec!["a", "b"]);
}

#[test]
fn mbr_round_trip_two_partitions() {
    let mut dev = disk(DISK_64M as usize);
    let mut set = PartitionSet::empty_mbr(DISK_64M);
    add(&mut set, None, 4 * ONE_MIB, PartitionTypeId::LinuxFilesystem, None)
        .unwrap();
    add(&mut set, None, 4 * ONE_MIB, PartitionTypeId::LinuxSwap, None)
        .unwrap();
    set.commit(&mut dev).unwrap();

    let (kind, parts) = probe(&dev).unwrap();
    assert_eq!(kind, TableKind::Mbr);
    assert_eq!(parts.len(), 2);
    let mut parts = parts;
    parts.sort_by_key(|p| p.start);
    assert!(matches!(
        parts[0].kind,
        PartitionKind::Mbr {
            type_byte: 0x83,
            active: _
        }
    ));
    assert!(matches!(
        parts[1].kind,
        PartitionKind::Mbr {
            type_byte: 0x82,
            active: _
        }
    ));
    for p in &parts {
        assert_eq!(p.start % ONE_MIB, 0);
        assert_eq!(p.length, 4 * ONE_MIB);
    }
}

#[test]
fn mbr_full_table_rejects_fifth() {
    let mut set = PartitionSet::empty_mbr(DISK_64M);
    for _ in 0..4 {
        add(&mut set, None, ONE_MIB, PartitionTypeId::LinuxFilesystem, None)
            .unwrap();
    }
    let r = add(&mut set, None, ONE_MIB, PartitionTypeId::LinuxFilesystem, None);
    match r {
        Err(Error::Invalid(_)) => {}
        other => panic!("expected Invalid, got {other:?}"),
    }
}

#[test]
fn mbr_apfs_type_rejected() {
    let mut set = PartitionSet::empty_mbr(DISK_64M);
    let r = add(&mut set, None, ONE_MIB, PartitionTypeId::AppleApfs, None);
    match r {
        Err(Error::Invalid(_)) => {}
        other => panic!("expected Invalid, got {other:?}"),
    }
}

#[test]
fn random_uuid_v4_bits_set() {
    let mut set = PartitionSet::empty_gpt(DISK_64M, [0xD1; 16]);
    add(&mut set, None, ONE_MIB, PartitionTypeId::LinuxFilesystem, None)
        .unwrap();
    let uuid = set.partitions[0].uuid.unwrap();
    assert_eq!(uuid[7] & 0xF0, 0x40, "version nibble != 4: {:x}", uuid[7]);
    assert_eq!(uuid[8] & 0xC0, 0x80, "variant bits != 10: {:x}", uuid[8]);
    assert_eq!(set.disk_guid[7] & 0xF0, 0x40);
    assert_eq!(set.disk_guid[8] & 0xC0, 0x80);
}

#[test]
fn a_partition_whose_start_and_length_overflow_is_refused_not_wrapped() {
    let mut set = PartitionSet::empty_gpt(DISK_64M, [0xD1; 16]);
    set.partitions.push(Partition {
        start: 1 << 63,
        length: (1 << 63) + 512,
        kind: PartitionKind::Gpt {
            type_guid: type_guids::LINUX_FILESYSTEM,
            attributes: 0,
        },
        label: Some("overflowing".into()),
        uuid: Some([7u8; 16]),
        slot: None,
        issues: 0,
    });

    match add(&mut set, None, ONE_MIB, PartitionTypeId::LinuxFilesystem, None) {
        Err(Error::Invalid(_)) => {}
        other => panic!(
            "adding beside a partition whose span leaves a u64 gave {other:?}, \
             which means the wrapped end was used as a real one"
        ),
    }
}

#[test]
fn a_zero_length_partition_is_refused_not_underflowed() {
    let mut set = PartitionSet::empty_gpt(DISK_64M, [0xD1; 16]);
    set.partitions.push(Partition {
        start: 0,
        length: 0,
        kind: PartitionKind::Gpt {
            type_guid: type_guids::LINUX_FILESYSTEM,
            attributes: 0,
        },
        label: None,
        uuid: Some([8u8; 16]),
        slot: None,
        issues: 0,
    });

    match add(&mut set, None, ONE_MIB, PartitionTypeId::LinuxFilesystem, None) {
        Err(Error::Invalid(_)) => {}
        other => panic!("adding beside a zero-length partition gave {other:?}"),
    }
}

#[test]
fn write_gpt_refuses_a_span_that_leaves_a_u64_rather_than_wrapping_it() {
    let mut dev = disk(DISK_64M as usize);
    match partitions::gpt_write::write_gpt(&mut dev, &[overflowing_gpt_partition()], [1u8; 16]) {
        Err(Error::Invalid(_)) => {}
        other => panic!(
            "write_gpt gave {other:?} for a partition whose span leaves a u64 — \
             in release that is a committed table with ending_lba < starting_lba"
        ),
    }

    let mut lba1 = [0u8; 8];
    dev.read_at(512, &mut lba1).unwrap();
    assert_eq!(
        &lba1, b"\0\0\0\0\0\0\0\0",
        "a GPT header was written anyway"
    );
}

#[test]
fn write_gpt_refuses_an_overflowing_span_beside_a_real_partition() {
    let mut dev = disk(DISK_64M as usize);
    let sound = Partition {
        start: ONE_MIB,
        length: 4 * ONE_MIB,
        kind: PartitionKind::Gpt {
            type_guid: type_guids::LINUX_FILESYSTEM,
            attributes: 0,
        },
        label: None,
        uuid: Some([3u8; 16]),
        slot: None,
        issues: 0,
    };
    match partitions::gpt_write::write_gpt(&mut dev, &[sound, overflowing_gpt_partition()], [1u8; 16]) {
        Err(Error::Invalid(_)) => {}
        other => panic!("write_gpt gave {other:?} for an overflowing span"),
    }
}

#[test]
fn write_mbr_refuses_a_span_that_leaves_a_u64() {
    let mut dev = disk(DISK_64M as usize);
    let p = Partition {
        start: u64::MAX - 511,
        length: 1024,
        kind: PartitionKind::Mbr {
            type_byte: 0x83,
            active: false,
        },
        label: None,
        uuid: None,
        slot: None,
        issues: 0,
    };
    match partitions::mbr::write_mbr(&mut dev, &[p]) {
        Err(Error::Invalid(_)) => {}
        other => panic!("write_mbr gave {other:?} for a partition whose span leaves a u64"),
    }
}

#[test]
fn committing_an_unchanged_table_leaves_every_partition_in_its_slot() {
    let mut dev = disk(DISK_64M as usize);
    let a = gpt_partition(4 * ONE_MIB, 4 * ONE_MIB, "a", 1, Some(0));
    let c = gpt_partition(16 * ONE_MIB, 4 * ONE_MIB, "c", 3, Some(2));
    partitions::gpt_write::write_gpt(&mut dev, &[a, c], [5u8; 16]).unwrap();

    let (_, parts) = probe(&dev).unwrap();
    assert_eq!(
        parts.iter().map(|p| p.slot).collect::<Vec<_>>(),
        vec![Some(0), Some(2)],
        "probe must report the slot each entry came from"
    );

    let set = PartitionSet::from_probe(&dev).unwrap();
    set.commit(&mut dev).unwrap();

    let (_, after) = probe(&dev).unwrap();
    assert_eq!(
        after.iter().map(|p| p.slot).collect::<Vec<_>>(),
        vec![Some(0), Some(2)],
        "a commit that changed nothing renumbered the disk"
    );
    let labels: Vec<_> = after.iter().filter_map(|p| p.label.clone()).collect();
    assert_eq!(labels, vec!["a", "c"]);
}

#[test]
fn removing_a_partition_does_not_renumber_the_ones_after_it() {
    let mut dev = disk(DISK_64M as usize);
    let parts = vec![
        gpt_partition(4 * ONE_MIB, 4 * ONE_MIB, "a", 1, Some(0)),
        gpt_partition(12 * ONE_MIB, 4 * ONE_MIB, "b", 2, Some(1)),
        gpt_partition(20 * ONE_MIB, 4 * ONE_MIB, "c", 3, Some(2)),
    ];
    partitions::gpt_write::write_gpt(&mut dev, &parts, [5u8; 16]).unwrap();

    let mut set = PartitionSet::from_probe(&dev).unwrap();
    set.remove(PartitionRef::Index(1)).unwrap();
    set.commit(&mut dev).unwrap();

    let (_, after) = probe(&dev).unwrap();
    let by_label: Vec<(String, Option<u32>)> = after
        .iter()
        .map(|p| (p.label.clone().unwrap_or_default(), p.slot))
        .collect();
    assert_eq!(
        by_label,
        vec![("a".to_string(), Some(0)), ("c".to_string(), Some(2))],
        "deleting the middle partition moved the last one's number"
    );
}

#[test]
fn a_new_partition_takes_the_lowest_free_slot() {
    let mut dev = disk(DISK_64M as usize);
    let occupied = gpt_partition(20 * ONE_MIB, 4 * ONE_MIB, "kept", 1, Some(2));
    partitions::gpt_write::write_gpt(&mut dev, &[occupied], [5u8; 16]).unwrap();

    let mut set = PartitionSet::from_probe(&dev).unwrap();
    add(
        &mut set,
        None,
        4 * ONE_MIB,
        PartitionTypeId::LinuxFilesystem,
        Some("new".into()),
    )
    .unwrap();
    set.commit(&mut dev).unwrap();

    let (_, after) = probe(&dev).unwrap();
    let mut by_label: Vec<(String, Option<u32>)> = after
        .iter()
        .map(|p| (p.label.clone().unwrap_or_default(), p.slot))
        .collect();
    by_label.sort();
    assert_eq!(
        by_label,
        vec![("kept".to_string(), Some(2)), ("new".to_string(), Some(0))]
    );
}

#[test]
fn two_partitions_claiming_one_slot_are_refused() {
    let mut dev = disk(DISK_64M as usize);
    let a = gpt_partition(4 * ONE_MIB, 4 * ONE_MIB, "a", 1, Some(1));
    let b = gpt_partition(12 * ONE_MIB, 4 * ONE_MIB, "b", 2, Some(1));
    match partitions::gpt_write::write_gpt(&mut dev, &[a, b], [5u8; 16]) {
        Err(Error::Invalid(_)) => {}
        other => panic!("two partitions in slot 1 gave {other:?}"),
    }
}

#[test]
fn a_label_that_would_split_a_surrogate_pair_is_not_lost() {
    let mut dev = disk(DISK_64M as usize);
    let label: String = "a".repeat(35) + "\u{1F600}";
    assert_eq!(label.encode_utf16().count(), 37);

    let mut set = PartitionSet::empty_gpt(DISK_64M, [0xD1; 16]);
    add(
        &mut set,
        None,
        4 * ONE_MIB,
        PartitionTypeId::LinuxFilesystem,
        Some(label.clone()),
    )
    .unwrap();
    set.commit(&mut dev).unwrap();

    let (_, parts) = probe(&dev).unwrap();
    let got = parts[0]
        .label
        .clone()
        .expect("the label was dropped entirely, not shortened");
    assert_eq!(
        got,
        "a".repeat(35),
        "a label must be cut at a character boundary, not inside one"
    );
}

#[test]
fn a_label_whose_surrogate_pair_fits_survives_whole() {
    let mut dev = disk(DISK_64M as usize);
    let label: String = "a".repeat(34) + "\u{1F600}";
    assert_eq!(label.encode_utf16().count(), 36);

    let mut set = PartitionSet::empty_gpt(DISK_64M, [0xD1; 16]);
    add(
        &mut set,
        None,
        4 * ONE_MIB,
        PartitionTypeId::LinuxFilesystem,
        Some(label.clone()),
    )
    .unwrap();
    set.commit(&mut dev).unwrap();

    let (_, parts) = probe(&dev).unwrap();
    assert_eq!(parts[0].label.as_deref(), Some(label.as_str()));
}

#[test]
fn a_label_another_writer_truncated_mid_pair_is_still_shown() {
    let mut dev = disk(DISK_64M as usize);
    let mut set = PartitionSet::empty_gpt(DISK_64M, [0xD1; 16]);
    add(
        &mut set,
        None,
        4 * ONE_MIB,
        PartitionTypeId::LinuxFilesystem,
        Some("data".into()),
    )
    .unwrap();
    set.commit(&mut dev).unwrap();

    let entry_array_lba = 2u64;
    let name_off = (entry_array_lba * 512) as usize + 56;
    let mut units: Vec<u16> = "da".encode_utf16().collect();
    units.push(0xD83D);
    let mut name = vec![0u8; 72];
    for (i, u) in units.iter().enumerate() {
        name[i * 2..i * 2 + 2].copy_from_slice(&u.to_le_bytes());
    }
    patch_entry_name_and_repair_crcs(&mut dev, name_off, &name);

    let (_, parts) = probe(&dev).unwrap();
    let got = parts[0].label.clone().expect("the label was dropped");
    assert!(
        got.starts_with("da"),
        "the readable part of the name must survive, got {got:?}"
    );
}

#[test]
fn a_commit_that_changed_nothing_keeps_the_extended_container() {
    let mut dev = disk(DISK_64M as usize);
    plant_mbr_entry(&mut dev, 0, 0x83, 2048, 2048);
    plant_mbr_entry(&mut dev, 1, 0x0F, 8192, 16384);

    let before = mbr_table(&dev);
    let set = PartitionSet::from_probe(&dev).unwrap();
    set.commit(&mut dev).unwrap();
    let after = mbr_table(&dev);

    assert_eq!(
        after,
        before,
        "a commit that changed nothing rewrote the table; \
         slot 1 type is {:#04x} where it was {:#04x}",
        after[16 + 4],
        before[16 + 4]
    );
}

#[test]
fn a_commit_that_changed_nothing_keeps_a_hybrid_mbrs_marker() {
    let mut dev = disk(DISK_64M as usize);
    let total_sectors = (DISK_64M / 512) as u32;
    plant_mbr_entry(&mut dev, 0, 0xEE, 1, total_sectors - 1);
    plant_mbr_entry(&mut dev, 1, 0x83, 2048, 2048);
    plant_mbr_entry(&mut dev, 2, 0xAF, 4096, 2048);

    let before = mbr_table(&dev);
    let set = PartitionSet::from_probe(&dev).unwrap();
    set.commit(&mut dev).unwrap();
    let after = mbr_table(&dev);

    assert_eq!(
        after, before,
        "a commit that changed nothing rewrote the table; \
         slot 0 type is {:#04x} where it was {:#04x}",
        after[4], before[4]
    );
}

#[test]
fn a_commit_that_changed_nothing_keeps_an_entry_the_probe_skipped() {
    let mut dev = disk(DISK_64M as usize);
    plant_mbr_entry(&mut dev, 0, 0x83, 2048, 2048);
    plant_mbr_entry(&mut dev, 1, 0x83, 8192, 0);

    let before = mbr_table(&dev);
    let set = PartitionSet::from_probe(&dev).unwrap();
    assert_eq!(
        set.partitions.len(),
        1,
        "the zero-length entry was reported"
    );
    set.commit(&mut dev).unwrap();

    assert_eq!(
        mbr_table(&dev),
        before,
        "a commit that changed nothing erased the zero-length entry in slot 1"
    );
}

#[test]
fn a_partition_added_to_a_probed_table_does_not_take_the_containers_slot() {
    let mut dev = disk(DISK_64M as usize);
    plant_mbr_entry(&mut dev, 0, 0x0F, 8192, 16384);
    plant_mbr_entry(&mut dev, 1, 0x83, 2048, 2048);

    let before = mbr_table(&dev);
    let mut set = PartitionSet::from_probe(&dev).unwrap();
    add(
        &mut set,
        Some(32 * ONE_MIB),
        4 * ONE_MIB,
        PartitionTypeId::LinuxFilesystem,
        None,
    )
    .unwrap();
    set.commit(&mut dev).unwrap();

    let after = mbr_table(&dev);
    assert_eq!(
        &after[0..16],
        &before[0..16],
        "the added partition was written into the container's slot"
    );
    assert_eq!(
        after[2 * 16 + 4],
        0x83,
        "the added partition was not written"
    );
}

#[test]
fn a_probed_table_with_a_container_is_full_at_three_volumes() {
    let mut dev = disk(DISK_64M as usize);
    plant_mbr_entry(&mut dev, 0, 0x0F, 2048, 2048);
    plant_mbr_entry(&mut dev, 1, 0x83, 8192, 2048);
    plant_mbr_entry(&mut dev, 2, 0x83, 12288, 2048);
    plant_mbr_entry(&mut dev, 3, 0x83, 16384, 2048);

    let mut set = PartitionSet::from_probe(&dev).unwrap();
    assert_eq!(set.partitions.len(), 3);
    match add(&mut set, None, ONE_MIB, PartitionTypeId::LinuxFilesystem, None) {
        Err(Error::Invalid(m)) => assert!(
            m.contains("full"),
            "the fourth volume was refused for the wrong reason: {m}"
        ),
        other => panic!("a fourth volume beside a container gave {other:?}"),
    }
}

#[test]
fn the_mbr_writer_counts_preserved_entries_against_the_four_slots() {
    let mut dev = disk(DISK_64M as usize);
    let reserved = [partitions::mbr::ReservedEntry {
        slot: 3,
        bytes: [0u8; 16],
    }];
    let mut parts = Vec::new();
    for i in 0..4u64 {
        parts.push(Partition {
            start: (2 + i) * ONE_MIB,
            length: ONE_MIB,
            kind: PartitionKind::Mbr {
                type_byte: 0x83,
                active: false,
            },
            label: None,
            uuid: None,
            slot: None,
            issues: 0,
        });
    }
    match partitions::mbr::write_mbr_preserving(&mut dev, &parts, &reserved) {
        Err(Error::Invalid(m)) => assert!(
            m.contains("at most 4 primary partitions"),
            "refused, but not as a full table: {m}"
        ),
        other => panic!("four volumes beside a preserved entry gave {other:?}"),
    }
}

#[test]
fn a_commit_that_changed_nothing_keeps_a_256_entry_table() {
    let mut dev = disk(DISK_64M as usize);
    let geometry = GptGeometry {
        num_entries: 256,
        ..GptGeometry::canonical()
    };
    build_gpt_shaped(&mut dev, geometry, 2048);

    let before = gpt_shape(&dev);
    assert_eq!(before.0, 256);
    assert_eq!(before.3, 66, "a 256-entry array ends at LBA 65");

    let set = PartitionSet::from_probe(&dev).unwrap();
    set.commit(&mut dev).unwrap();

    assert_eq!(
        gpt_shape(&dev),
        before,
        "a commit that changed nothing reshaped the table"
    );
    let (_, parts) = probe(&dev).unwrap();
    assert_eq!(
        parts.len(),
        1,
        "the partition did not survive the round trip"
    );
}

#[test]
fn a_64_entry_table_round_trips_with_a_partition_the_canonical_shape_would_refuse() {
    let mut dev = disk(DISK_64M as usize);
    let geometry = GptGeometry {
        num_entries: 64,
        ..GptGeometry::canonical()
    };
    build_gpt_shaped(&mut dev, geometry, 20);

    let before = gpt_shape(&dev);
    assert_eq!(before.0, 64);
    assert_eq!(before.3, 18, "a 64-entry array ends at LBA 17");

    let set = PartitionSet::from_probe(&dev).unwrap();
    assert_eq!(set.partitions.len(), 1);
    assert_eq!(set.partitions[0].start, 20 * 512);
    set.commit(&mut dev).unwrap();

    assert_eq!(
        gpt_shape(&dev),
        before,
        "a commit that changed nothing reshaped the table"
    );
    let (_, parts) = probe(&dev).unwrap();
    assert_eq!(parts[0].start, 20 * 512, "the partition moved or vanished");
}

#[test]
fn a_declared_usable_range_wider_than_the_metadata_needs_survives() {
    let mut dev = disk(DISK_64M as usize);
    let total_sectors = DISK_64M / 512;
    let geometry = GptGeometry {
        declared_usable: Some((8192, total_sectors - 8192)),
        ..GptGeometry::canonical()
    };
    build_gpt_shaped_declared(&mut dev, geometry, 40960);

    let before = gpt_shape(&dev);
    assert_eq!(before.3, 8192, "fixture first usable LBA");
    assert_eq!(before.4, total_sectors - 8192, "fixture last usable LBA");

    let mut set = PartitionSet::from_probe(&dev).unwrap();
    add(&mut set, None, ONE_MIB, PartitionTypeId::LinuxFilesystem, None)
        .unwrap();
    set.commit(&mut dev).unwrap();

    assert_eq!(
        gpt_shape(&dev),
        before,
        "a commit narrowed the disk's declared usable range"
    );
    let (_, parts) = probe(&dev).unwrap();
    for p in &parts {
        assert!(
            p.start / 512 >= 8192,
            "a partition was placed inside the reserved gap at LBA {}",
            p.start / 512
        );
    }
}

#[test]
fn the_writer_refuses_a_disk_one_sector_too_small_for_its_own_table() {
    let sector = 512usize;
    let mut dev = disk(67 * sector);
    match gpt_write::write_gpt(&mut dev, &[], [0x33u8; 16]) {
        Err(Error::DeviceTooSmall) => {}
        other => panic!("a 67-sector disk gave {other:?}"),
    }

    let mut dev = disk(68 * sector);
    gpt_write::write_gpt(&mut dev, &[], [0x33u8; 16])
        .expect("68 sectors is the smallest disk a canonical table fits on");

    let (_, _, _, first, last) = gpt_shape(&dev);
    assert_eq!(first, 34, "the first usable LBA moved");
    assert_eq!(last, 34, "a 68-sector disk has exactly one usable LBA");
    assert!(
        first <= last,
        "the table describes a usable range that runs backwards: {first}..{last}"
    );
}

#[test]
fn a_backup_that_moves_a_partition_to_another_slot_is_a_mismatch() {
    let mut dev = disk(DISK_64M as usize);
    let mut set = PartitionSet::empty_gpt(DISK_64M, [0xD1; 16]);
    add(
        &mut set,
        None,
        4 * ONE_MIB,
        PartitionTypeId::LinuxFilesystem,
        Some("root".into()),
    )
    .unwrap();
    set.commit(&mut dev).unwrap();

    let (_, primary) = probe(&dev).unwrap();
    assert_eq!(primary[0].slot, Some(0), "the fixture's slot moved");
    assert_eq!(gpt::validate_backup(&dev, &primary), BackupStatus::Agrees);

    edit_backup_entries(&mut dev, |array| {
        let (first, rest) = array.split_at_mut(128);
        let seventh = &mut rest[6 * 128..7 * 128];
        seventh.copy_from_slice(first);
        first.fill(0);
    });

    match gpt::validate_backup(&dev, &primary) {
        BackupStatus::Mismatch(m) => assert_eq!(
            m, "partition slot differs",
            "reported a mismatch, but not the one that is there"
        ),
        BackupStatus::Agrees => {
            panic!("a backup that renumbers the disk was called identical to the primary")
        }
    }
}

#[test]
fn a_backup_that_renames_a_partition_is_a_mismatch() {
    let mut dev = disk(DISK_64M as usize);
    let mut set = PartitionSet::empty_gpt(DISK_64M, [0xD1; 16]);
    add(
        &mut set,
        None,
        4 * ONE_MIB,
        PartitionTypeId::LinuxFilesystem,
        Some("root".into()),
    )
    .unwrap();
    set.commit(&mut dev).unwrap();

    let (_, primary) = probe(&dev).unwrap();
    assert_eq!(primary[0].label.as_deref(), Some("root"));

    edit_backup_entries(&mut dev, |array| {
        let name = &mut array[56..128];
        name.fill(0);
        for (i, u) in "IMPOSTOR".encode_utf16().enumerate() {
            name[i * 2..i * 2 + 2].copy_from_slice(&u.to_le_bytes());
        }
    });

    match gpt::validate_backup(&dev, &primary) {
        BackupStatus::Mismatch(m) => assert_eq!(
            m, "partition label differs",
            "reported a mismatch, but not the one that is there"
        ),
        BackupStatus::Agrees => panic!("a backup that renames a partition was called identical"),
    }
}

#[test]
fn a_backup_that_agrees_in_every_field_is_still_ok() {
    let mut dev = disk(DISK_64M as usize);
    let mut set = PartitionSet::empty_gpt(DISK_64M, [0xD1; 16]);
    add(
        &mut set,
        None,
        4 * ONE_MIB,
        PartitionTypeId::LinuxFilesystem,
        Some("root".into()),
    )
    .unwrap();
    add(
        &mut set,
        None,
        2 * ONE_MIB,
        PartitionTypeId::LinuxSwap,
        Some("swap".into()),
    )
    .unwrap();
    set.commit(&mut dev).unwrap();

    let (_, primary) = probe(&dev).unwrap();
    assert_eq!(primary.len(), 2);
    edit_backup_entries(&mut dev, |_| {});
    assert_eq!(gpt::validate_backup(&dev, &primary), BackupStatus::Agrees);
}
