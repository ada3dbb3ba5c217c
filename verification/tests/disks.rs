//! Whole disks: written, damaged, read again, edited and written back.

use partitions::gpt::{entry_issue, type_guids, BackupStatus, EntryTails};
use partitions::gpt_write::{
    write_gpt, write_gpt_preserving_tails, write_gpt_with_geometry, GptGeometry,
};
use partitions::{
    gpt, mbr, probe, probe_with_status, sniff, BlockDevice, BlockError, BlockRead, Bytes, Error,
    Partition, PartitionKind, PartitionRef, PartitionSet, PartitionTypeId, TableKind, TableSource,
};

const MIB: u64 = 1024 * 1024;
const DISK: u64 = 64 * MIB;

fn disk(size: u64) -> Bytes {
    Bytes(vec![0u8; size as usize])
}

fn gpt_part(start: u64, length: u64, label: &str, uuid: u8) -> Partition {
    Partition {
        start,
        length,
        kind: PartitionKind::Gpt {
            type_guid: type_guids::LINUX_FILESYSTEM,
            attributes: 0x8000_0000_0000_0001,
        },
        label: Some(label.to_string()),
        uuid: Some([uuid; 16]),
        slot: None,
        issues: 0,
    }
}

fn mbr_part(start: u64, length: u64, type_byte: u8) -> Partition {
    Partition {
        start,
        length,
        kind: PartitionKind::Mbr {
            type_byte,
            active: false,
        },
        label: None,
        uuid: None,
        slot: None,
        issues: 0,
    }
}

fn two_part_gpt() -> Bytes {
    let mut dev = disk(DISK);
    let parts = [
        gpt_part(MIB, 4 * MIB, "one", 1),
        gpt_part(8 * MIB, 4 * MIB, "two", 2),
    ];
    write_gpt(&mut dev, &parts, [7u8; 16]).unwrap();
    dev
}

fn plant(dev: &mut Bytes, slot: usize, type_byte: u8, start: u32, sectors: u32) {
    let off = 446 + slot * 16;
    dev.0[off + 4] = type_byte;
    dev.0[off + 8..off + 12].copy_from_slice(&start.to_le_bytes());
    dev.0[off + 12..off + 16].copy_from_slice(&sectors.to_le_bytes());
    dev.0[510] = 0x55;
    dev.0[511] = 0xAA;
}

/// Recomputes the checksums of the header at `lba` and of its array.
fn repair(dev: &mut Bytes, lba: usize) {
    let h = lba * 512;
    let b = &mut dev.0;
    let array_lba = u64::from_le_bytes(b[h + 72..h + 80].try_into().unwrap()) as usize;
    let count = u32::from_le_bytes(b[h + 80..h + 84].try_into().unwrap()) as usize;
    let size = u32::from_le_bytes(b[h + 84..h + 88].try_into().unwrap()) as usize;
    let crc = crc32fast::hash(&b[array_lba * 512..array_lba * 512 + count * size]);
    b[h + 88..h + 92].copy_from_slice(&crc.to_le_bytes());
    repair_header(dev, lba);
}

fn repair_header(dev: &mut Bytes, lba: usize) {
    let h = lba * 512;
    dev.0[h + 16..h + 20].fill(0);
    let crc = crc32fast::hash(&dev.0[h..h + 92]);
    dev.0[h + 16..h + 20].copy_from_slice(&crc.to_le_bytes());
}

#[test]
fn a_written_gpt_is_read_back_field_by_field() {
    let dev = two_part_gpt();
    let (kind, parts, source) = probe_with_status(&dev).unwrap();
    assert_eq!(kind, TableKind::Gpt);
    assert_eq!(source, TableSource::Primary);
    assert_eq!(parts.len(), 2);
    for (i, p) in parts.iter().enumerate() {
        let want = gpt_part(
            if i == 0 { MIB } else { 8 * MIB },
            4 * MIB,
            if i == 0 { "one" } else { "two" },
            i as u8 + 1,
        );
        assert_eq!(p.start, want.start);
        assert_eq!(p.length, want.length);
        assert_eq!(p.kind, want.kind);
        assert_eq!(p.label, want.label);
        assert_eq!(p.uuid, want.uuid);
        assert_eq!(p.slot, Some(i as u32));
        assert_eq!(p.issues, entry_issue::NONE);
    }
}

#[test]
fn a_gpt_write_touches_nothing_but_its_own_sectors() {
    let mut dev = Bytes(vec![0xA5u8; DISK as usize]);
    write_gpt(&mut dev, &[gpt_part(MIB, MIB, "x", 1)], [7u8; 16]).unwrap();
    let end = DISK as usize - 33 * 512;
    assert!(dev.0[34 * 512..end].iter().all(|&b| b == 0xA5));
    // The boot code ahead of the table goes with a fresh one.
    assert_eq!(&dev.0[510..512], &[0x55, 0xAA]);
    assert_eq!(&dev.0[512..520], b"EFI PART");
    assert_eq!(&dev.0[DISK as usize - 512..DISK as usize - 504], b"EFI PART");
}

#[test]
fn the_fresh_protective_mbr_is_the_common_one() {
    let mut dev = disk(8 * MIB);
    write_gpt(&mut dev, &[], [7u8; 16]).unwrap();
    let mut want = [0u8; 16];
    // Not bootable, CHS of LBA 1 and of the last one, type 0xEE.
    want[1..4].copy_from_slice(&[0x00, 0x02, 0x00]);
    want[4] = 0xEE;
    want[5..8].copy_from_slice(&[0x05, 0x04, 0x01]);
    want[8..12].copy_from_slice(&1u32.to_le_bytes());
    want[12..16].copy_from_slice(&(8 * 2048u32 - 1).to_le_bytes());
    assert_eq!(&dev.0[446..462], &want);
    assert!(dev.0[462..510].iter().all(|&b| b == 0));
}

#[test]
fn chs_values_of_common_disk_ends() {
    assert_eq!(mbr::chs_for_lba(1), [0x00, 0x02, 0x00]);
    assert_eq!(mbr::chs_for_lba(8 * 2048 - 1), [0x05, 0x04, 0x01]);
    assert_eq!(mbr::chs_for_lba(64 * 2048 - 1), [0x28, 0x20, 0x08]);
    assert_eq!(mbr::chs_for_lba(512 * 2048 - 1), [0x45, 0x04, 0x41]);
    // The last cylinder that fits, and the first that does not.
    assert_eq!(mbr::chs_for_lba(1024 * 16065 - 1), [0xFE, 0xFF, 0xFF]);
    assert_eq!(mbr::chs_for_lba(1024 * 16065), [0xFF, 0xFF, 0xFF]);
}

#[test]
fn a_wiped_front_is_recovered_from_the_backup() {
    let mut dev = two_part_gpt();
    let (_, whole) = probe(&dev).unwrap();
    dev.0[..34 * 512].fill(0);
    assert!(matches!(probe(&dev), Err(Error::NoPartitionTable)));
    let (kind, parts, source) = probe_with_status(&dev).unwrap();
    assert_eq!(kind, TableKind::Gpt);
    assert_eq!(source, TableSource::RecoveredFromBackup);
    assert_eq!(parts.len(), whole.len());
    for (a, b) in parts.iter().zip(whole.iter()) {
        assert_eq!((a.start, a.length, a.uuid, a.slot), (b.start, b.length, b.uuid, b.slot));
        assert_eq!(a.label, b.label);
    }
}

#[test]
fn a_damaged_primary_header_or_array_is_recovered_too() {
    for at in [512 + 24, 1024 + 3] {
        let mut dev = two_part_gpt();
        dev.0[at] ^= 0xFF;
        assert!(probe(&dev).is_err());
        let (_, parts, source) = probe_with_status(&dev).unwrap();
        assert_eq!(source, TableSource::RecoveredFromBackup);
        assert_eq!(parts.len(), 2);
    }
}

#[test]
fn a_damaged_backup_is_reported_and_the_primary_still_read() {
    let mut dev = two_part_gpt();
    let last = DISK as usize - 512;
    dev.0[last + 24] ^= 0xFF;
    let (_, parts, source) = probe_with_status(&dev).unwrap();
    assert_eq!(parts.len(), 2);
    assert!(matches!(source, TableSource::PrimaryBackupMismatch(_)));
}

#[test]
fn a_disk_that_both_copies_are_gone_from_keeps_the_first_error() {
    let mut dev = two_part_gpt();
    let last = DISK as usize - 512;
    dev.0[512 + 24] ^= 0xFF;
    dev.0[last + 24] ^= 0xFF;
    assert!(matches!(probe_with_status(&dev), Err(Error::GptHeaderCrc)));
}

#[test]
fn a_device_too_short_for_a_sector_is_an_error() {
    let e = probe(&disk(100)).unwrap_err();
    assert!(matches!(
        e,
        Error::Block(BlockError::ShortRead { offset: 0, want: 512, .. })
    ));
    // One sector is enough to say that nothing is there.
    assert!(matches!(probe(&disk(512)), Err(Error::NoPartitionTable)));
}

#[test]
fn a_primary_header_that_names_another_lba_is_refused() {
    let mut dev = two_part_gpt();
    dev.0[512 + 24..512 + 32].copy_from_slice(&2u64.to_le_bytes());
    repair_header(&mut dev, 1);
    assert!(matches!(probe(&dev), Err(Error::GptCorrupt("primary my_lba != 1"))));
}

#[test]
fn header_fields_out_of_range_are_refused_by_name() {
    let cases: [(usize, u32, &str); 6] = [
        (8, 0x0002_0000, "major revision is not 1"),
        (12, 91, "header_size out of range"),
        (12, 513, "header_size out of range"),
        (80, 4097, "num_partition_entries > 4096"),
        (84, 8192, "partition_entry_size out of range"),
        (84, 384, "partition_entry_size is not 128 times a power of two"),
    ];
    for (at, value, want) in cases {
        let mut dev = two_part_gpt();
        dev.0[512 + at..512 + at + 4].copy_from_slice(&value.to_le_bytes());
        repair_header(&mut dev, 1);
        match probe(&dev) {
            Err(Error::GptCorrupt(m)) => assert_eq!(m, want),
            other => panic!("{want}: {other:?}"),
        }
    }
}

#[test]
fn entries_that_make_no_sense_are_refused() {
    let mut backwards = two_part_gpt();
    backwards.0[1024 + 40..1024 + 48].copy_from_slice(&5u64.to_le_bytes());
    repair(&mut backwards, 1);
    assert!(matches!(
        probe(&backwards),
        Err(Error::GptCorrupt("ending_lba < starting_lba"))
    ));

    let mut far = two_part_gpt();
    far.0[1024 + 32..1024 + 40].copy_from_slice(&(1u64 << 60).to_le_bytes());
    far.0[1024 + 40..1024 + 48].copy_from_slice(&(1u64 << 60).to_le_bytes());
    repair(&mut far, 1);
    assert!(matches!(
        probe(&far),
        Err(Error::GptCorrupt("starting_lba overflows a byte offset"))
    ));
}

#[test]
fn an_unchanged_gpt_commit_leaves_the_table_saying_what_it_said() {
    let mut dev = two_part_gpt();
    let before = dev.0.clone();
    PartitionSet::from_probe(&dev).unwrap().commit(&mut dev).unwrap();
    assert!(dev.0 == before, "the disk changed");
}

#[test]
fn an_unchanged_mbr_commit_leaves_every_byte() {
    let mut dev = disk(DISK);
    for (i, b) in dev.0[..446].iter_mut().enumerate() {
        *b = i as u8;
    }
    plant(&mut dev, 1, 0x83, 2048, 4096);
    plant(&mut dev, 2, 0x05, 8192, 4096);
    dev.0[446 + 16] = 0x80;
    dev.0[446 + 17..446 + 20].copy_from_slice(&[9, 8, 7]);
    let before = dev.0.clone();
    PartitionSet::from_probe(&dev).unwrap().commit(&mut dev).unwrap();
    assert!(dev.0 == before, "the disk changed");
}

#[test]
fn write_mbr_starts_from_a_blank_sector() {
    let mut dev = disk(DISK);
    dev.0[..446].fill(0x90);
    mbr::write_mbr(&mut dev, &[mbr_part(MIB, MIB, 0x83)]).unwrap();
    assert!(dev.0[..446].iter().all(|&b| b == 0));
    // With something kept, the boot code is kept as well.
    dev.0[..446].fill(0x90);
    mbr::write_mbr_preserving(&mut dev, &[mbr_part(MIB, MIB, 0x83)], &[]).unwrap();
    assert!(dev.0[..446].iter().all(|&b| b == 0x90));
}

#[test]
fn a_written_mbr_entry_byte_by_byte() {
    let mut dev = disk(DISK);
    let mut p = mbr_part(MIB, 4 * MIB, 0x0C);
    p.kind = PartitionKind::Mbr {
        type_byte: 0x0C,
        active: true,
    };
    mbr::write_mbr(&mut dev, &[p]).unwrap();
    let e = &dev.0[446..462];
    assert_eq!(e[0], 0x80);
    // A new entry has no CHS addresses.
    assert_eq!(&e[1..4], &[0, 0, 0]);
    assert_eq!(e[4], 0x0C);
    assert_eq!(&e[5..8], &[0, 0, 0]);
    assert_eq!(&e[8..12], &2048u32.to_le_bytes());
    assert_eq!(&e[12..16], &8192u32.to_le_bytes());
}

#[test]
fn what_an_mbr_cannot_hold_is_refused_by_name() {
    let cases: [(Vec<Partition>, &str); 7] = [
        (
            (0..5).map(|i| mbr_part((i + 1) * MIB, MIB, 0x83)).collect(),
            "MBR supports at most 4 primary partitions",
        ),
        (
            vec![gpt_part(MIB, MIB, "x", 1)],
            "non-MBR partition kind in MBR write",
        ),
        (vec![mbr_part(MIB, 0, 0x83)], "partition has zero length"),
        (vec![mbr_part(MIB + 1, MIB, 0x83)], "partition not sector-aligned"),
        (
            vec![mbr_part(0, MIB, 0x83)],
            "MBR partition cannot start at LBA 0",
        ),
        (
            vec![mbr_part(63 * MIB, 2 * MIB, 0x83)],
            "partition extends past device end",
        ),
        (
            vec![mbr_part(MIB, 2 * MIB, 0x83), mbr_part(2 * MIB, MIB, 0x83)],
            "partitions overlap",
        ),
    ];
    for (parts, want) in cases {
        let mut dev = disk(DISK);
        match mbr::write_mbr(&mut dev, &parts) {
            Err(Error::Invalid(m)) => assert_eq!(m, want),
            other => panic!("{want}: {other:?}"),
        }
        assert!(dev.0.iter().all(|&b| b == 0), "{want}: something was written");
    }
}

#[test]
fn what_a_gpt_cannot_hold_is_refused_by_name() {
    let mut no_uuid = gpt_part(MIB, MIB, "x", 1);
    no_uuid.uuid = None;
    let mut unused = gpt_part(MIB, MIB, "x", 1);
    unused.kind = PartitionKind::Gpt {
        type_guid: type_guids::UNUSED,
        attributes: 0,
    };
    let mut far_slot = gpt_part(MIB, MIB, "x", 1);
    far_slot.slot = Some(128);
    let cases: [(Vec<Partition>, &str); 8] = [
        (
            vec![mbr_part(MIB, MIB, 0x83)],
            "non-GPT partition kind in GPT write",
        ),
        (vec![gpt_part(MIB, 0, "x", 1)], "partition has zero length"),
        (
            vec![gpt_part(MIB, 513, "x", 1)],
            "partition not sector-aligned",
        ),
        (
            vec![gpt_part(33 * 512, MIB, "x", 1)],
            "partition starts before first usable LBA",
        ),
        (
            vec![gpt_part(63 * MIB, MIB, "x", 1)],
            "partition runs past last usable LBA",
        ),
        (vec![unused], "partition type GUID is the unused sentinel"),
        (
            vec![gpt_part(MIB, 2 * MIB, "x", 1), gpt_part(2 * MIB, MIB, "y", 2)],
            "partitions overlap",
        ),
        (vec![no_uuid], "GPT partition missing UUID"),
    ];
    for (parts, want) in cases {
        let mut dev = disk(DISK);
        match write_gpt(&mut dev, &parts, [7u8; 16]) {
            Err(Error::Invalid(m)) => assert_eq!(m, want),
            other => panic!("{want}: {other:?}"),
        }
        assert!(dev.0.iter().all(|&b| b == 0), "{want}: something was written");
    }
    let mut dev = disk(DISK);
    assert!(matches!(
        write_gpt(&mut dev, &[far_slot], [7u8; 16]),
        Err(Error::Invalid(_))
    ));
}

#[test]
fn a_hybrid_mbr_survives_a_gpt_commit() {
    let mut dev = two_part_gpt();
    // Mirror the first partition, and keep some boot code.
    dev.0[..440].fill(0x90);
    plant(&mut dev, 1, 0x83, 2048, 8192);
    let before = dev.0[..512].to_vec();
    let set = PartitionSet::from_probe(&dev).unwrap();
    set.commit(&mut dev).unwrap();
    assert_eq!(&dev.0[..512], &before[..]);

    // The mirror goes when the partition does.
    let mut set = PartitionSet::from_probe(&dev).unwrap();
    set.remove(PartitionRef::Index(0)).unwrap();
    set.commit(&mut dev).unwrap();
    assert_eq!(dev.0[446 + 4], 0xEE);
    assert!(dev.0[462..478].iter().all(|&b| b == 0));
}

#[test]
fn entry_tails_follow_their_partition() {
    let geometry = GptGeometry {
        entry_size: 256,
        ..GptGeometry::canonical()
    };
    let parts = [
        gpt_part(MIB, MIB, "one", 1),
        gpt_part(4 * MIB, MIB, "two", 2),
    ];
    let mut tails = EntryTails::new();
    tails.insert([1u8; 16], vec![0xAB; 128]);
    tails.insert([2u8; 16], vec![0xCD; 128]);
    let mut dev = disk(DISK);
    write_gpt_preserving_tails(&mut dev, &parts, [7u8; 16], geometry, &tails).unwrap();
    assert!(dev.0[1024 + 128..1024 + 256].iter().all(|&b| b == 0xAB));
    assert!(dev.0[1024 + 384..1024 + 512].iter().all(|&b| b == 0xCD));

    // Through a probe and a commit that removes the first one.
    let mut set = PartitionSet::from_probe(&dev).unwrap();
    assert_eq!(set.entry_tails.get(&[2u8; 16]), Some(&vec![0xCD; 128]));
    assert_eq!(set.entry_tails.get(&[3u8; 16]), None);
    set.remove(PartitionRef::Index(0)).unwrap();
    set.commit(&mut dev).unwrap();
    assert!(dev.0[1024..1024 + 256].iter().all(|&b| b == 0));
    assert!(dev.0[1024 + 384..1024 + 512].iter().all(|&b| b == 0xCD));
}

#[test]
fn two_entries_with_one_uuid_must_agree_in_their_tails() {
    let geometry = GptGeometry {
        entry_size: 256,
        ..GptGeometry::canonical()
    };
    let parts = [
        gpt_part(MIB, MIB, "one", 1),
        gpt_part(4 * MIB, MIB, "two", 1),
    ];
    let mut dev = disk(DISK);
    write_gpt_with_geometry(&mut dev, &parts, [7u8; 16], geometry).unwrap();
    assert!(PartitionSet::from_probe(&dev).is_ok());
    dev.0[1024 + 200] = 1;
    repair(&mut dev, 1);
    assert!(probe(&dev).is_ok());
    assert!(matches!(
        PartitionSet::from_probe(&dev),
        Err(Error::GptCorrupt("two entries share a UUID and differ in their tails"))
    ));
}

#[test]
fn commit_mut_pins_the_slots_it_gave_out() {
    let mut dev = disk(DISK);
    let mut set = PartitionSet::empty_gpt(DISK, [1u8; 16]);
    for i in 0..3u8 {
        set.add(
            None,
            MIB,
            PartitionTypeId::LinuxFilesystem,
            Some(format!("p{i}")),
            [i + 2; 16],
        )
        .unwrap();
    }
    let mut forgetful = set.clone();

    set.commit_mut(&mut dev).unwrap();
    let slots: Vec<Option<u32>> = set.partitions.iter().map(|p| p.slot).collect();
    assert_eq!(slots, vec![Some(0), Some(1), Some(2)]);
    set.remove(PartitionRef::Index(0)).unwrap();
    set.commit_mut(&mut dev).unwrap();
    let (_, parts) = probe(&dev).unwrap();
    assert_eq!(
        parts.iter().map(|p| p.slot).collect::<Vec<_>>(),
        vec![Some(1), Some(2)]
    );

    // Without the record, the same edit moves them.
    forgetful.commit(&mut dev).unwrap();
    assert_eq!(forgetful.partitions[0].slot, None);
    forgetful.remove(PartitionRef::Index(0)).unwrap();
    forgetful.commit(&mut dev).unwrap();
    let (_, parts) = probe(&dev).unwrap();
    assert_eq!(
        parts.iter().map(|p| p.slot).collect::<Vec<_>>(),
        vec![Some(0), Some(1)]
    );
}

#[test]
fn edits_keep_a_set_sound_and_say_why_they_are_refused() {
    let mut set = PartitionSet::empty_gpt(16 * MIB, [1u8; 16]);
    let linux = PartitionTypeId::LinuxFilesystem;
    assert!(matches!(
        set.add(None, 0, linux, None, [2u8; 16]),
        Err(Error::Invalid("zero length"))
    ));
    // Rounded up to 1 MiB, in the first place that fits.
    assert_eq!(set.add(None, 1, linux, None, [2u8; 16]).unwrap(), 0);
    assert_eq!((set.partitions[0].start, set.partitions[0].length), (MIB, MIB));
    assert_eq!(set.add(Some(4 * MIB), 2 * MIB, linux, None, [3u8; 16]).unwrap(), 1);
    assert_eq!(set.add(None, 3 * MIB, linux, None, [4u8; 16]).unwrap(), 2);
    assert_eq!(set.partitions[2].start, 6 * MIB);
    assert!(matches!(
        set.add(None, 100 * MIB, linux, None, [5u8; 16]),
        Err(Error::Invalid("no free space large enough"))
    ));
    assert!(matches!(
        set.add(Some(15 * MIB), MIB, linux, None, [5u8; 16]),
        Err(Error::Invalid("partition extends past last usable LBA"))
    ));
    assert!(matches!(
        set.add(None, MIB, PartitionTypeId::MbrCustom(0x83), None, [5u8; 16]),
        Err(Error::Invalid(_))
    ));
    assert!(matches!(
        set.resize(PartitionRef::Index(0), 4 * MIB),
        Err(Error::Invalid("resize would overlap another partition"))
    ));
    assert!(matches!(
        set.resize(PartitionRef::Index(2), 100 * MIB),
        Err(Error::Invalid("resize extends past last usable LBA"))
    ));
    set.resize(PartitionRef::Index(0), 3 * MIB).unwrap();
    assert_eq!((set.partitions[0].start, set.partitions[0].length), (MIB, 3 * MIB));
    assert!(matches!(
        set.remove(PartitionRef::Index(9)),
        Err(Error::Invalid("index out of range"))
    ));
    assert!(matches!(
        set.remove(PartitionRef::Uuid([9u8; 16])),
        Err(Error::Invalid("uuid not found"))
    ));
    let mut dev = disk(16 * MIB);
    set.commit(&mut dev).unwrap();
    let (_, parts) = probe(&dev).unwrap();
    assert_eq!(parts.len(), 3);
    assert!(parts.iter().all(|p| p.issues == 0));
}

#[test]
fn a_disk_too_small_for_a_table_takes_no_partition() {
    let mut set = PartitionSet::empty_gpt(67 * 512, [1u8; 16]);
    assert!(matches!(
        set.add(None, 512, PartitionTypeId::LinuxSwap, None, [2u8; 16]),
        Err(Error::DeviceTooSmall)
    ));
    set.partitions.push(gpt_part(34 * 512, 512, "x", 1));
    assert!(matches!(
        set.resize(PartitionRef::Index(0), 1),
        Err(Error::Invalid("resize extends past last usable LBA"))
    ));
    let mut set = PartitionSet::empty_mbr(512);
    assert!(matches!(
        set.add(None, 512, PartitionTypeId::LinuxSwap, None, [2u8; 16]),
        Err(Error::DeviceTooSmall)
    ));
}

#[test]
fn a_full_gpt_takes_no_more() {
    let mut set = PartitionSet::empty_gpt(DISK, [1u8; 16]);
    set.gpt_geometry.num_entries = 1;
    set.add(None, MIB, PartitionTypeId::LinuxSwap, None, [2u8; 16]).unwrap();
    assert!(matches!(
        set.add(None, MIB, PartitionTypeId::LinuxSwap, None, [3u8; 16]),
        Err(Error::Invalid("GPT table is full (every entry slot is taken)"))
    ));
}

#[test]
fn a_full_canonical_gpt_takes_no_more() {
    let mut set = PartitionSet::empty_gpt(256 * MIB, [1u8; 16]);
    for k in 0..128u8 {
        set.add(None, MIB, PartitionTypeId::LinuxSwap, None, [k; 16]).unwrap();
    }
    assert!(matches!(
        set.add(None, MIB, PartitionTypeId::LinuxSwap, None, [200u8; 16]),
        Err(Error::Invalid("GPT canonical table is full (128 entries)"))
    ));
}

#[test]
fn removing_one_of_an_overlapping_pair_clears_the_other() {
    let mut dev = two_part_gpt();
    // Stretch the first entry over the second.
    dev.0[1024 + 40..1024 + 48].copy_from_slice(&20000u64.to_le_bytes());
    repair(&mut dev, 1);
    let mut set = PartitionSet::from_probe(&dev).unwrap();
    assert_eq!(set.partitions[0].issues, entry_issue::OVERLAPS_ANOTHER);
    assert_eq!(set.partitions[1].issues, entry_issue::OVERLAPS_ANOTHER);
    assert!(matches!(
        set.commit(&mut dev),
        Err(Error::Invalid("partitions overlap"))
    ));
    set.remove(PartitionRef::Index(0)).unwrap();
    assert_eq!(set.partitions[0].issues, entry_issue::NONE);
    set.commit(&mut dev).unwrap();
}

#[test]
fn a_partition_added_beside_a_container_stays_clear_of_it() {
    let mut dev = disk(DISK);
    plant(&mut dev, 0, 0x0F, 2048, 4 * 2048);
    let mut set = PartitionSet::from_probe(&dev).unwrap();
    assert_eq!(set.partitions.len(), 0);
    assert_eq!(set.reserved.len(), 1);
    assert_eq!(set.reserved[0].span(), Some((2048, 5 * 2048 - 1)));
    set.add(None, MIB, PartitionTypeId::LinuxFilesystem, None, [0u8; 16]).unwrap();
    assert_eq!(set.partitions[0].start, 5 * MIB);
    assert!(matches!(
        set.add(
            Some(2 * MIB),
            MIB,
            PartitionTypeId::LinuxFilesystem,
            None,
            [0u8; 16]
        ),
        Err(Error::Invalid("partition overlaps existing entry"))
    ));
    set.commit(&mut dev).unwrap();
    let (kind, parts) = probe(&dev).unwrap();
    assert_eq!(kind, TableKind::Mbr);
    assert_eq!(parts.len(), 1);
    assert_eq!(parts[0].slot, Some(1));
}

#[test]
fn a_gpt_image_inside_an_mbr_disk_is_no_sign_of_big_sectors() {
    let mut dev = disk(DISK);
    let mut inner = disk(2 * MIB);
    write_gpt(&mut inner, &[], [7u8; 16]).unwrap();
    // LBA 1 of the inner disk falls on byte 4096.
    dev.0[4096 - 512..4096 - 512 + inner.0.len()].copy_from_slice(&inner.0);
    plant(&mut dev, 0, 0x83, 7, 4096);
    let (kind, parts) = probe(&dev).unwrap();
    assert_eq!(kind, TableKind::Mbr);
    assert_eq!(parts.len(), 1);
}

#[test]
fn a_backup_is_compared_in_every_field() {
    let dev = two_part_gpt();
    let (_, primary) = probe(&dev).unwrap();
    let same = gpt::parse_backup(&dev).unwrap();
    assert_eq!(gpt::compare_backup(&primary, &same), BackupStatus::Agrees);
    assert_eq!(gpt::validate_backup(&dev, &primary), BackupStatus::Agrees);
    // The order of the list does not matter.
    let mut turned = same.clone();
    turned.reverse();
    assert_eq!(gpt::compare_backup(&primary, &turned), BackupStatus::Agrees);

    let mut edits: Vec<Vec<Partition>> = Vec::new();
    for k in 0..6 {
        let mut b = same.clone();
        match k {
            0 => b[1].start += 512,
            1 => b[1].length += 512,
            2 => b[1].uuid = Some([9u8; 16]),
            3 => b[1].slot = Some(9),
            4 => b[1].label = None,
            _ => {
                b[1].kind = PartitionKind::Gpt {
                    type_guid: type_guids::LINUX_SWAP,
                    attributes: 0,
                }
            }
        }
        edits.push(b);
    }
    edits.push(same[..1].to_vec());
    for (k, b) in edits.iter().enumerate() {
        assert!(
            matches!(gpt::compare_backup(&primary, b), BackupStatus::Mismatch(_)),
            "edit {k} was not seen"
        );
    }
}

/// A device that fails on demand.
struct Unreliable {
    inner: Bytes,
    read_fails: bool,
    writable: bool,
    write_fails: bool,
    flush_fails: bool,
}

fn reliable(inner: Bytes) -> Unreliable {
    Unreliable {
        inner,
        read_fails: false,
        writable: true,
        write_fails: false,
        flush_fails: false,
    }
}

impl BlockRead for Unreliable {
    fn read_at(&self, offset: u64, buf: &mut [u8]) -> Result<(), BlockError> {
        if self.read_fails {
            return Err(BlockError::Io("no medium".to_string()));
        }
        self.inner.read_at(offset, buf)
    }
    fn size_bytes(&self) -> u64 {
        self.inner.size_bytes()
    }
}

impl BlockDevice for Unreliable {
    fn write_at(&mut self, offset: u64, data: &[u8]) -> Result<(), BlockError> {
        if self.write_fails {
            return Err(BlockError::Custom("write refused".to_string()));
        }
        self.inner.write_at(offset, data)
    }
    fn flush(&mut self) -> Result<(), BlockError> {
        if self.flush_fails {
            return Err(BlockError::Io("cache not written".to_string()));
        }
        Ok(())
    }
    fn is_writable(&self) -> bool {
        self.writable
    }
}

#[test]
fn a_failing_device_is_an_error_and_not_an_empty_disk() {
    let dev = Unreliable {
        read_fails: true,
        ..reliable(two_part_gpt())
    };
    match probe(&dev) {
        Err(Error::Block(BlockError::Io(m))) => assert_eq!(m, "no medium"),
        other => panic!("{other:?}"),
    }
    assert!(probe_with_status(&dev).is_err());
    assert!(PartitionSet::from_probe(&dev).is_err());
}

#[test]
fn a_device_that_takes_no_writes_is_refused_first() {
    let mut dev = Unreliable {
        writable: false,
        ..reliable(two_part_gpt())
    };
    let before = dev.inner.0.clone();
    assert!(matches!(
        write_gpt(&mut dev, &[], [7u8; 16]),
        Err(Error::Block(BlockError::ReadOnly))
    ));
    assert!(matches!(
        mbr::write_mbr(&mut dev, &[]),
        Err(Error::Block(BlockError::ReadOnly))
    ));
    assert!(dev.inner.0 == before);
}

/// A device that words the end of itself in its own way.
struct Ends(Bytes);

impl BlockRead for Ends {
    fn read_at(&self, offset: u64, buf: &mut [u8]) -> Result<(), BlockError> {
        match self.0.read_at(offset, buf) {
            Ok(()) => Ok(()),
            Err(_) => Err(BlockError::ShortRead {
                offset,
                want: buf.len(),
                got: 3,
            }),
        }
    }
    fn size_bytes(&self) -> u64 {
        DISK
    }
}

#[test]
fn a_read_past_the_end_is_reported_as_the_device_words_it() {
    let dev = Ends(disk(100));
    assert!(matches!(
        probe(&dev),
        Err(Error::Block(BlockError::ShortRead {
            offset: 0,
            want: 512,
            got: 3
        }))
    ));
    assert!(matches!(
        gpt::parse_backup(&dev),
        Err(Error::Block(BlockError::ShortRead {
            want: 512,
            got: 3,
            ..
        }))
    ));
    // Nothing is read of a partition that begins past the end.
    assert!(matches!(
        sniff(&dev, &gpt_part(DISK, MIB, "beyond", 1)),
        Err(Error::Block(BlockError::ShortRead {
            offset: DISK,
            got: 0,
            ..
        }))
    ));
}

#[test]
fn the_order_of_a_list_changes_nothing_of_what_is_said() {
    let a = vec![
        gpt_part(MIB, MIB, "one", 1),
        gpt_part(4 * MIB, MIB, "two", 2),
        gpt_part(8 * MIB, MIB, "three", 3),
    ];
    let mut b = a.clone();
    b[0].uuid = Some([9u8; 16]);
    b[2].length = 2 * MIB;
    let said = BackupStatus::Mismatch("partition uuid differs");
    assert_eq!(gpt::compare_backup(&a, &b), said);
    b.rotate_left(1);
    assert_eq!(gpt::compare_backup(&a, &b), said);
    let mut turned = a.clone();
    turned.reverse();
    assert_eq!(gpt::compare_backup(&turned, &b), said);
    assert_eq!(gpt::compare_backup(&turned, &a), BackupStatus::Agrees);
}

#[test]
fn an_edit_brings_a_stale_overlap_bit_up_to_date() {
    let mut set = PartitionSet::empty_gpt(DISK, [1u8; 16]);
    let mut p = gpt_part(MIB, MIB, "one", 1);
    p.issues = entry_issue::OVERLAPS_ANOTHER;
    set.partitions.push(p);
    let i = set
        .add(None, MIB, PartitionTypeId::LinuxSwap, None, [4u8; 16])
        .unwrap();
    set.remove(PartitionRef::Index(i)).unwrap();
    assert_eq!(set.partitions.len(), 1);
    assert_eq!(set.partitions[0].issues, entry_issue::NONE);
}

#[test]
fn what_needs_no_read_is_refused_on_a_device_that_reads_nothing() {
    let mut inner = two_part_gpt();
    let dev = Unreliable {
        read_fails: true,
        ..reliable(disk(1023))
    };
    assert!(matches!(
        gpt::parse_backup(&dev),
        Err(Error::GptCorrupt("device too small for GPT backup"))
    ));
    assert_eq!(
        gpt::validate_backup(&dev, &[]),
        BackupStatus::Mismatch("backup header corrupt")
    );

    // A header whose array lies past the end of the device.
    inner.0[512 + 72..512 + 80].copy_from_slice(&(DISK / 512).to_le_bytes());
    repair_header(&mut inner, 1);
    let lba1: [u8; 512] = inner.0[512..1024].try_into().unwrap();
    let dev = Unreliable {
        read_fails: true,
        ..reliable(inner)
    };
    assert!(matches!(
        gpt::parse(&dev, &lba1),
        Err(Error::GptCorrupt(
            "partition entry array reaches past the end of the device"
        ))
    ));
    // A damaged header.
    let mut bad = lba1;
    bad[60] ^= 1;
    assert!(matches!(gpt::parse(&dev, &bad), Err(Error::GptHeaderCrc)));
}

#[test]
fn a_flush_that_fails_is_reported_and_the_table_is_there() {
    let mut set = PartitionSet::empty_gpt(DISK, [9u8; 16]);
    set.add(None, MIB, PartitionTypeId::EfiSystem, Some("esp".to_string()), [2u8; 16])
        .unwrap();
    let mut dev = Unreliable {
        flush_fails: true,
        ..reliable(disk(DISK))
    };
    match set.commit_mut(&mut dev) {
        Err(Error::Block(BlockError::Io(m))) => assert_eq!(m, "cache not written"),
        other => panic!("{other:?}"),
    }
    assert_eq!(set.partitions[0].slot, None, "no slot is recorded");
    let (kind, parts) = probe(&dev).unwrap();
    assert_eq!(kind, TableKind::Gpt);
    assert_eq!(parts.len(), 1);
    assert_eq!(parts[0].label.as_deref(), Some("esp"));
}

#[test]
fn a_write_that_fails_is_what_a_commit_reports() {
    let mut set = PartitionSet::empty_mbr(DISK);
    set.add(None, MIB, PartitionTypeId::LinuxSwap, None, [2u8; 16]).unwrap();
    let mut dev = Unreliable {
        write_fails: true,
        flush_fails: true,
        ..reliable(disk(DISK))
    };
    match set.commit(&mut dev) {
        Err(Error::Block(BlockError::Custom(m))) => assert_eq!(m, "write refused"),
        other => panic!("{other:?}"),
    }
    assert!(dev.inner.0.iter().all(|b| *b == 0));
}

#[test]
fn an_empty_array_has_the_crc32_of_its_zeros() {
    let mut dev = disk(DISK);
    write_gpt(&mut dev, &[], [7u8; 16]).unwrap();
    assert_eq!(dev.0[512 + 88..512 + 92], 0xAB54_D286u32.to_le_bytes());
}

#[test]
fn the_first_entry_in_the_way_decides_what_is_said() {
    let standing = gpt_part(MIB, 4 * MIB, "standing", 1);
    let empty = gpt_part(32 * MIB, 0, "empty", 2);
    let moving = gpt_part(16 * MIB, MIB, "moving", 3);

    let mut set = PartitionSet::empty_gpt(DISK, [1u8; 16]);
    set.partitions = vec![standing.clone(), empty.clone()];
    assert!(matches!(
        set.add(Some(2 * MIB), MIB, PartitionTypeId::LinuxSwap, None, [4u8; 16]),
        Err(Error::Invalid("partition overlaps existing entry"))
    ));
    set.partitions = vec![empty.clone(), standing.clone()];
    assert!(matches!(
        set.add(Some(2 * MIB), MIB, PartitionTypeId::LinuxSwap, None, [4u8; 16]),
        Err(Error::Invalid("a zero-length partition has no last sector"))
    ));

    let ahead = gpt_part(18 * MIB, MIB, "ahead", 5);
    set.partitions = vec![moving.clone(), ahead.clone(), empty.clone()];
    assert!(matches!(
        set.resize(PartitionRef::Index(0), 4 * MIB),
        Err(Error::Invalid("resize would overlap another partition"))
    ));
    set.partitions = vec![empty, moving, ahead];
    assert!(matches!(
        set.resize(PartitionRef::Index(1), 4 * MIB),
        Err(Error::Invalid("a zero-length partition has no last sector"))
    ));
}

#[test]
fn removing_what_was_added_gives_the_set_there_was() {
    let dev = two_part_gpt();
    let mut set = PartitionSet::from_probe(&dev).unwrap();
    let before = format!("{:?}", set.partitions);
    let i = set
        .add(None, MIB, PartitionTypeId::LinuxSwap, None, [4u8; 16])
        .unwrap();
    assert_eq!(set.partitions.len(), 3);
    set.remove(PartitionRef::Index(i)).unwrap();
    assert_eq!(format!("{:?}", set.partitions), before);
}

#[test]
fn the_set_read_back_is_the_set_written() {
    let geometry = GptGeometry {
        num_entries: 64,
        entry_size: 256,
        ..GptGeometry::canonical()
    };
    let mut set = PartitionSet::empty_gpt(DISK, [9u8; 16]);
    set.gpt_geometry = geometry;
    set.add(None, MIB, PartitionTypeId::EfiSystem, Some("esp".to_string()), [2u8; 16])
        .unwrap();
    let uuid = set.partitions[0].uuid.unwrap();
    set.entry_tails.insert(uuid, vec![1, 2, 3]);
    let mut dev = disk(DISK);
    set.commit_mut(&mut dev).unwrap();

    let back = PartitionSet::from_probe(&dev).unwrap();
    assert_eq!(back.table_kind, TableKind::Gpt);
    assert_eq!(back.disk_guid, set.disk_guid);
    assert_eq!(back.disk_size, DISK);
    assert_eq!(
        back.gpt_geometry,
        GptGeometry {
            declared_usable: Some(geometry.usable_range(DISK / 512).unwrap()),
            ..geometry
        }
    );
    assert_eq!(back.partitions.len(), 1);
    assert_eq!(back.partitions[0].slot, set.partitions[0].slot);
    assert_eq!(back.partitions[0].kind, set.partitions[0].kind);
    let mut tail = vec![0u8; 128];
    tail[..3].copy_from_slice(&[1, 2, 3]);
    assert_eq!(back.entry_tails.get(&uuid), Some(&tail));

    // And again, now that nothing changes any more.
    let before = dev.0.clone();
    back.commit(&mut dev).unwrap();
    assert!(dev.0 == before);
}
