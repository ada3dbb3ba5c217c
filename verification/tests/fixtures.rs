//! Tables and boot sectors laid down byte by byte, and what is read of them.

use partitions::capi::{FsKindCode, PartitionList, PartitionsTableSource, SliceRefusal, TableKindCode};
use partitions::gpt::{entry_issue, type_guids};
use partitions::sniff::{classify, ExtVersion, FsKind};
use partitions::{
    probe, sniff, BlockRead, Bytes, Error, Partition, PartitionKind, PartitionRef, PartitionSet,
    TableKind,
};

/// A disk that is easy to write to.
trait Disk {
    fn new(size: usize) -> Self;
    fn write(&mut self, off: usize, src: &[u8]);
    fn write_u32_le(&mut self, off: usize, v: u32);
}

impl Disk for Bytes {
    fn new(size: usize) -> Self {
        Bytes(vec![0u8; size])
    }
    fn write(&mut self, off: usize, src: &[u8]) {
        self.0[off..off + src.len()].copy_from_slice(src);
    }
    fn write_u32_le(&mut self, off: usize, v: u32) {
        self.write(off, &v.to_le_bytes());
    }
}

/// Type GUID, unique GUID, first LBA, last LBA, label.
type GptFixtureEntry<'a> = ([u8; 16], [u8; 16], u64, u64, &'a str);

fn write_mbr_entry(dev: &mut Bytes, slot: usize, type_byte: u8, start_lba: u32, sectors: u32) {
    let off = 446 + slot * 16;
    dev.write(off + 4, &[type_byte]);
    dev.write_u32_le(off + 8, start_lba);
    dev.write_u32_le(off + 12, sectors);
}

/// Lays down a GPT at the start of `dev`. Returns where its entry array is.
fn build_gpt_with_entries(dev: &mut Bytes, entries: &[GptFixtureEntry]) -> (u64, u64) {
    let total_sectors = dev.size_bytes() / 512;

    dev.write(446 + 4, &[0xEE]);
    dev.write_u32_le(446 + 8, 1);
    dev.write_u32_le(446 + 12, (total_sectors - 1) as u32);
    dev.write(510, &[0x55, 0xAA]);

    let num_entries: u32 = 128;
    let entry_size: u32 = 128;
    let array_bytes = (num_entries as u64) * (entry_size as u64);
    let entry_lba = 2u64;
    let entry_offset = entry_lba * 512;

    let mut array = vec![0u8; array_bytes as usize];
    for (i, (type_guid, unique_guid, start_lba, end_lba, label)) in entries.iter().enumerate() {
        let off = i * entry_size as usize;
        array[off..off + 16].copy_from_slice(type_guid);
        array[off + 16..off + 32].copy_from_slice(unique_guid);
        array[off + 32..off + 40].copy_from_slice(&start_lba.to_le_bytes());
        array[off + 40..off + 48].copy_from_slice(&end_lba.to_le_bytes());
        let name_off = off + 56;
        for (j, c) in label.encode_utf16().enumerate() {
            if j * 2 + 2 > 72 {
                break;
            }
            array[name_off + j * 2..name_off + j * 2 + 2].copy_from_slice(&c.to_le_bytes());
        }
    }
    dev.write(entry_offset as usize, &array);
    let entries_crc = crc32fast::hash(&array);

    let mut header = [0u8; 512];
    header[0..8].copy_from_slice(b"EFI PART");
    header[8..12].copy_from_slice(&0x0001_0000u32.to_le_bytes());
    header[12..16].copy_from_slice(&92u32.to_le_bytes());
    header[20..24].copy_from_slice(&0u32.to_le_bytes());
    header[24..32].copy_from_slice(&1u64.to_le_bytes());
    header[32..40].copy_from_slice(&(total_sectors - 1).to_le_bytes());
    header[40..48].copy_from_slice(&34u64.to_le_bytes());
    header[48..56].copy_from_slice(&(total_sectors - 34).to_le_bytes());
    header[56..72].copy_from_slice(&[0xCAu8; 16]);
    header[72..80].copy_from_slice(&entry_lba.to_le_bytes());
    header[80..84].copy_from_slice(&num_entries.to_le_bytes());
    header[84..88].copy_from_slice(&entry_size.to_le_bytes());
    header[88..92].copy_from_slice(&entries_crc.to_le_bytes());

    let header_crc = crc32fast::hash(&header[..92]);
    header[16..20].copy_from_slice(&header_crc.to_le_bytes());

    dev.write(512, &header);

    (entry_offset, array_bytes)
}

/// Moves the entry array that the header names, and repairs the checksum.
fn set_partition_entry_lba(dev: &mut Bytes, lba: u64) {
    let mut header = [0u8; 512];
    dev.read_at(512, &mut header).unwrap();
    header[72..80].copy_from_slice(&lba.to_le_bytes());
    header[16..20].fill(0);
    let crc = crc32fast::hash(&header[..92]);
    header[16..20].copy_from_slice(&crc.to_le_bytes());
    dev.write(512, &header);
}

fn mbr_sector(dev: &Bytes) -> [u8; 512] {
    let mut sector = [0u8; 512];
    dev.read_at(0, &mut sector).unwrap();
    sector
}

/// Two entries on one another, and one on the table itself.
fn gpt_with_broken_entries(dev: &mut Bytes) {
    build_gpt_with_entries(
        dev,
        &[
            (type_guids::LINUX_FILESYSTEM, [1u8; 16], 2048, 4095, "a"),
            (
                type_guids::LINUX_FILESYSTEM,
                [2u8; 16],
                3000,
                5000,
                "overlaps-a",
            ),
            (
                type_guids::LINUX_FILESYSTEM,
                [3u8; 16],
                1,
                33,
                "on-top-of-the-gpt",
            ),
        ],
    );
}

/// Lays down a GPT that counts in 4096-byte blocks.
fn build_gpt_4kn(dev: &mut Bytes, my_lba: u64, repair_crc: bool) {
    const BS: u64 = 4096;
    let total_lbas = dev.size_bytes() / BS;

    dev.write(446 + 4, &[0xEE]);
    dev.write_u32_le(446 + 8, 1);
    dev.write_u32_le(446 + 12, (total_lbas - 1) as u32);
    dev.write(510, &[0x55, 0xAA]);

    let num_entries: u32 = 128;
    let entry_size: u32 = 128;
    let entry_lba = 2u64;
    let mut array = vec![0u8; (num_entries as u64 * entry_size as u64) as usize];
    array[0..16].copy_from_slice(&type_guids::LINUX_FILESYSTEM);
    array[16..32].copy_from_slice(&[7u8; 16]);
    array[32..40].copy_from_slice(&256u64.to_le_bytes());
    array[40..48].copy_from_slice(&511u64.to_le_bytes());
    dev.write((entry_lba * BS) as usize, &array);

    let mut header = vec![0u8; BS as usize];
    header[0..8].copy_from_slice(b"EFI PART");
    header[8..12].copy_from_slice(&0x0001_0000u32.to_le_bytes());
    header[12..16].copy_from_slice(&92u32.to_le_bytes());
    header[24..32].copy_from_slice(&my_lba.to_le_bytes());
    header[32..40].copy_from_slice(&(total_lbas - 1).to_le_bytes());
    header[40..48].copy_from_slice(&34u64.to_le_bytes());
    header[48..56].copy_from_slice(&(total_lbas - 34).to_le_bytes());
    header[56..72].copy_from_slice(&[0xCAu8; 16]);
    header[72..80].copy_from_slice(&entry_lba.to_le_bytes());
    header[80..84].copy_from_slice(&num_entries.to_le_bytes());
    header[84..88].copy_from_slice(&entry_size.to_le_bytes());
    header[88..92].copy_from_slice(&crc32fast::hash(&array).to_le_bytes());
    if repair_crc {
        let hc = crc32fast::hash(&header[..92]);
        header[16..20].copy_from_slice(&hc.to_le_bytes());
    }
    dev.write(BS as usize, &header);
}

#[test]
fn mbr_two_primaries() {
    let mut dev = Bytes::new(4 * 1024 * 1024);
    write_mbr_entry(&mut dev, 0, 0x83, 2048, 2048);
    write_mbr_entry(&mut dev, 1, 0x82, 4096, 2048);
    dev.write(510, &[0x55, 0xAA]);

    let (kind, parts) = probe(&dev).unwrap();
    assert_eq!(kind, TableKind::Mbr);
    assert_eq!(parts.len(), 2);
    assert_eq!(parts[0].start, 2048 * 512);
    assert_eq!(parts[0].length, 2048 * 512);
    assert!(matches!(
        parts[0].kind,
        PartitionKind::Mbr {
            type_byte: 0x83,
            active: _
        }
    ));
    assert!(matches!(
        parts[1].kind,
        PartitionKind::Mbr {
            type_byte: 0x82,
            active: _
        }
    ));
}

#[test]
fn protective_mbr_without_gpt_is_corrupt() {
    let mut dev = Bytes::new(4 * 1024 * 1024);
    write_mbr_entry(&mut dev, 0, 0xEE, 1, (4 * 1024 * 1024 / 512) as u32 - 1);
    dev.write(510, &[0x55, 0xAA]);

    match probe(&dev) {
        Err(Error::GptCorrupt(_)) => {}
        other => panic!("expected GptCorrupt, got {other:?}"),
    }
}

#[test]
fn no_table_at_all() {
    let mut dev = Bytes::new(4 * 1024 * 1024);
    match probe(&dev) {
        Err(Error::NoPartitionTable) => {}
        other => panic!("expected NoPartitionTable, got {other:?}"),
    }
}

#[test]
fn gpt_with_two_partitions() {
    let mut dev = Bytes::new(8 * 1024 * 1024);
    build_gpt_with_entries(
        &mut dev,
        &[
            (type_guids::EFI_SYSTEM, [1u8; 16], 34, 2081, "EFI"),
            (
                type_guids::LINUX_FILESYSTEM,
                [2u8; 16],
                2082,
                4129,
                "rootfs",
            ),
        ],
    );

    let (kind, parts) = probe(&dev).unwrap();
    assert_eq!(kind, TableKind::Gpt);
    assert_eq!(parts.len(), 2);
    assert_eq!(parts[0].start, 34 * 512);
    assert_eq!(parts[0].length, (2081 - 34 + 1) * 512);
    assert_eq!(parts[0].label.as_deref(), Some("EFI"));
    assert_eq!(parts[1].label.as_deref(), Some("rootfs"));
    if let PartitionKind::Gpt { type_guid, .. } = parts[1].kind {
        assert_eq!(type_guid, type_guids::LINUX_FILESYSTEM);
    } else {
        panic!("expected GPT partition kind");
    }
}

#[test]
fn gpt_header_crc_mismatch() {
    let mut dev = Bytes::new(8 * 1024 * 1024);
    build_gpt_with_entries(
        &mut dev,
        &[(type_guids::LINUX_FILESYSTEM, [3u8; 16], 34, 2081, "x")],
    );
    dev.write(512 + 24, &[0xFF]);
    match probe(&dev) {
        Err(Error::GptHeaderCrc) => {}
        other => panic!("expected GptHeaderCrc, got {other:?}"),
    }
}

#[test]
fn gpt_entries_crc_mismatch() {
    let mut dev = Bytes::new(8 * 1024 * 1024);
    let (entry_off, _) = build_gpt_with_entries(
        &mut dev,
        &[(type_guids::LINUX_FILESYSTEM, [4u8; 16], 34, 2081, "x")],
    );
    dev.write(entry_off as usize + 16, &[0x00, 0x00, 0x00, 0x00]);
    match probe(&dev) {
        Err(Error::GptEntriesCrc) => {}
        other => panic!("expected GptEntriesCrc, got {other:?}"),
    }
}

#[test]
fn sniff_ext4_with_extents() {
    let mut buf = vec![0u8; 4096];
    buf[1080] = 0x53;
    buf[1081] = 0xEF;
    buf[1120..1124].copy_from_slice(&0x40u32.to_le_bytes());
    let kind = classify(&buf);
    assert_eq!(
        kind,
        FsKind::Ext {
            version: ExtVersion::Ext4
        }
    );
}

#[test]
fn sniff_ext3_journal_only() {
    let mut buf = vec![0u8; 4096];
    buf[1080] = 0x53;
    buf[1081] = 0xEF;
    buf[1116..1120].copy_from_slice(&0x4u32.to_le_bytes());
    let kind = classify(&buf);
    assert_eq!(
        kind,
        FsKind::Ext {
            version: ExtVersion::Ext3
        }
    );
}

#[test]
fn sniff_ntfs() {
    let mut buf = vec![0u8; 1024];
    buf[3..11].copy_from_slice(b"NTFS    ");
    buf[510] = 0x55;
    buf[511] = 0xAA;
    assert_eq!(classify(&buf), FsKind::Ntfs);
}

#[test]
fn sniff_exfat() {
    let mut buf = vec![0u8; 1024];
    buf[3..11].copy_from_slice(b"EXFAT   ");
    buf[510] = 0x55;
    buf[511] = 0xAA;
    assert_eq!(classify(&buf), FsKind::ExFat);
}

#[test]
fn sniff_fat32() {
    let mut buf = vec![0u8; 1024];
    buf[0x52..0x5A].copy_from_slice(b"FAT32   ");
    buf[510] = 0x55;
    buf[511] = 0xAA;
    assert_eq!(classify(&buf), FsKind::Fat32);
}

#[test]
fn sniff_fat16() {
    let mut buf = vec![0u8; 1024];
    buf[0x36..0x3E].copy_from_slice(b"FAT16   ");
    buf[510] = 0x55;
    buf[511] = 0xAA;
    assert_eq!(classify(&buf), FsKind::Fat16);
}

#[test]
fn sniff_hfs_plus() {
    let mut buf = vec![0u8; 2048];
    buf[1024..1026].copy_from_slice(b"H+");
    assert_eq!(classify(&buf), FsKind::HfsPlus);
}

#[test]
fn sniff_apfs() {
    let mut buf = vec![0u8; 64];
    buf[32..36].copy_from_slice(b"NXSB");
    assert_eq!(classify(&buf), FsKind::Apfs);
}

#[test]
fn sniff_linux_swap() {
    let mut buf = vec![0u8; 4096];
    buf[4086..4096].copy_from_slice(b"SWAPSPACE2");
    assert_eq!(classify(&buf), FsKind::LinuxSwap);
}

#[test]
fn sniff_squashfs() {
    let mut buf = vec![0u8; 64];
    buf[0..4].copy_from_slice(b"hsqs");
    assert_eq!(classify(&buf), FsKind::Squashfs);
}

#[test]
fn sniff_iso9660() {
    let mut buf = vec![0u8; 0x8800];
    buf[0x8001..0x8006].copy_from_slice(b"CD001");
    assert_eq!(classify(&buf), FsKind::Iso9660);
}

#[test]
fn sniff_unknown() {
    let buf = vec![0u8; 4096];
    assert_eq!(classify(&buf), FsKind::Unknown);
}

#[test]
fn sniff_through_partition_offset() {
    let mut dev = Bytes::new(16 * 1024);
    dev.write(4096 + 3, b"NTFS    ");
    dev.write(4096 + 510, &[0x55, 0xAA]);

    let part = Partition {
        start: 4096,
        length: 8192,
        kind: PartitionKind::Mbr {
            type_byte: 0x07,
            active: false,
        },
        label: None,
        uuid: None,
        slot: None,
        issues: 0,
    };
    let kind = sniff(&dev, &part).unwrap();
    assert_eq!(kind, FsKind::Ntfs);
}

#[test]
fn an_entry_array_lba_that_overflows_a_byte_offset_is_refused() {
    let mut dev = Bytes::new(8 * 1024 * 1024);
    build_gpt_with_entries(
        &mut dev,
        &[(type_guids::LINUX_FILESYSTEM, [3u8; 16], 34, 2081, "data")],
    );
    set_partition_entry_lba(&mut dev, u64::MAX);

    match probe(&dev) {
        Err(_) => {}
        Ok(what) => panic!("an entry array at LBA 2^64-1 was accepted: {what:?}"),
    }
}

#[test]
fn a_partition_reaching_past_the_device_is_still_reported() {
    let mut dev = Bytes::new(8 * 1024 * 1024);
    let past_the_end = (8 * 1024 * 1024 / 512) + 4096;
    build_gpt_with_entries(
        &mut dev,
        &[(
            type_guids::LINUX_FILESYSTEM,
            [4u8; 16],
            34,
            past_the_end,
            "toolong",
        )],
    );

    let (_, parts) = probe(&dev).expect("the table itself parses");
    assert_eq!(parts.len(), 1);
    assert!(
        parts[0].start + parts[0].length > dev.size_bytes(),
        "the fixture does not actually reach past the device"
    );
}

#[test]
fn an_extended_container_is_not_reported_as_a_volume() {
    for container in [0x05u8, 0x0F] {
        let mut dev = Bytes::new(16 * 1024 * 1024);
        write_mbr_entry(&mut dev, 0, 0x83, 2048, 2048);
        write_mbr_entry(&mut dev, 1, container, 8192, 16384);
        dev.write(510, &[0x55, 0xAA]);

        let (kind, parts) = probe(&dev).unwrap();
        assert_eq!(kind, TableKind::Mbr);
        assert_eq!(
            parts.len(),
            1,
            "type {container:#04x}: the extended container was reported as a volume"
        );
        assert_eq!(parts[0].start, 2048 * 512);

        let every = partitions::mbr::parse_all_entries(&mbr_sector(&dev)).unwrap();
        assert_eq!(every.len(), 2, "type {container:#04x}");
        assert!(matches!(
            every[1].kind,
            PartitionKind::Mbr { type_byte, .. } if type_byte == container
        ));
    }
}

#[test]
fn a_hybrid_mbrs_protective_entry_is_not_reported_as_a_volume() {
    let mut dev = Bytes::new(16 * 1024 * 1024);
    let total_sectors = (16 * 1024 * 1024 / 512) as u32;
    write_mbr_entry(&mut dev, 0, 0xEE, 1, total_sectors - 1);
    write_mbr_entry(&mut dev, 1, 0x83, 2048, 2048);
    write_mbr_entry(&mut dev, 2, 0xAF, 4096, 2048);
    dev.write(510, &[0x55, 0xAA]);

    let (kind, parts) = probe(&dev).unwrap();
    assert_eq!(kind, TableKind::Mbr);
    assert_eq!(
        parts.len(),
        2,
        "the whole-disk 0xEE marker was reported as a volume beside the real ones"
    );
    for p in &parts {
        assert!(
            !matches!(
                p.kind,
                PartitionKind::Mbr {
                    type_byte: 0xEE,
                    ..
                }
            ),
            "a 0xEE entry reached the volume list"
        );
    }
}

#[test]
fn a_partition_running_off_the_end_is_still_sniffed() {
    const DEVICE: usize = 1024 * 1024;
    const START: u64 = DEVICE as u64 - 8 * 1024;
    let mut dev = Bytes::new(DEVICE);

    dev.write(START as usize + 3, b"NTFS    ");
    dev.write(START as usize + 510, &[0x55, 0xAA]);

    let part = Partition {
        start: START,
        length: 4 * 1024 * 1024,
        kind: PartitionKind::Mbr {
            type_byte: 0x07,
            active: false,
        },
        label: None,
        uuid: None,
        slot: Some(0),
        issues: 0,
    };

    assert_eq!(
        sniff::sniff(&dev, &part).expect("a truncated partition must still be classified"),
        FsKind::Ntfs
    );
}

#[test]
fn a_partition_beginning_past_the_end_is_still_an_error() {
    let mut dev = Bytes::new(1024 * 1024);
    let part = Partition {
        start: 4 * 1024 * 1024,
        length: 1024 * 1024,
        kind: PartitionKind::Mbr {
            type_byte: 0x83,
            active: false,
        },
        label: None,
        uuid: None,
        slot: Some(0),
        issues: 0,
    };
    assert!(
        sniff::sniff(&dev, &part).is_err(),
        "a partition outside the device must not be classified"
    );
}

#[test]
fn a_gpt_entry_reports_the_rules_it_breaks() {
    let mut dev = Bytes::new(8 * 1024 * 1024);
    gpt_with_broken_entries(&mut dev);

    let (kind, parts) = probe(&dev).unwrap();
    assert_eq!(kind, TableKind::Gpt);
    assert_eq!(parts.len(), 3, "every entry is still returned");

    assert_eq!(
        parts[0].issues,
        entry_issue::OVERLAPS_ANOTHER,
        "the first entry is legal except that the second sits on it"
    );
    assert_eq!(
        parts[1].issues,
        entry_issue::OVERLAPS_ANOTHER,
        "and so is the second, the other way round"
    );
    assert_eq!(
        parts[2].issues,
        entry_issue::BEFORE_FIRST_USABLE,
        "LBA 1..33 is the header and the entry array, not usable space"
    );

    assert!(entry_issue::describe(parts[2].issues).contains("first usable"));
}

#[test]
fn a_healthy_gpt_reports_no_issues() {
    let mut dev = Bytes::new(8 * 1024 * 1024);
    build_gpt_with_entries(
        &mut dev,
        &[
            (type_guids::EFI_SYSTEM, [1u8; 16], 34, 2081, "EFI"),
            (
                type_guids::LINUX_FILESYSTEM,
                [2u8; 16],
                2082,
                4129,
                "rootfs",
            ),
        ],
    );
    let (_, parts) = probe(&dev).unwrap();
    assert!(
        parts.iter().all(|p| p.issues == 0),
        "a healthy table must report nothing: {:?}",
        parts.iter().map(|p| p.issues).collect::<Vec<_>>()
    );
}

#[test]
fn a_gpt_entry_running_into_the_backup_table_is_reported() {
    let mut dev = Bytes::new(1024 * 1024);
    let total_sectors = 1024 * 1024 / 512;
    build_gpt_with_entries(
        &mut dev,
        &[(
            type_guids::LINUX_FILESYSTEM,
            [1u8; 16],
            34,
            total_sectors - 33,
            "into-the-backup",
        )],
    );
    let (_, parts) = probe(&dev).unwrap();
    assert_eq!(parts[0].issues, entry_issue::PAST_LAST_USABLE);
}

#[test]
fn removing_exactly_the_entries_that_report_issues_makes_the_table_committable() {
    let mut dev = Bytes::new(8 * 1024 * 1024);
    gpt_with_broken_entries(&mut dev);

    let mut set = PartitionSet::from_probe(&dev).unwrap();
    assert_eq!(set.partitions.len(), 3);

    let broken: Vec<usize> = set
        .partitions
        .iter()
        .enumerate()
        .filter(|(_, p)| p.issues != 0)
        .map(|(i, _)| i)
        .collect();
    assert_eq!(broken, vec![0, 1, 2], "all three are implicated");
    for &i in broken.iter().rev() {
        set.remove(PartitionRef::Index(i)).unwrap();
    }

    set.commit(&mut dev).expect("the remaining table must commit");

    let (kind, parts) = probe(&dev).unwrap();
    assert_eq!(kind, TableKind::Gpt);
    assert!(parts.is_empty());
}

#[test]
fn a_sound_entry_survives_removing_the_broken_ones() {
    let mut dev = Bytes::new(8 * 1024 * 1024);
    build_gpt_with_entries(
        &mut dev,
        &[
            (type_guids::LINUX_FILESYSTEM, [1u8; 16], 2048, 4095, "sound"),
            (
                type_guids::LINUX_FILESYSTEM,
                [2u8; 16],
                1,
                33,
                "on-top-of-the-gpt",
            ),
        ],
    );

    let mut set = PartitionSet::from_probe(&dev).unwrap();
    let broken: Vec<usize> = set
        .partitions
        .iter()
        .enumerate()
        .filter(|(_, p)| p.issues != 0)
        .map(|(i, _)| i)
        .collect();
    assert_eq!(broken, vec![1], "only the second entry breaks a rule");
    set.remove(PartitionRef::Index(1)).unwrap();
    set.commit(&mut dev).expect("the sound entry must commit");

    let (_, parts) = probe(&dev).unwrap();
    assert_eq!(parts.len(), 1);
    assert_eq!(parts[0].label.as_deref(), Some("sound"));
    assert_eq!(parts[0].issues, 0);
}

#[test]
fn an_entry_nested_inside_another_is_reported_as_overlapping() {
    let mut dev = Bytes::new(16 * 1024 * 1024);
    build_gpt_with_entries(
        &mut dev,
        &[
            (type_guids::LINUX_FILESYSTEM, [1u8; 16], 100, 10_000, "long"),
            (type_guids::LINUX_FILESYSTEM, [2u8; 16], 200, 300, "early"),
            (
                type_guids::LINUX_FILESYSTEM,
                [3u8; 16],
                9_000,
                9_100,
                "swallowed",
            ),
        ],
    );
    let (_, parts) = probe(&dev).unwrap();
    assert!(
        parts[2].issues & entry_issue::OVERLAPS_ANOTHER != 0,
        "the entry nested inside the long one must be reported: issues={:#x}",
        parts[2].issues
    );
    assert!(
        parts[0].issues & entry_issue::OVERLAPS_ANOTHER != 0,
        "and so must the one it is nested in"
    );
}

#[test]
fn two_entries_sharing_exactly_one_sector_overlap() {
    let mut dev = Bytes::new(8 * 1024 * 1024);
    build_gpt_with_entries(
        &mut dev,
        &[
            (type_guids::LINUX_FILESYSTEM, [1u8; 16], 2048, 4095, "first"),
            (
                type_guids::LINUX_FILESYSTEM,
                [2u8; 16],
                4095,
                6000,
                "touching",
            ),
        ],
    );
    let (_, parts) = probe(&dev).unwrap();
    assert_eq!(parts[0].issues, entry_issue::OVERLAPS_ANOTHER);
    assert_eq!(parts[1].issues, entry_issue::OVERLAPS_ANOTHER);
}

#[test]
fn two_entries_that_merely_abut_do_not_overlap() {
    let mut dev = Bytes::new(8 * 1024 * 1024);
    build_gpt_with_entries(
        &mut dev,
        &[
            (type_guids::LINUX_FILESYSTEM, [1u8; 16], 2048, 4095, "first"),
            (type_guids::LINUX_FILESYSTEM, [2u8; 16], 4096, 6000, "next"),
        ],
    );
    let (_, parts) = probe(&dev).unwrap();
    assert!(
        parts.iter().all(|p| p.issues == 0),
        "back-to-back partitions are the normal shape of a disk: {:?}",
        parts.iter().map(|p| p.issues).collect::<Vec<_>>()
    );
}

#[test]
fn an_entry_ending_on_the_last_usable_lba_is_legal() {
    let mut dev = Bytes::new(1024 * 1024);
    let total_sectors = 1024 * 1024 / 512;
    let last_usable = total_sectors - 34;
    build_gpt_with_entries(
        &mut dev,
        &[(
            type_guids::LINUX_FILESYSTEM,
            [1u8; 16],
            34,
            last_usable,
            "right-up-to-the-edge",
        )],
    );
    let (_, parts) = probe(&dev).unwrap();
    assert_eq!(
        parts[0].issues, 0,
        "an entry ending on the last usable LBA breaks nothing"
    );
}

#[test]
fn an_entry_starting_past_the_disk_is_reported() {
    let mut dev = Bytes::new(1024 * 1024);
    build_gpt_with_entries(
        &mut dev,
        &[(
            type_guids::LINUX_FILESYSTEM,
            [1u8; 16],
            1_000_000,
            1_000_001,
            "past-the-end",
        )],
    );
    let (_, parts) = probe(&dev).unwrap();
    assert_eq!(
        parts.len(),
        1,
        "the entry is still returned, so the caller can see it"
    );
    assert_eq!(parts[0].issues, entry_issue::PAST_LAST_USABLE);
}

#[test]
fn a_4kn_gpt_disk_is_refused_by_its_sector_size() {
    let mut dev = Bytes::new(64 * 1024 * 1024);
    build_gpt_4kn(&mut dev, 1, true);
    match probe(&dev) {
        Err(Error::UnsupportedSectorSize(msg)) => {
            assert!(
                msg.contains("4096"),
                "the refusal must name the size: {msg}"
            );
        }
        other => panic!("expected UnsupportedSectorSize, got {other:?}"),
    }
}

#[test]
fn a_bad_header_crc_at_byte_4096_is_not_taken_for_a_4kn_disk() {
    let mut dev = Bytes::new(64 * 1024 * 1024);
    build_gpt_4kn(&mut dev, 1, false);
    assert!(
        !matches!(probe(&dev), Err(Error::UnsupportedSectorSize(_))),
        "a header that fails its own CRC must not be read as a 4Kn disk"
    );
}

#[test]
fn a_header_at_byte_4096_claiming_another_lba_is_not_a_4kn_disk() {
    let mut dev = Bytes::new(64 * 1024 * 1024);
    build_gpt_4kn(&mut dev, 8, true);
    assert!(
        !matches!(probe(&dev), Err(Error::UnsupportedSectorSize(_))),
        "my_lba must be 1 for a header at byte 4096 to mean 4Kn"
    );
}

#[test]
fn an_ordinary_512_byte_gpt_disk_is_not_taken_for_a_4kn_disk() {
    let mut dev = Bytes::new(8 * 1024 * 1024);
    build_gpt_with_entries(
        &mut dev,
        &[(type_guids::LINUX_FILESYSTEM, [1u8; 16], 2048, 4095, "data")],
    );
    let (kind, parts) = probe(&dev).expect("a 512-byte GPT disk must still probe");
    assert_eq!(kind, TableKind::Gpt);
    assert_eq!(parts.len(), 1);
    assert_eq!(parts[0].start, 2048 * 512);
}

#[test]
fn the_c_abi_reports_issues_and_refuses_a_slice_for_a_broken_entry() {
    let mut dev = Bytes::new(8 * 1024 * 1024);
    gpt_with_broken_entries(&mut dev);

    let list = PartitionList::probe(&dev).unwrap();
    assert_eq!(list.count(), 3);

    let info = list.get(2).unwrap();
    assert_eq!(info.issues, entry_issue::BEFORE_FIRST_USABLE);
    assert_eq!(info.start, 512, "the slice would start at the GPT header");

    for index in 0..3 {
        assert!(
            matches!(
                list.slice(index, dev.size_bytes()),
                Err(SliceRefusal::BreaksRules(_))
            ),
            "index {index} breaks a rule and must not be opened"
        );
    }
}

#[test]
fn the_c_abi_still_opens_a_slice_for_a_sound_entry() {
    let mut dev = Bytes::new(8 * 1024 * 1024);
    build_gpt_with_entries(
        &mut dev,
        &[(type_guids::LINUX_FILESYSTEM, [1u8; 16], 2048, 4095, "sound")],
    );

    let list = PartitionList::probe(&dev).unwrap();
    assert_eq!(
        list.slice(0, dev.size_bytes()),
        Ok((2048 * 512, 2048 * 512)),
        "a sound entry must still open"
    );
}

fn make_mbr_device() -> Bytes {
    let mut bytes = vec![0u8; 4 * 1024 * 1024];
    let off = 446;
    bytes[off + 4] = 0x83;
    bytes[off + 8..off + 12].copy_from_slice(&2048u32.to_le_bytes());
    bytes[off + 12..off + 16].copy_from_slice(&2048u32.to_le_bytes());
    bytes[510] = 0x55;
    bytes[511] = 0xAA;
    let part_start = 2048 * 512;
    bytes[part_start + 3..part_start + 11].copy_from_slice(b"NTFS    ");
    bytes[part_start + 510] = 0x55;
    bytes[part_start + 511] = 0xAA;
    Bytes(bytes)
}

#[test]
fn probe_sniff_slice_round_trip() {
    let dev = make_mbr_device();

    let list = PartitionList::probe(&dev).unwrap();
    assert_eq!(list.count(), 1);
    assert_eq!(list.table, TableKindCode::Mbr);
    assert_eq!(list.source, PartitionsTableSource::Primary);

    let info = list.get(0).unwrap();
    assert_eq!(info.start, 2048 * 512);
    assert_eq!(info.length, 2048 * 512);
    assert_eq!(info.type_byte, 0x83);

    assert_eq!(list.sniff(&dev, 0).unwrap(), FsKindCode::Ntfs);

    let (start, length) = list.slice(0, dev.size_bytes()).unwrap();
    assert_eq!(start, info.start);
    assert_eq!(length, info.length);
}

#[test]
fn probe_with_no_table_returns_custom_error() {
    let dev = Bytes::new(4096);
    let e = PartitionList::probe(&dev).unwrap_err();
    assert!(matches!(e, Error::NoPartitionTable));
    assert_eq!(e.message(), "no GPT or MBR signature found");
}
