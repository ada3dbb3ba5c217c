//! Values of the smaller pieces: labels, UUIDs, messages, codes, signatures.

use partitions::capi::{
    build_info, slice_on_device, sniff_device, FsKindCode, PartitionsTableSource, SliceRefusal,
    SniffRefusal, TableKindCode,
};
use partitions::error::decimal_text;
use partitions::gpt::type_guids;
use partitions::label::{encode_label, parse_utf16_label};
use partitions::sniff::{classify, sniff, ExtVersion, FsKind, WINDOW};
use partitions::uuid::{fill_from_prng, random_uuid};
use partitions::walk::{walk, PARTITION_BUDGET};
use partitions::{
    mbr, BlockError, Bytes, Error, Partition, PartitionKind, PartitionTypeId, TableKind,
    TableSource,
};

fn part(start: u64, length: u64) -> Partition {
    Partition {
        start,
        length,
        kind: PartitionKind::Whole,
        label: None,
        uuid: None,
        slot: None,
        issues: 0,
    }
}

#[test]
fn a_label_survives_its_field() {
    for label in ["", "EFI", "\u{e9}t\u{e9}", "\u{1F600}"] {
        let field = encode_label(label);
        assert_eq!(field.len(), 72);
        let want = if label.is_empty() { None } else { Some(label) };
        assert_eq!(parse_utf16_label(&field).as_deref(), want);
    }
}

#[test]
fn a_label_field_byte_by_byte() {
    let field = encode_label("A\u{1F600}");
    assert_eq!(&field[..6], &[0x41, 0x00, 0x3D, 0xD8, 0x00, 0xDE]);
    assert!(field[6..].iter().all(|&b| b == 0));
}

#[test]
fn an_unpaired_surrogate_is_shown_as_a_replacement() {
    let mut field = [0u8; 72];
    field[0..2].copy_from_slice(&0xDC00u16.to_le_bytes());
    field[2..4].copy_from_slice(&0x0041u16.to_le_bytes());
    field[4..6].copy_from_slice(&0xD800u16.to_le_bytes());
    assert_eq!(
        parse_utf16_label(&field).as_deref(),
        Some("\u{FFFD}A\u{FFFD}")
    );
    // A high surrogate ahead of a whole pair stands alone.
    let mut field = [0u8; 72];
    for (i, u) in [0xD83Du16, 0xD83D, 0xDE00].iter().enumerate() {
        field[i * 2..i * 2 + 2].copy_from_slice(&u.to_le_bytes());
    }
    assert_eq!(
        parse_utf16_label(&field).as_deref(),
        Some("\u{FFFD}\u{1F600}")
    );
}

#[test]
fn a_uuid_keeps_its_randomness_and_says_its_version() {
    assert_eq!(
        random_uuid([0xFF; 16]),
        [
            0xFF, 0xFF, 0xFF, 0xFF, 0xFF, 0xFF, 0xFF, 0x4F, 0xBF, 0xFF, 0xFF, 0xFF, 0xFF, 0xFF,
            0xFF, 0xFF
        ]
    );
    assert_eq!(random_uuid([0; 16])[7..9], [0x40, 0x80]);
}

#[test]
fn the_fallback_generator_follows_its_seed() {
    // A seed of nothing is replaced, or the generator would stay at zero.
    let x = |s: u64| {
        let a = s ^ (s << 13);
        let b = a ^ (a >> 7);
        b ^ (b << 17)
    };
    let first = x(0x9E37_79B9_7F4A_7C15);
    let mut want = [0u8; 16];
    want[..8].copy_from_slice(&first.to_le_bytes());
    want[8..].copy_from_slice(&x(first).to_le_bytes());
    assert_eq!(fill_from_prng(0, 0), want);
    assert_eq!(fill_from_prng(0, 1)[..8], 0x4082_2041u64.to_le_bytes());
    assert_ne!(fill_from_prng(1, 1), fill_from_prng(2, 1));
}

#[test]
fn numbers_are_written_in_decimal() {
    for n in [0, 7, 10, 99, 100, 4096, u64::MAX] {
        assert_eq!(decimal_text(n), n.to_string());
    }
}

#[test]
fn every_error_says_what_it_is() {
    let cases = [
        (
            Error::Block(BlockError::Io("gone".to_string())),
            "io: gone",
        ),
        (
            Error::Block(BlockError::ShortRead {
                offset: 512,
                want: 16,
                got: 3,
            }),
            "short read at 512: wanted 16 got 3",
        ),
        (Error::Block(BlockError::ReadOnly), "device is read-only"),
        (
            Error::Block(BlockError::OutOfBounds {
                offset: 10,
                len: 20,
                size: 15,
            }),
            "10+20 past device size 15",
        ),
        (Error::from(BlockError::Custom("odd".to_string())), "odd"),
        (Error::Io("broken pipe".to_string()), "io: broken pipe"),
        (Error::NoPartitionTable, "no GPT or MBR signature found"),
        (Error::GptHeaderCrc, "GPT header CRC32 mismatch"),
        (
            Error::GptEntriesCrc,
            "GPT partition-entry array CRC32 mismatch",
        ),
        (Error::GptCorrupt("x"), "GPT corrupt: x"),
        (Error::MbrCorrupt("x"), "MBR corrupt: x"),
        (Error::GptBackupMismatch("x"), "GPT backup mismatch: x"),
        (
            Error::UnsupportedSectorSize("x"),
            "unsupported sector size: x",
        ),
        (Error::Invalid("x"), "invalid argument: x"),
        (
            Error::DeviceTooSmall,
            "device too small for the requested table",
        ),
    ];
    for (e, want) in cases {
        assert_eq!(e.message(), want);
    }
}

#[test]
fn the_numbers_of_the_c_side_are_fixed() {
    let ext = |version| FsKind::Ext { version };
    let kinds = [
        FsKind::Unknown,
        ext(ExtVersion::Ext2OrAny),
        ext(ExtVersion::Ext3),
        ext(ExtVersion::Ext4),
        FsKind::Ntfs,
        FsKind::ExFat,
        FsKind::Fat32,
        FsKind::Fat16,
        FsKind::HfsPlus,
        FsKind::Apfs,
        FsKind::LinuxSwap,
        FsKind::Iso9660,
        FsKind::Squashfs,
    ];
    for (n, kind) in kinds.iter().enumerate() {
        assert_eq!(FsKindCode::from(*kind).code(), n as i32);
    }
    assert_eq!(TableKindCode::NoTable.code(), 0);
    assert_eq!(TableKindCode::from(TableKind::Gpt).code(), 1);
    assert_eq!(TableKindCode::from(TableKind::Mbr).code(), 2);
    assert_eq!(PartitionsTableSource::from(TableSource::Primary).code(), 0);
    assert_eq!(
        PartitionsTableSource::from(TableSource::PrimaryBackupMismatch("x")).code(),
        1
    );
    assert_eq!(
        PartitionsTableSource::from(TableSource::RecoveredFromBackup).code(),
        2
    );
}

#[test]
fn what_the_c_side_is_told_of_a_partition() {
    let mut p = part(512, 1024);
    p.kind = PartitionKind::Gpt {
        type_guid: type_guids::EFI_SYSTEM,
        attributes: 4,
    };
    p.label = Some("a\0b".to_string());
    p.slot = Some(3);
    p.issues = 2;
    let info = build_info(&p, TableKindCode::Gpt);
    assert_eq!((info.start, info.length), (512, 1024));
    assert_eq!((info.fs_kind, info.table_kind), (0, 1));
    assert_eq!(info.type_guid, type_guids::EFI_SYSTEM);
    assert_eq!(info.type_byte, 0);
    assert_eq!(info.label.as_deref(), Some("a?b"));
    assert!(info.bootable);
    assert_eq!((info.attributes, info.slot, info.issues), (4, 3, 2));

    let mut q = part(512, 1024);
    q.kind = PartitionKind::Mbr {
        type_byte: 0x83,
        active: false,
    };
    q.label = Some(String::new());
    let info = build_info(&q, TableKindCode::Mbr);
    assert_eq!(info.type_guid, [0u8; 16]);
    assert_eq!((info.type_byte, info.attributes, info.slot), (0x83, 0, -1));
    assert_eq!(info.label, None);
    assert!(!info.bootable);
}

#[test]
fn a_slice_is_clamped_to_the_device() {
    assert_eq!(slice_on_device(&part(100, 50), 1000), Ok((100, 50)));
    assert_eq!(slice_on_device(&part(100, 5000), 1000), Ok((100, 900)));
    assert_eq!(
        slice_on_device(&part(1000, 1), 1000),
        Err(SliceRefusal::PastDevice)
    );
    let mut broken = part(100, 50);
    broken.issues = 5;
    assert_eq!(
        slice_on_device(&broken, 1000),
        Err(SliceRefusal::BreaksRules(5))
    );
}

#[test]
fn a_declared_size_does_not_hide_a_filesystem_behind_unknown() {
    let mut dev = Bytes(vec![0u8; 128 * 1024]);
    dev.0[1080..1082].copy_from_slice(&[0x53, 0xEF]);
    let ext2 = FsKind::Ext {
        version: ExtVersion::Ext2OrAny,
    };
    assert_eq!(sniff_device(&dev, 128 * 1024).unwrap(), ext2);
    assert_eq!(sniff_device(&dev, 2048).unwrap(), ext2);
    match sniff_device(&dev, 1024) {
        Err(SniffRefusal::CutShort { declared, size }) => {
            assert_eq!((declared, size), (1024, 128 * 1024))
        }
        other => panic!("{other:?}"),
    }
    assert!(matches!(
        sniff_device(&dev, 0),
        Err(SniffRefusal::CutShort { .. })
    ));
    // A device as small as it says, or a whole window, is simply unknown.
    assert_eq!(
        sniff_device(&Bytes(vec![0u8; 1024]), 1024).unwrap(),
        FsKind::Unknown
    );
    assert_eq!(
        sniff_device(&Bytes(vec![0u8; 128 * 1024]), WINDOW).unwrap(),
        FsKind::Unknown
    );
    assert!(matches!(
        sniff_device(&Bytes(Vec::new()), 0),
        Err(SniffRefusal::Failed(_))
    ));
}

#[test]
fn swap_is_recognised_at_every_page_size() {
    for page in [4096usize, 8192, 16384, 32768, 65536] {
        let mut dev = Bytes(vec![0u8; 80 * 1024]);
        dev.0[page - 10..page].copy_from_slice(b"SWAPSPACE2");
        assert_eq!(classify(&dev.0), FsKind::LinuxSwap);
        assert_eq!(sniff(&dev, &part(0, 80 * 1024)).unwrap(), FsKind::LinuxSwap);
    }
}

#[test]
fn what_follows_the_window_does_not_matter() {
    let mut buf = vec![0u8; WINDOW as usize];
    buf[0x8001..0x8006].copy_from_slice(b"CD001");
    let kind = classify(&buf);
    assert_eq!(kind, FsKind::Iso9660);
    buf.extend_from_slice(&[0xFFu8; 4096]);
    assert_eq!(classify(&buf), kind);
}

#[test]
fn the_other_spellings_of_a_signature() {
    let mut hfsx = vec![0u8; 2048];
    hfsx[1024..1026].copy_from_slice(b"HX");
    assert_eq!(classify(&hfsx), FsKind::HfsPlus);
    let mut fat12 = vec![0u8; 512];
    fat12[0x36..0x3E].copy_from_slice(b"FAT12   ");
    fat12[510] = 0x55;
    fat12[511] = 0xAA;
    assert_eq!(classify(&fat12), FsKind::Fat16);
    fat12[511] = 0;
    assert_eq!(classify(&fat12), FsKind::Unknown);
    assert_eq!(classify(&[]), FsKind::Unknown);
}

#[test]
fn a_sector_span_counts_the_last_sector_in_part() {
    assert_eq!(part(0, 600).sector_span().unwrap(), (0, 1));
    assert_eq!(part(512, 512).sector_span().unwrap(), (1, 1));
    assert!(matches!(
        part(512, 0).sector_span(),
        Err(Error::Invalid("a zero-length partition has no last sector"))
    ));
    assert!(matches!(
        part(u64::MAX, 1).sector_span(),
        Err(Error::Invalid("a partition's start and length overflow a u64"))
    ));
}

#[test]
fn entry_roles_and_the_protective_rule() {
    assert_eq!(mbr::entry_role(0x00), mbr::EntryRole::Empty);
    assert_eq!(mbr::entry_role(0x83), mbr::EntryRole::Volume);
    assert_eq!(mbr::entry_role(0xEE), mbr::EntryRole::GptMarker);
    for t in [0x05, 0x0F, 0x85] {
        assert_eq!(mbr::entry_role(t), mbr::EntryRole::ExtendedContainer);
    }
    let mut lba0 = [0u8; 512];
    lba0[446 + 4] = 0xEE;
    assert!(!mbr::has_signature(&lba0));
    lba0[510] = 0x55;
    lba0[511] = 0xAA;
    assert!(mbr::is_protective(&lba0) && mbr::has_gpt_marker(&lba0));
    lba0[462 + 4] = 0x83;
    assert!(!mbr::is_protective(&lba0) && mbr::has_gpt_marker(&lba0));
}

#[test]
fn type_ids_of_the_two_tables() {
    assert_eq!(
        PartitionTypeId::LinuxSwap.to_gpt_guid().unwrap(),
        type_guids::LINUX_SWAP
    );
    assert_eq!(PartitionTypeId::LinuxSwap.to_mbr_byte().unwrap(), 0x82);
    assert_eq!(PartitionTypeId::MbrCustom(7).to_mbr_byte().unwrap(), 7);
    assert_eq!(
        PartitionTypeId::GptCustom([9; 16]).to_gpt_guid().unwrap(),
        [9; 16]
    );
    assert!(PartitionTypeId::AppleApfs.to_mbr_byte().is_err());
    assert!(PartitionTypeId::GptCustom([9; 16]).to_mbr_byte().is_err());
    assert!(PartitionTypeId::MbrCustom(7).to_gpt_guid().is_err());
}

#[test]
fn a_walk_looks_into_what_the_table_names() {
    assert!(walk(&[]).is_empty());
    assert!(walk(&[0u8; 4096]).is_empty());
    let mut image = vec![0u8; 64 * 1024];
    image[446 + 4] = 0x83;
    image[446 + 8] = 8;
    image[446 + 12] = 8;
    image[462 + 4] = 0x83;
    image[462 + 9] = 0xFF;
    image[462 + 12] = 8;
    image[510] = 0x55;
    image[511] = 0xAA;
    image[4096..4100].copy_from_slice(b"hsqs");
    let kinds = walk(&image);
    assert_eq!(kinds.len(), 2);
    assert!(kinds.len() <= PARTITION_BUDGET);
    assert!(matches!(kinds[0], Ok(FsKind::Squashfs)));
    assert!(matches!(
        kinds[1],
        Err(Error::Block(BlockError::ShortRead { .. }))
    ));
}
