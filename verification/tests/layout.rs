//! The numbers of the two on-disk layouts fit together.

use partitions::{gpt, gpt_layout, mbr, Sector, MBR_LBA_MAX, SECTOR_SIZE, SECTOR_SIZE_USIZE};

#[test]
fn the_gpt_geometry_follows_from_the_entry_array() {
    assert_eq!(
        gpt_layout::ENTRY_ARRAY_SECTORS,
        u64::from(gpt_layout::NUM_ENTRIES) * u64::from(gpt_layout::ENTRY_SIZE) / SECTOR_SIZE,
        "the array is the entries, laid out"
    );
    assert_eq!(
        gpt_layout::FIRST_USABLE_LBA,
        2 + gpt_layout::ENTRY_ARRAY_SECTORS,
        "protective MBR + primary header + the array"
    );
    assert_eq!(
        gpt_layout::BACKUP_RESERVE_SECTORS,
        gpt_layout::ENTRY_ARRAY_SECTORS + 1,
        "the backup array + the backup header"
    );
    assert_eq!(
        (
            gpt_layout::ENTRY_ARRAY_SECTORS,
            gpt_layout::FIRST_USABLE_LBA,
            gpt_layout::BACKUP_RESERVE_SECTORS
        ),
        (32, 34, 33)
    );
}

#[test]
fn the_mbr_table_starts_where_the_bootloader_ends() {
    assert_eq!(mbr::layout::TABLE_START, 446);
    assert_eq!(mbr::layout::ENTRY_SIZE, 16);
    assert_eq!(mbr::layout::ENTRY_COUNT, 4);
    assert_eq!(mbr::layout::entry_at(0), 446);
    assert_eq!(mbr::layout::entry_at(3), 446 + 3 * 16);
    assert_eq!(
        mbr::layout::entry_at(mbr::layout::ENTRY_COUNT - 1) + mbr::layout::ENTRY_SIZE,
        SECTOR_SIZE_USIZE - 2,
        "the table must end where the boot signature begins"
    );
}

#[test]
fn the_gpt_header_fields_fit_inside_the_header() {
    for (name, off, len) in [
        ("signature", gpt::header_offsets::SIGNATURE, 8),
        ("revision", gpt::header_offsets::REVISION, 4),
        ("header_size", gpt::header_offsets::HEADER_SIZE, 4),
        ("header_crc32", gpt::header_offsets::HEADER_CRC32, 4),
        ("my_lba", gpt::header_offsets::MY_LBA, 8),
        ("alternate_lba", gpt::header_offsets::ALTERNATE_LBA, 8),
        ("first_usable_lba", gpt::header_offsets::FIRST_USABLE_LBA, 8),
        ("last_usable_lba", gpt::header_offsets::LAST_USABLE_LBA, 8),
        ("disk_guid", gpt::header_offsets::DISK_GUID, 16),
        ("partition_entry_lba", gpt::header_offsets::PARTITION_ENTRY_LBA, 8),
        ("num_partition_entries", gpt::header_offsets::NUM_PARTITION_ENTRIES, 4),
        ("partition_entry_size", gpt::header_offsets::PARTITION_ENTRY_SIZE, 4),
        ("array_crc32", gpt::header_offsets::PARTITION_ENTRY_ARRAY_CRC32, 4),
    ] {
        assert!(
            off + len <= gpt_layout::HEADER_SIZE as usize,
            "{name} at {off}..{} runs past the {}-byte header",
            off + len,
            gpt_layout::HEADER_SIZE
        );
    }
}

#[test]
fn the_two_spellings_of_a_sector_agree() {
    assert_eq!(SECTOR_SIZE, SECTOR_SIZE_USIZE as u64);
    assert_eq!(std::mem::size_of::<Sector>(), SECTOR_SIZE_USIZE);
    assert_eq!(std::mem::size_of::<Sector>() as u64, SECTOR_SIZE);
}

#[test]
fn the_mbr_lba_ceiling_is_the_field_it_describes() {
    assert_eq!(MBR_LBA_MAX, u64::from(u32::MAX));
    assert_eq!(
        MBR_LBA_MAX * SECTOR_SIZE,
        2 * 1024 * 1024 * 1024 * 1024 - SECTOR_SIZE
    );
}
