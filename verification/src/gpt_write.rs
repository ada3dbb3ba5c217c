//! GPT writer.
//!
//! Serialises a list of [`Partition`]s as a complete GPT: the MBR in front
//! of it at LBA 0, the primary header at LBA 1, the primary entry array
//! where the geometry puts it, the backup entry array and the backup header
//! at the end of the disk. Nothing is written unless all of it can be.

use vstd::prelude::*;

use crate::block::{answered_within, no_flush_failed, same_device, BlockDevice};
use crate::codec::{splice, window};
use crate::crc::{crc32, crc32_of};
use crate::error::{BlockError, Error, Result};
use crate::gpt::EntryTails;
use crate::mbr::{reserved_views, ReservedEntry, ReservedView};
use crate::probe::{views, Partition, PartitionView};
use crate::{Sector, SECTOR_SIZE, SECTOR_SIZE_USIZE};

pub mod geometry;
pub mod hybrid;
pub mod image;
pub mod laws;
pub mod plan;
pub mod reload;
pub mod round_trip;
pub mod slots;
pub mod unchanged;

pub use crate::gpt_write::geometry::GptGeometry;

use crate::gpt_write::geometry::{canonical_geometry, lemma_usable_range_is_clear_of_the_table};
use crate::gpt_write::image::{
    array_holds, build_array, build_front, build_header, front_written, has_marker, header_written,
    HeaderPlan,
};
use crate::gpt_write::plan::{
    gpt_plan, lemma_gpt_plan_is_writable, plan_gpt, GptPlan, GptPlanView,
};

verus! {

/// What is written as a GPT.
pub struct GptTable {
    pub parts: Seq<PartitionView>,
    pub disk_guid: Seq<u8>,
    pub geometry: GptGeometry,
    /// What follows the standard bytes of the entries.
    pub tails: Map<Seq<u8>, Seq<u8>>,
    /// The entries of the MBR in front of it, where they were recorded.
    pub recorded: Seq<ReservedView>,
}

/// What the header at `my_lba` says of a table on `total_sectors`.
pub open spec fn header_plan(
    t: GptTable,
    plan: GptPlanView,
    array: Seq<u8>,
    my_lba: int,
    alternate_lba: int,
    entry_lba: int,
) -> HeaderPlan {
    HeaderPlan {
        my_lba: my_lba as u64,
        alternate_lba: alternate_lba as u64,
        entry_lba: entry_lba as u64,
        first_usable: plan.first_usable,
        last_usable: plan.last_usable,
        disk_guid: t.disk_guid,
        array_crc: crc32(array),
        num_entries: t.geometry.num_entries,
        entry_size: t.geometry.entry_size,
    }
}

/// LBA of the backup entry array.
pub open spec fn backup_entry_lba(t: GptTable, total_sectors: int) -> int {
    total_sectors - 1 - t.geometry.sectors_spec()
}

/// The byte at `i` belongs to the table.
pub open spec fn in_table(t: GptTable, total_sectors: int, i: int) -> bool {
    let len = t.geometry.bytes_spec();
    ||| 0 <= i < 1024
    ||| t.geometry.entry_lba * 512 <= i < t.geometry.entry_lba * 512 + len
    ||| backup_entry_lba(t, total_sectors) * 512 <= i < backup_entry_lba(t, total_sectors) * 512
        + len
    ||| (total_sectors - 1) * 512 <= i < total_sectors * 512
}

/// `after` is `before` with the table written over it: both copies, and no
/// byte besides.
pub open spec fn gpt_image(
    before: Seq<u8>,
    after: Seq<u8>,
    t: GptTable,
    plan: GptPlanView,
    total_sectors: int,
) -> bool {
    let last_lba = total_sectors - 1;
    let backup_lba = backup_entry_lba(t, total_sectors);
    let len = t.geometry.bytes_spec() as nat;
    let array = window(after, t.geometry.entry_lba * 512, len);
    &&& same_beside_table(before, after, t, total_sectors)
    &&& total_sectors * 512 <= after.len()
    &&& front_written(window(after, 0, 512), window(before, 0, 512), t.recorded, t.parts, total_sectors)
    &&& header_written(
        window(after, 512, 512),
        header_plan(t, plan, array, 1, last_lba, t.geometry.entry_lba as int),
    )
    &&& array_holds(
        array,
        t.parts,
        plan.slots,
        t.tails,
        t.geometry.num_entries as int,
        t.geometry.entry_size as int,
    )
    &&& window(after, backup_lba * 512, len) == array
    &&& header_written(
        window(after, last_lba * 512, 512),
        header_plan(t, plan, array, last_lba, 1, backup_lba),
    )
}

/// No byte but those of the table has changed.
pub open spec fn same_beside_table(
    before: Seq<u8>,
    after: Seq<u8>,
    t: GptTable,
    total_sectors: int,
) -> bool {
    &&& after.len() == before.len()
    &&& forall|i: int|
        0 <= i < after.len() && !in_table(t, total_sectors, i) ==> #[trigger] after[i] == before[i]
}

/// What writing a GPT does: nothing where it is refused; else the table is
/// written, or the device failed. Whatever happens, it touches no byte
/// beside the table.
pub open spec fn gpt_commit<D: BlockDevice + ?Sized>(
    before: &D,
    after: &D,
    t: GptTable,
    r: Result<()>,
) -> bool {
    let total_sectors = before.stated_size() as int / 512;
    &&& same_device(before, after)
    &&& if !before.writable() {
        &&& r == Err::<(), Error>(Error::Block(BlockError::ReadOnly))
        &&& after.content() == before.content()
    } else {
        match gpt_plan(t.parts, t.geometry, total_sectors) {
            Err(e) => r == Err::<(), Error>(e) && after.content() == before.content(),
            Ok(plan) => {
                &&& r is Ok ==> gpt_image(
                    before.content(),
                    after.content(),
                    t,
                    plan,
                    total_sectors,
                )
                &&& r matches Err(e) ==> e is Block && answered_within(
                    before,
                    e->Block_0,
                    total_sectors * 512,
                )
                &&& same_beside_table(before.content(), after.content(), t, total_sectors)
                &&& before.dependable() && before.content().len() >= total_sectors * 512 ==> r is Ok
            },
        }
    }
}

/// A range that was just overwritten holds what was written.
proof fn lemma_window_written(s: Seq<u8>, at: int, data: Seq<u8>)
    requires
        0 <= at,
        at + data.len() <= s.len(),
    ensures
        window(splice(s, at, data), at, data.len()) == data,
{
    assert(window(splice(s, at, data), at, data.len()) =~= data);
}

/// A range beside the one overwritten stays.
proof fn lemma_window_kept(s: Seq<u8>, at: int, data: Seq<u8>, from: int, len: nat)
    requires
        0 <= from,
        from + len <= s.len(),
        from + len <= at || at + data.len() <= from,
    ensures
        window(splice(s, at, data), from, len) == window(s, from, len),
{
    assert(window(splice(s, at, data), from, len) =~= window(s, from, len));
}

/// The five writes put together make the image.
proof fn lemma_image(
    c0: Seq<u8>,
    t: GptTable,
    plan: GptPlanView,
    total_sectors: int,
    front: Seq<u8>,
    primary: Seq<u8>,
    array: Seq<u8>,
    backup: Seq<u8>,
)
    requires
        total_sectors <= u64::MAX / 512,
        total_sectors * 512 <= c0.len(),
        gpt_plan(t.parts, t.geometry, total_sectors) == Ok::<GptPlanView, Error>(plan),
        array.len() == t.geometry.bytes_spec(),
        front_written(front, window(c0, 0, 512), t.recorded, t.parts, total_sectors),
        array_holds(
            array,
            t.parts,
            plan.slots,
            t.tails,
            t.geometry.num_entries as int,
            t.geometry.entry_size as int,
        ),
        header_written(
            primary,
            header_plan(t, plan, array, 1, total_sectors - 1, t.geometry.entry_lba as int),
        ),
        header_written(
            backup,
            header_plan(
                t,
                plan,
                array,
                total_sectors - 1,
                1,
                backup_entry_lba(t, total_sectors),
            ),
        ),
    ensures
        ({
            let entry_at = t.geometry.entry_lba * 512;
            let backup_at = backup_entry_lba(t, total_sectors) * 512;
            let c1 = splice(c0, 0, front);
            let c2 = splice(c1, 512, primary);
            let c3 = splice(c2, entry_at, array);
            let c4 = splice(c3, backup_at, array);
            let c5 = splice(c4, (total_sectors - 1) * 512, backup);
            gpt_image(c0, c5, t, plan, total_sectors)
        }),
{
    lemma_gpt_plan_is_writable(t.parts, t.geometry, total_sectors);
    lemma_usable_range_is_clear_of_the_table(t.geometry, total_sectors);
    let len = array.len();
    let entry_at = t.geometry.entry_lba * 512;
    let backup_at = backup_entry_lba(t, total_sectors) * 512;
    let last_at = (total_sectors - 1) * 512;
    assert(1024 <= entry_at);
    assert(entry_at + len <= backup_at);
    assert(backup_at + len <= last_at);
    let c1 = splice(c0, 0, front);
    let c2 = splice(c1, 512, primary);
    let c3 = splice(c2, entry_at, array);
    let c4 = splice(c3, backup_at, array);
    let c5 = splice(c4, last_at, backup);
    lemma_window_written(c0, 0, front);
    lemma_window_kept(c1, 512, primary, 0, 512);
    lemma_window_kept(c2, entry_at, array, 0, 512);
    lemma_window_kept(c3, backup_at, array, 0, 512);
    lemma_window_kept(c4, last_at, backup, 0, 512);
    lemma_window_written(c1, 512, primary);
    lemma_window_kept(c2, entry_at, array, 512, 512);
    lemma_window_kept(c3, backup_at, array, 512, 512);
    lemma_window_kept(c4, last_at, backup, 512, 512);
    lemma_window_written(c2, entry_at, array);
    lemma_window_kept(c3, backup_at, array, entry_at, len);
    lemma_window_kept(c4, last_at, backup, entry_at, len);
    lemma_window_written(c3, backup_at, array);
    lemma_window_kept(c4, last_at, backup, backup_at, len);
    lemma_window_written(c4, last_at, backup);
}

/// Write a complete GPT to `dev`, in the canonical shape.
///
/// - Each partition must carry a GPT type GUID and a UUID.
/// - All must lie within the table's usable range, be sector-aligned, and
///   not overlap each other.
/// - There are at most as many as the table has entry slots.
pub fn write_gpt<D: BlockDevice + ?Sized>(
    dev: &mut D,
    partitions: &[Partition],
    disk_guid: [u8; 16],
) -> (r: Result<()>)
    ensures
        gpt_commit(
            old(dev),
            final(dev),
            (GptTable {
                parts: views(partitions@),
                disk_guid: disk_guid@,
                geometry: canonical_geometry(),
                tails: Map::empty(),
                recorded: Seq::empty(),
            }),
            r,
        ),
        no_flush_failed(old(dev), final(dev)),
{
    write_gpt_with_geometry(dev, partitions, disk_guid, GptGeometry::canonical())
}

/// As [`write_gpt`], in the entry-array shape `geometry` describes.
pub fn write_gpt_with_geometry<D: BlockDevice + ?Sized>(
    dev: &mut D,
    partitions: &[Partition],
    disk_guid: [u8; 16],
    geometry: GptGeometry,
) -> (r: Result<()>)
    requires
        geometry.bytes_spec() <= usize::MAX,
    ensures
        gpt_commit(
            old(dev),
            final(dev),
            (GptTable {
                parts: views(partitions@),
                disk_guid: disk_guid@,
                geometry,
                tails: Map::empty(),
                recorded: Seq::empty(),
            }),
            r,
        ),
        no_flush_failed(old(dev), final(dev)),
{
    let tails: EntryTails = EntryTails::new();
    write_gpt_preserving_tails(dev, partitions, disk_guid, geometry, &tails)
}

/// As [`write_gpt_with_geometry`], carrying what follows the standard bytes
/// of each entry.
///
/// A partition with no tail in `tails`, one just created, gets zeros.
pub fn write_gpt_preserving_tails<D: BlockDevice + ?Sized>(
    dev: &mut D,
    partitions: &[Partition],
    disk_guid: [u8; 16],
    geometry: GptGeometry,
    tails: &EntryTails,
) -> (r: Result<()>)
    requires
        geometry.bytes_spec() <= usize::MAX,
    ensures
        gpt_commit(
            old(dev),
            final(dev),
            (GptTable {
                parts: views(partitions@),
                disk_guid: disk_guid@,
                geometry,
                tails: tails@,
                recorded: Seq::empty(),
            }),
            r,
        ),
        no_flush_failed(old(dev), final(dev)),
{
    let none: Vec<ReservedEntry> = Vec::new();
    assert(reserved_views(none@) =~= Seq::<ReservedView>::empty());
    write_gpt_preserving(dev, partitions, disk_guid, geometry, tails, none.as_slice())
}

/// As [`write_gpt_preserving_tails`], keeping what the MBR in front of the
/// table held.
///
/// `recorded` are the entries of that MBR. Where the GPT marker is among
/// them its boot code stays, and so does each entry that mirrors a
/// partition still written. The marker of a hybrid MBR stays byte for byte;
/// that of a bare protective one is drawn anew from the device's size.
pub fn write_gpt_preserving<D: BlockDevice + ?Sized>(
    dev: &mut D,
    partitions: &[Partition],
    disk_guid: [u8; 16],
    geometry: GptGeometry,
    tails: &EntryTails,
    recorded: &[ReservedEntry],
) -> (r: Result<()>)
    requires
        geometry.bytes_spec() <= usize::MAX,
    ensures
        gpt_commit(
            old(dev),
            final(dev),
            (GptTable {
                parts: views(partitions@),
                disk_guid: disk_guid@,
                geometry,
                tails: tails@,
                recorded: reserved_views(recorded@),
            }),
            r,
        ),
        no_flush_failed(old(dev), final(dev)),
{
    if !dev.is_writable() {
        return Err(Error::Block(BlockError::ReadOnly));
    }
    let ghost t = GptTable {
        parts: views(partitions@),
        disk_guid: disk_guid@,
        geometry,
        tails: tails@,
        recorded: reserved_views(recorded@),
    };
    let total_sectors: u64 = dev.size_bytes() / SECTOR_SIZE;
    let plan: GptPlan = match plan_gpt(partitions, &geometry, total_sectors) {
        Ok(p) => p,
        Err(e) => return Err(e),
    };
    proof {
        lemma_gpt_plan_is_writable(t.parts, geometry, total_sectors as int);
        lemma_usable_range_is_clear_of_the_table(geometry, total_sectors as int);
    }
    let last_lba: u64 = total_sectors - 1;
    let backup_entries_lba: u64 = last_lba - geometry.array_sectors();
    let usable: (u64, u64) = (plan.first_usable, plan.last_usable);

    let mut base: Sector = [0u8; SECTOR_SIZE_USIZE];
    if has_marker(recorded) {
        match dev.read_at(0, &mut base) {
            Ok(()) => {},
            Err(e) => return Err(Error::Block(e)),
        }
        assert(base@ =~= window(dev.content(), 0, 512));
    }
    let front: Sector = build_front(&base, recorded, partitions, total_sectors);
    let array: Vec<u8> = build_array(
        partitions,
        &plan.slots,
        &geometry,
        tails,
        Ghost(total_sectors as int),
    );
    let array_crc: u32 = crc32_of(array.as_slice());
    let primary: Sector = build_header(
        1,
        last_lba,
        geometry.entry_lba,
        usable,
        disk_guid,
        array_crc,
        &geometry,
    );
    let backup: Sector = build_header(
        last_lba,
        1,
        backup_entries_lba,
        usable,
        disk_guid,
        array_crc,
        &geometry,
    );
    let ghost c0 = dev.content();
    match dev.write_at(0, &front) {
        Ok(()) => {},
        Err(e) => return Err(Error::Block(e)),
    }
    match dev.write_at(SECTOR_SIZE, &primary) {
        Ok(()) => {},
        Err(e) => return Err(Error::Block(e)),
    }
    match dev.write_at(geometry.entry_lba * SECTOR_SIZE, array.as_slice()) {
        Ok(()) => {},
        Err(e) => return Err(Error::Block(e)),
    }
    match dev.write_at(backup_entries_lba * SECTOR_SIZE, array.as_slice()) {
        Ok(()) => {},
        Err(e) => return Err(Error::Block(e)),
    }
    match dev.write_at(last_lba * SECTOR_SIZE, &backup) {
        Ok(()) => {},
        Err(e) => return Err(Error::Block(e)),
    }
    proof {
        lemma_image(
            c0,
            t,
            plan@,
            total_sectors as int,
            front@,
            primary@,
            array@,
            backup@,
        );
    }
    Ok(())
}

} // verus!
