//! MBR (Master Boot Record) partition table.
//!
//! ```text
//!   0..446    boot code
//!   446..510  4 partition entries of 16 bytes
//!   510..512  signature 0x55 0xAA
//! ```
//!
//! Each entry:
//!
//! ```text
//!   0       boot indicator
//!   1..4    starting CHS (legacy)
//!   4       partition type byte
//!   5..8    ending CHS (legacy)
//!   8..12   starting LBA  (u32 little-endian)
//!   12..16  number of sectors  (u32 little-endian)
//! ```

use vstd::prelude::*;

use crate::block::{answered_within, no_flush_failed, same_device, BlockDevice};
use crate::codec::{get_guid, get_u32, le32, put_bytes, put_u32, window, zeros};
use crate::error::{BlockError, Error, Result};
use crate::gpt::{part_starts, start_order};
use crate::gpt_write::slots::{
    assign_slots_with_taken, claims, lemma_slots_are_sound, slots_for, sound_slots,
};
use crate::order::key_order;
use crate::probe::{span, views, KindView, Partition, PartitionKind, PartitionView};
use crate::{Sector, MBR_LBA_MAX, SECTOR_SIZE, SECTOR_SIZE_USIZE};

pub mod laws;
pub mod layout;
pub mod round_trip;
pub mod types;

verus! {

/// A lone 0xEE entry that spans the whole disk makes a protective MBR: the
/// real table is a GPT.
pub const TYPE_GPT_PROTECTIVE: u8 = types::GPT_PROTECTIVE;

/// The bit of an entry's status byte that marks the active partition, which
/// legacy BIOS firmware boots.
pub const STATUS_ACTIVE: u8 = 0x80;

/// What an MBR entry describes.
#[derive(Debug, Clone, Copy, PartialEq, Eq, Structural)]
pub enum EntryRole {
    /// Nothing: the slot is free.
    Empty,
    /// A volume.
    Volume,
    /// An extended-partition container: a chain of further tables, not a
    /// filesystem.
    ExtendedContainer,
    /// The marker that says the real table is a GPT.
    GptMarker,
}

/// What an entry with this type byte describes.
pub open spec fn role(type_byte: u8) -> EntryRole {
    if type_byte == types::EMPTY {
        EntryRole::Empty
    } else if type_byte == types::EXTENDED_CHS || type_byte == types::EXTENDED_LBA || type_byte
        == types::LINUX_EXTENDED {
        EntryRole::ExtendedContainer
    } else if type_byte == types::GPT_PROTECTIVE {
        EntryRole::GptMarker
    } else {
        EntryRole::Volume
    }
}

/// What an entry with this type byte describes.
pub fn entry_role(type_byte: u8) -> (r: EntryRole)
    ensures
        r == role(type_byte),
{
    if type_byte == types::EMPTY {
        EntryRole::Empty
    } else if type_byte == types::EXTENDED_CHS || type_byte == types::EXTENDED_LBA || type_byte
        == types::LINUX_EXTENDED {
        EntryRole::ExtendedContainer
    } else if type_byte == types::GPT_PROTECTIVE {
        EntryRole::GptMarker
    } else {
        EntryRole::Volume
    }
}

/// The 16 bytes of entry `i` of an MBR sector.
pub open spec fn entry_in(lba0: Seq<u8>, i: int) -> Seq<u8> {
    lba0.subrange(
        layout::TABLE_START + layout::ENTRY_SIZE * i,
        layout::TABLE_START + layout::ENTRY_SIZE * i + layout::ENTRY_SIZE,
    )
}

/// What an entry says it describes.
pub open spec fn role_of(entry: Seq<u8>) -> EntryRole {
    role(entry[layout::TYPE_BYTE as int])
}

/// The partition that the entry in slot `slot` describes.
pub open spec fn partition_of(entry: Seq<u8>, slot: int) -> PartitionView {
    PartitionView {
        start: (le32(entry, layout::START_LBA as int) * 512) as u64,
        length: (le32(entry, layout::SECTOR_COUNT as int) * 512) as u64,
        kind: KindView::Mbr {
            type_byte: entry[layout::TYPE_BYTE as int],
            active: entry[layout::STATUS as int] & STATUS_ACTIVE != 0,
        },
        label: None,
        uuid: None,
        slot: Some(slot as u32),
        issues: 0,
    }
}

/// The entry describes a volume that has sectors.
pub open spec fn is_volume(entry: Seq<u8>) -> bool {
    role_of(entry) == EntryRole::Volume && le32(entry, layout::SECTOR_COUNT as int) != 0
}

/// The volumes among the first `n` entries, in slot order.
pub open spec fn volumes(lba0: Seq<u8>, n: int) -> Seq<PartitionView>
    decreases n,
{
    if n <= 0 {
        Seq::empty()
    } else if is_volume(entry_in(lba0, n - 1)) {
        volumes(lba0, n - 1).push(partition_of(entry_in(lba0, n - 1), n - 1))
    } else {
        volumes(lba0, n - 1)
    }
}

/// What the first `n` entries describe, in slot order, whatever that is.
pub open spec fn occupants(lba0: Seq<u8>, n: int) -> Seq<PartitionView>
    decreases n,
{
    if n <= 0 {
        Seq::empty()
    } else if role_of(entry_in(lba0, n - 1)) != EntryRole::Empty {
        occupants(lba0, n - 1).push(partition_of(entry_in(lba0, n - 1), n - 1))
    } else {
        occupants(lba0, n - 1)
    }
}

/// The sector ends in the boot signature that every MBR carries.
pub open spec fn signed(lba0: Seq<u8>) -> bool {
    lba0[510] == 0x55 && lba0[511] == 0xAA
}

/// Whether the sector ends in the boot signature that every MBR carries.
pub fn has_signature(lba0: &Sector) -> (r: bool)
    ensures
        r == signed(lba0@),
{
    lba0[510] == 0x55 && lba0[511] == 0xAA
}

/// Just one entry is in use, and it is the GPT marker.
pub open spec fn protective(lba0: Seq<u8>) -> bool {
    exists|i: int|
        #![trigger entry_in(lba0, i)]
        0 <= i < 4 && role_of(entry_in(lba0, i)) == EntryRole::GptMarker && forall|j: int|
            #![trigger entry_in(lba0, j)]
            0 <= j < 4 && j != i ==> role_of(entry_in(lba0, j)) == EntryRole::Empty
}

/// Some entry is the GPT marker.
pub open spec fn marked(lba0: Seq<u8>) -> bool {
    exists|i: int|
        #![trigger entry_in(lba0, i)]
        0 <= i < 4 && role_of(entry_in(lba0, i)) == EntryRole::GptMarker
}

/// What entry `i` describes.
fn role_at(lba0: &Sector, i: usize) -> (r: EntryRole)
    requires
        i < 4,
    ensures
        r == role_of(entry_in(lba0@, i as int)),
{
    entry_role(lba0[layout::entry_at(i) + layout::TYPE_BYTE])
}

/// True when the MBR is "protective": just one entry in use, of type 0xEE.
/// The real table is a GPT at LBA 1 then.
pub fn is_protective(lba0: &Sector) -> (r: bool)
    ensures
        r == protective(lba0@),
{
    let mut nonempty: usize = 0;
    let mut all_protective: bool = true;
    let mut i: usize = 0;
    let ghost mut at: int = 0;
    while i < layout::ENTRY_COUNT
        invariant
            i <= 4,
            nonempty <= i,
            nonempty == 0 ==> forall|j: int|
                #![trigger entry_in(lba0@, j)]
                0 <= j < i ==> role_of(entry_in(lba0@, j)) == EntryRole::Empty,
            nonempty == 1 ==> 0 <= at < i && role_of(entry_in(lba0@, at)) != EntryRole::Empty
                && forall|j: int|
                #![trigger entry_in(lba0@, j)]
                0 <= j < i && j != at ==> role_of(entry_in(lba0@, j)) == EntryRole::Empty,
            nonempty == 1 ==> (all_protective <==> role_of(entry_in(lba0@, at))
                == EntryRole::GptMarker),
            nonempty == 0 ==> all_protective,
            nonempty >= 2 ==> !protective(lba0@),
        decreases 4 - i,
    {
        let here: EntryRole = role_at(lba0, i);
        if here != EntryRole::Empty {
            proof {
                if nonempty == 0 {
                    at = i as int;
                } else if nonempty == 1 {
                    assert(role_of(entry_in(lba0@, at)) != EntryRole::Empty);
                    assert(role_of(entry_in(lba0@, i as int)) != EntryRole::Empty);
                }
            }
            nonempty = nonempty + 1;
            if here != EntryRole::GptMarker {
                all_protective = false;
            }
        }
        i = i + 1;
    }
    proof {
        if nonempty == 1 {
            assert(role_of(entry_in(lba0@, at)) != EntryRole::Empty);
        }
    }
    nonempty == 1 && all_protective
}

/// Whether some entry is the 0xEE marker that says the real table is a GPT,
/// alone or beside others.
pub fn has_gpt_marker(lba0: &Sector) -> (r: bool)
    ensures
        r == marked(lba0@),
{
    let mut i: usize = 0;
    while i < layout::ENTRY_COUNT
        invariant
            i <= 4,
            forall|j: int|
                #![trigger entry_in(lba0@, j)]
                0 <= j < i ==> role_of(entry_in(lba0@, j)) != EntryRole::GptMarker,
        decreases 4 - i,
    {
        if role_at(lba0, i) == EntryRole::GptMarker {
            assert(role_of(entry_in(lba0@, i as int)) == EntryRole::GptMarker);
            return true;
        }
        i = i + 1;
    }
    false
}

/// The partition that entry `i` describes.
fn partition_at(lba0: &Sector, i: usize) -> (p: Partition)
    requires
        i < 4,
    ensures
        p@ == partition_of(entry_in(lba0@, i as int), i as int),
{
    let off: usize = layout::entry_at(i);
    let start_lba: u32 = get_u32(lba0, off + layout::START_LBA);
    let sectors: u32 = get_u32(lba0, off + layout::SECTOR_COUNT);
    Partition {
        start: (start_lba as u64) * SECTOR_SIZE,
        length: (sectors as u64) * SECTOR_SIZE,
        kind: PartitionKind::Mbr {
            type_byte: lba0[off + layout::TYPE_BYTE],
            active: (lba0[off + layout::STATUS] & STATUS_ACTIVE) != 0,
        },
        label: None,
        uuid: None,
        slot: Some(i as u32),
        issues: 0,
    }
}

/// Parse the volumes among the four primary entries. Empty entries, those
/// of no sectors, containers and the GPT marker are not volumes. Logical
/// partitions inside a container are not walked.
pub fn parse(lba0: &Sector) -> (r: Result<Vec<Partition>>)
    ensures
        r is Ok,
        views(r->Ok_0@) == volumes(lba0@, 4),
{
    let mut out: Vec<Partition> = Vec::new();
    let mut i: usize = 0;
    assert(views(out@) =~= volumes(lba0@, 0));
    while i < layout::ENTRY_COUNT
        invariant
            i <= 4,
            views(out@) == volumes(lba0@, i as int),
        decreases 4 - i,
    {
        let sectors: u32 = get_u32(lba0, layout::entry_at(i) + layout::SECTOR_COUNT);
        if role_at(lba0, i) == EntryRole::Volume && sectors != 0 {
            let p: Partition = partition_at(lba0, i);
            assert(views(out@.push(p)) =~= views(out@).push(p@));
            out.push(p);
        }
        i = i + 1;
    }
    Ok(out)
}

/// Parse every entry in use, as it is on disk: volumes, containers, the GPT
/// marker, and entries of no sectors. For a caller that wants the table
/// rather than the volumes on it.
pub fn parse_all_entries(lba0: &Sector) -> (r: Result<Vec<Partition>>)
    ensures
        r is Ok,
        views(r->Ok_0@) == occupants(lba0@, 4),
{
    let mut out: Vec<Partition> = Vec::new();
    let mut i: usize = 0;
    assert(views(out@) =~= occupants(lba0@, 0));
    while i < layout::ENTRY_COUNT
        invariant
            i <= 4,
            views(out@) == occupants(lba0@, i as int),
        decreases 4 - i,
    {
        if role_at(lba0, i) != EntryRole::Empty {
            let p: Partition = partition_at(lba0, i);
            assert(views(out@.push(p)) =~= views(out@).push(p@));
            out.push(p);
        }
        i = i + 1;
    }
    Ok(out)
}

/// An entry of an MBR that stands in the table but is not in a list of
/// partitions: put back byte for byte when the table is written.
#[derive(Debug, Clone, Copy, PartialEq, Eq)]
pub struct ReservedEntry {
    /// The slot it occupies, counted from zero.
    pub slot: u32,
    /// The entry as it is on disk.
    pub bytes: [u8; 16],
}

/// What a [`ReservedEntry`] says.
pub struct ReservedView {
    pub slot: u32,
    pub bytes: Seq<u8>,
}

impl View for ReservedEntry {
    type V = ReservedView;

    open spec fn view(&self) -> ReservedView {
        ReservedView { slot: self.slot, bytes: self.bytes@ }
    }
}

/// What a list of reserved entries says.
pub open spec fn reserved_views(reserved: Seq<ReservedEntry>) -> Seq<ReservedView> {
    reserved.map_values(|r: ReservedEntry| r@)
}

/// The inclusive LBA range that an entry reserves: none for the GPT marker,
/// which overlaps everything, nor for an entry of no sectors.
pub open spec fn reserved_span(entry: Seq<u8>) -> Option<(u64, u64)> {
    let start = le32(entry, layout::START_LBA as int);
    let sectors = le32(entry, layout::SECTOR_COUNT as int);
    if role_of(entry) == EntryRole::GptMarker || sectors == 0 {
        None
    } else {
        Some((start as u64, (start + sectors - 1) as u64))
    }
}

impl ReservedEntry {
    /// The inclusive LBA range the entry reserves: none for the GPT marker,
    /// nor for an entry of no sectors.
    pub fn span(&self) -> (r: Option<(u64, u64)>)
        ensures
            r == reserved_span(self.bytes@),
    {
        let start: u32 = get_u32(&self.bytes, layout::START_LBA);
        let sectors: u32 = get_u32(&self.bytes, layout::SECTOR_COUNT);
        if entry_role(self.bytes[layout::TYPE_BYTE]) == EntryRole::GptMarker || sectors == 0 {
            None
        } else {
            Some((start as u64, start as u64 + (sectors as u64 - 1)))
        }
    }
}

/// Of the first `n` entries, those in use that are no volumes.
pub open spec fn unlisted(lba0: Seq<u8>, n: int) -> Seq<ReservedView>
    decreases n,
{
    if n <= 0 {
        Seq::empty()
    } else {
        let entry = entry_in(lba0, n - 1);
        if role_of(entry) != EntryRole::Empty && !is_volume(entry) {
            unlisted(lba0, n - 1).push(ReservedView { slot: (n - 1) as u32, bytes: entry })
        } else {
            unlisted(lba0, n - 1)
        }
    }
}

/// Of the first `n` entries, those in use.
pub open spec fn in_use(lba0: Seq<u8>, n: int) -> Seq<ReservedView>
    decreases n,
{
    if n <= 0 {
        Seq::empty()
    } else {
        let entry = entry_in(lba0, n - 1);
        if role_of(entry) != EntryRole::Empty {
            in_use(lba0, n - 1).push(ReservedView { slot: (n - 1) as u32, bytes: entry })
        } else {
            in_use(lba0, n - 1)
        }
    }
}

/// The entries in use that [`parse`] does not report: containers, the GPT
/// marker, and entries of no sectors.
pub fn reserved_entries(lba0: &Sector) -> (out: Vec<ReservedEntry>)
    ensures
        reserved_views(out@) == unlisted(lba0@, 4),
{
    let mut out: Vec<ReservedEntry> = Vec::new();
    let mut i: usize = 0;
    assert(reserved_views(out@) =~= unlisted(lba0@, 0));
    while i < layout::ENTRY_COUNT
        invariant
            i <= 4,
            reserved_views(out@) == unlisted(lba0@, i as int),
        decreases 4 - i,
    {
        let sectors: u32 = get_u32(lba0, layout::entry_at(i) + layout::SECTOR_COUNT);
        let here: EntryRole = role_at(lba0, i);
        if here != EntryRole::Empty && !(here == EntryRole::Volume && sectors != 0) {
            let entry: ReservedEntry = ReservedEntry {
                slot: i as u32,
                bytes: get_guid(lba0, layout::entry_at(i)),
            };
            assert(reserved_views(out@.push(entry)) =~= reserved_views(out@).push(entry@));
            out.push(entry);
        }
        i = i + 1;
    }
    out
}

/// Every entry in use, as it is on disk.
pub fn entries_in_use(lba0: &Sector) -> (out: Vec<ReservedEntry>)
    ensures
        reserved_views(out@) == in_use(lba0@, 4),
{
    let mut out: Vec<ReservedEntry> = Vec::new();
    let mut i: usize = 0;
    assert(reserved_views(out@) =~= in_use(lba0@, 0));
    while i < layout::ENTRY_COUNT
        invariant
            i <= 4,
            reserved_views(out@) == in_use(lba0@, i as int),
        decreases 4 - i,
    {
        if role_at(lba0, i) != EntryRole::Empty {
            let entry: ReservedEntry = ReservedEntry {
                slot: i as u32,
                bytes: get_guid(lba0, layout::entry_at(i)),
            };
            assert(reserved_views(out@.push(entry)) =~= reserved_views(out@).push(entry@));
            out.push(entry);
        }
        i = i + 1;
    }
    out
}

/// The CHS address of `lba` on a disk of 255 heads and 63 sectors a track,
/// as an MBR entry encodes it; all ones where the cylinder passes ten bits.
pub open spec fn chs(lba: int) -> Seq<u8> {
    let cylinder = lba / 16065;
    let head = (lba / 63) % 255;
    let sector = lba % 63 + 1;
    if cylinder > 1023 {
        seq![0xFFu8, 0xFFu8, 0xFFu8]
    } else {
        seq![head as u8, (sector + 64 * (cylinder / 256)) as u8, (cylinder % 256) as u8]
    }
}

/// The CHS address of `lba` on a disk of 255 heads and 63 sectors a track,
/// as an MBR entry encodes it: head, sector with the cylinder's two high
/// bits, cylinder. `FF FF FF` where the cylinder passes the ten bits there
/// are.
pub fn chs_for_lba(lba: u64) -> (r: [u8; 3])
    ensures
        r@ == chs(lba as int),
{
    let cylinder: u64 = lba / 16065;
    let head: u64 = (lba / 63) % 255;
    let sector: u64 = lba % 63 + 1;
    if cylinder > 1023 {
        let r: [u8; 3] = [0xFF, 0xFF, 0xFF];
        assert(r@ =~= chs(lba as int));
        return r;
    }
    let r: [u8; 3] = [
        head as u8,
        (sector + 64 * (cylinder / 256)) as u8,
        (cylinder % 256) as u8,
    ];
    assert(r@ =~= chs(lba as int));
    r
}

/// What keeps a partition out of an MBR on a device of `total` bytes.
pub open spec fn mbr_fault(p: PartitionView, total: u64) -> Option<Error> {
    if !(p.kind is Mbr) {
        Some(Error::Invalid("non-MBR partition kind in MBR write"))
    } else if p.length == 0 {
        Some(Error::Invalid("partition has zero length"))
    } else if p.start % 512 != 0 || p.length % 512 != 0 {
        Some(Error::Invalid("partition not sector-aligned"))
    } else if span(p) is Err {
        Some(span(p)->Err_0)
    } else if p.start / 512 > MBR_LBA_MAX || p.length / 512 > MBR_LBA_MAX {
        Some(Error::Invalid("partition exceeds MBR 32-bit LBA range"))
    } else if p.start / 512 < 1 {
        Some(Error::Invalid("MBR partition cannot start at LBA 0"))
    } else if p.start + p.length > total {
        Some(Error::Invalid("partition extends past device end"))
    } else {
        None
    }
}

fn validate_mbr_partition(p: &Partition, total_bytes: u64) -> (r: Result<()>)
    ensures
        match r {
            Ok(()) => mbr_fault(p@, total_bytes) is None,
            Err(e) => mbr_fault(p@, total_bytes) == Some(e),
        },
{
    match p.kind {
        PartitionKind::Mbr { .. } => {},
        _ => return Err(Error::Invalid("non-MBR partition kind in MBR write")),
    }
    if p.length == 0 {
        return Err(Error::Invalid("partition has zero length"));
    }
    if p.start % SECTOR_SIZE != 0 || p.length % SECTOR_SIZE != 0 {
        return Err(Error::Invalid("partition not sector-aligned"));
    }
    let start_lba: u64 = match p.sector_span() {
        Ok((start, _end)) => start,
        Err(e) => return Err(e),
    };
    if start_lba > MBR_LBA_MAX || p.length / SECTOR_SIZE > MBR_LBA_MAX {
        return Err(Error::Invalid("partition exceeds MBR 32-bit LBA range"));
    }
    // The first sector is the MBR itself.
    if start_lba < 1 {
        return Err(Error::Invalid("MBR partition cannot start at LBA 0"));
    }
    if p.start + p.length > total_bytes {
        return Err(Error::Invalid("partition extends past device end"));
    }
    Ok(())
}

/// The first thing wrong with the partitions from `k` on, in `order`: one
/// that cannot be in the table, or one that starts at or before `prev`, where
/// the one before it ends.
pub open spec fn mbr_walk(
    parts: Seq<PartitionView>,
    order: Seq<int>,
    k: int,
    prev: Option<u64>,
    total: u64,
) -> Option<Error>
    decreases parts.len() - k,
{
    if k >= parts.len() {
        None
    } else {
        let p = parts[order[k]];
        if mbr_fault(p, total) is Some {
            mbr_fault(p, total)
        } else if prev is Some && span(p)->Ok_0.0 <= prev->Some_0 {
            Some(Error::Invalid("partitions overlap"))
        } else {
            mbr_walk(parts, order, k + 1, Some(span(p)->Ok_0.1), total)
        }
    }
}

/// A partition and a reserved entry share a sector.
pub open spec fn over_reserved(p: PartitionView, entry: Seq<u8>) -> bool {
    match (span(p), reserved_span(entry)) {
        (Ok(a), Some(b)) => a.0 <= b.1 && b.0 <= a.1,
        _ => false,
    }
}

/// Some partition shares a sector with some reserved entry.
pub open spec fn reserved_clash(
    parts: Seq<PartitionView>,
    reserved: Seq<ReservedView>,
) -> bool {
    exists|k: int, r: int|
        0 <= k < parts.len() && 0 <= r < reserved.len() && over_reserved(
            #[trigger] parts[k],
            (#[trigger] reserved[r]).bytes,
        )
}

/// The slots that reserved entries occupy.
pub open spec fn reserved_slots(reserved: Seq<ReservedView>) -> Seq<u32> {
    reserved.map_values(|r: ReservedView| r.slot)
}

/// The slots that partitions go into in an MBR on a device of `total` bytes
/// that also holds `reserved`, or why the table cannot be written.
pub open spec fn mbr_plan(
    parts: Seq<PartitionView>,
    reserved: Seq<ReservedView>,
    total: u64,
) -> core::result::Result<Seq<u32>, Error> {
    let order = key_order(part_starts(parts), parts.len() as int);
    if parts.len() + reserved.len() > 4 {
        Err(Error::Invalid("MBR supports at most 4 primary partitions"))
    } else if total < 512 {
        Err(Error::DeviceTooSmall)
    } else {
        match mbr_walk(parts, order, 0, None, total) {
            Some(e) => Err(e),
            None => if reserved_clash(parts, reserved) {
                Err(Error::Invalid("partitions overlap"))
            } else {
                slots_for(claims(parts), 4, reserved_slots(reserved))
            },
        }
    }
}

/// Whether some partition shares a sector with some reserved entry.
fn any_over_reserved(partitions: &[Partition], reserved: &[ReservedEntry]) -> (r: bool)
    ensures
        r == reserved_clash(views(partitions@), reserved_views(reserved@)),
{
    let ghost parts = views(partitions@);
    let ghost res = reserved_views(reserved@);
    let mut k: usize = 0;
    while k < partitions.len()
        invariant
            k <= partitions.len(),
            parts == views(partitions@),
            res == reserved_views(reserved@),
            forall|j: int, q: int|
                0 <= j < k && 0 <= q < res.len() ==> !over_reserved(
                    #[trigger] parts[j],
                    (#[trigger] res[q]).bytes,
                ),
        decreases partitions.len() - k,
    {
        assert(parts[k as int] == partitions@[k as int]@);
        if let Ok((start, end)) = partitions[k].sector_span() {
            let mut q: usize = 0;
            while q < reserved.len()
                invariant
                    k < partitions.len(),
                    q <= reserved.len(),
                    parts == views(partitions@),
                    res == reserved_views(reserved@),
                    span(parts[k as int]) == Ok::<(u64, u64), Error>((start, end)),
                    forall|j: int|
                        0 <= j < q ==> !over_reserved(
                            parts[k as int],
                            (#[trigger] res[j]).bytes,
                        ),
                decreases reserved.len() - q,
            {
                assert(res[q as int] == reserved@[q as int]@);
                if let Some((first, last)) = reserved[q].span() {
                    if start <= last && first <= end {
                        assert(over_reserved(parts[k as int], res[q as int].bytes));
                        return true;
                    }
                }
                q = q + 1;
            }
        }
        k = k + 1;
    }
    false
}

/// The slots the partitions go into, or why the table cannot be written.
///
/// - At most four entries in all: partitions and reserved ones.
/// - Every partition carries an MBR type byte, is sector-aligned, not empty,
///   inside the 32-bit LBA range and inside the device.
/// - No two partitions overlap, and none overlaps a reserved entry.
pub fn check_mbr(partitions: &[Partition], reserved: &[ReservedEntry], total_bytes: u64) -> (r:
    Result<Vec<u32>>)
    ensures
        match r {
            Ok(slots) => mbr_plan(views(partitions@), reserved_views(reserved@), total_bytes)
                == Ok::<Seq<u32>, Error>(slots@),
            Err(e) => mbr_plan(views(partitions@), reserved_views(reserved@), total_bytes)
                == Err::<Seq<u32>, Error>(e),
        },
{
    let ghost parts = views(partitions@);
    if partitions.len() > 4 || reserved.len() > 4 || partitions.len() + reserved.len() > 4 {
        return Err(Error::Invalid("MBR supports at most 4 primary partitions"));
    }
    if total_bytes < SECTOR_SIZE {
        return Err(Error::DeviceTooSmall);
    }
    let order: Vec<usize> = start_order(partitions);
    let ghost ord = key_order(part_starts(parts), parts.len() as int);
    let mut prev: Option<u64> = None;
    let mut k: usize = 0;
    while k < order.len()
        invariant
            k <= order@.len() == partitions@.len(),
            partitions@.len() + reserved@.len() <= 4,
            total_bytes >= 512,
            parts == views(partitions@),
            ord == key_order(part_starts(parts), parts.len() as int),
            forall|k: int|
                #![trigger order@[k]]
                0 <= k < parts.len() ==> order@[k] < parts.len() && partitions@[order@[k] as int]@
                    == parts[ord[k]],
            mbr_walk(parts, ord, k as int, prev, total_bytes) == mbr_walk(
                parts,
                ord,
                0,
                None,
                total_bytes,
            ),
        decreases order@.len() - k,
    {
        let p: &Partition = &partitions[order[k]];
        assert(p@ == parts[ord[k as int]]);
        match validate_mbr_partition(p, total_bytes) {
            Ok(()) => {},
            Err(e) => return Err(e),
        }
        let (start_lba, end_lba) = match p.sector_span() {
            Ok(s) => s,
            Err(e) => return Err(e),
        };
        if let Some(end) = prev {
            if start_lba <= end {
                return Err(Error::Invalid("partitions overlap"));
            }
        }
        prev = Some(end_lba);
        k = k + 1;
    }
    if any_over_reserved(partitions, reserved) {
        return Err(Error::Invalid("partitions overlap"));
    }
    let mut taken: Vec<u32> = Vec::new();
    let mut q: usize = 0;
    while q < reserved.len()
        invariant
            q <= reserved.len(),
            taken@ =~= reserved_slots(reserved_views(reserved@)).take(q as int),
        decreases reserved.len() - q,
    {
        taken.push(reserved[q].slot);
        q = q + 1;
    }
    assert(taken@ =~= reserved_slots(reserved_views(reserved@)));
    assign_slots_with_taken(partitions, layout::ENTRY_COUNT as u32, taken.as_slice())
}

/// `entry` describes partition `p`. Its CHS fields are those of `base`, what
/// the slot held before, where that covers the same sectors; else zero.
pub open spec fn describes(entry: Seq<u8>, p: PartitionView, base: Seq<u8>) -> bool {
    let kept = le32(base, layout::START_LBA as int) == p.start / 512 && le32(
        base,
        layout::SECTOR_COUNT as int,
    ) == p.length / 512;
    &&& entry.len() == 16
    &&& p.kind is Mbr
    &&& entry[layout::STATUS as int] == (if p.kind->active {
        STATUS_ACTIVE
    } else {
        0
    })
    &&& entry[layout::TYPE_BYTE as int] == p.kind->type_byte
    &&& le32(entry, layout::START_LBA as int) == p.start / 512
    &&& le32(entry, layout::SECTOR_COUNT as int) == p.length / 512
    &&& forall|i: int|
        1 <= i < 8 && i != layout::TYPE_BYTE ==> #[trigger] entry[i] == (if kept {
            base[i]
        } else {
            0
        })
}

/// Slot `i` of a written table holds what it should: its partition, its
/// reserved entry, or nothing.
pub open spec fn slot_holds(
    entry: Seq<u8>,
    base: Seq<u8>,
    parts: Seq<PartitionView>,
    slots: Seq<u32>,
    reserved: Seq<ReservedView>,
    i: int,
) -> bool {
    &&& forall|k: int| 0 <= k < slots.len() && #[trigger] slots[k] == i ==> describes(entry, parts[k], base)
    &&& forall|r: int|
        0 <= r < reserved.len() && (#[trigger] reserved[r]).slot == i ==> entry == reserved[r].bytes
    &&& (forall|k: int| 0 <= k < slots.len() ==> #[trigger] slots[k] != i) && (forall|r: int|
        0 <= r < reserved.len() ==> (#[trigger] reserved[r]).slot != i) ==> entry == zeros(16)
}

/// `sector` is `base` with its four entries rebuilt and the boot signature
/// set; the boot code and the disk identifier stay.
pub open spec fn table_written(
    sector: Seq<u8>,
    base: Seq<u8>,
    parts: Seq<PartitionView>,
    slots: Seq<u32>,
    reserved: Seq<ReservedView>,
) -> bool {
    &&& sector.len() == 512
    &&& sector.take(layout::TABLE_START as int) == base.take(layout::TABLE_START as int)
    &&& signed(sector)
    &&& forall|i: int|
        0 <= i < 4 ==> slot_holds(
            #[trigger] entry_in(sector, i),
            entry_in(base, i),
            parts,
            slots,
            reserved,
            i,
        )
}

/// The entry that describes `p`, keeping the CHS fields of `base` where it
/// covers the same sectors.
fn build_entry(p: &Partition, base: &[u8; 16]) -> (entry: [u8; 16])
    requires
        p.kind is Mbr,
        p.start / 512 <= MBR_LBA_MAX,
        p.length / 512 <= MBR_LBA_MAX,
    ensures
        describes(entry@, p@, base@),
{
    let start_lba: u32 = (p.start / SECTOR_SIZE) as u32;
    let sectors: u32 = (p.length / SECTOR_SIZE) as u32;
    let mut entry: [u8; 16] = [0u8; 16];
    if get_u32(base, layout::START_LBA) == start_lba && get_u32(base, layout::SECTOR_COUNT)
        == sectors {
        entry = *base;
    }
    if let PartitionKind::Mbr { type_byte, active } = p.kind {
        entry[layout::STATUS] = if active { STATUS_ACTIVE } else { 0x00 };
        entry[layout::TYPE_BYTE] = type_byte;
    }
    put_u32(&mut entry, layout::START_LBA, start_lba);
    put_u32(&mut entry, layout::SECTOR_COUNT, sectors);
    entry
}

/// What slot `i` of a table holds.
#[verifier::loop_isolation(false)]
fn entry_for_slot(
    base: &[u8; 16],
    partitions: &[Partition],
    slots: &Vec<u32>,
    reserved: &[ReservedEntry],
    i: u32,
) -> (entry: [u8; 16])
    requires
        slots@.len() == partitions@.len(),
        forall|k: int|
            0 <= k < partitions@.len() ==> {
                &&& (#[trigger] partitions@[k]).kind is Mbr
                &&& partitions@[k].start / 512 <= MBR_LBA_MAX
                &&& partitions@[k].length / 512 <= MBR_LBA_MAX
            },
        forall|j: int, k: int|
            0 <= j < k < slots@.len() ==> #[trigger] slots@[j] != #[trigger] slots@[k],
        forall|k: int, r: int|
            0 <= k < slots@.len() && 0 <= r < reserved@.len() ==> #[trigger] slots@[k] != (
            #[trigger] reserved@[r]).slot,
        forall|q: int, r: int|
            0 <= q < r < reserved@.len() ==> (#[trigger] reserved@[q]).slot != (
            #[trigger] reserved@[r]).slot,
    ensures
        slot_holds(
            entry@,
            base@,
            views(partitions@),
            slots@,
            reserved_views(reserved@),
            i as int,
        ),
{
    let ghost res = reserved_views(reserved@);
    assert forall|r: int| 0 <= r < res.len() implies (#[trigger] res[r]) == reserved@[r]@ by {}
    let mut k: usize = 0;
    while k < slots.len()
        invariant
            k <= slots@.len() == partitions@.len(),
            forall|j: int| 0 <= j < k ==> #[trigger] slots@[j] != i,
        decreases slots@.len() - k,
    {
        if slots[k] == i {
            let entry: [u8; 16] = build_entry(&partitions[k], base);
            assert(views(partitions@)[k as int] == partitions@[k as int]@);
            assert forall|r: int| 0 <= r < res.len() implies (#[trigger] res[r]).slot != i by {
                assert(slots@[k as int] != reserved@[r].slot);
            }
            assert forall|j: int| 0 <= j < slots@.len() && #[trigger] slots@[j] == i implies j
                == k by {
                if j < k {
                    assert(slots@[j] != slots@[k as int]);
                } else if j > k {
                    assert(slots@[k as int] != slots@[j]);
                }
            }
            return entry;
        }
        k = k + 1;
    }
    let mut q: usize = 0;
    while q < reserved.len()
        invariant
            q <= reserved.len(),
            forall|r: int| 0 <= r < q ==> (#[trigger] reserved@[r]).slot != i,
        decreases reserved.len() - q,
    {
        if reserved[q].slot == i {
            assert(res[q as int] == reserved@[q as int]@);
            assert forall|r: int| 0 <= r < res.len() && (#[trigger] res[r]).slot == i implies r
                == q by {
                assert(res[r] == reserved@[r]@);
                if r < q {
                    assert(reserved@[r].slot != reserved@[q as int].slot);
                } else if r > q {
                    assert(reserved@[q as int].slot != reserved@[r].slot);
                }
            }
            return reserved[q].bytes;
        }
        q = q + 1;
    }
    let entry: [u8; 16] = [0u8; 16];
    assert(entry@ =~= zeros(16));
    assert forall|r: int| 0 <= r < res.len() implies (#[trigger] res[r]).slot != i by {
        assert(reserved@[r].slot != i);
    }
    entry
}

/// `base` with its four entries rebuilt: each partition in its slot, each
/// reserved entry put back. The boot code and the disk identifier stay.
pub fn fill_mbr(
    base: &Sector,
    partitions: &[Partition],
    slots: &Vec<u32>,
    reserved: &[ReservedEntry],
    total_bytes: u64,
) -> (sector: Sector)
    requires
        mbr_plan(views(partitions@), reserved_views(reserved@), total_bytes) == Ok::<
            Seq<u32>,
            Error,
        >(slots@),
    ensures
        table_written(
            sector@,
            base@,
            views(partitions@),
            slots@,
            reserved_views(reserved@),
        ),
{
    let ghost parts = views(partitions@);
    let ghost res = reserved_views(reserved@);
    proof {
        lemma_plan_is_writable(parts, res, total_bytes);
        assert forall|k: int| 0 <= k < partitions@.len() implies {
            &&& (#[trigger] partitions@[k]).kind is Mbr
            &&& partitions@[k].start / 512 <= MBR_LBA_MAX
            &&& partitions@[k].length / 512 <= MBR_LBA_MAX
        } by {
            assert(parts[k] == partitions@[k]@);
            assert(mbr_fault(parts[k], total_bytes) is None);
        }
        let pre = reserved_slots(res);
        assert forall|k: int, r: int| 0 <= k < slots@.len() && 0 <= r < reserved@.len() implies
            #[trigger] slots@[k] != (#[trigger] reserved@[r]).slot by {
            assert(pre[r] == reserved@[r].slot);
        }
        assert forall|q: int, r: int| 0 <= q < r < reserved@.len() implies (
        #[trigger] reserved@[q]).slot != (#[trigger] reserved@[r]).slot by {
            assert(pre[q] == reserved@[q].slot && pre[r] == reserved@[r].slot);
        }
    }
    let mut sector: Sector = *base;
    let mut i: usize = 0;
    while i < layout::ENTRY_COUNT
        invariant
            i <= 4,
            parts == views(partitions@),
            res == reserved_views(reserved@),
            sector@.take(446) == base@.take(446),
            slots@.len() == partitions@.len(),
            forall|k: int|
                0 <= k < partitions@.len() ==> {
                    &&& (#[trigger] partitions@[k]).kind is Mbr
                    &&& partitions@[k].start / 512 <= MBR_LBA_MAX
                    &&& partitions@[k].length / 512 <= MBR_LBA_MAX
                },
            forall|j: int, k: int|
                0 <= j < k < slots@.len() ==> #[trigger] slots@[j] != #[trigger] slots@[k],
            forall|k: int, r: int|
                0 <= k < slots@.len() && 0 <= r < reserved@.len() ==> #[trigger] slots@[k] != (
                #[trigger] reserved@[r]).slot,
            forall|q: int, r: int|
                0 <= q < r < reserved@.len() ==> (#[trigger] reserved@[q]).slot != (
                #[trigger] reserved@[r]).slot,
            forall|j: int|
                0 <= j < i ==> slot_holds(
                    #[trigger] entry_in(sector@, j),
                    entry_in(base@, j),
                    parts,
                    slots@,
                    res,
                    j,
                ),
        decreases 4 - i,
    {
        let off: usize = layout::entry_at(i);
        let was: [u8; 16] = get_guid(base, off);
        let entry: [u8; 16] = entry_for_slot(&was, partitions, slots, reserved, i as u32);
        let ghost before = sector@;
        put_bytes(&mut sector, off, &entry);
        proof {
            assert(was@ =~= entry_in(base@, i as int));
            assert(entry_in(sector@, i as int) =~= entry@);
            assert(sector@.take(446) =~= before.take(446));
            assert forall|j: int| 0 <= j < i implies #[trigger] entry_in(sector@, j) == entry_in(
                before,
                j,
            ) by {
                assert(entry_in(sector@, j) =~= entry_in(before, j));
            }
        }
        i = i + 1;
    }
    let ghost before = sector@;
    sector[510] = 0x55;
    sector[511] = 0xAA;
    proof {
        assert(sector@.take(446) =~= before.take(446));
        assert forall|j: int| 0 <= j < 4 implies #[trigger] entry_in(sector@, j) == entry_in(
            before,
            j,
        ) by {
            assert(entry_in(sector@, j) =~= entry_in(before, j));
        }
    }
    sector
}

/// A walk that finds nothing wrong has found nothing wrong with any of the
/// partitions it visited.
proof fn lemma_walk_visits(
    parts: Seq<PartitionView>,
    order: Seq<int>,
    k: int,
    prev: Option<u64>,
    total: u64,
    at: int,
)
    requires
        0 <= k <= at < parts.len(),
        mbr_walk(parts, order, k, prev, total) is None,
    ensures
        mbr_fault(parts[order[at]], total) is None,
    decreases parts.len() - k,
{
    if k < at {
        lemma_walk_visits(parts, order, k + 1, Some(span(parts[order[k]])->Ok_0.1), total, at);
    }
}

/// What a plan says of the table: every partition can be in it, and the
/// slots are sound.
pub proof fn lemma_plan_is_writable(
    parts: Seq<PartitionView>,
    reserved: Seq<ReservedView>,
    total: u64,
)
    requires
        mbr_plan(parts, reserved, total) is Ok,
    ensures
        forall|k: int|
            0 <= k < parts.len() ==> mbr_fault(#[trigger] parts[k], total) is None,
        sound_slots(
            mbr_plan(parts, reserved, total)->Ok_0,
            claims(parts),
            4,
            reserved_slots(reserved),
        ),
        forall|q: int, r: int|
            0 <= q < r < reserved.len() ==> (#[trigger] reserved_slots(reserved)[q])
                != #[trigger] reserved_slots(reserved)[r],
{
    let order = key_order(part_starts(parts), parts.len() as int);
    crate::order::lemma_key_order_sorts(part_starts(parts), parts.len() as int);
    assert forall|k: int| 0 <= k < parts.len() implies mbr_fault(
        #[trigger] parts[k],
        total,
    ) is None by {
        assert(order.contains(k));
        let at = choose|at: int| 0 <= at < order.len() && order[at] == k;
        lemma_walk_visits(parts, order, 0, None, total, at);
    }
    lemma_slots_are_sound(claims(parts), 4, reserved_slots(reserved));
    crate::gpt_write::slots::lemma_reserved_seated(
        reserved_slots(reserved),
        4,
        reserved.len() as int,
    );
}

/// What writing an MBR does: nothing where it is refused; else the first
/// sector is rewritten, or the device failed. Every other byte stays either
/// way.
pub open spec fn mbr_commit<D: BlockDevice + ?Sized>(
    before: &D,
    after: &D,
    base: Seq<u8>,
    parts: Seq<PartitionView>,
    reserved: Seq<ReservedView>,
    r: Result<()>,
) -> bool {
    &&& same_device(before, after)
    &&& if !before.writable() {
        &&& r == Err::<(), Error>(Error::Block(BlockError::ReadOnly))
        &&& after.content() == before.content()
    } else {
        match mbr_plan(parts, reserved, before.stated_size()) {
            Err(e) => r == Err::<(), Error>(e) && after.content() == before.content(),
            Ok(slots) => {
                &&& r is Ok ==> {
                    &&& before.content().len() >= 512
                    &&& table_written(window(after.content(), 0, 512), base, parts, slots, reserved)
                }
                &&& forall|i: int|
                    512 <= i < before.content().len() ==> #[trigger] after.content()[i]
                        == before.content()[i]
                &&& r matches Err(e) ==> e is Block && answered_within(before, e->Block_0, 512)
                &&& before.dependable() && before.content().len() >= 512 ==> r is Ok
            },
        }
    }
}

/// Write a fresh MBR sector with up to four primary entries. The boot code
/// region (offset 0..446) is zeroed.
pub fn write_mbr<D: BlockDevice + ?Sized>(dev: &mut D, partitions: &[Partition]) -> (r: Result<()>)
    ensures
        mbr_commit(old(dev), final(dev), zeros(512), views(partitions@), Seq::empty(), r),
        no_flush_failed(old(dev), final(dev)),
{
    if !dev.is_writable() {
        return Err(Error::Block(BlockError::ReadOnly));
    }
    let total: u64 = dev.size_bytes();
    let none: Vec<ReservedEntry> = Vec::new();
    assert(reserved_views(none@) =~= Seq::<ReservedView>::empty());
    let slots: Vec<u32> = match check_mbr(partitions, none.as_slice(), total) {
        Ok(s) => s,
        Err(e) => return Err(e),
    };
    let base: Sector = [0u8; SECTOR_SIZE_USIZE];
    assert(base@ =~= zeros(512));
    let sector: Sector = fill_mbr(&base, partitions, &slots, none.as_slice(), total);
    match dev.write_at(0, &sector) {
        Ok(()) => {
            assert(window(dev.content(), 0, 512) =~= sector@);
            Ok(())
        },
        Err(e) => Err(Error::Block(e)),
    }
}

/// As [`write_mbr`], keeping what the table does not describe: the sector
/// starts as the one on the device, so the boot code and the disk
/// identifier stay; each of `reserved` is put back into its slot; and an
/// entry whose sectors did not change keeps its CHS fields.
pub fn write_mbr_preserving<D: BlockDevice + ?Sized>(
    dev: &mut D,
    partitions: &[Partition],
    reserved: &[ReservedEntry],
) -> (r: Result<()>)
    ensures
        mbr_commit(
            old(dev),
            final(dev),
            window(old(dev).content(), 0, 512),
            views(partitions@),
            reserved_views(reserved@),
            r,
        ),
        no_flush_failed(old(dev), final(dev)),
{
    if !dev.is_writable() {
        return Err(Error::Block(BlockError::ReadOnly));
    }
    let total: u64 = dev.size_bytes();
    let slots: Vec<u32> = match check_mbr(partitions, reserved, total) {
        Ok(s) => s,
        Err(e) => return Err(e),
    };
    let mut base: Sector = [0u8; SECTOR_SIZE_USIZE];
    match dev.read_at(0, &mut base) {
        Ok(()) => {},
        Err(e) => return Err(Error::Block(e)),
    }
    assert(base@ =~= window(dev.content(), 0, 512));
    let sector: Sector = fill_mbr(&base, partitions, &slots, reserved, total);
    match dev.write_at(0, &sector) {
        Ok(()) => {
            assert(window(dev.content(), 0, 512) =~= sector@);
            Ok(())
        },
        Err(e) => Err(Error::Block(e)),
    }
}

} // verus!
