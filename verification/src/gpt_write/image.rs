//! The bytes of a GPT: its entry array, its headers, and the MBR in front
//! of it.

use vstd::prelude::*;

use crate::codec::{has_at, le32, le64, put_bytes, put_u32, put_u64, splice, zeros};
use crate::crc::{crc32, crc32_of};
use crate::error::Error;
use crate::gpt::{
    crc_covered, entry_bytes, header_offsets, EntryTails, ENTRY_STANDARD_BYTES, SIGNATURE,
};
use crate::gpt_layout::HEADER_SIZE;
use crate::gpt_write::geometry::GptGeometry;
use crate::gpt_write::plan::{gpt_fault, gpt_plan, lemma_gpt_plan_is_writable};
use crate::label::{encode_label, label_field};
use crate::mbr::{
    chs, chs_for_lba, entry_in, entry_role, layout, reserved_span, reserved_views, role_of, signed,
    types, EntryRole, ReservedEntry, ReservedView,
};
use crate::probe::{span, views, Partition, PartitionKind, PartitionView};
use crate::{Sector, MBR_LBA_MAX, SECTOR_SIZE_USIZE};

verus! {

/// `room` bytes that hold `tail`, cut or padded with zeros.
pub open spec fn padded(tail: Seq<u8>, room: nat) -> Seq<u8> {
    Seq::new(
        room,
        |i: int|
            if i < tail.len() {
                tail[i]
            } else {
                0
            },
    )
}

/// The name field of a partition, all zeros for one without a label.
pub open spec fn name_field(label: Option<Seq<char>>) -> Seq<u8> {
    match label {
        Some(chars) => label_field(chars),
        None => zeros(72),
    }
}

/// The tail kept for the partition `uuid`; nothing if there is none.
pub open spec fn tail_of(tails: Map<Seq<u8>, Seq<u8>>, uuid: Seq<u8>) -> Seq<u8> {
    if tails.contains_key(uuid) {
        tails[uuid]
    } else {
        Seq::empty()
    }
}

/// `entry` describes partition `p`, and ends in its tail.
pub open spec fn entry_holds(
    entry: Seq<u8>,
    p: PartitionView,
    tails: Map<Seq<u8>, Seq<u8>>,
    size: int,
) -> bool {
    &&& entry.len() == size
    &&& p.kind is Gpt && p.uuid is Some && span(p) is Ok
    &&& entry.take(16) == p.kind->type_guid
    &&& entry.subrange(16, 32) == p.uuid->Some_0
    &&& le64(entry, 32) == span(p)->Ok_0.0
    &&& le64(entry, 40) == span(p)->Ok_0.1
    &&& le64(entry, 48) == p.kind->attributes
    &&& entry.subrange(56, 128) == name_field(p.label)
    &&& entry.subrange(ENTRY_STANDARD_BYTES as int, size) == padded(
        tail_of(tails, p.uuid->Some_0),
        (size - ENTRY_STANDARD_BYTES) as nat,
    )
}

/// Slot `s` of an entry array holds its partition, or nothing.
pub open spec fn slot_entry(
    entry: Seq<u8>,
    parts: Seq<PartitionView>,
    slots: Seq<u32>,
    tails: Map<Seq<u8>, Seq<u8>>,
    size: int,
    s: int,
) -> bool {
    &&& forall|k: int|
        0 <= k < slots.len() && #[trigger] slots[k] == s ==> entry_holds(
            entry,
            parts[k],
            tails,
            size,
        )
    &&& (forall|k: int| 0 <= k < slots.len() ==> #[trigger] slots[k] != s) ==> entry == zeros(
        size as nat,
    )
}

/// An entry array of `num` slots of `size` bytes holds each partition in its
/// slot, and nothing else.
pub open spec fn array_holds(
    array: Seq<u8>,
    parts: Seq<PartitionView>,
    slots: Seq<u32>,
    tails: Map<Seq<u8>, Seq<u8>>,
    num: int,
    size: int,
) -> bool {
    &&& array.len() == num * size
    &&& forall|s: int|
        0 <= s < num ==> slot_entry(
            #[trigger] entry_bytes(array, size, s),
            parts,
            slots,
            tails,
            size,
            s,
        )
}

/// Overwriting one slot leaves the others alone.
proof fn lemma_overwrite_slot(
    array: Seq<u8>,
    entry: Seq<u8>,
    num: int,
    size: int,
    s: int,
    t: int,
)
    requires
        array.len() == num * size,
        entry.len() == size,
        0 < size,
        0 <= s < num,
        0 <= t < num,
    ensures
        0 <= s * size,
        s * size + size <= array.len(),
        entry_bytes(splice(array, s * size, entry), size, t) == (if s == t {
            entry
        } else {
            entry_bytes(array, size, t)
        }),
{
    crate::gpt::lemma_slot_inside(s, num, size);
    crate::gpt::lemma_slot_inside(t, num, size);
    if s < t {
        assert(s * size + size <= t * size) by (nonlinear_arith)
            requires
                s + 1 <= t,
                0 < size,
        ;
    } else if t < s {
        assert(t * size + size <= s * size) by (nonlinear_arith)
            requires
                t + 1 <= s,
                0 < size,
        ;
    }
    let after = splice(array, s * size, entry);
    if s == t {
        assert(entry_bytes(after, size, t) =~= entry);
    } else {
        assert(entry_bytes(after, size, t) =~= entry_bytes(array, size, t));
    }
}

/// The slots of an array of zeros are zeros.
proof fn lemma_zero_slots(num: int, size: int, s: int)
    requires
        0 < size,
        0 <= s < num,
    ensures
        entry_bytes(zeros((num * size) as nat), size, s) == zeros(size as nat),
{
    crate::gpt::lemma_slot_inside(s, num, size);
    assert(entry_bytes(zeros((num * size) as nat), size, s) =~= zeros(size as nat));
}

/// The entry that describes `p`, `size` bytes long.
fn build_entry(p: &Partition, tails: &EntryTails, size: usize) -> (entry: Vec<u8>)
    requires
        size >= 128,
        p.kind is Gpt,
        p.uuid is Some,
        span(p@) is Ok,
    ensures
        entry_holds(entry@, p@, tails@, size as int),
{
    let mut entry: Vec<u8> = vec![0u8; size];
    let uuid: [u8; 16] = match p.uuid {
        Some(u) => u,
        None => [0u8; 16],
    };
    if let Some(tail) = tails.get(&uuid) {
        let room: usize = size - ENTRY_STANDARD_BYTES;
        let take: usize = if tail.len() < room { tail.len() } else { room };
        let part: Vec<u8> = crate::codec::copy_range(tail.as_slice(), 0, take);
        put_bytes(entry.as_mut_slice(), ENTRY_STANDARD_BYTES, part.as_slice());
    }
    assert(entry@.subrange(ENTRY_STANDARD_BYTES as int, size as int) =~= padded(
        tail_of(tails@, uuid@),
        (size - ENTRY_STANDARD_BYTES) as nat,
    ));
    let ghost tailed = entry@;
    if let PartitionKind::Gpt { type_guid, attributes } = p.kind {
        put_bytes(entry.as_mut_slice(), 0, &type_guid);
        put_u64(entry.as_mut_slice(), 48, attributes);
        assert(entry@.take(16) =~= type_guid@);
    }
    put_bytes(entry.as_mut_slice(), 16, &uuid);
    if let Ok((start_lba, end_lba)) = p.sector_span() {
        put_u64(entry.as_mut_slice(), 32, start_lba);
        put_u64(entry.as_mut_slice(), 40, end_lba);
    }
    let ghost before = entry@;
    if let Some(label) = &p.label {
        let field: Vec<u8> = encode_label(label.as_str());
        put_bytes(entry.as_mut_slice(), 56, field.as_slice());
        assert(entry@.subrange(56, 128) =~= field@);
    } else {
        assert(entry@.subrange(56, 128) =~= zeros(72));
    }
    proof {
        assert(entry@.take(16) =~= before.take(16));
        assert(before.take(16) =~= p@.kind->type_guid);
        assert(entry@.subrange(16, 32) =~= uuid@);
        assert(entry@.subrange(ENTRY_STANDARD_BYTES as int, size as int) =~= tailed.subrange(
            ENTRY_STANDARD_BYTES as int,
            size as int,
        ));
    }
    entry
}

/// The entry array that holds each partition in its slot.
#[verifier::rlimit(30)]
pub(crate) fn build_array(
    partitions: &[Partition],
    slots: &Vec<u32>,
    geometry: &GptGeometry,
    tails: &EntryTails,
    total_sectors: Ghost<int>,
) -> (array: Vec<u8>)
    requires
        geometry.bytes_spec() <= usize::MAX,
        gpt_plan(views(partitions@), *geometry, total_sectors@) is Ok,
        gpt_plan(views(partitions@), *geometry, total_sectors@)->Ok_0.slots == slots@,
    ensures
        array_holds(
            array@,
            views(partitions@),
            slots@,
            tails@,
            geometry.num_entries as int,
            geometry.entry_size as int,
        ),
{
    let ghost parts = views(partitions@);
    let ghost num = geometry.num_entries as int;
    let size: usize = geometry.entry_size as usize;
    let ghost plan = gpt_plan(parts, *geometry, total_sectors@)->Ok_0;
    proof {
        lemma_gpt_plan_is_writable(parts, *geometry, total_sectors@);
    }
    let len: usize = geometry.array_bytes() as usize;
    let mut array: Vec<u8> = vec![0u8; len];
    proof {
        assert(array@ =~= zeros((num * size) as nat));
        assert forall|s: int| 0 <= s < num implies #[trigger] entry_bytes(array@, size as int, s)
            == zeros(size as nat) by {
            lemma_zero_slots(num, size as int, s);
        }
        assert(slots@.take(0) =~= Seq::<u32>::empty());
    }
    let mut k: usize = 0;
    while k < partitions.len()
        invariant
            k <= partitions.len() == slots@.len(),
            parts == views(partitions@),
            num == geometry.num_entries,
            size == geometry.entry_size,
            size >= 128,
            array@.len() == num * size,
            num * size <= usize::MAX,
            forall|j: int|
                0 <= j < parts.len() ==> gpt_fault(
                    #[trigger] parts[j],
                    plan.first_usable,
                    plan.last_usable,
                ) is None && parts[j].uuid is Some,
            forall|j: int| 0 <= j < slots@.len() ==> #[trigger] slots@[j] < num,
            forall|i: int, j: int|
                0 <= i < j < slots@.len() ==> #[trigger] slots@[i] != #[trigger] slots@[j],
            forall|s: int|
                0 <= s < num ==> slot_entry(
                    #[trigger] entry_bytes(array@, size as int, s),
                    parts,
                    slots@.take(k as int),
                    tails@,
                    size as int,
                    s,
                ),
        decreases partitions.len() - k,
    {
        assert(parts[k as int] == partitions@[k as int]@);
        let entry: Vec<u8> = build_entry(&partitions[k], tails, size);
        let ghost before = array@;
        let ghost slot = slots@[k as int] as int;
        proof {
            lemma_overwrite_slot(before, entry@, num, size as int, slot, slot);
        }
        let at: usize = slots[k] as usize * size;
        put_bytes(array.as_mut_slice(), at, entry.as_slice());
        proof {
            let done = slots@.take(k as int);
            let now = slots@.take(k + 1);
            assert forall|s: int| 0 <= s < num implies slot_entry(
                #[trigger] entry_bytes(array@, size as int, s),
                parts,
                now,
                tails@,
                size as int,
                s,
            ) by {
                lemma_overwrite_slot(before, entry@, num, size as int, slot, s);
                let held = entry_bytes(array@, size as int, s);
                if s == slot {
                    assert forall|j: int| 0 <= j < now.len() && #[trigger] now[j] == s implies
                        entry_holds(held, parts[j], tails@, size as int) by {
                        if j < k {
                            assert(slots@[j] != slots@[k as int]);
                        }
                    }
                    assert(now[k as int] == s);
                } else {
                    let was = entry_bytes(before, size as int, s);
                    assert(slot_entry(was, parts, done, tails@, size as int, s));
                    assert forall|j: int| 0 <= j < now.len() && #[trigger] now[j] == s implies
                        entry_holds(held, parts[j], tails@, size as int) by {
                        assert(j < k);
                        assert(done[j] == s);
                    }
                    if forall|j: int| 0 <= j < now.len() ==> #[trigger] now[j] != s {
                        assert forall|j: int| 0 <= j < done.len() implies #[trigger] done[j]
                            != s by {
                            assert(now[j] != s);
                        }
                    }
                }
            }
        }
        k = k + 1;
    }
    assert(slots@.take(k as int) =~= slots@);
    array
}

/// What a header says of the table.
pub struct HeaderPlan {
    pub my_lba: u64,
    pub alternate_lba: u64,
    pub entry_lba: u64,
    pub first_usable: u64,
    pub last_usable: u64,
    pub disk_guid: Seq<u8>,
    pub array_crc: u32,
    pub num_entries: u32,
    pub entry_size: u32,
}

/// The sector is a header that says this, with a CRC that checks out and
/// zeros where nothing belongs.
pub open spec fn header_written(sector: Seq<u8>, h: HeaderPlan) -> bool {
    &&& sector.len() == 512
    &&& has_at(sector, 0, SIGNATURE@)
    &&& le32(sector, 8) == 0x0001_0000
    &&& le32(sector, 12) == HEADER_SIZE
    &&& le32(sector, 16) == crc32(crc_covered(sector, HEADER_SIZE as int))
    &&& le32(sector, 20) == 0
    &&& le64(sector, header_offsets::MY_LBA as int) == h.my_lba
    &&& le64(sector, header_offsets::ALTERNATE_LBA as int) == h.alternate_lba
    &&& le64(sector, header_offsets::FIRST_USABLE_LBA as int) == h.first_usable
    &&& le64(sector, header_offsets::LAST_USABLE_LBA as int) == h.last_usable
    &&& sector.subrange(56, 72) == h.disk_guid
    &&& le64(sector, header_offsets::PARTITION_ENTRY_LBA as int) == h.entry_lba
    &&& le32(sector, header_offsets::NUM_PARTITION_ENTRIES as int) == h.num_entries
    &&& le32(sector, header_offsets::PARTITION_ENTRY_SIZE as int) == h.entry_size
    &&& le32(sector, header_offsets::PARTITION_ENTRY_ARRAY_CRC32 as int) == h.array_crc
    &&& sector.subrange(92, 512) == zeros(420)
}

/// A header sector.
pub fn build_header(
    my_lba: u64,
    alternate_lba: u64,
    entry_lba: u64,
    usable: (u64, u64),
    disk_guid: [u8; 16],
    entry_array_crc: u32,
    geometry: &GptGeometry,
) -> (h: Sector)
    ensures
        header_written(
            h@,
            (HeaderPlan {
                my_lba,
                alternate_lba,
                entry_lba,
                first_usable: usable.0,
                last_usable: usable.1,
                disk_guid: disk_guid@,
                array_crc: entry_array_crc,
                num_entries: geometry.num_entries,
                entry_size: geometry.entry_size,
            }),
        ),
{
    let mut h: Sector = [0u8; SECTOR_SIZE_USIZE];
    put_bytes(&mut h, header_offsets::SIGNATURE, &SIGNATURE);
    assert(h@.take(8) =~= SIGNATURE@);
    put_u32(&mut h, header_offsets::REVISION, 0x0001_0000);
    put_u32(&mut h, header_offsets::HEADER_SIZE, HEADER_SIZE);
    put_u64(&mut h, header_offsets::MY_LBA, my_lba);
    put_u64(&mut h, header_offsets::ALTERNATE_LBA, alternate_lba);
    put_u64(&mut h, header_offsets::FIRST_USABLE_LBA, usable.0);
    put_u64(&mut h, header_offsets::LAST_USABLE_LBA, usable.1);
    put_bytes(&mut h, header_offsets::DISK_GUID, &disk_guid);
    put_u64(&mut h, header_offsets::PARTITION_ENTRY_LBA, entry_lba);
    put_u32(&mut h, header_offsets::NUM_PARTITION_ENTRIES, geometry.num_entries);
    put_u32(&mut h, header_offsets::PARTITION_ENTRY_SIZE, geometry.entry_size);
    put_u32(&mut h, header_offsets::PARTITION_ENTRY_ARRAY_CRC32, entry_array_crc);
    let ghost before = h@;
    let header_crc: u32 = crc32_of(&h[0..92]);
    put_u32(&mut h, header_offsets::HEADER_CRC32, header_crc);
    proof {
        assert(crc_covered(h@, 92) =~= before.subrange(0, 92));
        assert(h@.subrange(0, 8) =~= SIGNATURE@);
        assert(h@.subrange(56, 72) =~= disk_guid@);
        assert(h@.subrange(92, 512) =~= zeros(420));
    }
    h
}

/// The little-endian bytes of a 32-bit number.
pub open spec fn u32_bytes(n: int) -> Seq<u8> {
    seq![
        (n % 0x100) as u8,
        (n / 0x100 % 0x100) as u8,
        (n / 0x1_0000 % 0x100) as u8,
        (n / 0x100_0000 % 0x100) as u8,
    ]
}

/// The MBR entry that marks a whole disk of `total_sectors` as a GPT's: from
/// LBA 1 to its last block, or as far as the 32-bit field reaches.
pub open spec fn marker_entry(total_sectors: int) -> Seq<u8> {
    seq![0u8, 0u8, 2u8, 0u8, types::GPT_PROTECTIVE] + chs(total_sectors - 1) + u32_bytes(1)
        + u32_bytes(
        if total_sectors - 1 < MBR_LBA_MAX {
            total_sectors - 1
        } else {
            MBR_LBA_MAX as int
        },
    )
}

/// The MBR entry that marks the whole disk as a GPT's.
fn build_marker(total_sectors: u64) -> (entry: [u8; 16])
    requires
        total_sectors >= 1,
    ensures
        entry@ == marker_entry(total_sectors as int),
{
    let last: u64 = total_sectors - 1;
    let ending: [u8; 3] = chs_for_lba(last);
    let sectors: u64 = if last < MBR_LBA_MAX { last } else { MBR_LBA_MAX };
    let entry: [u8; 16] = [
        0,
        0,
        2,
        0,
        types::GPT_PROTECTIVE,
        ending[0],
        ending[1],
        ending[2],
        1,
        0,
        0,
        0,
        (sectors % 0x100) as u8,
        (sectors / 0x100 % 0x100) as u8,
        (sectors / 0x1_0000 % 0x100) as u8,
        (sectors / 0x100_0000 % 0x100) as u8,
    ];
    assert(entry@ =~= marker_entry(total_sectors as int));
    entry
}

/// Some recorded entry is the GPT marker.
pub open spec fn records_marker(recorded: Seq<ReservedView>) -> bool {
    exists|r: int|
        0 <= r < recorded.len() && role_of((#[trigger] recorded[r]).bytes) == EntryRole::GptMarker
}

/// Some recorded entry is not the GPT marker: the MBR in front of the GPT is
/// a hybrid one.
pub open spec fn records_hybrid(recorded: Seq<ReservedView>) -> bool {
    exists|r: int|
        0 <= r < recorded.len() && role_of((#[trigger] recorded[r]).bytes) != EntryRole::GptMarker
}

/// The entry mirrors one of the partitions: it covers the same sectors.
pub open spec fn mirrors(entry: Seq<u8>, parts: Seq<PartitionView>) -> bool {
    exists|k: int|
        0 <= k < parts.len() && reserved_span(entry) is Some && span(#[trigger] parts[k]) == Ok::<
            (u64, u64),
            Error,
        >(reserved_span(entry)->Some_0)
}

/// What a recorded entry of the MBR becomes when the GPT behind it is
/// written: the marker of a hybrid MBR stays as it is and that of a bare one
/// is drawn anew; a mirror stays as long as its partition is written.
pub open spec fn carried(
    entry: Seq<u8>,
    hybrid: bool,
    parts: Seq<PartitionView>,
    total_sectors: int,
) -> Seq<u8> {
    if role_of(entry) == EntryRole::GptMarker {
        if hybrid {
            entry
        } else {
            marker_entry(total_sectors)
        }
    } else if mirrors(entry, parts) {
        entry
    } else {
        zeros(16)
    }
}

/// The entry recorded for slot `i` among those from `r` on.
pub open spec fn recorded_for(recorded: Seq<ReservedView>, i: int, r: int) -> Option<Seq<u8>>
    decreases recorded.len() - r,
{
    if r >= recorded.len() {
        None
    } else if recorded[r].slot == i {
        Some(recorded[r].bytes)
    } else {
        recorded_for(recorded, i, r + 1)
    }
}

/// What slot `i` of the MBR in front of a GPT holds.
pub open spec fn front_entry(
    recorded: Seq<ReservedView>,
    parts: Seq<PartitionView>,
    total_sectors: int,
    i: int,
) -> Seq<u8> {
    if !records_marker(recorded) {
        if i == 0 {
            marker_entry(total_sectors)
        } else {
            zeros(16)
        }
    } else {
        match recorded_for(recorded, i, 0) {
            Some(entry) => carried(entry, records_hybrid(recorded), parts, total_sectors),
            None => zeros(16),
        }
    }
}

/// The sector is the MBR in front of a GPT: a bare protective one for a
/// table being made; where the entries of the MBR in front of it were
/// recorded, that one's boot code and what is kept of its entries.
pub open spec fn front_written(
    sector: Seq<u8>,
    base: Seq<u8>,
    recorded: Seq<ReservedView>,
    parts: Seq<PartitionView>,
    total_sectors: int,
) -> bool {
    &&& sector.len() == 512
    &&& signed(sector)
    &&& sector.take(layout::TABLE_START as int) == (if records_marker(recorded) {
        base.take(layout::TABLE_START as int)
    } else {
        zeros(layout::TABLE_START as nat)
    })
    &&& forall|i: int|
        0 <= i < 4 ==> #[trigger] entry_in(sector, i) == front_entry(
            recorded,
            parts,
            total_sectors,
            i,
        )
}

/// Whether some recorded entry is the GPT marker.
pub fn has_marker(recorded: &[ReservedEntry]) -> (r: bool)
    ensures
        r == records_marker(reserved_views(recorded@)),
{
    let ghost rec = reserved_views(recorded@);
    let mut q: usize = 0;
    while q < recorded.len()
        invariant
            q <= recorded.len(),
            rec == reserved_views(recorded@),
            forall|r: int|
                0 <= r < q ==> role_of((#[trigger] rec[r]).bytes) != EntryRole::GptMarker,
        decreases recorded.len() - q,
    {
        assert(rec[q as int] == recorded@[q as int]@);
        if entry_role(recorded[q].bytes[layout::TYPE_BYTE]) == EntryRole::GptMarker {
            return true;
        }
        q = q + 1;
    }
    false
}

/// Whether some recorded entry is not the GPT marker.
fn is_hybrid(recorded: &[ReservedEntry]) -> (r: bool)
    ensures
        r == records_hybrid(reserved_views(recorded@)),
{
    let ghost rec = reserved_views(recorded@);
    let mut q: usize = 0;
    while q < recorded.len()
        invariant
            q <= recorded.len(),
            rec == reserved_views(recorded@),
            forall|r: int|
                0 <= r < q ==> role_of((#[trigger] rec[r]).bytes) == EntryRole::GptMarker,
        decreases recorded.len() - q,
    {
        assert(rec[q as int] == recorded@[q as int]@);
        if entry_role(recorded[q].bytes[layout::TYPE_BYTE]) != EntryRole::GptMarker {
            return true;
        }
        q = q + 1;
    }
    false
}

/// Whether the entry mirrors one of the partitions.
fn is_mirror(entry: &ReservedEntry, partitions: &[Partition]) -> (r: bool)
    ensures
        r == mirrors(entry.bytes@, views(partitions@)),
{
    let ghost parts = views(partitions@);
    let (first, last) = match entry.span() {
        Some(s) => s,
        None => return false,
    };
    let mut k: usize = 0;
    while k < partitions.len()
        invariant
            k <= partitions.len(),
            parts == views(partitions@),
            reserved_span(entry.bytes@) == Some((first, last)),
            forall|j: int|
                0 <= j < k ==> span(#[trigger] parts[j]) != Ok::<(u64, u64), Error>((first, last)),
        decreases partitions.len() - k,
    {
        assert(parts[k as int] == partitions@[k as int]@);
        if let Ok((start, end)) = partitions[k].sector_span() {
            if start == first && end == last {
                return true;
            }
        }
        k = k + 1;
    }
    false
}

/// What slot `i` of the MBR in front of a GPT holds.
fn build_front_entry(
    recorded: &[ReservedEntry],
    partitions: &[Partition],
    total_sectors: u64,
    i: usize,
) -> (entry: [u8; 16])
    requires
        total_sectors >= 1,
        i < 4,
    ensures
        entry@ == front_entry(
            reserved_views(recorded@),
            views(partitions@),
            total_sectors as int,
            i as int,
        ),
{
    let ghost rec = reserved_views(recorded@);
    let none: [u8; 16] = [0u8; 16];
    assert(none@ =~= zeros(16));
    if !has_marker(recorded) {
        if i == 0 {
            return build_marker(total_sectors);
        }
        return none;
    }
    let hybrid: bool = is_hybrid(recorded);
    let mut q: usize = 0;
    while q < recorded.len()
        invariant
            q <= recorded.len(),
            total_sectors >= 1,
            i < 4,
            rec == reserved_views(recorded@),
            records_marker(rec),
            hybrid == records_hybrid(rec),
            none@ == zeros(16),
            recorded_for(rec, i as int, q as int) == recorded_for(rec, i as int, 0),
        decreases recorded.len() - q,
    {
        assert(rec[q as int] == recorded@[q as int]@);
        if recorded[q].slot == i as u32 {
            if entry_role(recorded[q].bytes[layout::TYPE_BYTE]) == EntryRole::GptMarker {
                if hybrid {
                    return recorded[q].bytes;
                }
                return build_marker(total_sectors);
            }
            if is_mirror(&recorded[q], partitions) {
                return recorded[q].bytes;
            }
            return none;
        }
        q = q + 1;
    }
    none
}

/// The MBR in front of a GPT on a device of `total_sectors`. `base` is the
/// sector that is on the device; nothing is taken from it unless `recorded`,
/// the entries an MBR there held, has the GPT marker.
pub fn build_front(
    base: &Sector,
    recorded: &[ReservedEntry],
    partitions: &[Partition],
    total_sectors: u64,
) -> (sector: Sector)
    requires
        total_sectors >= 1,
    ensures
        front_written(
            sector@,
            base@,
            reserved_views(recorded@),
            views(partitions@),
            total_sectors as int,
        ),
{
    let mut sector: Sector = [0u8; SECTOR_SIZE_USIZE];
    assert(sector@.take(446) =~= zeros(446));
    if has_marker(recorded) {
        sector = *base;
    }
    let ghost start = sector@;
    let mut i: usize = 0;
    while i < layout::ENTRY_COUNT
        invariant
            i <= 4,
            total_sectors >= 1,
            sector@.take(446) == start.take(446),
            forall|j: int|
                0 <= j < i ==> #[trigger] entry_in(sector@, j) == front_entry(
                    reserved_views(recorded@),
                    views(partitions@),
                    total_sectors as int,
                    j,
                ),
        decreases 4 - i,
    {
        let entry: [u8; 16] = build_front_entry(recorded, partitions, total_sectors, i);
        let ghost before = sector@;
        put_bytes(&mut sector, layout::entry_at(i), &entry);
        proof {
            assert(sector@.take(446) =~= before.take(446));
            assert(entry_in(sector@, i as int) =~= entry@);
            assert forall|j: int| 0 <= j < i implies #[trigger] entry_in(sector@, j) == entry_in(
                before,
                j,
            ) by {
                assert(entry_in(sector@, j) =~= entry_in(before, j));
            }
        }
        i = i + 1;
    }
    let ghost before = sector@;
    sector[510] = 0x55;
    sector[511] = 0xAA;
    proof {
        assert(sector@.take(446) =~= before.take(446));
        assert forall|j: int| 0 <= j < 4 implies #[trigger] entry_in(sector@, j) == entry_in(
            before,
            j,
        ) by {
            assert(entry_in(sector@, j) =~= entry_in(before, j));
        }
    }
    sector
}

} // verus!
