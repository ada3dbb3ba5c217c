//! Partition-table mutation.
//!
//! An in-memory partition set, from a probe or from scratch, that callers
//! add to, remove from and resize in, with 1 MiB alignment and a first-fit
//! search for free space; and that is written out by a commit.

use vstd::prelude::*;

use crate::block::{no_flush_failed, BlockDevice, BlockRead};
use crate::codec::{bytes_eq, window, zeros};
use crate::error::{outcome, Error, Result};
use crate::gpt;
use crate::gpt::{
    array_on, collect_tails, entry_issue, header_in, mark_overlaps, parse_entry_array,
    parse_primary_header, share_sector, tails_agree, tails_in, type_guids, EntryTails, Header,
    HeaderView,
};
use crate::gpt_write::{gpt_commit, write_gpt_preserving, GptGeometry, GptTable};
use crate::gpt_write::slots::{assign_slots_with_taken, claims, slots_for};
use crate::gpt_write::geometry::{canonical_geometry, lemma_usable_range_is_clear_of_the_table, MAX_LBA};
use crate::mbr;
use crate::mbr::{
    in_use, mbr_commit, reserved_slots, reserved_span, reserved_views, unlisted,
    write_mbr_preserving, ReservedEntry, ReservedView,
};
use crate::mbr::types as mbr_types;
use crate::order::{ahead, order_by_key, sorts};
use crate::probe::{
    label_view, lba1_on, probe, read_lba1, span, table_found, views, KindView, Partition,
    PartitionKind, PartitionView, TableKind,
};
use crate::uuid::{random_uuid, v4};
use crate::{Sector, MBR_LBA_MAX, SECTOR_SIZE, SECTOR_SIZE_USIZE};

pub mod committed;
pub mod laws;
pub mod loaded;
pub mod pruned;
pub mod sound;

verus! {

/// 1 MiB in sectors: what partitions are aligned to.
pub const ALIGNMENT_SECTORS: u64 = 2048;

/// What kind of partition this is, whatever the table format. The set
/// turns it into a GPT type GUID or an MBR type byte.
#[derive(Debug, Clone, Copy, PartialEq, Eq)]
pub enum PartitionTypeId {
    EfiSystem,
    MicrosoftBasicData,
    LinuxFilesystem,
    LinuxSwap,
    AppleHfsPlus,
    AppleApfs,
    /// A raw type GUID. MBR tables reject it.
    GptCustom([u8; 16]),
    /// A raw MBR type byte. GPT tables reject it.
    MbrCustom(u8),
}

impl PartitionTypeId {
    /// The type GUID in a GPT, or why there is none.
    pub open spec fn guid(self) -> core::result::Result<Seq<u8>, Error> {
        match self {
            PartitionTypeId::EfiSystem => Ok(type_guids::EFI_SYSTEM@),
            PartitionTypeId::MicrosoftBasicData => Ok(type_guids::MICROSOFT_BASIC_DATA@),
            PartitionTypeId::LinuxFilesystem => Ok(type_guids::LINUX_FILESYSTEM@),
            PartitionTypeId::LinuxSwap => Ok(type_guids::LINUX_SWAP@),
            PartitionTypeId::AppleHfsPlus => Ok(type_guids::APPLE_HFS_PLUS@),
            PartitionTypeId::AppleApfs => Ok(type_guids::APPLE_APFS@),
            PartitionTypeId::GptCustom(g) => Ok(g@),
            PartitionTypeId::MbrCustom(_) => Err(
                Error::Invalid("MBR type byte used in GPT context"),
            ),
        }
    }

    /// The type byte in an MBR, or why there is none.
    pub open spec fn byte(self) -> core::result::Result<u8, Error> {
        match self {
            PartitionTypeId::EfiSystem => Ok(mbr_types::EFI_SYSTEM),
            PartitionTypeId::MicrosoftBasicData => Ok(mbr_types::NTFS_OR_EXFAT),
            PartitionTypeId::LinuxFilesystem => Ok(mbr_types::LINUX),
            PartitionTypeId::LinuxSwap => Ok(mbr_types::LINUX_SWAP),
            PartitionTypeId::AppleHfsPlus => Ok(mbr_types::HFS_PLUS),
            PartitionTypeId::AppleApfs => Err(
                Error::Invalid("APFS has no MBR type byte; use GPT"),
            ),
            PartitionTypeId::MbrCustom(b) => Ok(b),
            PartitionTypeId::GptCustom(_) => Err(
                Error::Invalid("GPT type GUID used in MBR context"),
            ),
        }
    }

    /// The type GUID in a GPT, or why there is none.
    pub fn to_gpt_guid(self) -> (r: Result<[u8; 16]>)
        ensures
            match r {
                Ok(g) => self.guid() == Ok::<Seq<u8>, Error>(g@),
                Err(e) => self.guid() == Err::<Seq<u8>, Error>(e),
            },
    {
        match self {
            PartitionTypeId::EfiSystem => Ok(type_guids::EFI_SYSTEM),
            PartitionTypeId::MicrosoftBasicData => Ok(type_guids::MICROSOFT_BASIC_DATA),
            PartitionTypeId::LinuxFilesystem => Ok(type_guids::LINUX_FILESYSTEM),
            PartitionTypeId::LinuxSwap => Ok(type_guids::LINUX_SWAP),
            PartitionTypeId::AppleHfsPlus => Ok(type_guids::APPLE_HFS_PLUS),
            PartitionTypeId::AppleApfs => Ok(type_guids::APPLE_APFS),
            PartitionTypeId::GptCustom(g) => Ok(g),
            PartitionTypeId::MbrCustom(_) => Err(
                Error::Invalid("MBR type byte used in GPT context"),
            ),
        }
    }

    /// The type byte in an MBR, or why there is none.
    pub fn to_mbr_byte(self) -> (r: Result<u8>)
        ensures
            r == self.byte(),
    {
        match self {
            PartitionTypeId::EfiSystem => Ok(mbr_types::EFI_SYSTEM),
            PartitionTypeId::MicrosoftBasicData => Ok(mbr_types::NTFS_OR_EXFAT),
            PartitionTypeId::LinuxFilesystem => Ok(mbr_types::LINUX),
            PartitionTypeId::LinuxSwap => Ok(mbr_types::LINUX_SWAP),
            PartitionTypeId::AppleHfsPlus => Ok(mbr_types::HFS_PLUS),
            PartitionTypeId::AppleApfs => Err(
                Error::Invalid("APFS has no MBR type byte; use GPT"),
            ),
            PartitionTypeId::MbrCustom(b) => Ok(b),
            PartitionTypeId::GptCustom(_) => Err(
                Error::Invalid("GPT type GUID used in MBR context"),
            ),
        }
    }
}

/// How callers name a partition of a set.
#[derive(Debug, Clone, Copy)]
pub enum PartitionRef {
    Index(usize),
    Uuid([u8; 16]),
}

/// An in-memory partition set. All edits stay in it until a commit writes
/// them out.
#[derive(Debug)]
pub struct PartitionSet {
    pub table_kind: TableKind,
    pub partitions: Vec<Partition>,
    pub disk_size: u64,
    /// Disk GUID for the GPT header. Nothing in an MBR.
    pub disk_guid: [u8; 16],
    /// The shape of the GPT. Nothing in an MBR.
    pub gpt_geometry: GptGeometry,
    /// Entries of the MBR that are not in `partitions`: of an MBR table those
    /// that are no volumes; of a GPT all that the MBR in front of it held.
    pub reserved: Vec<ReservedEntry>,
    /// What follows the standard bytes of the GPT entries.
    pub entry_tails: EntryTails,
}

/// What a [`PartitionSet`] says.
pub struct SetView {
    pub table_kind: TableKind,
    pub parts: Seq<PartitionView>,
    pub disk_size: u64,
    pub disk_guid: Seq<u8>,
    pub geometry: GptGeometry,
    pub reserved: Seq<ReservedView>,
    pub tails: Map<Seq<u8>, Seq<u8>>,
}

impl View for PartitionSet {
    type V = SetView;

    open spec fn view(&self) -> SetView {
        SetView {
            table_kind: self.table_kind,
            parts: views(self.partitions@),
            disk_size: self.disk_size,
            disk_guid: self.disk_guid@,
            geometry: self.gpt_geometry,
            reserved: reserved_views(self.reserved@),
            tails: self.entry_tails@,
        }
    }
}

impl Clone for PartitionSet {
    fn clone(&self) -> (r: Self)
        ensures
            r@ == self@,
    {
        let mut partitions: Vec<Partition> = Vec::new();
        let mut i: usize = 0;
        while i < self.partitions.len()
            invariant
                i <= self.partitions@.len(),
                views(partitions@) =~= views(self.partitions@).take(i as int),
            decreases self.partitions@.len() - i,
        {
            let ghost before = partitions@;
            let p: Partition = self.partitions[i].clone();
            partitions.push(p);
            assert(views(partitions@) =~= views(before).push(p@));
            assert(p@ == views(self.partitions@)[i as int]);
            i = i + 1;
        }
        let mut reserved: Vec<ReservedEntry> = Vec::new();
        let mut k: usize = 0;
        while k < self.reserved.len()
            invariant
                k <= self.reserved@.len(),
                reserved@ =~= self.reserved@.take(k as int),
            decreases self.reserved@.len() - k,
        {
            reserved.push(self.reserved[k]);
            k = k + 1;
        }
        let r: PartitionSet = PartitionSet {
            table_kind: self.table_kind,
            partitions,
            disk_size: self.disk_size,
            disk_guid: self.disk_guid,
            gpt_geometry: self.gpt_geometry,
            reserved,
            entry_tails: self.entry_tails.clone(),
        };
        assert(views(r.partitions@) =~= views(self.partitions@));
        assert(r.reserved@ =~= self.reserved@);
        r
    }
}

/// `n` rounded up to a multiple of 1 MiB in sectors.
pub open spec fn round_up(n: int) -> int {
    (n + 2047) / 2048 * 2048
}

/// Bytes rounded up to whole sectors.
pub open spec fn whole_sectors(bytes: int) -> int {
    (bytes + 511) / 512
}

/// `n` rounded up to a multiple of 1 MiB in sectors.
fn align_up(n: u64) -> (r: u64)
    requires
        n <= u64::MAX - 2048,
    ensures
        r == round_up(n as int),
        r % 2048 == 0,
        n <= r < n + 2048,
{
    let over: u64 = n % ALIGNMENT_SECTORS;
    if over == 0 {
        n
    } else {
        n + (ALIGNMENT_SECTORS - over)
    }
}

/// Bytes rounded up to whole sectors.
fn sectors_in(bytes: u64) -> (r: u64)
    ensures
        r == whole_sectors(bytes as int),
        r <= 0x80_0000_0000_0000,
{
    bytes / SECTOR_SIZE + if bytes % SECTOR_SIZE != 0 { 1 } else { 0 }
}

/// Where partitions of the set may lie: the inclusive LBA range, or why there
/// is none.
pub open spec fn set_usable(s: SetView) -> core::result::Result<(u64, u64), Error> {
    let total = s.disk_size / 512;
    match s.table_kind {
        TableKind::Gpt => s.geometry.usable(total as int),
        TableKind::Mbr => if total < 2 {
            Ok((1, 0))
        } else if total - 1 < MBR_LBA_MAX {
            Ok((1, (total - 1) as u64))
        } else {
            Ok((1, MBR_LBA_MAX))
        },
    }
}

/// The spans of the first `n` partitions, or what is wrong with the first
/// that has none.
pub open spec fn first_spans(parts: Seq<PartitionView>, n: int) -> core::result::Result<
    Seq<(u64, u64)>,
    Error,
>
    decreases n,
{
    if n <= 0 {
        Ok(Seq::empty())
    } else {
        match first_spans(parts, n - 1) {
            Err(e) => Err(e),
            Ok(before) => match span(parts[n - 1]) {
                Err(e) => Err(e),
                Ok(s) => Ok(before.push(s)),
            },
        }
    }
}

/// The ranges that the first `n` reserved entries keep.
pub open spec fn kept_spans(reserved: Seq<ReservedView>, n: int) -> Seq<(u64, u64)>
    decreases n,
{
    if n <= 0 {
        Seq::empty()
    } else {
        match reserved_span(reserved[n - 1].bytes) {
            Some(s) => kept_spans(reserved, n - 1).push(s),
            None => kept_spans(reserved, n - 1),
        }
    }
}

/// What is occupied in the set: every partition, and in an MBR every range a
/// reserved entry keeps.
pub open spec fn occupied(s: SetView) -> core::result::Result<Seq<(u64, u64)>, Error> {
    match first_spans(s.parts, s.parts.len() as int) {
        Err(e) => Err(e),
        Ok(spans) => Ok(
            spans + (match s.table_kind {
                TableKind::Mbr => kept_spans(s.reserved, s.reserved.len() as int),
                TableKind::Gpt => Seq::empty(),
            }),
        ),
    }
}

/// The `len` sectors at `start` meet none of the spans.
pub open spec fn clear(start: int, len: int, spans: Seq<(u64, u64)>) -> bool {
    forall|i: int|
        0 <= i < spans.len() ==> start + len - 1 < (#[trigger] spans[i]).0 || spans[i].1 < start
}

/// A partition has a span, and the `len` sectors at `start` do not meet it.
pub open spec fn apart(p: PartitionView, start: int, len: int) -> bool {
    span(p) is Ok && (start + len - 1 < span(p)->Ok_0.0 || span(p)->Ok_0.1 < start)
}

/// What the first of the partitions from `k` on that stands in the way of
/// the `len` sectors at `start` is refused for, the one at `skip` left out:
/// that it has no span, or, where the sectors meet it, `overlap`.
pub open spec fn first_clash(
    parts: Seq<PartitionView>,
    k: int,
    skip: int,
    start: int,
    len: int,
    overlap: Error,
) -> Option<Error>
    decreases parts.len() - k,
{
    if k >= parts.len() {
        None
    } else if k == skip || apart(parts[k], start, len) {
        first_clash(parts, k + 1, skip, start, len, overlap)
    } else {
        match span(parts[k]) {
            Err(e) => Some(e),
            Ok(_) => Some(overlap),
        }
    }
}

/// What stands in the way of the `len` sectors at `start`: the partitions in
/// the order of the list, then in an MBR what is kept beside them.
pub open spec fn clash(s: SetView, skip: int, start: int, len: int, overlap: Error) -> Option<
    Error,
> {
    match first_clash(s.parts, 0, skip, start, len, overlap) {
        Some(e) => Some(e),
        None => if s.table_kind == TableKind::Mbr && !clear(
            start,
            len,
            kept_spans(s.reserved, s.reserved.len() as int),
        ) {
            Some(overlap)
        } else {
            None
        },
    }
}

/// `len` sectors fit at `start`: aligned, inside the usable range, and
/// clear of what is occupied.
pub open spec fn fits(start: int, len: int, first: int, last: int, spans: Seq<(u64, u64)>) -> bool {
    &&& start % 2048 == 0
    &&& first <= start
    &&& start + len - 1 <= last
    &&& clear(start, len, spans)
}

/// The lowest place where `len` sectors fit.
pub open spec fn first_fit(
    start: int,
    len: int,
    first: int,
    last: int,
    spans: Seq<(u64, u64)>,
) -> bool {
    &&& fits(start, len, first, last, spans)
    &&& forall|other: int| #[trigger] fits(other, len, first, last, spans) ==> start <= other
}

/// The index of the first partition from `k` on with this UUID.
pub open spec fn uuid_index(parts: Seq<PartitionView>, uuid: Seq<u8>, k: int) -> core::result::Result<
    int,
    Error,
>
    decreases parts.len() - k,
{
    if k >= parts.len() {
        Err(Error::Invalid("uuid not found"))
    } else if parts[k].uuid == Some(uuid) {
        Ok(k)
    } else {
        uuid_index(parts, uuid, k + 1)
    }
}

/// Which partition is meant, or that there is none such.
pub open spec fn meant(parts: Seq<PartitionView>, target: PartitionRef) -> core::result::Result<
    int,
    Error,
> {
    match target {
        PartitionRef::Index(i) => if i >= parts.len() {
            Err(Error::Invalid("index out of range"))
        } else {
            Ok(i as int)
        },
        PartitionRef::Uuid(u) => uuid_index(parts, u@, 0),
    }
}

/// What is said of a GPT with a partition in every entry.
pub open spec fn gpt_full(num_entries: u32) -> &'static str {
    if num_entries == 128 {
        "GPT canonical table is full (128 entries)"
    } else {
        "GPT table is full (every entry slot is taken)"
    }
}

/// What keeps a partition of this length out of the set before a place for
/// it is looked for.
pub open spec fn add_refused(s: SetView, length: u64) -> Option<Error> {
    if length == 0 {
        Some(Error::Invalid("zero length"))
    } else if s.table_kind == TableKind::Mbr && s.parts.len() + s.reserved.len() >= 4 {
        Some(Error::Invalid("MBR primary table is full (4 entries)"))
    } else if s.table_kind == TableKind::Gpt && s.parts.len() >= s.geometry.num_entries {
        Some(Error::Invalid(gpt_full(s.geometry.num_entries)))
    } else {
        match set_usable(s) {
            Err(e) => Some(e),
            Ok((first, last)) => if first > last {
                Some(Error::DeviceTooSmall)
            } else {
                None
            },
        }
    }
}

/// The type tag of a new partition in the set, or why it cannot have one.
pub open spec fn new_kind(kind: TableKind, type_id: PartitionTypeId) -> core::result::Result<
    KindView,
    Error,
> {
    match kind {
        TableKind::Gpt => match type_id.guid() {
            Ok(g) => Ok(KindView::Gpt { type_guid: g, attributes: 0 }),
            Err(e) => Err(e),
        },
        TableKind::Mbr => match type_id.byte() {
            Ok(b) => Ok(KindView::Mbr { type_byte: b, active: false }),
            Err(e) => Err(e),
        },
    }
}

/// What keeps a partition of `len` sectors at `start` out of the set.
pub open spec fn place_refused(
    s: SetView,
    start: int,
    len: int,
    type_id: PartitionTypeId,
) -> Option<Error> {
    if start + len - 1 > set_usable(s)->Ok_0.1 {
        Some(Error::Invalid("partition extends past last usable LBA"))
    } else if s.table_kind == TableKind::Mbr && (start > MBR_LBA_MAX || len > MBR_LBA_MAX) {
        Some(Error::Invalid("partition exceeds MBR 32-bit LBA range"))
    } else {
        match clash(s, -1, start, len, Error::Invalid("partition overlaps existing entry")) {
            Some(e) => Some(e),
            None => match new_kind(s.table_kind, type_id) {
                Err(e) => Some(e),
                Ok(_) => None,
            },
        }
    }
}

/// What an addition asks for.
pub struct Addition {
    pub length: u64,
    pub type_id: PartitionTypeId,
    pub label: Option<Seq<char>>,
    pub random: Seq<u8>,
}

/// Sectors that an addition takes: its length in whole sectors, rounded up
/// to 1 MiB.
pub open spec fn add_len(a: Addition) -> int {
    round_up(whole_sectors(a.length as int))
}

/// The set after the addition was tried at `start`, and what was answered.
pub open spec fn added_at(
    before: SetView,
    after: SetView,
    r: Result<usize>,
    a: Addition,
    start: int,
) -> bool {
    match place_refused(before, start, add_len(a), a.type_id) {
        Some(e) => r == Err::<usize, Error>(e) && after == before,
        None => {
            &&& r == Ok::<usize, Error>(before.parts.len() as usize)
            &&& after == (SetView {
                parts: before.parts.push(
                    PartitionView {
                        start: (start * 512) as u64,
                        length: (add_len(a) * 512) as u64,
                        kind: new_kind(before.table_kind, a.type_id)->Ok_0,
                        label: a.label,
                        uuid: match before.table_kind {
                            TableKind::Gpt => Some(v4(a.random)),
                            TableKind::Mbr => None,
                        },
                        slot: None,
                        issues: 0,
                    },
                ),
                ..before
            })
        },
    }
}

/// Where an addition with a start hint goes: the first whole sector not
/// before it, raised to the first usable one, rounded up to 1 MiB.
pub open spec fn hinted_start(byte: u64, first: u64) -> int {
    let sector = whole_sectors(byte as int);
    round_up(
        if sector < first {
            first as int
        } else {
            sector
        },
    )
}

/// The set after an addition was tried, and what was answered.
pub open spec fn added(
    before: SetView,
    after: SetView,
    r: Result<usize>,
    hint: Option<u64>,
    a: Addition,
) -> bool {
    match add_refused(before, a.length) {
        Some(e) => r == Err::<usize, Error>(e) && after == before,
        None => {
            let (first, last) = set_usable(before)->Ok_0;
            match hint {
                Some(byte) => added_at(before, after, r, a, hinted_start(byte, first)),
                None => match occupied(before) {
                    Err(e) => r == Err::<usize, Error>(e) && after == before,
                    Ok(spans) => {
                        ||| exists|start: int|
                            first_fit(start, add_len(a), first as int, last as int, spans)
                                && #[trigger] added_at(before, after, r, a, start)
                        ||| (forall|start: int|
                            !#[trigger] fits(start, add_len(a), first as int, last as int, spans))
                            && r == Err::<usize, Error>(
                            Error::Invalid("no free space large enough"),
                        ) && after == before
                    },
                },
            }
        },
    }
}

/// Every span has a byte offset.
pub open spec fn addressable(spans: Seq<(u64, u64)>) -> bool {
    forall|i: int| 0 <= i < spans.len() ==> (#[trigger] spans[i]).1 <= MAX_LBA
}

/// The lowest aligned place in the usable range where `len` sectors meet
/// none of the spans: a walk over them in order of start, with a cursor that
/// only moves forward.
fn find_gap(spans: &Vec<(u64, u64)>, len: u64, first: u64, last: u64) -> (r: Option<u64>)
    requires
        1 <= len <= MAX_LBA + 4096,
        first <= MAX_LBA,
        last <= MAX_LBA,
        addressable(spans@),
    ensures
        match r {
            Some(start) => first_fit(
                start as int,
                len as int,
                first as int,
                last as int,
                spans@,
            ),
            None => forall|start: int|
                !#[trigger] fits(start, len as int, first as int, last as int, spans@),
        },
{
    let mut keys: Vec<u64> = Vec::new();
    let mut i: usize = 0;
    let ghost starts = spans@.map_values(|s: (u64, u64)| s.0);
    while i < spans.len()
        invariant
            i <= spans@.len(),
            starts == spans@.map_values(|s: (u64, u64)| s.0),
            keys@ =~= starts.take(i as int),
        decreases spans@.len() - i,
    {
        keys.push(spans[i].0);
        i = i + 1;
    }
    assert(keys@ =~= starts);
    let order: Vec<usize> = order_by_key(&keys);
    let ghost ord = order@.map_values(|i: usize| i as int);
    assert forall|a: int| 0 <= a < ord.len() implies (#[trigger] order@[a]) == ord[a] && order@[a]
        < spans@.len() by {
        assert(0 <= ord[a] < spans@.len());
    }
    let mut cursor: u64 = align_up(first);
    assert forall|start: int| #[trigger]
        fits(start, len as int, first as int, last as int, spans@) implies cursor <= start by {}
    let mut k: usize = 0;
    while k < order.len()
        invariant
            k <= order@.len() == spans@.len() == ord.len(),
            1 <= len <= MAX_LBA + 4096,
            last <= MAX_LBA,
            first <= cursor <= MAX_LBA + 4096,
            cursor % 2048 == 0,
            addressable(spans@),
            starts == spans@.map_values(|s: (u64, u64)| s.0),
            sorts(starts, ord, spans@.len() as int),
            forall|a: int|
                0 <= a < ord.len() ==> (#[trigger] order@[a]) == ord[a] && order@[a] < spans@.len(),
            forall|a: int| 0 <= a < k ==> spans@[#[trigger] ord[a]].1 < cursor,
            forall|start: int| #[trigger]
                fits(start, len as int, first as int, last as int, spans@) ==> cursor <= start,
        decreases order@.len() - k,
    {
        let at: usize = order[k];
        assert(ord[k as int] == at);
        let (p_start, p_end) = spans[at];
        assert(spans@[at as int].1 <= MAX_LBA);
        let end: u64 = cursor + len - 1;
        if end < p_start && end <= last {
            proof {
                assert forall|i: int| 0 <= i < spans@.len() implies cursor + len - 1 < (
                #[trigger] spans@[i]).0 || spans@[i].1 < cursor by {
                    assert(ord.contains(i));
                    let a = choose|a: int| 0 <= a < ord.len() && ord[a] == i;
                    if a > k {
                        assert(ahead(starts, ord[k as int], ord[a]));
                    }
                }
                assert(clear(cursor as int, len as int, spans@));
            }
            return Some(cursor);
        }
        let next: u64 = align_up(p_end + 1);
        assert forall|start: int| #[trigger]
            fits(start, len as int, first as int, last as int, spans@) implies (if next > cursor {
            next
        } else {
            cursor
        }) <= start by {
            if start < next {
                assert(cursor <= start);
                assert(start <= p_end);
                assert(spans@[at as int] == (p_start, p_end));
            }
        }
        if next > cursor {
            cursor = next;
        }
        k = k + 1;
    }
    if cursor + len - 1 <= last {
        assert forall|i: int| 0 <= i < spans@.len() implies cursor + len - 1 < (
        #[trigger] spans@[i]).0 || spans@[i].1 < cursor by {
            assert(ord.contains(i));
        }
        assert(clear(cursor as int, len as int, spans@));
        Some(cursor)
    } else {
        assert forall|start: int|
            !#[trigger] fits(start, len as int, first as int, last as int, spans@) by {}
        None
    }
}

/// The spans of partitions, and the ranges reserved entries keep, have byte
/// offsets.
proof fn lemma_occupied_addressable(s: SetView)
    requires
        occupied(s) is Ok,
    ensures
        addressable(occupied(s)->Ok_0),
{
    lemma_spans_addressable(s.parts, s.parts.len() as int);
    lemma_kept_addressable(s.reserved, s.reserved.len() as int);
}

proof fn lemma_spans_addressable(parts: Seq<PartitionView>, n: int)
    requires
        first_spans(parts, n) is Ok,
    ensures
        addressable(first_spans(parts, n)->Ok_0),
    decreases n,
{
    if n > 0 {
        lemma_spans_addressable(parts, n - 1);
    }
}

proof fn lemma_kept_addressable(reserved: Seq<ReservedView>, n: int)
    ensures
        addressable(kept_spans(reserved, n)),
    decreases n,
{
    if n > 0 {
        lemma_kept_addressable(reserved, n - 1);
    }
}

/// The first bad span decides, whatever follows it.
proof fn lemma_bad_span_persists(parts: Seq<PartitionView>, i: int, n: int, e: Error)
    requires
        0 <= i <= n,
        first_spans(parts, i) == Err::<Seq<(u64, u64)>, Error>(e),
    ensures
        first_spans(parts, n) == Err::<Seq<(u64, u64)>, Error>(e),
    decreases n,
{
    if i < n {
        lemma_bad_span_persists(parts, i, n - 1, e);
    }
}

/// The usable range of a set is addressable.
pub proof fn lemma_set_usable_bounded(s: SetView)
    requires
        set_usable(s) is Ok,
    ensures
        set_usable(s)->Ok_0.0 <= set_usable(s)->Ok_0.1 ==> set_usable(s)->Ok_0.0 <= MAX_LBA,
        set_usable(s)->Ok_0.1 <= MAX_LBA,
        set_usable(s)->Ok_0.0 <= set_usable(s)->Ok_0.1 ==> (set_usable(s)->Ok_0.1 + 1) * 512
            <= s.disk_size,
{
    if s.table_kind == TableKind::Gpt {
        lemma_usable_range_is_clear_of_the_table(s.geometry, s.disk_size as int / 512);
    }
}

/// Whether the `len` sectors at `start` meet none of the spans.
fn is_clear(start: u64, len: u64, spans: &Vec<(u64, u64)>) -> (r: bool)
    requires
        len >= 1,
        start + len - 1 <= u64::MAX,
    ensures
        r == clear(start as int, len as int, spans@),
{
    let end: u64 = start + (len - 1);
    let mut i: usize = 0;
    while i < spans.len()
        invariant
            i <= spans@.len(),
            end == start + len - 1,
            forall|j: int|
                0 <= j < i ==> start + len - 1 < (#[trigger] spans@[j]).0 || spans@[j].1 < start,
        decreases spans@.len() - i,
    {
        if start <= spans[i].1 && end >= spans[i].0 {
            assert(!(start + len - 1 < spans@[i as int].0 || spans@[i as int].1 < start));
            return false;
        }
        i = i + 1;
    }
    true
}

impl PartitionSet {
    /// Empty GPT table for a disk of `disk_size` bytes. The disk GUID is made
    /// of 16 random bytes.
    pub fn empty_gpt(disk_size: u64, random: [u8; 16]) -> (s: Self)
        ensures
            s@ == (SetView {
                table_kind: TableKind::Gpt,
                parts: Seq::empty(),
                disk_size,
                disk_guid: v4(random@),
                geometry: canonical_geometry(),
                reserved: Seq::empty(),
                tails: Map::empty(),
            }),
    {
        let s: PartitionSet = PartitionSet {
            table_kind: TableKind::Gpt,
            partitions: Vec::new(),
            disk_size,
            disk_guid: random_uuid(random),
            gpt_geometry: GptGeometry::canonical(),
            reserved: Vec::new(),
            entry_tails: EntryTails::new(),
        };
        assert(s@.parts =~= Seq::<PartitionView>::empty());
        assert(s@.reserved =~= Seq::<ReservedView>::empty());
        s
    }

    /// Empty MBR table for a disk of `disk_size` bytes.
    pub fn empty_mbr(disk_size: u64) -> (s: Self)
        ensures
            s@ == (SetView {
                table_kind: TableKind::Mbr,
                parts: Seq::empty(),
                disk_size,
                disk_guid: zeros(16),
                geometry: canonical_geometry(),
                reserved: Seq::empty(),
                tails: Map::empty(),
            }),
    {
        let s: PartitionSet = PartitionSet {
            table_kind: TableKind::Mbr,
            partitions: Vec::new(),
            disk_size,
            disk_guid: [0u8; 16],
            gpt_geometry: GptGeometry::canonical(),
            reserved: Vec::new(),
            entry_tails: EntryTails::new(),
        };
        assert(s@.parts =~= Seq::<PartitionView>::empty());
        assert(s@.reserved =~= Seq::<ReservedView>::empty());
        assert(s@.disk_guid =~= zeros(16));
        s
    }

    fn usable_range(&self) -> (r: Result<(u64, u64)>)
        ensures
            r == set_usable(self@),
    {
        let total: u64 = self.disk_size / SECTOR_SIZE;
        match self.table_kind {
            TableKind::Gpt => self.gpt_geometry.usable_range(total),
            TableKind::Mbr => {
                if total < 2 {
                    return Ok((1, 0));
                }
                let last: u64 = if total - 1 < MBR_LBA_MAX { total - 1 } else { MBR_LBA_MAX };
                Ok((1, last))
            },
        }
    }

    /// The ranges that entries beside the partitions keep.
    fn kept(&self) -> (spans: Vec<(u64, u64)>)
        ensures
            spans@ == kept_spans(self@.reserved, self@.reserved.len() as int),
    {
        let ghost reserved = reserved_views(self.reserved@);
        let mut spans: Vec<(u64, u64)> = Vec::new();
        let mut q: usize = 0;
        while q < self.reserved.len()
            invariant
                q <= self.reserved@.len(),
                reserved == reserved_views(self.reserved@),
                spans@ == kept_spans(reserved, q as int),
            decreases self.reserved@.len() - q,
        {
            assert(reserved[q as int] == self.reserved@[q as int]@);
            if let Some(s) = self.reserved[q].span() {
                spans.push(s);
            }
            q = q + 1;
        }
        spans
    }

    /// Whether anything stands in the way of the `len` sectors at `start`,
    /// the partition at `skip` left out.
    fn check_place(
        &self,
        skip: Option<usize>,
        start: u64,
        len: u64,
        overlap: &'static str,
    ) -> (r: Result<()>)
        requires
            len >= 1,
            start + len - 1 <= u64::MAX,
        ensures
            r == (match clash(
                self@,
                (if skip is Some {
                    skip->Some_0 as int
                } else {
                    -1
                }),
                start as int,
                len as int,
                Error::Invalid(overlap),
            ) {
                Some(e) => Err::<(), Error>(e),
                None => Ok(()),
            }),
    {
        let ghost left_out: int = if skip is Some {
            skip->Some_0 as int
        } else {
            -1
        };
        let ghost parts = views(self.partitions@);
        let ghost why = Error::Invalid(overlap);
        let end: u64 = start + (len - 1);
        let mut i: usize = 0;
        while i < self.partitions.len()
            invariant
                i <= self.partitions@.len(),
                len >= 1,
                end == start + len - 1,
                parts == views(self.partitions@),
                why == Error::Invalid(overlap),
                left_out == (if skip is Some {
                    skip->Some_0 as int
                } else {
                    -1
                }),
                first_clash(parts, i as int, left_out, start as int, len as int, why)
                    == first_clash(parts, 0, left_out, start as int, len as int, why),
            decreases self.partitions@.len() - i,
        {
            assert(parts[i as int] == self.partitions@[i as int]@);
            let skipped: bool = match skip {
                Some(k) => k == i,
                None => false,
            };
            if !skipped {
                match self.partitions[i].sector_span() {
                    Ok((p_start, p_end)) => {
                        if start <= p_end && end >= p_start {
                            return Err(Error::Invalid(overlap));
                        }
                    },
                    Err(e) => return Err(e),
                }
            }
            i = i + 1;
        }
        if self.table_kind == TableKind::Mbr {
            let kept: Vec<(u64, u64)> = self.kept();
            if !is_clear(start, len, &kept) {
                return Err(Error::Invalid(overlap));
            }
        }
        Ok(())
    }

    /// What is occupied in the set.
    fn occupied_spans(&self) -> (r: Result<Vec<(u64, u64)>>)
        ensures
            match r {
                Ok(spans) => occupied(self@) == Ok::<Seq<(u64, u64)>, Error>(spans@),
                Err(e) => occupied(self@) == Err::<Seq<(u64, u64)>, Error>(e),
            },
    {
        let ghost parts = views(self.partitions@);
        let mut spans: Vec<(u64, u64)> = Vec::new();
        let mut i: usize = 0;
        while i < self.partitions.len()
            invariant
                i <= self.partitions@.len(),
                parts == views(self.partitions@),
                first_spans(parts, i as int) == Ok::<Seq<(u64, u64)>, Error>(spans@),
            decreases self.partitions@.len() - i,
        {
            assert(parts[i as int] == self.partitions@[i as int]@);
            match self.partitions[i].sector_span() {
                Ok(s) => spans.push(s),
                Err(e) => {
                    proof {
                        lemma_bad_span_persists(parts, i + 1, parts.len() as int, e);
                    }
                    return Err(e);
                },
            }
            i = i + 1;
        }
        if self.table_kind == TableKind::Mbr {
            let mut kept: Vec<(u64, u64)> = self.kept();
            spans.append(&mut kept);
        } else {
            assert(spans@ + Seq::<(u64, u64)>::empty() =~= spans@);
        }
        Ok(spans)
    }

    /// First-fit search for `length_sectors` free sectors.
    fn find_free(&self, length_sectors: u64, first_usable: u64, last_usable: u64) -> (r: Result<
        u64,
    >)
        requires
            1 <= length_sectors <= MAX_LBA + 4096,
            first_usable <= MAX_LBA,
            last_usable <= MAX_LBA,
        ensures
            match occupied(self@) {
                Err(e) => r == Err::<u64, Error>(e),
                Ok(spans) => match r {
                    Ok(start) => first_fit(
                        start as int,
                        length_sectors as int,
                        first_usable as int,
                        last_usable as int,
                        spans,
                    ),
                    Err(e) => e == Error::Invalid("no free space large enough") && forall|
                        start: int,
                    |
                        !#[trigger] fits(
                            start,
                            length_sectors as int,
                            first_usable as int,
                            last_usable as int,
                            spans,
                        ),
                },
            },
    {
        let spans: Vec<(u64, u64)> = match self.occupied_spans() {
            Ok(s) => s,
            Err(e) => return Err(e),
        };
        proof {
            lemma_occupied_addressable(self@);
        }
        match find_gap(&spans, length_sectors, first_usable, last_usable) {
            Some(start) => Ok(start),
            None => Err(Error::Invalid("no free space large enough")),
        }
    }

    /// Add a partition.
    ///
    /// Without a start hint it goes into the first aligned gap that is large
    /// enough. A hint is rounded up to a whole sector, raised to the first
    /// usable LBA, and rounded up to the next 1 MiB. The length is rounded
    /// up to the next 1 MiB. `random` makes the UUID of a GPT partition.
    ///
    /// New partitions are not bootable and have no attributes. Returns the
    /// index of the new partition.
    pub fn add(
        &mut self,
        start_hint: Option<u64>,
        length: u64,
        type_id: PartitionTypeId,
        label: Option<String>,
        random: [u8; 16],
    ) -> (r: Result<usize>)
        ensures
            added(
                old(self)@,
                final(self)@,
                r,
                start_hint,
                (Addition { length, type_id, label: label_view(label), random: random@ }),
            ),
    {
        let ghost a = Addition { length, type_id, label: label_view(label), random: random@ };
        let ghost before = self@;
        if length == 0 {
            return Err(Error::Invalid("zero length"));
        }
        if self.table_kind == TableKind::Mbr && (self.partitions.len() >= 4 || self.reserved.len()
            >= 4 || self.partitions.len() + self.reserved.len() >= 4) {
            return Err(Error::Invalid("MBR primary table is full (4 entries)"));
        }
        if self.table_kind == TableKind::Gpt && self.partitions.len()
            >= self.gpt_geometry.num_entries as usize {
            if self.gpt_geometry.num_entries == 128 {
                return Err(Error::Invalid("GPT canonical table is full (128 entries)"));
            }
            return Err(Error::Invalid("GPT table is full (every entry slot is taken)"));
        }
        let length_sectors: u64 = align_up(sectors_in(length));
        let (first_usable_lba, last_usable_lba) = match self.usable_range() {
            Ok(range) => range,
            Err(e) => return Err(e),
        };
        if first_usable_lba > last_usable_lba {
            return Err(Error::DeviceTooSmall);
        }
        proof {
            lemma_set_usable_bounded(self@);
        }
        let start_lba: u64 = match start_hint {
            Some(byte) => {
                let sector: u64 = sectors_in(byte);
                align_up(if sector < first_usable_lba { first_usable_lba } else { sector })
            },
            None => match self.find_free(length_sectors, first_usable_lba, last_usable_lba) {
                Ok(start) => start,
                Err(e) => return Err(e),
            },
        };
        let end_lba: u64 = start_lba + (length_sectors - 1);
        let r: Result<usize> = self.add_at(
            start_lba,
            length_sectors,
            end_lba > last_usable_lba,
            type_id,
            label,
            random,
        );
        assert(added_at(before, self@, r, a, start_lba as int));
        r
    }

    /// Adds a partition of `length_sectors` at `start_lba`, which runs past
    /// the usable range or not.
    fn add_at(
        &mut self,
        start_lba: u64,
        length_sectors: u64,
        past_last: bool,
        type_id: PartitionTypeId,
        label: Option<String>,
        random: [u8; 16],
    ) -> (r: Result<usize>)
        requires
            set_usable(old(self)@) is Ok,
            set_usable(old(self)@)->Ok_0.0 <= set_usable(old(self)@)->Ok_0.1,
            past_last == (start_lba + length_sectors - 1 > set_usable(old(self)@)->Ok_0.1),
            1 <= length_sectors <= MAX_LBA + 4096,
            start_lba <= MAX_LBA + 4096,
        ensures
            forall|a: Addition|
                a.type_id == type_id && a.label == label_view(label) && a.random == random@
                    && add_len(a) == length_sectors ==> #[trigger] added_at(
                    old(self)@,
                    final(self)@,
                    r,
                    a,
                    start_lba as int,
                ),
    {
        if past_last {
            return Err(Error::Invalid("partition extends past last usable LBA"));
        }
        if self.table_kind == TableKind::Mbr && (start_lba > MBR_LBA_MAX || length_sectors
            > MBR_LBA_MAX) {
            return Err(Error::Invalid("partition exceeds MBR 32-bit LBA range"));
        }
        match self.check_place(
            None,
            start_lba,
            length_sectors,
            "partition overlaps existing entry",
        ) {
            Ok(()) => {},
            Err(e) => return Err(e),
        }
        let kind: PartitionKind = match self.table_kind {
            TableKind::Gpt => match type_id.to_gpt_guid() {
                Ok(type_guid) => PartitionKind::Gpt { type_guid, attributes: 0 },
                Err(e) => return Err(e),
            },
            TableKind::Mbr => match type_id.to_mbr_byte() {
                Ok(type_byte) => PartitionKind::Mbr { type_byte, active: false },
                Err(e) => return Err(e),
            },
        };
        let uuid: Option<[u8; 16]> = match self.table_kind {
            TableKind::Gpt => Some(random_uuid(random)),
            TableKind::Mbr => None,
        };
        proof {
            lemma_set_usable_bounded(self@);
        }
        let part: Partition = Partition {
            start: start_lba * SECTOR_SIZE,
            length: length_sectors * SECTOR_SIZE,
            kind,
            label,
            uuid,
            slot: None,
            issues: 0,
        };
        let idx: usize = self.partitions.len();
        assert(views(self.partitions@.push(part)) =~= views(self.partitions@).push(part@));
        self.partitions.push(part);
        Ok(idx)
    }
}

/// Two partitions of a list overlap, as far as both have a span.
pub open spec fn meets(a: PartitionView, b: PartitionView) -> bool {
    span(a) is Ok && span(b) is Ok && share_sector(span(a)->Ok_0, span(b)->Ok_0)
}

/// The `i`th partition overlaps another.
pub open spec fn meets_another(parts: Seq<PartitionView>, i: int) -> bool {
    exists|j: int| 0 <= j < parts.len() && j != i && #[trigger] meets(parts[i], parts[j])
}

/// `issues` with the overlap bit set or cleared.
pub open spec fn with_overlap(issues: u32, overlaps: bool) -> u32 {
    if overlaps {
        issues | entry_issue::OVERLAPS_ANOTHER
    } else {
        issues & !entry_issue::OVERLAPS_ANOTHER
    }
}

/// The partitions, each with its overlap bit as it now is.
pub open spec fn reflagged(parts: Seq<PartitionView>) -> Seq<PartitionView> {
    Seq::new(
        parts.len(),
        |i: int|
            PartitionView { issues: with_overlap(parts[i].issues, meets_another(parts, i)), ..parts[i] },
    )
}

/// The set after an edit: the overlap bits of a GPT follow it.
pub open spec fn edited(s: SetView, parts: Seq<PartitionView>) -> SetView {
    SetView {
        parts: match s.table_kind {
            TableKind::Gpt => reflagged(parts),
            TableKind::Mbr => parts,
        },
        ..s
    }
}

/// Sectors that a resize to `length` bytes gives: whole sectors, rounded up
/// to 1 MiB.
pub open spec fn resize_len(length: u64) -> int {
    round_up(whole_sectors(length as int))
}

/// What keeps the partition at `i` from being resized. On a disk too small
/// for the table there is no last usable LBA to stay below.
pub open spec fn resize_refused(s: SetView, i: int, length: u64) -> Option<Error> {
    let start = s.parts[i].start / 512;
    match set_usable(s) {
        Err(Error::DeviceTooSmall) => Some(Error::Invalid("resize extends past last usable LBA")),
        Err(e) => Some(e),
        Ok((_, last)) => if start + resize_len(length) - 1 > last {
            Some(Error::Invalid("resize extends past last usable LBA"))
        } else if s.table_kind == TableKind::Mbr && resize_len(length) > MBR_LBA_MAX {
            Some(Error::Invalid("resize exceeds MBR 32-bit LBA range"))
        } else {
            clash(
                s,
                i,
                start as int,
                resize_len(length),
                Error::Invalid("resize would overlap another partition"),
            )
        },
    }
}

/// The partition after a resize. In a GPT it no longer runs past the usable
/// range.
pub open spec fn resized(kind: TableKind, p: PartitionView, length: u64) -> PartitionView {
    PartitionView {
        length: (resize_len(length) * 512) as u64,
        issues: match kind {
            TableKind::Gpt => p.issues & !entry_issue::PAST_LAST_USABLE,
            TableKind::Mbr => p.issues,
        },
        ..p
    }
}

/// The partitions that have a span: where each stands in the list, and its
/// span.
spec fn spanned(
    parts: Seq<PartitionView>,
    n: int,
    at: Seq<usize>,
    spans: Seq<(u64, u64)>,
) -> bool {
    &&& at.len() == spans.len()
    &&& forall|k: int|
        0 <= k < at.len() ==> (#[trigger] at[k]) < n && span(parts[at[k] as int]) == Ok::<
            (u64, u64),
            Error,
        >(spans[k])
    &&& forall|j: int, k: int| 0 <= j < k < at.len() ==> #[trigger] at[j] < #[trigger] at[k]
    &&& forall|i: int|
        0 <= i < n && span(#[trigger] parts[i]) is Ok ==> exists|k: int|
            0 <= k < at.len() && #[trigger] at[k] == i
}

/// A flag among the spans says whether the partition overlaps another.
proof fn lemma_flag_means_meeting(
    parts: Seq<PartitionView>,
    at: Seq<usize>,
    spans: Seq<(u64, u64)>,
    flags: Seq<bool>,
    k: int,
)
    requires
        spanned(parts, parts.len() as int, at, spans),
        0 <= k < at.len(),
        flags.len() == spans.len(),
        flags[k] <==> exists|j: int|
            0 <= j < spans.len() && j != k && share_sector(spans[k], #[trigger] spans[j]),
    ensures
        flags[k] == meets_another(parts, at[k] as int),
{
    let i = at[k] as int;
    if flags[k] {
        let j = choose|j: int|
            0 <= j < spans.len() && j != k && share_sector(spans[k], #[trigger] spans[j]);
        assert(at[j] != at[k]) by {
            if j < k {
                assert(at[j] < at[k]);
            } else {
                assert(at[k] < at[j]);
            }
        }
        assert(meets(parts[i], parts[at[j] as int]));
    }
    if meets_another(parts, i) {
        let m = choose|m: int| 0 <= m < parts.len() && m != i && #[trigger] meets(parts[i], parts[m]);
        assert(span(parts[m]) is Ok);
        let j = choose|j: int| 0 <= j < at.len() && #[trigger] at[j] == m;
        assert(share_sector(spans[k], spans[j]));
    }
}

impl PartitionSet {
    fn resolve(&self, target: PartitionRef) -> (r: Result<usize>)
        ensures
            match r {
                Ok(i) => meant(self@.parts, target) == Ok::<int, Error>(i as int) && i
                    < self@.parts.len(),
                Err(e) => meant(self@.parts, target) == Err::<int, Error>(e),
            },
    {
        match target {
            PartitionRef::Index(i) => {
                if i >= self.partitions.len() {
                    return Err(Error::Invalid("index out of range"));
                }
                Ok(i)
            },
            PartitionRef::Uuid(u) => {
                let mut k: usize = 0;
                while k < self.partitions.len()
                    invariant
                        k <= self.partitions@.len(),
                        target == PartitionRef::Uuid(u),
                        uuid_index(self@.parts, u@, k as int) == uuid_index(self@.parts, u@, 0),
                    decreases self.partitions@.len() - k,
                {
                    assert(self@.parts[k as int] == self.partitions@[k as int]@);
                    if let Some(own) = self.partitions[k].uuid {
                        if bytes_eq(&own, &u) {
                            assert(self@.parts[k as int].uuid == Some(u@));
                            return Ok(k);
                        }
                    }
                    k = k + 1;
                }
                Err(Error::Invalid("uuid not found"))
            },
        }
    }

    /// Brings the overlap bit of every partition up to date.
    fn reflag(&mut self)
        ensures
            final(self)@ == (SetView { parts: reflagged(old(self)@.parts), ..old(self)@ }),
    {
        let ghost parts = views(self.partitions@);
        let mut at: Vec<usize> = Vec::new();
        let mut spans: Vec<(u64, u64)> = Vec::new();
        let mut i: usize = 0;
        while i < self.partitions.len()
            invariant
                i <= self.partitions@.len(),
                parts == views(self.partitions@),
                self@ == old(self)@,
                spanned(parts, i as int, at@, spans@),
                gpt::forwards(spans@),
            decreases self.partitions@.len() - i,
        {
            assert(parts[i as int] == self.partitions@[i as int]@);
            let ghost at0 = at@;
            if let Ok(s) = self.partitions[i].sector_span() {
                at.push(i);
                spans.push(s);
                assert(at@[at0.len() as int] == i);
            }
            assert forall|j: int| 0 <= j < i + 1 && span(#[trigger] parts[j]) is Ok implies exists|
                k: int,
            |
                0 <= k < at@.len() && #[trigger] at@[k] == j by {
                if j < i {
                    let k = choose|k: int| 0 <= k < at0.len() && #[trigger] at0[k] == j;
                    assert(at@[k] == j);
                }
            }
            i = i + 1;
        }
        let flags: Vec<bool> = mark_overlaps(spans.as_slice());
        let mut i: usize = 0;
        while i < self.partitions.len()
            invariant
                i <= self.partitions@.len() == parts.len(),
                self@ == (SetView { parts: self@.parts, ..old(self)@ }),
                forall|j: int|
                    0 <= j < i ==> (#[trigger] self.partitions@[j])@ == (PartitionView {
                        issues: with_overlap(parts[j].issues, false),
                        ..parts[j]
                    }),
                forall|j: int|
                    i <= j < parts.len() ==> (#[trigger] self.partitions@[j])@ == parts[j],
            decreases self.partitions@.len() - i,
        {
            let issues: u32 = self.partitions[i].issues;
            assert(self.partitions@[i as int]@ == parts[i as int]);
            self.partitions[i].issues = issues & !entry_issue::OVERLAPS_ANOTHER;
            i = i + 1;
        }
        let mut k: usize = 0;
        while k < at.len()
            invariant
                k <= at@.len(),
                self.partitions@.len() == parts.len(),
                self@ == (SetView { parts: self@.parts, ..old(self)@ }),
                spanned(parts, parts.len() as int, at@, spans@),
                flags@.len() == spans@.len(),
                forall|i: int|
                    0 <= i < spans@.len() ==> (#[trigger] flags@[i] <==> exists|j: int|
                        0 <= j < spans@.len() && j != i && share_sector(
                            spans@[i],
                            #[trigger] spans@[j],
                        )),
                forall|j: int|
                    0 <= j < k ==> (#[trigger] self.partitions@[at@[j] as int])@ == reflagged(
                        parts,
                    )[at@[j] as int],
                forall|i: int|
                    0 <= i < parts.len() && (forall|j: int|
                        0 <= j < k ==> #[trigger] at@[j] != i) ==> (
                    #[trigger] self.partitions@[i])@ == (PartitionView {
                        issues: with_overlap(parts[i].issues, false),
                        ..parts[i]
                    }),
            decreases at@.len() - k,
        {
            let here: usize = at[k];
            proof {
                lemma_flag_means_meeting(parts, at@, spans@, flags@, k as int);
                assert forall|j: int| 0 <= j < k implies #[trigger] at@[j] != here by {
                    assert(at@[j] < at@[k as int]);
                }
            }
            let ghost before = self.partitions@;
            assert(before[here as int]@.issues == with_overlap(parts[here as int].issues, false));
            if flags[k] {
                let issues: u32 = self.partitions[here].issues;
                self.partitions[here].issues = issues | entry_issue::OVERLAPS_ANOTHER;
                proof {
                    let x = parts[here as int].issues;
                    assert((x & !4u32) | 4u32 == x | 4u32) by (bit_vector);
                }
            }
            proof {
                assert(self.partitions@[here as int]@ == reflagged(parts)[here as int]);
                assert forall|j: int| 0 <= j < k + 1 implies (
                #[trigger] self.partitions@[at@[j] as int])@ == reflagged(parts)[at@[j] as int] by {
                    if j < k {
                        assert(at@[j] != here);
                        assert(self.partitions@[at@[j] as int] == before[at@[j] as int]);
                    }
                }
                assert forall|i: int|
                    0 <= i < parts.len() && (forall|j: int|
                        0 <= j < k + 1 ==> #[trigger] at@[j] != i) implies (
                #[trigger] self.partitions@[i])@ == (PartitionView {
                    issues: with_overlap(parts[i].issues, false),
                    ..parts[i]
                }) by {
                    assert(at@[k as int] != i);
                    assert(forall|j: int| 0 <= j < k ==> #[trigger] at@[j] != i);
                    assert(self.partitions@[i] == before[i]);
                }
            }
            k = k + 1;
        }
        proof {
            assert forall|i: int| 0 <= i < parts.len() implies (#[trigger] self.partitions@[i])@
                == reflagged(parts)[i] by {
                if span(parts[i]) is Ok {
                    let k = choose|k: int| 0 <= k < at@.len() && #[trigger] at@[k] == i;
                    assert(self.partitions@[at@[k] as int]@ == reflagged(parts)[at@[k] as int]);
                } else {
                    assert forall|j: int| 0 <= j < at@.len() implies #[trigger] at@[j] != i by {}
                    assert(!meets_another(parts, i));
                }
            }
            assert(views(self.partitions@) =~= reflagged(parts));
        }
    }

    /// Remove a partition. Refused if the reference names none. The overlap
    /// bits of a GPT follow the edit.
    pub fn remove(&mut self, target: PartitionRef) -> (r: Result<()>)
        ensures
            match meant(old(self)@.parts, target) {
                Err(e) => r == Err::<(), Error>(e) && final(self)@ == old(self)@,
                Ok(i) => r is Ok && final(self)@ == edited(
                    old(self)@,
                    old(self)@.parts.remove(i),
                ),
            },
    {
        let idx: usize = match self.resolve(target) {
            Ok(i) => i,
            Err(e) => return Err(e),
        };
        self.partitions.remove(idx);
        assert(views(self.partitions@) =~= old(self)@.parts.remove(idx as int));
        if self.table_kind == TableKind::Gpt {
            self.reflag();
        }
        Ok(())
    }

    /// Resize a partition. The new length is rounded up to the next 1 MiB,
    /// and held against the usable range and the other partitions. The issue
    /// bits of a GPT follow the edit.
    pub fn resize(&mut self, target: PartitionRef, new_length: u64) -> (r: Result<()>)
        ensures
            if new_length == 0 {
                r == Err::<(), Error>(Error::Invalid("zero length")) && final(self)@ == old(self)@
            } else {
                match meant(old(self)@.parts, target) {
                    Err(e) => r == Err::<(), Error>(e) && final(self)@ == old(self)@,
                    Ok(i) => match resize_refused(old(self)@, i, new_length) {
                        Some(e) => r == Err::<(), Error>(e) && final(self)@ == old(self)@,
                        None => r is Ok && final(self)@ == edited(
                            old(self)@,
                            old(self)@.parts.update(
                                i,
                                resized(
                                    old(self)@.table_kind,
                                    old(self)@.parts[i],
                                    new_length,
                                ),
                            ),
                        ),
                    },
                }
            },
    {
        if new_length == 0 {
            return Err(Error::Invalid("zero length"));
        }
        let idx: usize = match self.resolve(target) {
            Ok(i) => i,
            Err(e) => return Err(e),
        };
        let ghost parts = self@.parts;
        assert(parts[idx as int] == self.partitions@[idx as int]@);
        let length_sectors: u64 = align_up(sectors_in(new_length));
        let (_, last_usable_lba) = match self.usable_range() {
            Ok(range) => range,
            Err(Error::DeviceTooSmall) => return Err(
                Error::Invalid("resize extends past last usable LBA"),
            ),
            Err(e) => return Err(e),
        };
        let start_lba: u64 = self.partitions[idx].start / SECTOR_SIZE;
        if start_lba + (length_sectors - 1) > last_usable_lba {
            return Err(Error::Invalid("resize extends past last usable LBA"));
        }
        if self.table_kind == TableKind::Mbr && length_sectors > MBR_LBA_MAX {
            return Err(Error::Invalid("resize exceeds MBR 32-bit LBA range"));
        }
        match self.check_place(
            Some(idx),
            start_lba,
            length_sectors,
            "resize would overlap another partition",
        ) {
            Ok(()) => {},
            Err(e) => return Err(e),
        }
        proof {
            lemma_set_usable_bounded(self@);
        }
        self.partitions[idx].length = length_sectors * SECTOR_SIZE;
        if self.table_kind == TableKind::Gpt {
            let issues: u32 = self.partitions[idx].issues;
            self.partitions[idx].issues = issues & !entry_issue::PAST_LAST_USABLE;
        }
        assert(views(self.partitions@) =~= parts.update(
            idx as int,
            resized(self.table_kind, parts[idx as int], new_length),
        ));
        if self.table_kind == TableKind::Gpt {
            self.reflag();
        }
        Ok(())
    }
}

/// The shape that a header describes.
pub open spec fn geometry_of(h: HeaderView) -> GptGeometry {
    GptGeometry {
        num_entries: h.num_partition_entries,
        entry_size: h.partition_entry_size,
        entry_lba: h.partition_entry_lba,
        declared_usable: Some((h.first_usable_lba, h.last_usable_lba)),
    }
}

/// The partition set of a device, or why there is none to edit.
pub open spec fn set_on(content: Seq<u8>, size: u64) -> core::result::Result<SetView, Error> {
    let lba0 = window(content, 0, 512);
    match table_found(content, size) {
        Err(e) => Err(e),
        Ok((TableKind::Mbr, parts)) => Ok(
            SetView {
                table_kind: TableKind::Mbr,
                parts,
                disk_size: size,
                disk_guid: zeros(16),
                geometry: canonical_geometry(),
                reserved: unlisted(lba0, 4),
                tails: Map::empty(),
            },
        ),
        Ok((TableKind::Gpt, parts)) => {
            let h = header_in(lba1_on(content, size))->Ok_0;
            let array = array_on(content, size, h)->Ok_0;
            let entry_size = h.partition_entry_size as int;
            let n = h.num_partition_entries as int;
            if entry_size > 128 && !tails_agree(array, entry_size, n) {
                Err(Error::GptCorrupt("two entries share a UUID and differ in their tails"))
            } else {
                Ok(
                    SetView {
                        table_kind: TableKind::Gpt,
                        parts,
                        disk_size: size,
                        disk_guid: h.disk_guid,
                        geometry: geometry_of(h),
                        reserved: in_use(lba0, 4),
                        tails: if entry_size == 128 {
                            Map::empty()
                        } else {
                            tails_in(array, entry_size, n)
                        },
                    },
                )
            }
        },
    }
}

/// What a set read from a device says.
pub open spec fn set_view(r: Result<PartitionSet>) -> core::result::Result<SetView, Error> {
    match r {
        Ok(s) => Ok(s@),
        Err(e) => Err(e),
    }
}

/// What a GPT set writes.
pub open spec fn table_of(s: SetView) -> GptTable {
    GptTable {
        parts: s.parts,
        disk_guid: s.disk_guid,
        geometry: s.geometry,
        tails: s.tails,
        recorded: s.reserved,
    }
}

/// What writing the table of a set does to a device.
pub open spec fn table_put<D: BlockDevice + ?Sized>(
    before: &D,
    after: &D,
    s: SetView,
    r: Result<()>,
) -> bool {
    match s.table_kind {
        TableKind::Gpt => gpt_commit(before, after, table_of(s), r),
        TableKind::Mbr => mbr_commit(
            before,
            after,
            window(before.content(), 0, 512),
            s.parts,
            s.reserved,
            r,
        ),
    }
}

/// What comes of a write that answered `written`, and of the flush after it.
///
/// A write that failed is not flushed, and its answer stands. Else the flush
/// decides: its failure is handed on as it came.
pub open spec fn flushed<D: BlockDevice + ?Sized>(
    before: &D,
    after: &D,
    written: Result<()>,
    r: Result<()>,
) -> bool {
    match written {
        Err(e) => r == Err::<(), Error>(e) && no_flush_failed(before, after),
        Ok(()) => match after.flush_fault() {
            None => r is Ok && after.settled(),
            Some(e) => r == Err::<(), Error>(Error::Block(e)) && !before.dependable(),
        },
    }
}

/// What committing a set does to a device: its table is written, then
/// flushed. Where the flush alone failed, the table is there in full.
pub open spec fn committed<D: BlockDevice + ?Sized>(
    before: &D,
    after: &D,
    s: SetView,
    r: Result<()>,
) -> bool {
    exists|written: Result<()>| #[trigger]
        table_put(before, after, s, written) && flushed(before, after, written, r)
}

/// The slots that a commit of the set puts the partitions into.
pub open spec fn set_slots(s: SetView) -> core::result::Result<Seq<u32>, Error> {
    match s.table_kind {
        TableKind::Gpt => slots_for(claims(s.parts), s.geometry.num_entries as int, Seq::empty()),
        TableKind::Mbr => slots_for(claims(s.parts), 4, reserved_slots(s.reserved)),
    }
}

/// The set with each partition's slot recorded.
pub open spec fn with_slots(s: SetView, slots: Seq<u32>) -> SetView {
    SetView {
        parts: Seq::new(
            s.parts.len(),
            |i: int| PartitionView { slot: Some(slots[i]), ..s.parts[i] },
        ),
        ..s
    }
}

impl PartitionSet {
    /// Probe the device and return its partition set, ready for editing.
    ///
    /// A GPT set keeps what its header says of the table's shape, what
    /// follows the standard bytes of its entries, and the entries of the MBR
    /// in front of it. An MBR set keeps the entries that are no volumes.
    pub fn from_probe<D: BlockRead + ?Sized>(dev: &D) -> (r: Result<Self>)
        ensures
            outcome(
                set_view(r),
                set_on(dev.content(), dev.stated_size()),
                dev.dependable(),
                dev.answers(),
            ),
    {
        let (table_kind, partitions) = match probe(dev) {
            Ok(v) => v,
            Err(e) => return Err(e),
        };
        let disk_size: u64 = dev.size_bytes();
        let mut lba0: Sector = [0u8; SECTOR_SIZE_USIZE];
        match dev.read_at(0, &mut lba0) {
            Ok(()) => {},
            Err(e) => return Err(Error::Block(e)),
        }
        assert(lba0@ =~= window(dev.content(), 0, 512));
        if table_kind == TableKind::Mbr {
            let s: PartitionSet = PartitionSet {
                table_kind,
                partitions,
                disk_size,
                disk_guid: [0u8; 16],
                gpt_geometry: GptGeometry::canonical(),
                reserved: mbr::reserved_entries(&lba0),
                entry_tails: EntryTails::new(),
            };
            assert(s@.disk_guid =~= zeros(16));
            return Ok(s);
        }
        let lba1: Sector = match read_lba1(dev) {
            Ok(s) => s,
            Err(e) => return Err(e),
        };
        let header: Header = match parse_primary_header(&lba1) {
            Ok(h) => h,
            Err(e) => return Err(e),
        };
        let array: Vec<u8> = match parse_entry_array(dev, &header) {
            Ok((_parts, array)) => array,
            Err(e) => return Err(e),
        };
        let entry_tails: EntryTails = match collect_tails(
            array.as_slice(),
            header.partition_entry_size,
            header.num_partition_entries,
        ) {
            Ok(t) => t,
            Err(e) => return Err(e),
        };
        Ok(
            PartitionSet {
                table_kind,
                partitions,
                disk_size,
                disk_guid: header.disk_guid,
                gpt_geometry: GptGeometry::from_header(&header),
                reserved: mbr::entries_in_use(&lba0),
                entry_tails,
            },
        )
    }

    /// Write the table of the set to the device.
    fn put_table<D: BlockDevice + ?Sized>(&self, dev: &mut D) -> (written: Result<()>)
        requires
            self.table_kind == TableKind::Gpt ==> self.gpt_geometry.bytes_spec() <= usize::MAX,
        ensures
            table_put(old(dev), final(dev), self@, written),
            no_flush_failed(old(dev), final(dev)),
    {
        match self.table_kind {
            TableKind::Gpt => write_gpt_preserving(
                dev,
                self.partitions.as_slice(),
                self.disk_guid,
                self.gpt_geometry,
                &self.entry_tails,
                self.reserved.as_slice(),
            ),
            TableKind::Mbr => write_mbr_preserving(
                dev,
                self.partitions.as_slice(),
                self.reserved.as_slice(),
            ),
        }
    }

    /// Write the set to the device and flush it.
    ///
    /// A partition that has no slot yet is given one on disk, and the set
    /// does not learn of it: removing another partition and committing again
    /// may move it. [`commit_mut`](Self::commit_mut) records it.
    pub fn commit<D: BlockDevice + ?Sized>(&self, dev: &mut D) -> (r: Result<()>)
        requires
            self.table_kind == TableKind::Gpt ==> self.gpt_geometry.bytes_spec() <= usize::MAX,
        ensures
            committed(old(dev), final(dev), self@, r),
    {
        let written: Result<()> = self.put_table(dev);
        match written {
            Ok(()) => {},
            Err(e) => {
                assert(table_put(old(dev), dev, self@, Err(e)));
                return Err(e);
            },
        }
        let synced = dev.flush();
        assert(table_put(old(dev), dev, self@, Ok(())));
        match synced {
            Ok(()) => Ok(()),
            Err(e) => Err(Error::Block(e)),
        }
    }

    /// The slots that a commit puts the partitions into.
    fn slots(&self) -> (r: Result<Vec<u32>>)
        ensures
            match r {
                Ok(slots) => set_slots(self@) == Ok::<Seq<u32>, Error>(slots@),
                Err(e) => set_slots(self@) == Err::<Seq<u32>, Error>(e),
            },
    {
        let ghost reserved = reserved_views(self.reserved@);
        let mut taken: Vec<u32> = Vec::new();
        let mut num: u32 = self.gpt_geometry.num_entries;
        if self.table_kind == TableKind::Mbr {
            num = mbr::layout::ENTRY_COUNT as u32;
            let mut q: usize = 0;
            while q < self.reserved.len()
                invariant
                    q <= self.reserved@.len(),
                    reserved == reserved_views(self.reserved@),
                    taken@ =~= reserved_slots(reserved).take(q as int),
                decreases self.reserved@.len() - q,
            {
                taken.push(self.reserved[q].slot);
                q = q + 1;
            }
            assert(taken@ =~= reserved_slots(reserved));
        } else {
            assert(taken@ =~= Seq::<u32>::empty());
        }
        assign_slots_with_taken(self.partitions.as_slice(), num, taken.as_slice())
    }

    /// As [`commit`](Self::commit), recording in the set the slot that each
    /// partition was written into: once the table is written and flushed, and
    /// only then.
    pub fn commit_mut<D: BlockDevice + ?Sized>(&mut self, dev: &mut D) -> (r: Result<()>)
        requires
            old(self).table_kind == TableKind::Gpt ==> old(self).gpt_geometry.bytes_spec()
                <= usize::MAX,
        ensures
            committed(old(dev), final(dev), old(self)@, r),
            r is Err ==> final(self)@ == old(self)@,
            r is Ok ==> set_slots(old(self)@) is Ok && final(self)@ == with_slots(
                old(self)@,
                set_slots(old(self)@)->Ok_0,
            ),
    {
        match self.commit(dev) {
            Ok(()) => {},
            Err(e) => return Err(e),
        }
        let slots: Vec<u32> = match self.slots() {
            Ok(s) => s,
            Err(e) => return Err(e),
        };
        proof {
            lemma_slots_cover(self@);
        }
        let ghost parts = self@.parts;
        let mut k: usize = 0;
        while k < self.partitions.len()
            invariant
                k <= self.partitions@.len() == parts.len() == slots@.len(),
                self@ == (SetView { parts: self@.parts, ..old(self)@ }),
                forall|j: int|
                    0 <= j < k ==> (#[trigger] self.partitions@[j])@ == (PartitionView {
                        slot: Some(slots@[j]),
                        ..parts[j]
                    }),
                forall|j: int|
                    k <= j < parts.len() ==> (#[trigger] self.partitions@[j])@ == parts[j],
            decreases self.partitions@.len() - k,
        {
            assert(self.partitions@[k as int]@ == parts[k as int]);
            self.partitions[k].slot = Some(slots[k]);
            k = k + 1;
        }
        assert(views(self.partitions@) =~= with_slots(old(self)@, slots@).parts);
        Ok(())
    }
}

/// There is a slot for each partition.
proof fn lemma_slots_cover(s: SetView)
    requires
        set_slots(s) is Ok,
    ensures
        set_slots(s)->Ok_0.len() == s.parts.len(),
{
    match s.table_kind {
        TableKind::Gpt => {
            crate::gpt_write::slots::lemma_slots_are_sound(
                claims(s.parts),
                s.geometry.num_entries as int,
                Seq::empty(),
            );
        },
        TableKind::Mbr => {
            crate::gpt_write::slots::lemma_slots_are_sound(
                claims(s.parts),
                4,
                reserved_slots(s.reserved),
            );
        },
    }
}

} // verus!
