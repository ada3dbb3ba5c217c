//! GPT (GUID Partition Table): headers and partition entry arrays.

use vstd::prelude::*;

use crate::block::{inside, BlockRead};
use crate::codec::{
    bytes_at, bytes_eq, copy_range, get_guid, get_u16, get_u32, get_u64, has_at, le16, le32, le64,
    put_u32, splice, window, zeros,
};
use crate::crc::{crc32, crc32_of};
use crate::error::{outcome, past_end, Error, Result};
use crate::label::{label_in, parse_utf16_label};
use crate::probe::{
    same_kind, same_label, same_uuid, views, KindView, Partition, PartitionKind, PartitionView,
};
use crate::order::{ahead, key_order, order_by_key, sorts};
use crate::{Sector, SECTOR_SIZE_USIZE};

pub mod agreement;
pub mod attr;
pub mod entry_issue;
pub mod header_offsets;
pub mod laws;
pub mod type_guids;

pub use crate::SECTOR_SIZE;

verus! {

/// `EFI PART`, which opens a GPT header.
pub const SIGNATURE: [u8; 8] = [0x45, 0x46, 0x49, 0x20, 0x50, 0x41, 0x52, 0x54];

/// Decoded GPT header fields.
#[derive(Debug, Clone, Copy)]
pub struct Header {
    pub my_lba: u64,
    pub alternate_lba: u64,
    pub first_usable_lba: u64,
    pub last_usable_lba: u64,
    pub disk_guid: [u8; 16],
    pub partition_entry_lba: u64,
    pub num_partition_entries: u32,
    pub partition_entry_size: u32,
    pub partition_entry_array_crc32: u32,
    pub header_crc32: u32,
    pub header_size: u32,
}

/// What a [`Header`] says.
pub struct HeaderView {
    pub my_lba: u64,
    pub alternate_lba: u64,
    pub first_usable_lba: u64,
    pub last_usable_lba: u64,
    pub disk_guid: Seq<u8>,
    pub partition_entry_lba: u64,
    pub num_partition_entries: u32,
    pub partition_entry_size: u32,
    pub partition_entry_array_crc32: u32,
    pub header_crc32: u32,
    pub header_size: u32,
}

impl View for Header {
    type V = HeaderView;

    open spec fn view(&self) -> HeaderView {
        HeaderView {
            my_lba: self.my_lba,
            alternate_lba: self.alternate_lba,
            first_usable_lba: self.first_usable_lba,
            last_usable_lba: self.last_usable_lba,
            disk_guid: self.disk_guid@,
            partition_entry_lba: self.partition_entry_lba,
            num_partition_entries: self.num_partition_entries,
            partition_entry_size: self.partition_entry_size,
            partition_entry_array_crc32: self.partition_entry_array_crc32,
            header_crc32: self.header_crc32,
            header_size: self.header_size,
        }
    }
}

/// The fields of the header in `block`, taken at their offsets.
pub open spec fn header_fields(block: Seq<u8>) -> HeaderView {
    HeaderView {
        my_lba: le64(block, header_offsets::MY_LBA as int) as u64,
        alternate_lba: le64(block, header_offsets::ALTERNATE_LBA as int) as u64,
        first_usable_lba: le64(block, header_offsets::FIRST_USABLE_LBA as int) as u64,
        last_usable_lba: le64(block, header_offsets::LAST_USABLE_LBA as int) as u64,
        disk_guid: block.subrange(
            header_offsets::DISK_GUID as int,
            header_offsets::DISK_GUID + 16,
        ),
        partition_entry_lba: le64(block, header_offsets::PARTITION_ENTRY_LBA as int) as u64,
        num_partition_entries: le32(block, header_offsets::NUM_PARTITION_ENTRIES as int) as u32,
        partition_entry_size: le32(block, header_offsets::PARTITION_ENTRY_SIZE as int) as u32,
        partition_entry_array_crc32: le32(
            block,
            header_offsets::PARTITION_ENTRY_ARRAY_CRC32 as int,
        ) as u32,
        header_crc32: le32(block, header_offsets::HEADER_CRC32 as int) as u32,
        header_size: le32(block, header_offsets::HEADER_SIZE as int) as u32,
    }
}

/// The bytes the header CRC covers: the header, its CRC field zeroed.
pub open spec fn crc_covered(block: Seq<u8>, header_size: int) -> Seq<u8> {
    splice(block.take(header_size), header_offsets::HEADER_CRC32 as int, zeros(4))
}

/// `n` is 128 times a power of two.
pub open spec fn doubles_128(n: int) -> bool
    decreases n,
{
    n == 128 || (n > 128 && n % 2 == 0 && doubles_128(n / 2))
}

/// Whether `n` is 128 times a power of two.
pub fn is_doubled_128(n: u32) -> (r: bool)
    ensures
        r == doubles_128(n as int),
{
    let mut m: u32 = n;
    while m > 128 && m % 2 == 0
        invariant
            doubles_128(m as int) == doubles_128(n as int),
        decreases m,
    {
        m = m / 2;
    }
    m == 128
}

/// The header in `block`, or what is wrong with it.
pub open spec fn header_in(block: Seq<u8>) -> core::result::Result<HeaderView, Error> {
    let h = header_fields(block);
    if !has_at(block, header_offsets::SIGNATURE as int, SIGNATURE@) {
        Err(Error::GptCorrupt("missing EFI PART signature"))
    } else if h.header_size < 92 || h.header_size > block.len() {
        Err(Error::GptCorrupt("header_size out of range"))
    } else if crc32(crc_covered(block, h.header_size as int)) != h.header_crc32 {
        Err(Error::GptHeaderCrc)
    } else if le16(block, header_offsets::REVISION + 2) != 1 {
        Err(Error::GptCorrupt("major revision is not 1"))
    } else if h.partition_entry_size < 128 || h.partition_entry_size > 4096 {
        Err(Error::GptCorrupt("partition_entry_size out of range"))
    } else if !doubles_128(h.partition_entry_size as int) {
        Err(Error::GptCorrupt("partition_entry_size is not 128 times a power of two"))
    } else if h.num_partition_entries > 4096 {
        Err(Error::GptCorrupt("num_partition_entries > 4096"))
    } else {
        Ok(h)
    }
}

/// Parse and CRC-validate the GPT header that opens a logical block of any
/// size: the header may fill it.
pub fn parse_header_block(block: &[u8]) -> (r: Result<Header>)
    requires
        block.len() >= 92,
    ensures
        match r {
            Ok(h) => header_in(block@) == Ok::<HeaderView, Error>(h@),
            Err(e) => header_in(block@) == Err::<HeaderView, Error>(e),
        },
{
    if !bytes_at(block, header_offsets::SIGNATURE, &SIGNATURE) {
        return Err(Error::GptCorrupt("missing EFI PART signature"));
    }
    let header_size: u32 = get_u32(block, header_offsets::HEADER_SIZE);
    if header_size < 92 || header_size as usize > block.len() {
        return Err(Error::GptCorrupt("header_size out of range"));
    }
    let header_crc32: u32 = get_u32(block, header_offsets::HEADER_CRC32);
    let mut covered: Vec<u8> = copy_range(block, 0, header_size as usize);
    put_u32(covered.as_mut_slice(), header_offsets::HEADER_CRC32, 0);
    assert(covered@ =~= crc_covered(block@, header_size as int));
    if crc32_of(covered.as_slice()) != header_crc32 {
        return Err(Error::GptHeaderCrc);
    }
    if get_u16(block, header_offsets::REVISION + 2) != 1 {
        return Err(Error::GptCorrupt("major revision is not 1"));
    }
    let partition_entry_size: u32 = get_u32(block, header_offsets::PARTITION_ENTRY_SIZE);
    if partition_entry_size < 128 || partition_entry_size > 4096 {
        return Err(Error::GptCorrupt("partition_entry_size out of range"));
    }
    if !is_doubled_128(partition_entry_size) {
        return Err(Error::GptCorrupt("partition_entry_size is not 128 times a power of two"));
    }
    let num_partition_entries: u32 = get_u32(block, header_offsets::NUM_PARTITION_ENTRIES);
    if num_partition_entries > 4096 {
        return Err(Error::GptCorrupt("num_partition_entries > 4096"));
    }
    Ok(
        Header {
            my_lba: get_u64(block, header_offsets::MY_LBA),
            alternate_lba: get_u64(block, header_offsets::ALTERNATE_LBA),
            first_usable_lba: get_u64(block, header_offsets::FIRST_USABLE_LBA),
            last_usable_lba: get_u64(block, header_offsets::LAST_USABLE_LBA),
            disk_guid: get_guid(block, header_offsets::DISK_GUID),
            partition_entry_lba: get_u64(block, header_offsets::PARTITION_ENTRY_LBA),
            num_partition_entries,
            partition_entry_size,
            partition_entry_array_crc32: get_u32(
                block,
                header_offsets::PARTITION_ENTRY_ARRAY_CRC32,
            ),
            header_crc32,
            header_size,
        },
    )
}

/// Parse and CRC-validate a GPT header sector. Does not touch the entry
/// array.
pub fn parse_header(sector: &Sector) -> (r: Result<Header>)
    ensures
        match r {
            Ok(h) => header_in(sector@) == Ok::<HeaderView, Error>(h@),
            Err(e) => header_in(sector@) == Err::<HeaderView, Error>(e),
        },
{
    parse_header_block(sector)
}

/// Which of the usable-range rules the inclusive LBA span breaks.
pub open spec fn range_issues_spec(start: int, end: int, first: int, last: int) -> u32 {
    (if start < first {
        entry_issue::BEFORE_FIRST_USABLE
    } else {
        entry_issue::NONE
    }) | (if start > last || end > last {
        entry_issue::PAST_LAST_USABLE
    } else {
        entry_issue::NONE
    })
}

/// Which of the header's usable-range rules the inclusive LBA span
/// `[start_lba, end_lba]` breaks.
///
/// The start has an upper bound of its own, so a span that runs backwards
/// is reported too.
pub fn range_issues(start_lba: u64, end_lba: u64, first_usable: u64, last_usable: u64) -> (r: u32)
    ensures
        r == range_issues_spec(
            start_lba as int,
            end_lba as int,
            first_usable as int,
            last_usable as int,
        ),
{
    let before: u32 = if start_lba < first_usable {
        entry_issue::BEFORE_FIRST_USABLE
    } else {
        entry_issue::NONE
    };
    let past: u32 = if start_lba > last_usable || end_lba > last_usable {
        entry_issue::PAST_LAST_USABLE
    } else {
        entry_issue::NONE
    };
    before | past
}

/// Where each span starts.
pub open spec fn starts(spans: Seq<(u64, u64)>) -> Seq<u64> {
    spans.map_values(|s: (u64, u64)| s.0)
}

/// Of two spans, the one that starts later starts inside the other. Of two
/// that start together the one listed first counts as the earlier.
pub open spec fn runs_into(spans: Seq<(u64, u64)>, i: int, j: int) -> bool {
    if ahead(starts(spans), i, j) {
        spans[j].0 <= spans[i].1
    } else {
        spans[i].0 <= spans[j].1
    }
}

/// Two inclusive spans share a sector.
pub open spec fn share_sector(a: (u64, u64), b: (u64, u64)) -> bool {
    a.0 <= b.1 && b.0 <= a.1
}

/// The span at `i` runs into another one, or another one into it.
pub open spec fn overlapped(spans: Seq<(u64, u64)>, i: int) -> bool {
    exists|j: int| 0 <= j < spans.len() && j != i && #[trigger] runs_into(spans, i, j)
}

/// No span runs backwards.
pub open spec fn forwards(spans: Seq<(u64, u64)>) -> bool {
    forall|i: int| 0 <= i < spans.len() ==> (#[trigger] spans[i]).0 <= spans[i].1
}

/// For spans that do not run backwards, to run into one another is to share
/// a sector.
pub proof fn lemma_runs_into_is_sharing(spans: Seq<(u64, u64)>, i: int, j: int)
    requires
        forwards(spans),
        0 <= i < spans.len(),
        0 <= j < spans.len(),
    ensures
        runs_into(spans, i, j) == share_sector(spans[i], spans[j]),
{
}

/// The span with the highest end among the first `k` in order, the first of
/// those that tie.
#[verifier::opaque]
spec fn highest(spans: Seq<(u64, u64)>, order: Seq<int>, k: int, h: int) -> bool {
    &&& 0 <= h < k
    &&& forall|a: int| 0 <= a < k ==> spans[#[trigger] order[a]].1 <= spans[order[h]].1
    &&& forall|a: int| 0 <= a < h ==> spans[#[trigger] order[a]].1 < spans[order[h]].1
}

/// What the sweep has established once the first `k` spans in order have
/// been visited: each of them is flagged just where it runs into another of
/// them.
#[verifier::opaque]
spec fn swept(spans: Seq<(u64, u64)>, order: Seq<int>, k: int, flags: Seq<bool>) -> bool {
    &&& flags.len() == spans.len()
    &&& forall|a: int|
        0 <= a < k ==> (flags[#[trigger] order[a]] <==> exists|b: int|
            0 <= b < k && b != a && runs_into(spans, order[a], #[trigger] order[b]))
    &&& forall|a: int| k <= a < spans.len() ==> !flags[#[trigger] order[a]]
}

/// One step of the sweep. Only the newcomer and the span with the highest
/// end so far are flagged; any other that the newcomer runs into has been
/// flagged by that one already.
proof fn lemma_sweep(
    spans: Seq<(u64, u64)>,
    order: Seq<int>,
    k: int,
    h: int,
    before: Seq<bool>,
    after: Seq<bool>,
)
    requires
        sorts(starts(spans), order, spans.len() as int),
        0 < k < spans.len(),
        swept(spans, order, k, before),
        highest(spans, order, k, h),
        after == (if spans[order[k]].0 <= spans[order[h]].1 {
            before.update(order[k], true).update(order[h], true)
        } else {
            before
        }),
    ensures
        swept(spans, order, k + 1, after),
        highest(
            spans,
            order,
            k + 1,
            if spans[order[h]].1 < spans[order[k]].1 {
                k
            } else {
                h
            },
        ),
{
    reveal(highest);
    reveal(swept);
    let n = spans.len() as int;
    let keys = starts(spans);
    let hits = spans[order[k]].0 <= spans[order[h]].1;
    assert forall|a: int, b: int| 0 <= a < n && 0 <= b < n && a != b implies order[a]
        != order[b] by {
        if a < b {
            assert(ahead(keys, order[a], order[b]));
        } else {
            assert(ahead(keys, order[b], order[a]));
        }
    }
    assert(ahead(keys, order[h], order[k]));
    assert(runs_into(spans, order[k], order[h]) == hits);
    assert(runs_into(spans, order[h], order[k]) == hits);
    assert forall|a: int| 0 <= a < k + 1 implies (after[#[trigger] order[a]] <==> exists|b: int|
        0 <= b < k + 1 && b != a && runs_into(spans, order[a], #[trigger] order[b])) by {
        if a == k {
            if hits {
                assert(0 <= h < k + 1 && h != a && runs_into(spans, order[a], order[h]));
            } else {
                assert forall|b: int| 0 <= b < k implies !runs_into(
                    spans,
                    order[a],
                    #[trigger] order[b],
                ) by {
                    assert(ahead(keys, order[b], order[k]));
                }
            }
        } else {
            let old_hit = exists|b: int|
                0 <= b < k && b != a && runs_into(spans, order[a], #[trigger] order[b]);
            assert(before[order[a]] <==> old_hit);
            assert(ahead(keys, order[a], order[k]));
            let new_hit = runs_into(spans, order[a], order[k]);
            assert(new_hit == (spans[order[k]].0 <= spans[order[a]].1));
            if after[order[a]] {
                if !before[order[a]] {
                    assert(a == h && hits);
                    assert(0 <= k < k + 1 && k != a && runs_into(spans, order[a], order[k]));
                }
            }
            if new_hit && a != h {
                if h < a {
                    assert(ahead(keys, order[h], order[a]));
                    assert(runs_into(spans, order[a], order[h]));
                } else {
                    assert(ahead(keys, order[a], order[h]));
                    assert(ahead(keys, order[h], order[k]));
                    assert(spans[order[h]].0 <= spans[order[k]].0);
                    assert(runs_into(spans, order[a], order[h]));
                }
                assert(old_hit);
            }
            if exists|b: int|
                0 <= b < k + 1 && b != a && runs_into(spans, order[a], #[trigger] order[b]) {
                let b = choose|b: int|
                    0 <= b < k + 1 && b != a && runs_into(spans, order[a], #[trigger] order[b]);
                assert(b == k || old_hit);
            }
        }
    }
}

/// The first span visited runs into none before it.
proof fn lemma_sweep_starts(spans: Seq<(u64, u64)>, order: Seq<int>, flags: Seq<bool>)
    requires
        sorts(starts(spans), order, spans.len() as int),
        spans.len() > 0,
        flags.len() == spans.len(),
        forall|i: int| 0 <= i < flags.len() ==> !#[trigger] flags[i],
    ensures
        swept(spans, order, 1, flags),
        highest(spans, order, 1, 0),
{
    reveal(highest);
    reveal(swept);
}

/// Once all are visited, each span is flagged just where it runs into
/// another.
proof fn lemma_sweep_ends(spans: Seq<(u64, u64)>, order: Seq<int>, flags: Seq<bool>)
    requires
        sorts(starts(spans), order, spans.len() as int),
        swept(spans, order, spans.len() as int, flags),
    ensures
        flags.len() == spans.len(),
        forall|i: int| 0 <= i < spans.len() ==> #[trigger] flags[i] == overlapped(spans, i),
{
    reveal(swept);
    let len = spans.len() as int;
    assert forall|i: int| 0 <= i < len implies #[trigger] flags[i] == overlapped(spans, i) by {
        assert(order.contains(i));
        let a = choose|a: int| 0 <= a < order.len() && order[a] == i;
        if flags[i] {
            let b = choose|b: int|
                0 <= b < len && b != a && runs_into(spans, order[a], #[trigger] order[b]);
            assert(runs_into(spans, i, order[b]));
            assert(order[b] != i) by {
                if a < b {
                    assert(ahead(starts(spans), order[a], order[b]));
                } else {
                    assert(ahead(starts(spans), order[b], order[a]));
                }
            }
        }
        if overlapped(spans, i) {
            let j = choose|j: int|
                0 <= j < spans.len() && j != i && #[trigger] runs_into(spans, i, j);
            assert(order.contains(j));
            let b = choose|b: int| 0 <= b < order.len() && order[b] == j;
            assert(runs_into(spans, order[a], order[b]));
        }
    }
}

/// For spans that do not run backwards, to be flagged is to share a sector
/// with another.
proof fn lemma_overlapped_is_sharing(spans: Seq<(u64, u64)>, i: int)
    requires
        forwards(spans),
        0 <= i < spans.len(),
    ensures
        overlapped(spans, i) <==> exists|j: int|
            0 <= j < spans.len() && j != i && share_sector(spans[i], #[trigger] spans[j]),
{
    if overlapped(spans, i) {
        let j = choose|j: int| 0 <= j < spans.len() && j != i && #[trigger] runs_into(spans, i, j);
        lemma_runs_into_is_sharing(spans, i, j);
        assert(share_sector(spans[i], spans[j]));
    }
    if exists|j: int| 0 <= j < spans.len() && j != i && share_sector(spans[i], #[trigger] spans[j]) {
        let j = choose|j: int|
            0 <= j < spans.len() && j != i && share_sector(spans[i], #[trigger] spans[j]);
        lemma_runs_into_is_sharing(spans, i, j);
        assert(runs_into(spans, i, j));
    }
}

/// `order` holds each of the indices below `n` once.
pub open spec fn rearranges(order: Seq<int>, n: int) -> bool {
    &&& order.len() == n
    &&& order.no_duplicates()
    &&& forall|k: int| 0 <= k < n ==> 0 <= #[trigger] order[k] < n
    &&& forall|i: int| 0 <= i < n ==> #[trigger] order.contains(i)
}

/// The order of the entries in the table does not change which of them
/// overlap another: rearranging the spans rearranges the answers the same
/// way.
pub proof fn lemma_overlaps_follow_the_order(spans: Seq<(u64, u64)>, order: Seq<int>, k: int)
    requires
        forwards(spans),
        rearranges(order, spans.len() as int),
        0 <= k < spans.len(),
    ensures
        overlapped(Seq::new(spans.len(), |i: int| spans[order[i]]), k) == overlapped(
            spans,
            order[k],
        ),
{
    let moved = Seq::new(spans.len(), |i: int| spans[order[i]]);
    assert(forwards(moved)) by {
        assert forall|i: int| 0 <= i < moved.len() implies (#[trigger] moved[i]).0 <= moved[i].1 by {
            assert(moved[i] == spans[order[i]]);
        }
    }
    lemma_overlapped_is_sharing(moved, k);
    lemma_overlapped_is_sharing(spans, order[k]);
    if overlapped(moved, k) {
        let j = choose|j: int|
            0 <= j < moved.len() && j != k && share_sector(moved[k], #[trigger] moved[j]);
        assert(order[j] != order[k]);
        assert(share_sector(spans[order[k]], spans[order[j]]));
    }
    if overlapped(spans, order[k]) {
        let i = choose|i: int|
            0 <= i < spans.len() && i != order[k] && share_sector(
                spans[order[k]],
                #[trigger] spans[i],
            );
        assert(order.contains(i));
        let j = choose|j: int| 0 <= j < order.len() && order[j] == i;
        assert(share_sector(moved[k], moved[j]));
    }
}

/// Which entries in `spans` share a sector with another entry.
///
/// `spans` are inclusive `(first_lba, last_lba)` pairs; the flags come in
/// the same order. One sort of the indices, one linear pass that carries
/// the highest end seen so far.
pub fn mark_overlaps(spans: &[(u64, u64)]) -> (flags: Vec<bool>)
    ensures
        flags@.len() == spans@.len(),
        forall|i: int| 0 <= i < spans@.len() ==> #[trigger] flags@[i] == overlapped(spans@, i),
        forwards(spans@) ==> forall|i: int|
            0 <= i < spans@.len() ==> (#[trigger] flags@[i] <==> exists|j: int|
                0 <= j < spans@.len() && j != i && share_sector(spans@[i], #[trigger] spans@[j])),
{
    let n: usize = spans.len();
    let mut keys: Vec<u64> = Vec::new();
    let mut i: usize = 0;
    while i < n
        invariant
            i <= n == spans@.len(),
            keys@ =~= starts(spans@).take(i as int),
        decreases n - i,
    {
        keys.push(spans[i].0);
        i = i + 1;
    }
    assert(keys@ =~= starts(spans@));
    let order: Vec<usize> = order_by_key(&keys);
    let ghost ord = order@.map_values(|i: usize| i as int);
    let mut flags: Vec<bool> = vec![false; n];
    if n == 0 {
        return flags;
    }
    let mut highest_at: usize = 0;
    let mut k: usize = 1;
    proof {
        lemma_sweep_starts(spans@, ord, flags@);
    }
    assert forall|a: int| 0 <= a < n implies (#[trigger] order@[a]) == ord[a] && order@[a]
        < n by {
        assert(0 <= ord[a] < n);
    }
    while k < n
        invariant
            1 <= k <= n == spans@.len(),
            highest_at < k,
            order@.len() == n,
            forall|a: int| 0 <= a < n ==> (#[trigger] order@[a]) == ord[a] && order@[a] < n,
            sorts(starts(spans@), ord, n as int),
            highest(spans@, ord, k as int, highest_at as int),
            flags@.len() == n,
            swept(spans@, ord, k as int, flags@),
        decreases n - k,
    {
        let at: usize = order[k];
        let top: usize = order[highest_at];
        let ghost before = flags@;
        if spans[at].0 <= spans[top].1 {
            flags[at] = true;
            flags[top] = true;
        }
        proof {
            lemma_sweep(spans@, ord, k as int, highest_at as int, before, flags@);
        }
        if spans[top].1 < spans[at].1 {
            highest_at = k;
        }
        k = k + 1;
    }
    proof {
        lemma_sweep_ends(spans@, ord, flags@);
        if forwards(spans@) {
            assert forall|i: int| 0 <= i < spans@.len() implies (#[trigger] flags@[i]
                <==> exists|j: int|
                0 <= j < spans@.len() && j != i && share_sector(spans@[i], #[trigger] spans@[j])) by {
                lemma_overlapped_is_sharing(spans@, i);
            }
        }
    }
    flags
}

/// The bytes of the entry in slot `i`.
pub open spec fn entry_bytes(array: Seq<u8>, size: int, i: int) -> Seq<u8> {
    array.subrange(i * size, i * size + size)
}

/// An entry whose type GUID is all zeros holds no partition.
pub open spec fn unused(entry: Seq<u8>) -> bool {
    entry.take(16) == type_guids::UNUSED@
}

/// The partition that the entry in slot `slot` describes, before it is held
/// against the table's rules; or what is wrong with the entry.
pub open spec fn partition_in(entry: Seq<u8>, slot: int) -> core::result::Result<
    PartitionView,
    Error,
> {
    let start_lba = le64(entry, 32);
    let end_lba = le64(entry, 40);
    if end_lba < start_lba {
        Err(Error::GptCorrupt("ending_lba < starting_lba"))
    } else if start_lba * 512 > u64::MAX {
        Err(Error::GptCorrupt("starting_lba overflows a byte offset"))
    } else if end_lba - start_lba + 1 > u64::MAX {
        Err(Error::GptCorrupt("partition sector count overflows"))
    } else if (end_lba - start_lba + 1) * 512 > u64::MAX {
        Err(Error::GptCorrupt("partition length overflows a byte count"))
    } else {
        Ok(
            PartitionView {
                start: (start_lba * 512) as u64,
                length: ((end_lba - start_lba + 1) * 512) as u64,
                kind: KindView::Gpt {
                    type_guid: entry.take(16),
                    attributes: le64(entry, 48) as u64,
                },
                label: label_in(entry.subrange(56, 128)),
                uuid: Some(entry.subrange(16, 32)),
                slot: Some(slot as u32),
                issues: entry_issue::NONE,
            },
        )
    }
}

/// The partitions in the first `n` slots of an entry array, in slot order,
/// before they are held against the table's rules; or what is wrong with
/// the first bad entry.
pub open spec fn partitions_in(array: Seq<u8>, size: int, n: int) -> core::result::Result<
    Seq<PartitionView>,
    Error,
>
    decreases n,
{
    if n <= 0 {
        Ok(Seq::empty())
    } else {
        let entry = entry_bytes(array, size, n - 1);
        match partitions_in(array, size, n - 1) {
            Err(e) => Err(e),
            Ok(before) => if unused(entry) {
                Ok(before)
            } else {
                match partition_in(entry, n - 1) {
                    Err(e) => Err(e),
                    Ok(p) => Ok(before.push(p)),
                }
            },
        }
    }
}

/// An entry that cannot be read is a corrupt table, no failure of a device.
proof fn lemma_bad_entry_is_corrupt(array: Seq<u8>, size: int, n: int)
    requires
        partitions_in(array, size, n) is Err,
    ensures
        partitions_in(array, size, n)->Err_0 is GptCorrupt,
    decreases n,
{
    if n > 0 && partitions_in(array, size, n - 1) is Err {
        lemma_bad_entry_is_corrupt(array, size, n - 1);
    }
}

/// The inclusive LBA span of a partition read from a table.
pub open spec fn lba_span(p: PartitionView) -> (u64, u64) {
    (p.start / 512, (p.start / 512 + p.length / 512 - 1) as u64)
}

/// The inclusive LBA spans of partitions read from a table.
pub open spec fn lba_spans(parts: Seq<PartitionView>) -> Seq<(u64, u64)> {
    parts.map_values(|p: PartitionView| lba_span(p))
}

/// The rules the `i`th partition of a table breaks.
pub open spec fn issues_of(parts: Seq<PartitionView>, first: int, last: int, i: int) -> u32 {
    let spans = lba_spans(parts);
    range_issues_spec(spans[i].0 as int, spans[i].1 as int, first, last) | (if overlapped(
        spans,
        i,
    ) {
        entry_issue::OVERLAPS_ANOTHER
    } else {
        entry_issue::NONE
    })
}

/// Partitions read from a table, each with the rules it breaks.
pub open spec fn judged(parts: Seq<PartitionView>, first: int, last: int) -> Seq<PartitionView> {
    Seq::new(
        parts.len(),
        |i: int| PartitionView { issues: issues_of(parts, first, last, i), ..parts[i] },
    )
}

/// The partitions in an entry array that header `h` describes, or why it
/// cannot be read.
pub open spec fn entries_in(h: HeaderView, array: Seq<u8>) -> core::result::Result<
    Seq<PartitionView>,
    Error,
> {
    if crc32(array) != h.partition_entry_array_crc32 {
        Err(Error::GptEntriesCrc)
    } else {
        match partitions_in(array, h.partition_entry_size as int, h.num_partition_entries as int) {
            Err(e) => Err(e),
            Ok(parts) => Ok(
                judged(parts, h.first_usable_lba as int, h.last_usable_lba as int),
            ),
        }
    }
}

/// Bytes of the entry array that header `h` describes.
pub open spec fn array_len(h: HeaderView) -> int {
    h.num_partition_entries * h.partition_entry_size
}

/// What is wrong with where header `h` says its entry array is, on a device
/// that states `size` bytes. One that states 0 bounds nothing.
pub open spec fn array_misplaced(h: HeaderView, size: u64) -> Option<Error> {
    let offset = h.partition_entry_lba * 512;
    if offset > u64::MAX {
        Some(Error::GptCorrupt("partition_entry_lba overflows a byte offset"))
    } else if offset + array_len(h) > u64::MAX {
        Some(Error::GptCorrupt("partition entry array overflows"))
    } else if size != 0 && offset + array_len(h) > size {
        Some(Error::GptCorrupt("partition entry array reaches past the end of the device"))
    } else {
        None
    }
}

/// The entry array that header `h` describes, read from a device, or why it
/// cannot be.
pub open spec fn array_on(content: Seq<u8>, size: u64, h: HeaderView) -> core::result::Result<
    Seq<u8>,
    Error,
> {
    let offset = h.partition_entry_lba * 512;
    match array_misplaced(h, size) {
        Some(e) => Err(e),
        None => if !inside(offset, array_len(h), content.len() as int) {
            Err(past_end(offset, array_len(h)))
        } else {
            Ok(window(content, offset, array_len(h) as nat))
        },
    }
}

/// The partitions of the table that header `h` describes on a device, or
/// why they cannot be read.
pub open spec fn table_on(content: Seq<u8>, size: u64, h: HeaderView) -> core::result::Result<
    Seq<PartitionView>,
    Error,
> {
    match array_on(content, size, h) {
        Err(e) => Err(e),
        Ok(array) => entries_in(h, array),
    }
}

/// The partition that the entry describes, before it is held against the
/// table's rules; or what is wrong with the entry.
fn parse_entry(entry: &[u8], slot: u32) -> (r: Result<Partition>)
    requires
        entry.len() >= 128,
    ensures
        match r {
            Ok(p) => partition_in(entry@, slot as int) == Ok::<PartitionView, Error>(p@),
            Err(e) => partition_in(entry@, slot as int) == Err::<PartitionView, Error>(e),
        },
        r matches Ok(p) ==> lba_span(p@) == (le64(entry@, 32) as u64, le64(entry@, 40) as u64),
{
    let start_lba: u64 = get_u64(entry, 32);
    let end_lba: u64 = get_u64(entry, 40);
    if end_lba < start_lba {
        return Err(Error::GptCorrupt("ending_lba < starting_lba"));
    }
    let start: u64 = match start_lba.checked_mul(SECTOR_SIZE) {
        Some(n) => n,
        None => return Err(Error::GptCorrupt("starting_lba overflows a byte offset")),
    };
    let sectors: u64 = match (end_lba - start_lba).checked_add(1) {
        Some(n) => n,
        None => return Err(Error::GptCorrupt("partition sector count overflows")),
    };
    let length: u64 = match sectors.checked_mul(SECTOR_SIZE) {
        Some(n) => n,
        None => return Err(Error::GptCorrupt("partition length overflows a byte count")),
    };
    let label: Option<String> = parse_utf16_label(&entry[56..128]);
    let type_guid: [u8; 16] = get_guid(entry, 0);
    assert(type_guid@ =~= entry@.take(16));
    Ok(
        Partition {
            start,
            length,
            kind: PartitionKind::Gpt { type_guid, attributes: get_u64(entry, 48) },
            label,
            uuid: Some(get_guid(entry, 16)),
            slot: Some(slot),
            issues: entry_issue::NONE,
        },
    )
}

/// A slot lies inside the array.
pub proof fn lemma_slot_inside(i: int, n: int, size: int)
    requires
        0 <= i < n,
        0 <= size,
    ensures
        0 <= i * size,
        i * size + size <= n * size,
{
    assert(0 <= i * size) by (nonlinear_arith)
        requires
            0 <= i,
            0 <= size,
    ;
    assert(i * size + size <= n * size) by (nonlinear_arith)
        requires
            i + 1 <= n,
            0 <= size,
    ;
}

/// The partitions in an entry array, in slot order, before they are held
/// against the table's rules; and their LBA spans.
fn parse_slots(array: &[u8], size: usize, n: u32) -> (r: Result<(Vec<Partition>, Vec<(u64, u64)>)>)
    requires
        size >= 128,
        array.len() == n * size,
    ensures
        match r {
            Ok(v) => {
                &&& partitions_in(array@, size as int, n as int) == Ok::<
                    Seq<PartitionView>,
                    Error,
                >(views(v.0@))
                &&& v.1@ == lba_spans(views(v.0@))
            },
            Err(e) => partitions_in(array@, size as int, n as int) == Err::<
                Seq<PartitionView>,
                Error,
            >(e),
        },
{
    let mut out: Vec<Partition> = Vec::new();
    let mut spans: Vec<(u64, u64)> = Vec::new();
    let mut i: u32 = 0;
    assert(views(out@) =~= Seq::<PartitionView>::empty());
    assert(lba_spans(views(out@)) =~= Seq::<(u64, u64)>::empty());
    while i < n
        invariant
            i <= n,
            size >= 128,
            array.len() == n * size,
            partitions_in(array@, size as int, i as int) == Ok::<Seq<PartitionView>, Error>(
                views(out@),
            ),
            spans@ == lba_spans(views(out@)),
        decreases n - i,
    {
        proof {
            lemma_slot_inside(i as int, n as int, size as int);
        }
        let off: usize = i as usize * size;
        let entry: &[u8] = &array[off..off + size];
        assert(entry@ == entry_bytes(array@, size as int, i as int));
        let type_guid: [u8; 16] = get_guid(entry, 0);
        assert(type_guid@ =~= entry@.take(16));
        if bytes_eq(&type_guid, &type_guids::UNUSED) {
            assert(partitions_in(array@, size as int, i + 1) == Ok::<Seq<PartitionView>, Error>(
                views(out@),
            ));
        } else {
            match parse_entry(entry, i) {
                Ok(p) => {
                    let ghost before = views(out@);
                    let span: (u64, u64) = (get_u64(entry, 32), get_u64(entry, 40));
                    proof {
                        assert(out@.push(p).map_values(|p: Partition| p@) =~= before.push(p@));
                        assert(lba_spans(before.push(p@)) =~= lba_spans(before).push(span));
                    }
                    out.push(p);
                    spans.push(span);
                },
                Err(e) => {
                    proof {
                        lemma_bad_entry_persists(array@, size as int, i + 1, n as int, e);
                    }
                    return Err(e);
                },
            }
        }
        i = i + 1;
    }
    Ok((out, spans))
}

/// The first bad entry decides, whatever follows it.
proof fn lemma_bad_entry_persists(array: Seq<u8>, size: int, i: int, n: int, e: Error)
    requires
        0 <= i <= n,
        partitions_in(array, size, i) == Err::<Seq<PartitionView>, Error>(e),
    ensures
        partitions_in(array, size, n) == Err::<Seq<PartitionView>, Error>(e),
    decreases n - i,
{
    if i < n {
        assert(partitions_in(array, size, i + 1) == Err::<Seq<PartitionView>, Error>(e));
        lemma_bad_entry_persists(array, size, i + 1, n, e);
    }
}

/// The partitions in the entry array that `header` describes, in slot
/// order, each with the rules it breaks. The array's CRC is checked.
///
/// An entry that breaks a rule is reported rather than refused: a damaged
/// table stays readable, and a caller can say which entry is wrong.
pub fn parse_entries(header: &Header, array: &[u8]) -> (r: Result<Vec<Partition>>)
    requires
        header.partition_entry_size >= 128,
        array.len() == array_len(header@),
    ensures
        match r {
            Ok(parts) => entries_in(header@, array@) == Ok::<Seq<PartitionView>, Error>(
                views(parts@),
            ),
            Err(e) => entries_in(header@, array@) == Err::<Seq<PartitionView>, Error>(e),
        },
{
    if crc32_of(array) != header.partition_entry_array_crc32 {
        return Err(Error::GptEntriesCrc);
    }
    let (parts, spans) = match parse_slots(
        array,
        header.partition_entry_size as usize,
        header.num_partition_entries,
    ) {
        Ok(v) => v,
        Err(e) => return Err(e),
    };
    let ghost raw = views(parts@);
    let first: u64 = header.first_usable_lba;
    let last: u64 = header.last_usable_lba;
    let flags: Vec<bool> = mark_overlaps(spans.as_slice());
    let mut out: Vec<Partition> = parts;
    let mut i: usize = 0;
    while i < out.len()
        invariant
            i <= out@.len() == raw.len(),
            spans@ == lba_spans(raw),
            flags@.len() == raw.len(),
            forall|k: int| 0 <= k < raw.len() ==> #[trigger] flags@[k] == overlapped(spans@, k),
            forall|k: int|
                0 <= k < i ==> (#[trigger] out@[k])@ == judged(raw, first as int, last as int)[k],
            forall|k: int| i <= k < raw.len() ==> (#[trigger] out@[k])@ == raw[k],
        decreases out@.len() - i,
    {
        let range: u32 = range_issues(spans[i].0, spans[i].1, first, last);
        let overlap: u32 = if flags[i] { entry_issue::OVERLAPS_ANOTHER } else { entry_issue::NONE };
        assert(flags@[i as int] == overlapped(spans@, i as int));
        out[i].issues = range | overlap;
        i = i + 1;
    }
    assert(views(out@) =~= judged(raw, first as int, last as int));
    Ok(out)
}

/// Reads the entry array that `header` describes from the device and parses
/// it. Gives the partitions, and the array itself.
pub(crate) fn parse_entry_array<D: BlockRead + ?Sized>(dev: &D, header: &Header) -> (r: Result<
    (Vec<Partition>, Vec<u8>),
>)
    requires
        128 <= header.partition_entry_size <= 4096,
        header.num_partition_entries <= 4096,
    ensures
        outcome(
            parsed_view(r),
            match array_on(dev.content(), dev.stated_size(), header@) {
                Err(e) => Err(e),
                Ok(array) => match entries_in(header@, array) {
                    Err(e) => Err(e),
                    Ok(parts) => Ok((parts, array)),
                },
            },
            dev.dependable(),
            dev.answers(),
        ),
        array_misplaced(header@, dev.stated_size()) matches Some(e) ==> r == Err::<
            (Vec<Partition>, Vec<u8>),
            Error,
        >(e),
{
    let count: u64 = header.num_partition_entries as u64;
    let size: u64 = header.partition_entry_size as u64;
    assert(count * size <= 4096 * 4096) by (nonlinear_arith)
        requires
            count <= 4096,
            size <= 4096,
    ;
    let total: u64 = count * size;
    let offset: u64 = match header.partition_entry_lba.checked_mul(SECTOR_SIZE) {
        Some(n) => n,
        None => return Err(Error::GptCorrupt("partition_entry_lba overflows a byte offset")),
    };
    let end: u64 = match offset.checked_add(total) {
        Some(n) => n,
        None => return Err(Error::GptCorrupt("partition entry array overflows")),
    };
    let stated: u64 = dev.size_bytes();
    if stated != 0 && end > stated {
        return Err(Error::GptCorrupt("partition entry array reaches past the end of the device"));
    }
    let mut array: Vec<u8> = vec![0u8; total as usize];
    match dev.read_at(offset, array.as_mut_slice()) {
        Ok(()) => {},
        Err(e) => return Err(Error::Block(e)),
    }
    assert(array@ =~= window(dev.content(), offset as int, total as nat));
    match parse_entries(header, array.as_slice()) {
        Ok(parts) => Ok((parts, array)),
        Err(e) => {
            proof {
                if e != Error::GptEntriesCrc {
                    lemma_bad_entry_is_corrupt(array@, size as int, count as int);
                }
            }
            Err(e)
        },
    }
}

/// What a parsed entry array says.
pub open spec fn parsed_view(r: Result<(Vec<Partition>, Vec<u8>)>) -> core::result::Result<
    (Seq<PartitionView>, Seq<u8>),
    Error,
> {
    match r {
        Ok(v) => Ok((views(v.0@), v.1@)),
        Err(e) => Err(e),
    }
}

/// The header in a primary header sector: one that names another LBA than 1
/// as its own is refused.
pub open spec fn primary_header_in(lba1: Seq<u8>) -> core::result::Result<HeaderView, Error> {
    match header_in(lba1) {
        Err(e) => Err(e),
        Ok(h) => if h.my_lba != 1 {
            Err(Error::GptCorrupt("primary my_lba != 1"))
        } else {
            Ok(h)
        },
    }
}

/// The partitions of the table whose primary header is the sector `lba1`,
/// or why they cannot be read.
pub open spec fn primary_on(content: Seq<u8>, size: u64, lba1: Seq<u8>) -> core::result::Result<
    Seq<PartitionView>,
    Error,
> {
    match primary_header_in(lba1) {
        Err(e) => Err(e),
        Ok(h) => table_on(content, size, h),
    }
}

/// Why the table whose primary header is the sector `lba1` is refused
/// before anything is read of a device of `size` bytes.
pub open spec fn primary_refused(size: u64, lba1: Seq<u8>) -> Option<Error> {
    match primary_header_in(lba1) {
        Err(e) => Some(e),
        Ok(h) => array_misplaced(h, size),
    }
}

/// What a list of partitions read from a device says.
pub open spec fn list_view(r: Result<Vec<Partition>>) -> core::result::Result<
    Seq<PartitionView>,
    Error,
> {
    match r {
        Ok(parts) => Ok(views(parts@)),
        Err(e) => Err(e),
    }
}

/// The header in a primary header sector: one that names another LBA than 1
/// as its own is refused.
pub fn parse_primary_header(lba1: &Sector) -> (r: Result<Header>)
    ensures
        match r {
            Ok(h) => primary_header_in(lba1@) == Ok::<HeaderView, Error>(h@),
            Err(e) => primary_header_in(lba1@) == Err::<HeaderView, Error>(e),
        },
{
    let header: Header = match parse_header(lba1) {
        Ok(h) => h,
        Err(e) => return Err(e),
    };
    if header.my_lba != 1 {
        return Err(Error::GptCorrupt("primary my_lba != 1"));
    }
    Ok(header)
}

/// Parse the GPT given the LBA-1 sector and a device for fetching the entry
/// array. Validates header CRC and entry-array CRC.
pub fn parse<D: BlockRead + ?Sized>(dev: &D, lba1: &Sector) -> (r: Result<Vec<Partition>>)
    ensures
        outcome(
            list_view(r),
            primary_on(dev.content(), dev.stated_size(), lba1@),
            dev.dependable(),
            dev.answers(),
        ),
        primary_refused(dev.stated_size(), lba1@) matches Some(e) ==> r == Err::<
            Vec<Partition>,
            Error,
        >(e),
{
    let header: Header = match parse_primary_header(lba1) {
        Ok(h) => h,
        Err(e) => return Err(e),
    };
    match parse_entry_array(dev, &header) {
        Ok((parts, _array)) => Ok(parts),
        Err(e) => Err(e),
    }
}

/// The partitions that the backup copy of the table describes, or why it
/// cannot be read.
pub open spec fn backup_on(content: Seq<u8>, size: u64) -> core::result::Result<
    Seq<PartitionView>,
    Error,
> {
    let last_lba = size / 512 - 1;
    if size < 1024 {
        Err(Error::GptCorrupt("device too small for GPT backup"))
    } else if !inside(last_lba * 512, 512, content.len() as int) {
        Err(past_end(last_lba * 512, 512))
    } else {
        match header_in(window(content, last_lba * 512, 512)) {
            Err(e) => Err(e),
            Ok(h) => if h.my_lba != last_lba {
                Err(Error::GptCorrupt("backup my_lba != last LBA"))
            } else {
                table_on(content, size, h)
            },
        }
    }
}

/// Parse the GPT backup header (last LBA) and return the partition list it
/// describes.
///
/// An error only on a hard failure: an unreadable sector, a bad signature,
/// a CRC failure, an out-of-range field. [`validate_backup`] reports a
/// disagreement with the primary as a status instead.
pub fn parse_backup<D: BlockRead + ?Sized>(dev: &D) -> (r: Result<Vec<Partition>>)
    ensures
        outcome(
            list_view(r),
            backup_on(dev.content(), dev.stated_size()),
            dev.dependable(),
            dev.answers(),
        ),
        dev.stated_size() < 1024 ==> r == Err::<Vec<Partition>, Error>(
            Error::GptCorrupt("device too small for GPT backup"),
        ),
{
    let total: u64 = dev.size_bytes();
    if total < 2 * SECTOR_SIZE {
        return Err(Error::GptCorrupt("device too small for GPT backup"));
    }
    let last_lba: u64 = total / SECTOR_SIZE - 1;
    let mut sector: Sector = [0u8; SECTOR_SIZE_USIZE];
    match dev.read_at(last_lba * SECTOR_SIZE, &mut sector) {
        Ok(()) => {},
        Err(e) => return Err(Error::Block(e)),
    }
    assert(sector@ =~= window(dev.content(), last_lba * 512, 512));
    let header: Header = match parse_header(&sector) {
        Ok(h) => h,
        Err(e) => return Err(e),
    };
    if header.my_lba != last_lba {
        return Err(Error::GptCorrupt("backup my_lba != last LBA"));
    }
    match parse_entry_array(dev, &header) {
        Ok((parts, _array)) => Ok(parts),
        Err(e) => Err(e),
    }
}

/// Outcome of validating the backup GPT against the primary.
#[derive(Debug, Clone, Copy, PartialEq, Eq)]
pub enum BackupStatus {
    /// The backup parses and describes the same partitions as the primary.
    Agrees,
    /// The backup is missing, unreadable, fails its own CRC, or disagrees
    /// with the primary. The reason is short and stable. Many disks have
    /// stale or zero backup tables, so this is advisory rather than fatal.
    Mismatch(&'static str),
}

/// Where each partition starts.
pub open spec fn part_starts(parts: Seq<PartitionView>) -> Seq<u64> {
    parts.map_values(|p: PartitionView| p.start)
}

/// The partitions in ascending order of where they start.
pub open spec fn by_start(parts: Seq<PartitionView>) -> Seq<PartitionView> {
    let order = key_order(part_starts(parts), parts.len() as int);
    Seq::new(parts.len(), |k: int| parts[order[k]])
}

/// The first way in which two entries differ, as far as a backup has to
/// agree.
pub open spec fn difference(a: PartitionView, b: PartitionView) -> Option<&'static str> {
    if a.start != b.start || a.length != b.length {
        Some("partition range differs")
    } else if a.uuid != b.uuid {
        Some("partition uuid differs")
    } else if a.kind != b.kind {
        Some("partition type differs")
    } else if a.slot != b.slot {
        Some("partition slot differs")
    } else if a.label != b.label {
        Some("partition label differs")
    } else {
        None
    }
}

/// The first difference between two lists of one length, from `k` on.
pub open spec fn first_difference(
    a: Seq<PartitionView>,
    b: Seq<PartitionView>,
    k: int,
) -> BackupStatus
    decreases a.len() - k,
{
    if k >= a.len() {
        BackupStatus::Agrees
    } else {
        match difference(a[k], b[k]) {
            Some(reason) => BackupStatus::Mismatch(reason),
            None => first_difference(a, b, k + 1),
        }
    }
}

/// How a backup's partitions compare with the primary's. The order in which
/// the two list them does not matter, as long as no two partitions start at
/// one place: see [`agreement`].
pub open spec fn compared(primary: Seq<PartitionView>, backup: Seq<PartitionView>) -> BackupStatus {
    if primary.len() != backup.len() {
        BackupStatus::Mismatch("partition count differs")
    } else {
        first_difference(by_start(primary), by_start(backup), 0)
    }
}

/// What to say of a backup that could not be parsed.
pub open spec fn unparsed(e: Error) -> BackupStatus {
    match e {
        Error::GptCorrupt(_) => BackupStatus::Mismatch("backup header corrupt"),
        Error::GptHeaderCrc => BackupStatus::Mismatch("backup header CRC"),
        Error::GptEntriesCrc => BackupStatus::Mismatch("backup entries CRC"),
        _ => BackupStatus::Mismatch("backup unreadable"),
    }
}

/// How the backup copy on a device compares with the primary's partitions.
pub open spec fn backup_status(
    content: Seq<u8>,
    size: u64,
    primary: Seq<PartitionView>,
) -> BackupStatus {
    match backup_on(content, size) {
        Ok(backup) => compared(primary, backup),
        Err(e) => unparsed(e),
    }
}

/// The order of the partitions by where they start.
pub fn start_order(parts: &[Partition]) -> (order: Vec<usize>)
    ensures
        order@.len() == parts@.len(),
        forall|k: int|
            #![trigger order@[k]]
            0 <= k < parts@.len() ==> order@[k] < parts@.len() && parts@[order@[k] as int]@
                == by_start(views(parts@))[k],
{
    let mut keys: Vec<u64> = Vec::new();
    let mut i: usize = 0;
    while i < parts.len()
        invariant
            i <= parts.len(),
            keys@ =~= part_starts(views(parts@)).take(i as int),
        decreases parts.len() - i,
    {
        keys.push(parts[i].start);
        i = i + 1;
    }
    assert(keys@ =~= part_starts(views(parts@)));
    let order: Vec<usize> = order_by_key(&keys);
    assert forall|k: int| #![trigger order@[k]] 0 <= k < parts@.len() implies order@[k]
        < parts@.len() && parts@[order@[k] as int]@ == by_start(views(parts@))[k] by {
        let ord = order@.map_values(|i: usize| i as int);
        assert(ord[k] == order@[k]);
    }
    order
}

/// How a backup's partitions compare with the primary's: same range, UUID,
/// type, slot and label each. The order in which the two list them does not
/// matter, as long as no two partitions start at one place.
pub fn compare_backup(primary: &[Partition], backup: &[Partition]) -> (status: BackupStatus)
    ensures
        status == compared(views(primary@), views(backup@)),
{
    if primary.len() != backup.len() {
        return BackupStatus::Mismatch("partition count differs");
    }
    let a: Vec<usize> = start_order(primary);
    let b: Vec<usize> = start_order(backup);
    let ghost sa = by_start(views(primary@));
    let ghost sb = by_start(views(backup@));
    let mut k: usize = 0;
    while k < a.len()
        invariant
            k <= a@.len(),
            a@.len() == primary@.len() == b@.len() == backup@.len(),
            sa == by_start(views(primary@)),
            sb == by_start(views(backup@)),
            forall|k: int|
                #![trigger a@[k]]
                0 <= k < a@.len() ==> a@[k] < primary@.len() && primary@[a@[k] as int]@ == sa[k],
            forall|k: int|
                #![trigger b@[k]]
                0 <= k < b@.len() ==> b@[k] < backup@.len() && backup@[b@[k] as int]@ == sb[k],
            first_difference(sa, sb, k as int) == first_difference(sa, sb, 0),
        decreases a@.len() - k,
    {
        let pa: &Partition = &primary[a[k]];
        let pb: &Partition = &backup[b[k]];
        assert(pa@ == sa[k as int] && pb@ == sb[k as int]);
        if pa.start != pb.start || pa.length != pb.length {
            return BackupStatus::Mismatch("partition range differs");
        }
        if !same_uuid(&pa.uuid, &pb.uuid) {
            return BackupStatus::Mismatch("partition uuid differs");
        }
        if !same_kind(&pa.kind, &pb.kind) {
            return BackupStatus::Mismatch("partition type differs");
        }
        if pa.slot != pb.slot {
            return BackupStatus::Mismatch("partition slot differs");
        }
        if !same_label(&pa.label, &pb.label) {
            return BackupStatus::Mismatch("partition label differs");
        }
        k = k + 1;
    }
    BackupStatus::Agrees
}

/// Validate the backup against a list of primary partitions.
///
/// A read or CRC failure is a mismatch rather than an error, because a
/// stale backup is the most common reason to see one.
pub fn validate_backup<D: BlockRead + ?Sized>(dev: &D, primary: &[Partition]) -> (status:
    BackupStatus)
    ensures
        status == backup_status(dev.content(), dev.stated_size(), views(primary@)) || (
        !dev.dependable() && status == BackupStatus::Mismatch("backup unreadable")),
        dev.stated_size() < 1024 ==> status == BackupStatus::Mismatch("backup header corrupt"),
{
    match parse_backup(dev) {
        Ok(backup) => compare_backup(primary, backup.as_slice()),
        Err(Error::GptCorrupt(_)) => BackupStatus::Mismatch("backup header corrupt"),
        Err(Error::GptHeaderCrc) => BackupStatus::Mismatch("backup header CRC"),
        Err(Error::GptEntriesCrc) => BackupStatus::Mismatch("backup entries CRC"),
        Err(_) => BackupStatus::Mismatch("backup unreadable"),
    }
}

/// Bytes of an entry that the format fixes. A table may declare larger
/// entries; what follows these bytes is its own.
pub const ENTRY_STANDARD_BYTES: usize = 128;

/// What follows the standard bytes of a table's entries, by the UUID of the
/// partition it belongs to.
///
/// Kept by UUID rather than by slot: a slot that a removed partition left is
/// handed on, and its bytes must not be.
#[derive(Debug)]
pub struct EntryTails {
    entries: Vec<EntryTail>,
}

/// What follows the standard bytes of one partition's entry.
#[derive(Debug)]
struct EntryTail {
    uuid: [u8; 16],
    tail: Vec<u8>,
}

/// The tail kept for `uuid` among those from `i` on.
closed spec fn tail_from(entries: Seq<EntryTail>, uuid: Seq<u8>, i: int) -> Option<Seq<u8>>
    decreases entries.len() - i,
{
    if i >= entries.len() {
        None
    } else if entries[i].uuid@ == uuid {
        Some(entries[i].tail@)
    } else {
        tail_from(entries, uuid, i + 1)
    }
}

proof fn lemma_tail_pushed(entries: Seq<EntryTail>, entry: EntryTail, uuid: Seq<u8>, i: int)
    requires
        0 <= i <= entries.len(),
    ensures
        tail_from(entries.push(entry), uuid, i) == (match tail_from(entries, uuid, i) {
            Some(tail) => Some(tail),
            None => if entry.uuid@ == uuid {
                Some(entry.tail@)
            } else {
                None
            },
        }),
    decreases entries.len() - i,
{
    let pushed = entries.push(entry);
    if i < entries.len() {
        assert(pushed[i] == entries[i]);
        lemma_tail_pushed(entries, entry, uuid, i + 1);
    } else {
        assert(pushed[i] == entry);
        assert(tail_from(pushed, uuid, i + 1) is None);
        assert(tail_from(entries, uuid, i) is None);
    }
}

impl View for EntryTails {
    type V = Map<Seq<u8>, Seq<u8>>;

    closed spec fn view(&self) -> Map<Seq<u8>, Seq<u8>> {
        Map::new(
            |uuid: Seq<u8>| tail_from(self.entries@, uuid, 0) is Some,
            |uuid: Seq<u8>| tail_from(self.entries@, uuid, 0)->Some_0,
        )
    }
}

proof fn lemma_same_tails(a: Seq<EntryTail>, b: Seq<EntryTail>, uuid: Seq<u8>, i: int)
    requires
        a.len() == b.len(),
        forall|k: int|
            0 <= k < a.len() ==> (#[trigger] a[k]).uuid@ == b[k].uuid@ && a[k].tail@ == b[k].tail@,
        0 <= i <= a.len(),
    ensures
        tail_from(a, uuid, i) == tail_from(b, uuid, i),
    decreases a.len() - i,
{
    if i < a.len() {
        assert(a[i].uuid@ == b[i].uuid@);
        lemma_same_tails(a, b, uuid, i + 1);
    }
}

impl Clone for EntryTails {
    fn clone(&self) -> (r: Self)
        ensures
            r@ == self@,
    {
        let mut entries: Vec<EntryTail> = Vec::new();
        let mut i: usize = 0;
        while i < self.entries.len()
            invariant
                i <= self.entries@.len(),
                entries@.len() == i,
                forall|k: int|
                    0 <= k < i ==> (#[trigger] entries@[k]).uuid@ == self.entries@[k].uuid@
                        && entries@[k].tail@ == self.entries@[k].tail@,
            decreases self.entries@.len() - i,
        {
            let tail: &Vec<u8> = &self.entries[i].tail;
            entries.push(
                EntryTail {
                    uuid: self.entries[i].uuid,
                    tail: copy_range(tail.as_slice(), 0, tail.len()),
                },
            );
            i = i + 1;
        }
        let r: EntryTails = EntryTails { entries };
        assert forall|uuid: Seq<u8>| tail_from(r.entries@, uuid, 0) == tail_from(
            self.entries@,
            uuid,
            0,
        ) by {
            lemma_same_tails(r.entries@, self.entries@, uuid, 0);
        }
        assert(r@ =~= self@);
        r
    }
}

impl EntryTails {
    /// No tails at all.
    pub fn new() -> (r: Self)
        ensures
            r@ == Map::<Seq<u8>, Seq<u8>>::empty(),
    {
        let r: EntryTails = EntryTails { entries: Vec::new() };
        assert(r@ =~= Map::<Seq<u8>, Seq<u8>>::empty());
        r
    }

    /// The tail kept for the partition `uuid`, if any.
    pub fn get(&self, uuid: &[u8; 16]) -> (r: Option<&Vec<u8>>)
        ensures
            match r {
                Some(tail) => self@.contains_key(uuid@) && self@[uuid@] == tail@,
                None => !self@.contains_key(uuid@),
            },
    {
        let mut i: usize = 0;
        while i < self.entries.len()
            invariant
                i <= self.entries@.len(),
                tail_from(self.entries@, uuid@, i as int) == tail_from(self.entries@, uuid@, 0),
            decreases self.entries@.len() - i,
        {
            if bytes_eq(&self.entries[i].uuid, uuid) {
                return Some(&self.entries[i].tail);
            }
            i = i + 1;
        }
        None
    }

    /// Keeps `tail` for the partition `uuid`, which has none yet.
    pub fn insert(&mut self, uuid: [u8; 16], tail: Vec<u8>)
        requires
            !old(self)@.contains_key(uuid@),
        ensures
            final(self)@ == old(self)@.insert(uuid@, tail@),
    {
        let ghost before = self.entries@;
        let entry: EntryTail = EntryTail { uuid, tail };
        proof {
            assert forall|u: Seq<u8>| #[trigger]
                tail_from(before.push(entry), u, 0) == (if u == uuid@ {
                    Some(tail@)
                } else {
                    tail_from(before, u, 0)
                }) by {
                lemma_tail_pushed(before, entry, u, 0);
            }
        }
        self.entries.push(entry);
        assert(self@ =~= old(self)@.insert(uuid@, tail@));
    }
}

/// What follows the standard bytes of the entry in slot `i`.
pub open spec fn tail_bytes(array: Seq<u8>, size: int, i: int) -> Seq<u8> {
    entry_bytes(array, size, i).subrange(ENTRY_STANDARD_BYTES as int, size)
}

/// The UUID of the entry in slot `i`.
pub open spec fn uuid_bytes(array: Seq<u8>, size: int, i: int) -> Seq<u8> {
    entry_bytes(array, size, i).subrange(16, 32)
}

/// Slot `i` holds a partition.
pub open spec fn slot_used(array: Seq<u8>, size: int, i: int) -> bool {
    !unused(entry_bytes(array, size, i))
}

/// Entries among the first `n` that share a UUID share their tail.
pub open spec fn tails_agree(array: Seq<u8>, size: int, n: int) -> bool {
    forall|i: int, j: int|
        0 <= i < n && 0 <= j < n && #[trigger] slot_used(array, size, i) && #[trigger] slot_used(
            array,
            size,
            j,
        ) && uuid_bytes(array, size, i) == uuid_bytes(array, size, j) ==> tail_bytes(
            array,
            size,
            i,
        ) == tail_bytes(array, size, j)
}

/// `tails` holds the tail of each of the first `n` entries, and of no other
/// partition.
pub open spec fn tails_of_entries(
    tails: Map<Seq<u8>, Seq<u8>>,
    array: Seq<u8>,
    size: int,
    n: int,
) -> bool {
    &&& forall|i: int|
        0 <= i < n && #[trigger] slot_used(array, size, i) ==> tails.contains_key(
            uuid_bytes(array, size, i),
        ) && tails[uuid_bytes(array, size, i)] == tail_bytes(array, size, i)
    &&& forall|uuid: Seq<u8>| #[trigger]
        tails.contains_key(uuid) ==> exists|i: int|
            0 <= i < n && #[trigger] slot_used(array, size, i) && uuid_bytes(array, size, i) == uuid
}

/// The entry in slot `i`, one of the first `n`, holds the partition `uuid`.
pub open spec fn holds_uuid(array: Seq<u8>, size: int, n: int, uuid: Seq<u8>, i: int) -> bool {
    0 <= i < n && slot_used(array, size, i) && uuid_bytes(array, size, i) == uuid
}

/// The tails of the first `n` entries, by UUID, where those that share a
/// UUID agree.
pub open spec fn tails_in(array: Seq<u8>, size: int, n: int) -> Map<Seq<u8>, Seq<u8>> {
    Map::new(
        |uuid: Seq<u8>| exists|i: int| holds_uuid(array, size, n, uuid, i),
        |uuid: Seq<u8>|
            tail_bytes(array, size, choose|i: int| holds_uuid(array, size, n, uuid, i)),
    )
}

/// Tails that are those of the entries are the ones read from them.
pub proof fn lemma_tails_in(tails: Map<Seq<u8>, Seq<u8>>, array: Seq<u8>, size: int, n: int)
    requires
        tails_agree(array, size, n),
        tails_of_entries(tails, array, size, n),
    ensures
        tails == tails_in(array, size, n),
{
    let want = tails_in(array, size, n);
    assert forall|uuid: Seq<u8>| tails.contains_key(uuid) == want.contains_key(uuid) && (
    tails.contains_key(uuid) ==> tails[uuid] == want[uuid]) by {
        if tails.contains_key(uuid) {
            let i = choose|i: int|
                0 <= i < n && #[trigger] slot_used(array, size, i) && uuid_bytes(array, size, i)
                    == uuid;
            assert(holds_uuid(array, size, n, uuid, i));
        }
        if want.contains_key(uuid) {
            let i = choose|i: int| holds_uuid(array, size, n, uuid, i);
            assert(slot_used(array, size, i));
        }
    }
    assert(tails =~= want);
}

/// The tails of a table's entries: what follows the standard bytes, where
/// the table declares larger entries.
///
/// Two entries that share a UUID and differ in their tails are refused: kept
/// by UUID, one tail would end up in both.
pub fn collect_tails(array: &[u8], entry_size: u32, num_entries: u32) -> (r: Result<EntryTails>)
    requires
        entry_size >= 128,
        array.len() == num_entries * entry_size,
    ensures
        match r {
            Ok(tails) => if entry_size == 128 {
                tails@ == Map::<Seq<u8>, Seq<u8>>::empty()
            } else {
                &&& tails_agree(array@, entry_size as int, num_entries as int)
                &&& tails@ == tails_in(array@, entry_size as int, num_entries as int)
            },
            Err(e) => {
                &&& entry_size > 128
                &&& !tails_agree(array@, entry_size as int, num_entries as int)
                &&& e == Error::GptCorrupt("two entries share a UUID and differ in their tails")
            },
        },
{
    let mut tails: EntryTails = EntryTails::new();
    if entry_size == 128 {
        return Ok(tails);
    }
    let size: usize = entry_size as usize;
    let mut i: u32 = 0;
    while i < num_entries
        invariant
            i <= num_entries,
            size == entry_size,
            entry_size > 128,
            array.len() == num_entries * entry_size,
            tails_agree(array@, size as int, i as int),
            tails_of_entries(tails@, array@, size as int, i as int),
        decreases num_entries - i,
    {
        proof {
            lemma_slot_inside(i as int, num_entries as int, size as int);
        }
        let off: usize = i as usize * size;
        let entry: &[u8] = &array[off..off + size];
        assert(entry@ == entry_bytes(array@, size as int, i as int));
        let type_guid: [u8; 16] = get_guid(entry, 0);
        assert(type_guid@ =~= entry@.take(16));
        let ghost before = tails@;
        if !bytes_eq(&type_guid, &type_guids::UNUSED) {
            assert(slot_used(array@, size as int, i as int));
            let uuid: [u8; 16] = get_guid(entry, 16);
            let tail: Vec<u8> = copy_range(entry, ENTRY_STANDARD_BYTES, size);
            let known: bool = match tails.get(&uuid) {
                Some(kept) => {
                    let ghost j = choose|j: int|
                        0 <= j < i && #[trigger] slot_used(array@, size as int, j) && uuid_bytes(
                            array@,
                            size as int,
                            j,
                        ) == uuid@;
                    assert(slot_used(array@, size as int, j));
                    if !bytes_eq(kept.as_slice(), tail.as_slice()) {
                        return Err(
                            Error::GptCorrupt("two entries share a UUID and differ in their tails"),
                        );
                    }
                    true
                },
                None => false,
            };
            if !known {
                tails.insert(uuid, tail);
            }
            proof {
                assert forall|a: int| 0 <= a < i + 1 && #[trigger] slot_used(
                    array@,
                    size as int,
                    a,
                ) implies tails@.contains_key(uuid_bytes(array@, size as int, a))
                    && tails@[uuid_bytes(array@, size as int, a)] == tail_bytes(
                    array@,
                    size as int,
                    a,
                ) by {
                    if a < i {
                        assert(before.contains_key(uuid_bytes(array@, size as int, a)));
                    }
                }
                assert forall|u: Seq<u8>| #[trigger] tails@.contains_key(u) implies exists|
                    a: int,
                |
                    0 <= a < i + 1 && #[trigger] slot_used(array@, size as int, a) && uuid_bytes(
                        array@,
                        size as int,
                        a,
                    ) == u by {
                    if before.contains_key(u) {
                        let a = choose|a: int|
                            0 <= a < i && #[trigger] slot_used(array@, size as int, a)
                                && uuid_bytes(array@, size as int, a) == u;
                        assert(slot_used(array@, size as int, a));
                    } else {
                        assert(u == uuid@);
                    }
                }
            }
        } else {
            assert(!slot_used(array@, size as int, i as int));
            assert forall|u: Seq<u8>| #[trigger] tails@.contains_key(u) implies exists|a: int|
                0 <= a < i + 1 && #[trigger] slot_used(array@, size as int, a) && uuid_bytes(
                    array@,
                    size as int,
                    a,
                ) == u by {
                let a = choose|a: int|
                    0 <= a < i && #[trigger] slot_used(array@, size as int, a) && uuid_bytes(
                        array@,
                        size as int,
                        a,
                    ) == u;
                assert(slot_used(array@, size as int, a));
            }
        }
        i = i + 1;
    }
    proof {
        lemma_tails_in(tails@, array@, size as int, num_entries as int);
    }
    Ok(tails)
}

} // verus!
