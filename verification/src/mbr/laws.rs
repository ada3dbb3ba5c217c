//! What the bytes of an MBR mean, and what may be written there.

use vstd::prelude::*;

use crate::codec::{le16, le32, zeros};
use crate::error::Error;
use crate::gpt::part_starts;
use crate::gpt_write::slots::{claims, slots_for};
use crate::mbr::round_trip::lemma_written_mbr_is_disjoint;
use crate::mbr::{
    chs, describes, entry_in, in_use, is_volume, lemma_plan_is_writable, marked, mbr_fault,
    mbr_plan, occupants, partition_of, protective, reserved_clash, reserved_slots, reserved_span,
    role, role_of, signed, slot_holds, table_written, unlisted, volumes, EntryRole, ReservedView,
};
use crate::mutation::sound::lemma_walk_passes;
use crate::order::{key_order, lemma_key_order_sorts};
use crate::probe::{span, KindView, PartitionView};

verus! {

/// The roles of the type bytes: 00 is a free slot, 05, 0F and 85 are
/// containers, EE is the GPT marker, and every other byte is a volume.
pub proof fn lemma_roles(t: u8)
    ensures
        role(t) == EntryRole::Empty <==> t == 0x00,
        role(t) == EntryRole::ExtendedContainer <==> t == 0x05 || t == 0x0F || t == 0x85,
        role(t) == EntryRole::GptMarker <==> t == 0xEE,
        role(t) == EntryRole::Volume <==> t != 0x00 && t != 0x05 && t != 0x0F && t != 0x85 && t
            != 0xEE,
{
}

/// The type byte of slot `i`.
pub open spec fn type_at(lba0: Seq<u8>, i: int) -> u8 {
    lba0[450 + 16 * i]
}

/// Slot `i` holds a volume: a type that is neither free, nor a container,
/// nor the GPT marker, and at least one sector.
pub open spec fn volume_at(lba0: Seq<u8>, i: int) -> bool {
    let t = type_at(lba0, i);
    &&& t != 0x00 && t != 0x05 && t != 0x0F && t != 0x85 && t != 0xEE
    &&& le32(lba0, 458 + 16 * i) > 0
}

/// `p` says what slot `i` says: its first sector and its sectors, in bytes,
/// its type, and whether it is the active one.
pub open spec fn read_from(p: PartitionView, lba0: Seq<u8>, i: int) -> bool {
    &&& p.start == 512 * le32(lba0, 454 + 16 * i)
    &&& p.length == 512 * le32(lba0, 458 + 16 * i)
    &&& p.kind == (KindView::Mbr {
        type_byte: type_at(lba0, i),
        active: lba0[446 + 16 * i] & 0x80 != 0,
    })
    &&& p.label is None
    &&& p.uuid is None
    &&& p.slot == Some(i as u32)
    &&& p.issues == 0
}

/// `r` is slot `i` as it is.
pub open spec fn recorded_from(r: ReservedView, lba0: Seq<u8>, i: int) -> bool {
    r.slot == i && r.bytes == lba0.subrange(446 + 16 * i, 462 + 16 * i)
}

/// The fields of an entry are those of the sector it is cut from.
proof fn lemma_entry_fields(lba0: Seq<u8>, i: int)
    requires
        lba0.len() == 512,
        0 <= i < 4,
    ensures
        entry_in(lba0, i) == lba0.subrange(446 + 16 * i, 462 + 16 * i),
        role_of(entry_in(lba0, i)) == role(type_at(lba0, i)),
        is_volume(entry_in(lba0, i)) == volume_at(lba0, i),
        read_from(partition_of(entry_in(lba0, i), i), lba0, i),
{
    let e = entry_in(lba0, i);
    assert(forall|k: int| 0 <= k < 16 ==> e[k] == lba0[446 + 16 * i + k]);
    assert(le16(e, 8) == le16(lba0, 454 + 16 * i) && le16(e, 10) == le16(lba0, 456 + 16 * i));
    assert(le16(e, 12) == le16(lba0, 458 + 16 * i) && le16(e, 14) == le16(lba0, 460 + 16 * i));
    assert(e[0] & 0x80 != 0 <==> lba0[446 + 16 * i] & 0x80 != 0);
}

proof fn lemma_volumes_to(lba0: Seq<u8>, n: int)
    requires
        lba0.len() == 512,
        0 <= n <= 4,
    ensures
        forall|i: int|
            #![trigger volume_at(lba0, i)]
            0 <= i < n && volume_at(lba0, i) ==> exists|k: int|
                0 <= k < volumes(lba0, n).len() && read_from(#[trigger] volumes(lba0, n)[k], lba0, i),
        forall|k: int|
            0 <= k < volumes(lba0, n).len() ==> {
                let p = #[trigger] volumes(lba0, n)[k];
                p.slot is Some && p.slot->Some_0 < n && volume_at(lba0, p.slot->Some_0 as int)
                    && read_from(p, lba0, p.slot->Some_0 as int)
            },
        forall|j: int, k: int|
            0 <= j < k < volumes(lba0, n).len() ==> (#[trigger] volumes(lba0, n)[j]).slot->Some_0 < (
            #[trigger] volumes(lba0, n)[k]).slot->Some_0,
    decreases n,
{
    if n > 0 {
        lemma_volumes_to(lba0, n - 1);
        lemma_entry_fields(lba0, n - 1);
        let before = volumes(lba0, n - 1);
        let after = volumes(lba0, n);
        assert forall|i: int|
            #![trigger volume_at(lba0, i)]
            0 <= i < n && volume_at(lba0, i) implies exists|k: int|
            0 <= k < after.len() && read_from(#[trigger] after[k], lba0, i) by {
            if i < n - 1 {
                let k = choose|k: int| 0 <= k < before.len() && read_from(#[trigger] before[k], lba0, i);
                assert(after[k] == before[k]);
            } else {
                assert(read_from(after[before.len() as int], lba0, i));
            }
        }
        assert forall|k: int| 0 <= k < after.len() implies {
            let p = #[trigger] after[k];
            p.slot is Some && p.slot->Some_0 < n && volume_at(lba0, p.slot->Some_0 as int)
                && read_from(p, lba0, p.slot->Some_0 as int)
        } by {
            if k < before.len() {
                assert(after[k] == before[k]);
            }
        }
        assert forall|j: int, k: int| 0 <= j < k < after.len() implies (
        #[trigger] after[j]).slot->Some_0 < (#[trigger] after[k]).slot->Some_0 by {
            assert(after[j] == before[j]);
            if k < before.len() {
                assert(after[k] == before[k]);
            }
        }
    }
}

/// The volumes of an MBR are listed slot by slot: each slot that holds one,
/// and no other, with the sectors, the type and the active flag that stand
/// there.
pub proof fn lemma_volumes_are_listed(lba0: Seq<u8>)
    requires
        lba0.len() == 512,
    ensures
        forall|i: int|
            #![trigger volume_at(lba0, i)]
            0 <= i < 4 && volume_at(lba0, i) ==> exists|k: int|
                0 <= k < volumes(lba0, 4).len() && read_from(#[trigger] volumes(lba0, 4)[k], lba0, i),
        forall|k: int|
            0 <= k < volumes(lba0, 4).len() ==> {
                let p = #[trigger] volumes(lba0, 4)[k];
                p.slot is Some && p.slot->Some_0 < 4 && volume_at(lba0, p.slot->Some_0 as int)
                    && read_from(p, lba0, p.slot->Some_0 as int)
            },
        forall|j: int, k: int|
            0 <= j < k < volumes(lba0, 4).len() ==> (#[trigger] volumes(lba0, 4)[j]).slot->Some_0 < (
            #[trigger] volumes(lba0, 4)[k]).slot->Some_0,
{
    lemma_volumes_to(lba0, 4);
}

proof fn lemma_occupants_to(lba0: Seq<u8>, n: int)
    requires
        lba0.len() == 512,
        0 <= n <= 4,
    ensures
        forall|i: int|
            #![trigger type_at(lba0, i)]
            0 <= i < n && type_at(lba0, i) != 0 ==> exists|k: int|
                0 <= k < occupants(lba0, n).len() && read_from(
                    #[trigger] occupants(lba0, n)[k],
                    lba0,
                    i,
                ),
        forall|k: int|
            0 <= k < occupants(lba0, n).len() ==> {
                let p = #[trigger] occupants(lba0, n)[k];
                p.slot is Some && p.slot->Some_0 < n && type_at(lba0, p.slot->Some_0 as int) != 0
                    && read_from(p, lba0, p.slot->Some_0 as int)
            },
        forall|j: int, k: int|
            0 <= j < k < occupants(lba0, n).len() ==> (#[trigger] occupants(
                lba0,
                n,
            )[j]).slot->Some_0 < (#[trigger] occupants(lba0, n)[k]).slot->Some_0,
    decreases n,
{
    if n > 0 {
        lemma_occupants_to(lba0, n - 1);
        lemma_entry_fields(lba0, n - 1);
        lemma_roles(type_at(lba0, n - 1));
        let before = occupants(lba0, n - 1);
        let after = occupants(lba0, n);
        assert forall|i: int|
            #![trigger type_at(lba0, i)]
            0 <= i < n && type_at(lba0, i) != 0 implies exists|k: int|
            0 <= k < after.len() && read_from(#[trigger] after[k], lba0, i) by {
            if i < n - 1 {
                let k = choose|k: int| 0 <= k < before.len() && read_from(#[trigger] before[k], lba0, i);
                assert(after[k] == before[k]);
            } else {
                assert(read_from(after[before.len() as int], lba0, i));
            }
        }
        assert forall|k: int| 0 <= k < after.len() implies {
            let p = #[trigger] after[k];
            p.slot is Some && p.slot->Some_0 < n && type_at(lba0, p.slot->Some_0 as int) != 0
                && read_from(p, lba0, p.slot->Some_0 as int)
        } by {
            if k < before.len() {
                assert(after[k] == before[k]);
            }
        }
        assert forall|j: int, k: int| 0 <= j < k < after.len() implies (
        #[trigger] after[j]).slot->Some_0 < (#[trigger] after[k]).slot->Some_0 by {
            assert(after[j] == before[j]);
            if k < before.len() {
                assert(after[k] == before[k]);
            }
        }
    }
}

/// Every slot whose type byte is not zero is among the entries in use, in
/// slot order, and no other is.
pub proof fn lemma_occupants_are_listed(lba0: Seq<u8>)
    requires
        lba0.len() == 512,
    ensures
        forall|i: int|
            #![trigger type_at(lba0, i)]
            0 <= i < 4 && type_at(lba0, i) != 0 ==> exists|k: int|
                0 <= k < occupants(lba0, 4).len() && read_from(
                    #[trigger] occupants(lba0, 4)[k],
                    lba0,
                    i,
                ),
        forall|k: int|
            0 <= k < occupants(lba0, 4).len() ==> {
                let p = #[trigger] occupants(lba0, 4)[k];
                p.slot is Some && p.slot->Some_0 < 4 && type_at(lba0, p.slot->Some_0 as int) != 0
                    && read_from(p, lba0, p.slot->Some_0 as int)
            },
        forall|j: int, k: int|
            0 <= j < k < occupants(lba0, 4).len() ==> (#[trigger] occupants(
                lba0,
                4,
            )[j]).slot->Some_0 < (#[trigger] occupants(lba0, 4)[k]).slot->Some_0,
{
    lemma_occupants_to(lba0, 4);
}

proof fn lemma_unlisted_to(lba0: Seq<u8>, n: int)
    requires
        lba0.len() == 512,
        0 <= n <= 4,
    ensures
        forall|i: int|
            #![trigger type_at(lba0, i)]
            0 <= i < n && type_at(lba0, i) != 0 && !volume_at(lba0, i) ==> exists|k: int|
                0 <= k < unlisted(lba0, n).len() && recorded_from(
                    #[trigger] unlisted(lba0, n)[k],
                    lba0,
                    i,
                ),
        forall|k: int|
            0 <= k < unlisted(lba0, n).len() ==> {
                let r = #[trigger] unlisted(lba0, n)[k];
                r.slot < n && type_at(lba0, r.slot as int) != 0 && !volume_at(lba0, r.slot as int)
                    && recorded_from(r, lba0, r.slot as int)
            },
        forall|j: int, k: int|
            0 <= j < k < unlisted(lba0, n).len() ==> (#[trigger] unlisted(lba0, n)[j]).slot < (
            #[trigger] unlisted(lba0, n)[k]).slot,
    decreases n,
{
    if n > 0 {
        lemma_unlisted_to(lba0, n - 1);
        lemma_entry_fields(lba0, n - 1);
        lemma_roles(type_at(lba0, n - 1));
        let before = unlisted(lba0, n - 1);
        let after = unlisted(lba0, n);
        assert forall|i: int|
            #![trigger type_at(lba0, i)]
            0 <= i < n && type_at(lba0, i) != 0 && !volume_at(lba0, i) implies exists|k: int|
            0 <= k < after.len() && recorded_from(#[trigger] after[k], lba0, i) by {
            if i < n - 1 {
                let k = choose|k: int|
                    0 <= k < before.len() && recorded_from(#[trigger] before[k], lba0, i);
                assert(after[k] == before[k]);
            } else {
                assert(recorded_from(after[before.len() as int], lba0, i));
            }
        }
        assert forall|k: int| 0 <= k < after.len() implies {
            let r = #[trigger] after[k];
            r.slot < n && type_at(lba0, r.slot as int) != 0 && !volume_at(lba0, r.slot as int)
                && recorded_from(r, lba0, r.slot as int)
        } by {
            if k < before.len() {
                assert(after[k] == before[k]);
            }
        }
        assert forall|j: int, k: int| 0 <= j < k < after.len() implies (#[trigger] after[j]).slot < (
        #[trigger] after[k]).slot by {
            assert(after[j] == before[j]);
            if k < before.len() {
                assert(after[k] == before[k]);
            }
        }
    }
}

/// What an MBR set keeps beside its volumes is every slot in use that holds
/// none, byte for byte, and nothing else.
pub proof fn lemma_the_rest_is_kept(lba0: Seq<u8>)
    requires
        lba0.len() == 512,
    ensures
        forall|i: int|
            #![trigger type_at(lba0, i)]
            0 <= i < 4 && type_at(lba0, i) != 0 && !volume_at(lba0, i) ==> exists|k: int|
                0 <= k < unlisted(lba0, 4).len() && recorded_from(
                    #[trigger] unlisted(lba0, 4)[k],
                    lba0,
                    i,
                ),
        forall|k: int|
            0 <= k < unlisted(lba0, 4).len() ==> {
                let r = #[trigger] unlisted(lba0, 4)[k];
                r.slot < 4 && type_at(lba0, r.slot as int) != 0 && !volume_at(lba0, r.slot as int)
                    && recorded_from(r, lba0, r.slot as int)
            },
        forall|j: int, k: int|
            0 <= j < k < unlisted(lba0, 4).len() ==> (#[trigger] unlisted(lba0, 4)[j]).slot < (
            #[trigger] unlisted(lba0, 4)[k]).slot,
{
    lemma_unlisted_to(lba0, 4);
}

proof fn lemma_in_use_to(lba0: Seq<u8>, n: int)
    requires
        lba0.len() == 512,
        0 <= n <= 4,
    ensures
        forall|i: int|
            #![trigger type_at(lba0, i)]
            0 <= i < n && type_at(lba0, i) != 0 ==> exists|k: int|
                0 <= k < in_use(lba0, n).len() && recorded_from(
                    #[trigger] in_use(lba0, n)[k],
                    lba0,
                    i,
                ),
        forall|k: int|
            0 <= k < in_use(lba0, n).len() ==> {
                let r = #[trigger] in_use(lba0, n)[k];
                r.slot < n && type_at(lba0, r.slot as int) != 0 && recorded_from(
                    r,
                    lba0,
                    r.slot as int,
                )
            },
        forall|j: int, k: int|
            0 <= j < k < in_use(lba0, n).len() ==> (#[trigger] in_use(lba0, n)[j]).slot < (
            #[trigger] in_use(lba0, n)[k]).slot,
    decreases n,
{
    if n > 0 {
        lemma_in_use_to(lba0, n - 1);
        lemma_entry_fields(lba0, n - 1);
        lemma_roles(type_at(lba0, n - 1));
        let before = in_use(lba0, n - 1);
        let after = in_use(lba0, n);
        assert forall|i: int|
            #![trigger type_at(lba0, i)]
            0 <= i < n && type_at(lba0, i) != 0 implies exists|k: int|
            0 <= k < after.len() && recorded_from(#[trigger] after[k], lba0, i) by {
            if i < n - 1 {
                let k = choose|k: int|
                    0 <= k < before.len() && recorded_from(#[trigger] before[k], lba0, i);
                assert(after[k] == before[k]);
            } else {
                assert(recorded_from(after[before.len() as int], lba0, i));
            }
        }
        assert forall|k: int| 0 <= k < after.len() implies {
            let r = #[trigger] after[k];
            r.slot < n && type_at(lba0, r.slot as int) != 0 && recorded_from(r, lba0, r.slot as int)
        } by {
            if k < before.len() {
                assert(after[k] == before[k]);
            }
        }
        assert forall|j: int, k: int| 0 <= j < k < after.len() implies (#[trigger] after[j]).slot < (
        #[trigger] after[k]).slot by {
            assert(after[j] == before[j]);
            if k < before.len() {
                assert(after[k] == before[k]);
            }
        }
    }
}

/// What is recorded of the MBR in front of a GPT is every slot in use, byte
/// for byte, and nothing else.
pub proof fn lemma_entries_in_use_are_recorded(lba0: Seq<u8>)
    requires
        lba0.len() == 512,
    ensures
        forall|i: int|
            #![trigger type_at(lba0, i)]
            0 <= i < 4 && type_at(lba0, i) != 0 ==> exists|k: int|
                0 <= k < in_use(lba0, 4).len() && recorded_from(
                    #[trigger] in_use(lba0, 4)[k],
                    lba0,
                    i,
                ),
        forall|k: int|
            0 <= k < in_use(lba0, 4).len() ==> {
                let r = #[trigger] in_use(lba0, 4)[k];
                r.slot < 4 && type_at(lba0, r.slot as int) != 0 && recorded_from(
                    r,
                    lba0,
                    r.slot as int,
                )
            },
        forall|j: int, k: int|
            0 <= j < k < in_use(lba0, 4).len() ==> (#[trigger] in_use(lba0, 4)[j]).slot < (
            #[trigger] in_use(lba0, 4)[k]).slot,
{
    lemma_in_use_to(lba0, 4);
}

/// Slot `i` holds the GPT marker, and every other slot is free.
pub open spec fn sole_marker(lba0: Seq<u8>, i: int) -> bool {
    &&& 0 <= i < 4
    &&& type_at(lba0, i) == 0xEE
    &&& i == 0 || type_at(lba0, 0) == 0
    &&& i == 1 || type_at(lba0, 1) == 0
    &&& i == 2 || type_at(lba0, 2) == 0
    &&& i == 3 || type_at(lba0, 3) == 0
}

proof fn lemma_sole_marker_protects(lba0: Seq<u8>, i: int)
    requires
        lba0.len() == 512,
        sole_marker(lba0, i),
    ensures
        protective(lba0),
{
    lemma_entry_fields(lba0, i);
    assert forall|j: int|
        #![trigger entry_in(lba0, j)]
        0 <= j < 4 && j != i implies role_of(entry_in(lba0, j)) == EntryRole::Empty by {
        lemma_entry_fields(lba0, j);
    }
    assert(role_of(entry_in(lba0, i)) == EntryRole::GptMarker);
}

/// An MBR speaks of nothing but a GPT where one of its type bytes is EE and
/// the other three are zero.
pub proof fn lemma_protective_is_sole(lba0: Seq<u8>)
    requires
        lba0.len() == 512,
    ensures
        protective(lba0) <==> sole_marker(lba0, 0) || sole_marker(lba0, 1) || sole_marker(lba0, 2)
            || sole_marker(lba0, 3),
{
    if sole_marker(lba0, 0) {
        lemma_sole_marker_protects(lba0, 0);
    }
    if sole_marker(lba0, 1) {
        lemma_sole_marker_protects(lba0, 1);
    }
    if sole_marker(lba0, 2) {
        lemma_sole_marker_protects(lba0, 2);
    }
    if sole_marker(lba0, 3) {
        lemma_sole_marker_protects(lba0, 3);
    }
    if protective(lba0) {
        let i = choose|i: int|
            #![trigger entry_in(lba0, i)]
            0 <= i < 4 && role_of(entry_in(lba0, i)) == EntryRole::GptMarker && forall|j: int|
                #![trigger entry_in(lba0, j)]
                0 <= j < 4 && j != i ==> role_of(entry_in(lba0, j)) == EntryRole::Empty;
        lemma_entry_fields(lba0, 0);
        lemma_entry_fields(lba0, 1);
        lemma_entry_fields(lba0, 2);
        lemma_entry_fields(lba0, 3);
        assert(sole_marker(lba0, i));
    }
}

/// An MBR speaks of a GPT where one of its type bytes is EE.
pub proof fn lemma_marked(lba0: Seq<u8>)
    requires
        lba0.len() == 512,
    ensures
        marked(lba0) <==> type_at(lba0, 0) == 0xEE || type_at(lba0, 1) == 0xEE || type_at(lba0, 2)
            == 0xEE || type_at(lba0, 3) == 0xEE,
{
    lemma_entry_fields(lba0, 0);
    lemma_entry_fields(lba0, 1);
    lemma_entry_fields(lba0, 2);
    lemma_entry_fields(lba0, 3);
    if marked(lba0) {
        let i = choose|i: int|
            #![trigger entry_in(lba0, i)]
            0 <= i < 4 && role_of(entry_in(lba0, i)) == EntryRole::GptMarker;
        lemma_entry_fields(lba0, i);
    }
}

/// An MBR ends in 55 AA.
pub proof fn lemma_signed(lba0: Seq<u8>)
    ensures
        signed(lba0) <==> lba0[510] == 0x55 && lba0[511] == 0xAA,
{
}

/// An entry put back keeps the sectors it names, as many as it counts. The
/// GPT marker and an entry of no sectors keep none.
pub proof fn lemma_kept_sectors(entry: Seq<u8>)
    requires
        entry.len() == 16,
    ensures
        reserved_span(entry) is None <==> entry[4] == 0xEE || le32(entry, 12) == 0,
        reserved_span(entry) matches Some((first, last)) ==> first == le32(entry, 8) && last - first
            + 1 == le32(entry, 12),
{
}

/// A CHS address decodes to the sector it was made for, on a disk of 255
/// heads and 63 sectors a track; one too far for it is all ones.
pub proof fn lemma_chs_decodes(lba: int)
    requires
        0 <= lba,
    ensures
        chs(lba).len() == 3,
        lba >= 1024 * 255 * 63 <==> chs(lba) == seq![0xFFu8, 0xFF, 0xFF],
        lba < 1024 * 255 * 63 ==> {
            let head = chs(lba)[0] as int;
            let sector = chs(lba)[1] as int % 64;
            let cylinder = chs(lba)[1] as int / 64 * 256 + chs(lba)[2] as int;
            &&& 0 <= head < 255
            &&& 1 <= sector <= 63
            &&& (cylinder * 255 + head) * 63 + sector - 1 == lba
        },
{
    let cylinder = lba / 16065;
    let head = (lba / 63) % 255;
    let sector = lba % 63 + 1;
    assert(lba / 63 / 255 == lba / 16065);
    if cylinder <= 1023 {
        let b = sector + 64 * (cylinder / 256);
        assert(0 <= b < 256);
        assert(b % 64 == sector && b / 64 == cylinder / 256);
        assert(chs(lba)[0] != 0xFF);
    }
}

/// A partition may go into an MBR exactly where it has an MBR type, is not
/// empty, lies on sector bounds, starts behind the table, ends inside the
/// device, and both its start and its length fit 32 bits in sectors.
pub proof fn lemma_mbr_accepts(p: PartitionView, total: u64)
    ensures
        mbr_fault(p, total) is None <==> {
            &&& p.kind is Mbr
            &&& p.length > 0
            &&& p.start % 512 == 0 && p.length % 512 == 0
            &&& p.start >= 512
            &&& p.start + p.length <= total
            &&& p.start < 0x200_0000_0000 && p.length < 0x200_0000_0000
        },
{
}

/// The partitions can be written as an MBR exactly where there are at most
/// four entries in all, each partition may go into an MBR, no two share a
/// byte, none lies over an entry put back, and there are slots for them.
pub proof fn lemma_mbr_is_accepted(
    parts: Seq<PartitionView>,
    reserved: Seq<ReservedView>,
    total: u64,
)
    ensures
        mbr_plan(parts, reserved, total) is Ok <==> {
            &&& parts.len() + reserved.len() <= 4
            &&& total >= 512
            &&& forall|k: int|
                0 <= k < parts.len() ==> mbr_fault(#[trigger] parts[k], total) is None
            &&& forall|j: int, k: int|
                0 <= j < parts.len() && 0 <= k < parts.len() && j != k ==> {
                    ||| (#[trigger] parts[j]).start + parts[j].length <= (
                    #[trigger] parts[k]).start
                    ||| parts[k].start + parts[k].length <= parts[j].start
                }
            &&& forall|k: int, r: int|
                0 <= k < parts.len() && 0 <= r < reserved.len() ==> match reserved_span(
                    (#[trigger] reserved[r]).bytes,
                ) {
                    Some((first, last)) => (#[trigger] parts[k]).start + parts[k].length <= first
                        * 512 || (last + 1) * 512 <= parts[k].start,
                    None => true,
                }
            &&& slots_for(claims(parts), 4, reserved_slots(reserved)) is Ok
        },
        parts.len() + reserved.len() > 4 ==> mbr_plan(parts, reserved, total) matches Err(
            Error::Invalid(_),
        ),
        parts.len() + reserved.len() <= 4 && total < 512 ==> mbr_plan(parts, reserved, total)
            == Err::<Seq<u32>, Error>(Error::DeviceTooSmall),
        mbr_plan(parts, reserved, total) matches Ok(slots) ==> slots_for(
            claims(parts),
            4,
            reserved_slots(reserved),
        ) == Ok::<Seq<u32>, Error>(slots),
{
    let n = parts.len() as int;
    if mbr_plan(parts, reserved, total) is Ok {
        lemma_plan_is_writable(parts, reserved, total);
        assert forall|j: int, k: int|
            0 <= j < parts.len() && 0 <= k < parts.len() && j != k implies {
            ||| (#[trigger] parts[j]).start + parts[j].length <= (#[trigger] parts[k]).start
            ||| parts[k].start + parts[k].length <= parts[j].start
        } by {
            assert(mbr_fault(parts[j], total) is None && mbr_fault(parts[k], total) is None);
            lemma_written_mbr_is_disjoint(parts, reserved, total, j, k);
        }
        assert forall|k: int, r: int|
            0 <= k < parts.len() && 0 <= r < reserved.len() implies match reserved_span(
            (#[trigger] reserved[r]).bytes,
        ) {
            Some((first, last)) => (#[trigger] parts[k]).start + parts[k].length <= first * 512 || (
            last + 1) * 512 <= parts[k].start,
            None => true,
        } by {
            assert(mbr_fault(parts[k], total) is None);
            assert(!crate::mbr::over_reserved(parts[k], reserved[r].bytes));
        }
    }
    if {
        &&& parts.len() + reserved.len() <= 4
        &&& total >= 512
        &&& forall|k: int| 0 <= k < parts.len() ==> mbr_fault(#[trigger] parts[k], total) is None
        &&& forall|j: int, k: int|
            0 <= j < parts.len() && 0 <= k < parts.len() && j != k ==> {
                ||| (#[trigger] parts[j]).start + parts[j].length <= (#[trigger] parts[k]).start
                ||| parts[k].start + parts[k].length <= parts[j].start
            }
        &&& forall|k: int, r: int|
            0 <= k < parts.len() && 0 <= r < reserved.len() ==> match reserved_span(
                (#[trigger] reserved[r]).bytes,
            ) {
                Some((first, last)) => (#[trigger] parts[k]).start + parts[k].length <= first * 512
                    || (last + 1) * 512 <= parts[k].start,
                None => true,
            }
    } {
        let keys = part_starts(parts);
        let order = key_order(keys, n);
        lemma_key_order_sorts(keys, n);
        assert forall|i: int, j: int|
            0 <= i < parts.len() && 0 <= j < parts.len() && i != j implies !crate::mutation::meets(
            #[trigger] parts[i],
            #[trigger] parts[j],
        ) by {
            assert(mbr_fault(parts[i], total) is None && mbr_fault(parts[j], total) is None);
        }
        lemma_walk_passes(parts, order, 0, None, total);
        assert(!reserved_clash(parts, reserved)) by {
            assert forall|k: int, r: int|
                0 <= k < parts.len() && 0 <= r < reserved.len() implies !crate::mbr::over_reserved(
                #[trigger] parts[k],
                (#[trigger] reserved[r]).bytes,
            ) by {
                assert(mbr_fault(parts[k], total) is None);
                assert(match reserved_span(reserved[r].bytes) {
                    Some((first, last)) => parts[k].start + parts[k].length <= first * 512 || (last
                        + 1) * 512 <= parts[k].start,
                    None => true,
                });
            }
        }
    }
}

/// Slot `i` of the sector is blank.
pub open spec fn blank_at(sector: Seq<u8>, i: int) -> bool {
    sector.subrange(446 + 16 * i, 462 + 16 * i) == zeros(16)
}

/// The bytes of an MBR that was written: its boot code is that of `base` and
/// its last bytes are 55 AA; the slot of each partition holds its flag, type
/// and sectors, with the CHS bytes that stood there where the sectors are
/// the same ones, and none else; each entry put back is as it was; a slot of
/// neither is blank.
pub proof fn lemma_written_mbr_bytes(
    sector: Seq<u8>,
    base: Seq<u8>,
    parts: Seq<PartitionView>,
    slots: Seq<u32>,
    reserved: Seq<ReservedView>,
    total: u64,
)
    requires
        base.len() == 512,
        mbr_plan(parts, reserved, total) == Ok::<Seq<u32>, Error>(slots),
        table_written(sector, base, parts, slots, reserved),
    ensures
        sector.len() == 512,
        sector[510] == 0x55 && sector[511] == 0xAA,
        forall|i: int| 0 <= i < 446 ==> #[trigger] sector[i] == base[i],
        forall|k: int|
            0 <= k < parts.len() ==> {
                let at = 446 + 16 * (#[trigger] slots[k] as int);
                let same = 512 * le32(base, at + 8) == parts[k].start && 512 * le32(base, at + 12)
                    == parts[k].length;
                &&& sector[at] == (if parts[k].kind->active {
                    0x80u8
                } else {
                    0u8
                })
                &&& sector[at + 4] == parts[k].kind->type_byte
                &&& 512 * le32(sector, at + 8) == parts[k].start
                &&& 512 * le32(sector, at + 12) == parts[k].length
                &&& forall|j: int|
                    1 <= j < 8 && j != 4 ==> #[trigger] sector[at + j] == (if same {
                        base[at + j]
                    } else {
                        0u8
                    })
            },
        forall|r: int|
            0 <= r < reserved.len() ==> sector.subrange(
                446 + 16 * (#[trigger] reserved[r]).slot,
                462 + 16 * reserved[r].slot,
            ) == reserved[r].bytes,
        forall|i: int|
            0 <= i < 4 && !slots.contains(i as u32) && !reserved_slots(reserved).contains(i as u32)
                ==> #[trigger] blank_at(sector, i),
{
    lemma_plan_is_writable(parts, reserved, total);
    crate::gpt_write::slots::lemma_reserved_seated(
        reserved_slots(reserved),
        4,
        reserved.len() as int,
    );
    assert forall|i: int| 0 <= i < 446 implies #[trigger] sector[i] == base[i] by {
        assert(sector.take(446)[i] == base.take(446)[i]);
    }
    assert forall|k: int| 0 <= k < parts.len() implies {
        let at = 446 + 16 * (#[trigger] slots[k] as int);
        let same = 512 * le32(base, at + 8) == parts[k].start && 512 * le32(base, at + 12)
            == parts[k].length;
        &&& sector[at] == (if parts[k].kind->active {
            0x80u8
        } else {
            0u8
        })
        &&& sector[at + 4] == parts[k].kind->type_byte
        &&& 512 * le32(sector, at + 8) == parts[k].start
        &&& 512 * le32(sector, at + 12) == parts[k].length
        &&& forall|j: int|
            1 <= j < 8 && j != 4 ==> #[trigger] sector[at + j] == (if same {
                base[at + j]
            } else {
                0u8
            })
    } by {
        let i = slots[k] as int;
        let at = 446 + 16 * i;
        assert(0 <= i < 4);
        assert(mbr_fault(parts[k], total) is None);
        lemma_entry_fields(sector, i);
        lemma_entry_fields(base, i);
        let e = entry_in(sector, i);
        let b = entry_in(base, i);
        assert(slot_holds(e, b, parts, slots, reserved, i));
        assert(describes(e, parts[k], b));
        assert(forall|j: int| 0 <= j < 16 ==> e[j] == sector[at + j] && b[j] == base[at + j]);
        assert(le16(e, 8) == le16(sector, at + 8) && le16(e, 10) == le16(sector, at + 10));
        assert(le16(e, 12) == le16(sector, at + 12) && le16(e, 14) == le16(sector, at + 14));
        assert(le16(b, 8) == le16(base, at + 8) && le16(b, 10) == le16(base, at + 10));
        assert(le16(b, 12) == le16(base, at + 12) && le16(b, 14) == le16(base, at + 14));
        let same = 512 * le32(base, at + 8) == parts[k].start && 512 * le32(base, at + 12)
            == parts[k].length;
        assert forall|j: int| 1 <= j < 8 && j != 4 implies #[trigger] sector[at + j] == (if same {
            base[at + j]
        } else {
            0u8
        }) by {
            assert(e[j] == sector[at + j]);
        }
    }
    assert forall|r: int| 0 <= r < reserved.len() implies sector.subrange(
        446 + 16 * (#[trigger] reserved[r]).slot,
        462 + 16 * reserved[r].slot,
    ) == reserved[r].bytes by {
        let i = reserved[r].slot as int;
        assert(reserved_slots(reserved)[r] == reserved[r].slot);
        assert(slot_holds(entry_in(sector, i), entry_in(base, i), parts, slots, reserved, i));
        lemma_entry_fields(sector, i);
    }
    assert forall|i: int|
        0 <= i < 4 && !slots.contains(i as u32) && !reserved_slots(reserved).contains(
            i as u32,
        ) implies #[trigger] blank_at(sector, i) by {
        assert(slot_holds(entry_in(sector, i), entry_in(base, i), parts, slots, reserved, i));
        assert forall|k: int| 0 <= k < slots.len() implies #[trigger] slots[k] != i by {
            if slots[k] == i {
                assert(slots.contains(i as u32));
            }
        }
        assert forall|r: int| 0 <= r < reserved.len() implies (#[trigger] reserved[r]).slot != i by {
            if reserved[r].slot == i {
                assert(reserved_slots(reserved)[r] == i as u32);
            }
        }
        lemma_entry_fields(sector, i);
    }
}

} // verus!
