//! What a commit leaves behind: what a probe then finds, and where the
//! partitions stay.

use vstd::prelude::*;

use crate::block::BlockDevice;
use crate::codec::{has_at, window, zeros};
use crate::error::{Error, Result};
use crate::gpt::SIGNATURE;
use crate::gpt_write::plan::gpt_plan;
use crate::gpt_write::reload::lemma_unchanged_gpt_set_is_reloaded;
use crate::gpt_write::round_trip::{as_read, labels_whole, lemma_gpt_round_trip, read_back};
use crate::gpt_write::in_table;
use crate::gpt_write::slots::{
    claims, claims_all, lemma_claims_are_honoured, lemma_reserved_seated, lemma_slots_are_sound,
    slots_for,
};
use crate::mbr::round_trip::{
    all_volumes, lemma_mbr_probe_round_trip, lemma_unchanged_mbr_commit, no_volumes, plain_status,
};
use crate::mbr::{
    entry_in, in_use, is_volume, mbr_plan, reserved_slots, role_of, EntryRole,
};
use crate::mutation::{committed, edited, set_on, set_slots, table_of, with_slots, SetView};
use crate::probe::{lba1_on, table_found, table_recovered, PartitionView, TableKind, TableSource};

verus! {

/// What was committed is what is probed: every partition of a GPT set, in
/// the slot it was given, from a primary table that its backup agrees with.
///
/// The table's shape is to be one the reader takes (at most 4096 entries of
/// at most 4096 bytes), and no label may hold a zero character.
pub proof fn lemma_committed_gpt_is_probed<D: BlockDevice + ?Sized>(
    before: &D,
    after: &D,
    s: SetView,
)
    requires
        committed(before, after, s, Ok::<(), Error>(())),
        s.table_kind == TableKind::Gpt,
        s.geometry.num_entries <= 4096,
        s.geometry.entry_size <= 4096,
        labels_whole(s.parts),
    ensures
        set_slots(s) is Ok,
        ({
            let back = read_back(s.parts, set_slots(s)->Ok_0, s.geometry.num_entries as int);
            &&& back.len() == s.parts.len()
            &&& forall|k: int|
                0 <= k < s.parts.len() ==> back.contains(
                    as_read(#[trigger] s.parts[k], set_slots(s)->Ok_0[k]),
                )
            &&& table_found(after.content(), after.stated_size()) == Ok::<
                (TableKind, Seq<PartitionView>),
                Error,
            >((TableKind::Gpt, back))
            &&& table_recovered(after.content(), after.stated_size()) == Ok::<
                (TableKind, Seq<PartitionView>, TableSource),
                Error,
            >((TableKind::Gpt, back, TableSource::Primary))
        }),
{
    let total = before.stated_size() as int / 512;
    let plan = gpt_plan(s.parts, s.geometry, total)->Ok_0;
    lemma_gpt_round_trip(
        before.content(),
        after.content(),
        before.stated_size(),
        table_of(s),
        plan,
    );
    assert(set_slots(s) == Ok::<Seq<u32>, Error>(plan.slots));
}

/// What was committed is what is probed: every partition of an MBR set, in
/// the slot it was given.
///
/// The partitions are to be of types that describe volumes, and nothing may
/// say that the disk holds a GPT: no GPT header at LBA 1, no GPT marker
/// among the entries put back.
pub proof fn lemma_committed_mbr_is_probed<D: BlockDevice + ?Sized>(
    before: &D,
    after: &D,
    s: SetView,
)
    requires
        committed(before, after, s, Ok::<(), Error>(())),
        s.table_kind == TableKind::Mbr,
        all_volumes(s.parts),
        no_volumes(s.reserved),
        !has_at(lba1_on(after.content(), after.stated_size()), 0, SIGNATURE@),
        forall|r: int|
            0 <= r < s.reserved.len() ==> role_of((#[trigger] s.reserved[r]).bytes)
                != EntryRole::GptMarker,
    ensures
        set_slots(s) is Ok,
        table_found(after.content(), after.stated_size()) == Ok::<
            (TableKind, Seq<PartitionView>),
            Error,
        >((TableKind::Mbr, crate::mbr::round_trip::read_back(s.parts, set_slots(s)->Ok_0, 4))),
{
    let slots = mbr_plan(s.parts, s.reserved, before.stated_size())->Ok_0;
    lemma_mbr_probe_round_trip(
        after.content(),
        after.stated_size(),
        window(before.content(), 0, 512),
        s.parts,
        slots,
        s.reserved,
    );
    assert(set_slots(s) == Ok::<Seq<u32>, Error>(slots));
}

/// A commit that changed nothing of an MBR disk changes no byte of it.
///
/// The status bytes of the volumes are to be ones this crate writes (0x00 or
/// 0x80), and the free slots blank.
pub proof fn lemma_unchanged_mbr_disk_stays<D: BlockDevice + ?Sized>(
    before: &D,
    after: &D,
    s: SetView,
)
    requires
        set_on(before.content(), before.stated_size()) == Ok::<SetView, Error>(s),
        s.table_kind == TableKind::Mbr,
        committed(before, after, s, Ok::<(), Error>(())),
        forall|i: int|
            0 <= i < 4 && is_volume(#[trigger] entry_in(window(before.content(), 0, 512), i))
                ==> plain_status(entry_in(window(before.content(), 0, 512), i)),
        forall|i: int|
            0 <= i < 4 && role_of(#[trigger] entry_in(window(before.content(), 0, 512), i))
                == EntryRole::Empty ==> entry_in(window(before.content(), 0, 512), i) == zeros(16),
    ensures
        after.content() == before.content(),
{
    let lba0 = window(before.content(), 0, 512);
    let sector = window(after.content(), 0, 512);
    lemma_unchanged_mbr_commit(
        lba0,
        sector,
        mbr_plan(s.parts, s.reserved, before.stated_size())->Ok_0,
        before.stated_size(),
    );
    assert forall|j: int| 0 <= j < before.content().len() implies #[trigger] after.content()[j]
        == before.content()[j] by {
        if j < 512 {
            assert(sector[j] == lba0[j]);
        }
    }
    assert(after.content() =~= before.content());
}

/// A commit that changed nothing of a GPT disk that the reader finds nothing
/// wrong with gives the same set back; only the MBR in front may have been
/// drawn anew.
///
/// The header's usable range is to be one that the table's own metadata
/// leaves free, or the commit is refused.
pub proof fn lemma_unchanged_gpt_disk_is_reloaded<D: BlockDevice + ?Sized>(
    before: &D,
    after: &D,
    s: SetView,
)
    requires
        set_on(before.content(), before.stated_size()) == Ok::<SetView, Error>(s),
        s.table_kind == TableKind::Gpt,
        forall|i: int| 0 <= i < s.parts.len() ==> (#[trigger] s.parts[i]).issues == 0,
        committed(before, after, s, Ok::<(), Error>(())),
    ensures
        set_on(after.content(), after.stated_size()) == Ok::<SetView, Error>(
            SetView { reserved: in_use(window(after.content(), 0, 512), 4), ..s },
        ),
{
    lemma_unchanged_gpt_set_is_reloaded(
        before.content(),
        after.content(),
        before.stated_size(),
        s,
        gpt_plan(s.parts, s.geometry, before.stated_size() as int / 512)->Ok_0,
    );
}

/// The slots that a set gives out of its table, and those that are spoken
/// for.
spec fn seats_of(s: SetView) -> (int, Seq<u32>) {
    match s.table_kind {
        TableKind::Gpt => (s.geometry.num_entries as int, Seq::empty()),
        TableKind::Mbr => (4, reserved_slots(s.reserved)),
    }
}

/// Once a commit has recorded its slots, they stay: committing again puts
/// every partition where it is, and so does committing after another one was
/// removed.
pub proof fn lemma_recorded_slots_survive_a_removal(s: SetView, i: int)
    requires
        set_slots(s) is Ok,
        0 <= i < s.parts.len(),
    ensures
        ({
            let slots = set_slots(s)->Ok_0;
            let t = with_slots(s, slots);
            &&& slots.len() == s.parts.len()
            &&& set_slots(t) == set_slots(s)
            &&& set_slots(edited(t, t.parts.remove(i))) == Ok::<Seq<u32>, Error>(slots.remove(i))
        }),
{
    let (num, taken) = seats_of(s);
    let slots = set_slots(s)->Ok_0;
    let t = with_slots(s, slots);
    assert(set_slots(s) == slots_for(claims(s.parts), num, taken));
    lemma_slots_are_sound(claims(s.parts), num, taken);
    lemma_reserved_seated(taken, num, taken.len() as int);
    assert(claims(t.parts) =~= claims_all(slots));
    lemma_claims_are_honoured(slots, num, taken);
    let rest = slots.remove(i);
    let removed = edited(t, t.parts.remove(i));
    assert forall|k: int| 0 <= k < rest.len() implies #[trigger] rest[k] == slots[if k < i {
        k
    } else {
        k + 1
    }] by {}
    lemma_claims_are_honoured(rest, num, taken);
    assert(claims(removed.parts) =~= claims_all(rest)) by {
        assert forall|k: int| 0 <= k < rest.len() implies claims(removed.parts)[k] == #[trigger] claims_all(
            rest,
        )[k] by {
            assert(removed.parts[k].slot == t.parts.remove(i)[k].slot);
        }
    }
}

/// A commit that is refused, or that the device does not take writes for,
/// leaves the device as it was.
pub proof fn lemma_refused_commit_writes_nothing<D: BlockDevice + ?Sized>(
    before: &D,
    after: &D,
    s: SetView,
    e: Error,
)
    requires
        committed(before, after, s, Err::<(), Error>(e)),
        !(e is Block) || !before.writable(),
    ensures
        after.content() == before.content(),
{
}

/// Whatever comes of a commit, it touches nothing but the table: of an MBR
/// disk the first sector, of a GPT disk the two copies of the table and the
/// first sector.
pub proof fn lemma_commit_stays_inside_the_table<D: BlockDevice + ?Sized>(
    before: &D,
    after: &D,
    s: SetView,
    r: Result<()>,
    i: int,
)
    requires
        committed(before, after, s, r),
        0 <= i < before.content().len(),
        match s.table_kind {
            TableKind::Mbr => i >= 512,
            TableKind::Gpt => !in_table(table_of(s), before.stated_size() as int / 512, i),
        },
    ensures
        after.content().len() == before.content().len(),
        after.content()[i] == before.content()[i],
{
}

} // verus!
