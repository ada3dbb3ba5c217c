//! The MBR in front of a GPT survives a commit that leaves its partitions
//! alone.

use vstd::prelude::*;

use crate::codec::{window, zeros};
use crate::error::Error;
use crate::gpt_write::image::{
    front_entry, front_written, mirrors, recorded_for, records_hybrid, records_marker,
};
use crate::gpt_write::plan::{gpt_plan, GptPlanView};
use crate::gpt_write::gpt_image;
use crate::mbr::{entry_in, in_use, role_of, signed, EntryRole, ReservedView};
use crate::mutation::{set_on, table_of, SetView};
use crate::probe::{PartitionView, TableKind};

verus! {

/// The MBR is a hybrid one of these partitions: a GPT marker, beside it
/// mirrors of some of the partitions and nothing else, and free slots that
/// are blank.
pub open spec fn hybrid_of(lba0: Seq<u8>, parts: Seq<PartitionView>) -> bool {
    &&& exists|i: int| 0 <= i < 4 && role_of(#[trigger] entry_in(lba0, i)) == EntryRole::GptMarker
    &&& exists|i: int|
        0 <= i < 4 && role_of(#[trigger] entry_in(lba0, i)) != EntryRole::GptMarker && role_of(
            entry_in(lba0, i),
        ) != EntryRole::Empty
    &&& forall|i: int|
        0 <= i < 4 ==> match role_of(#[trigger] entry_in(lba0, i)) {
            EntryRole::GptMarker => true,
            EntryRole::Empty => entry_in(lba0, i) == zeros(16),
            _ => mirrors(entry_in(lba0, i), parts),
        }
}

/// The entries in use are recorded, each with its slot.
proof fn lemma_in_use_recorded(lba0: Seq<u8>, n: int)
    requires
        0 <= n <= 4,
    ensures
        forall|r: int|
            0 <= r < in_use(lba0, n).len() ==> (#[trigger] in_use(lba0, n)[r]).slot < n
                && in_use(lba0, n)[r].bytes == entry_in(lba0, in_use(lba0, n)[r].slot as int)
                && role_of(in_use(lba0, n)[r].bytes) != EntryRole::Empty,
        forall|i: int|
            0 <= i < n && role_of(#[trigger] entry_in(lba0, i)) != EntryRole::Empty ==> exists|
                r: int,
            |
                0 <= r < in_use(lba0, n).len() && (#[trigger] in_use(lba0, n)[r]).slot == i,
    decreases n,
{
    if n > 0 {
        lemma_in_use_recorded(lba0, n - 1);
        let before = in_use(lba0, n - 1);
        let after = in_use(lba0, n);
        assert forall|i: int|
            0 <= i < n && role_of(#[trigger] entry_in(lba0, i)) != EntryRole::Empty implies exists|
            r: int,
        |
            0 <= r < after.len() && (#[trigger] after[r]).slot == i by {
            if i < n - 1 {
                let r = choose|r: int| 0 <= r < before.len() && (#[trigger] before[r]).slot == i;
                assert(after[r] == before[r]);
            } else {
                assert(after[before.len() as int].slot == i);
            }
        }
    }
}

/// What is recorded for a slot is some entry recorded for it, if there is
/// any.
proof fn lemma_recorded_for(recorded: Seq<ReservedView>, i: int, r: int)
    requires
        0 <= r <= recorded.len(),
    ensures
        match recorded_for(recorded, i, r) {
            Some(bytes) => exists|q: int|
                r <= q < recorded.len() && (#[trigger] recorded[q]).slot == i && recorded[q].bytes
                    == bytes,
            None => forall|q: int| r <= q < recorded.len() ==> (#[trigger] recorded[q]).slot != i,
        },
    decreases recorded.len() - r,
{
    if r < recorded.len() && recorded[r].slot != i {
        lemma_recorded_for(recorded, i, r + 1);
    }
}

/// Writing a GPT whose partitions a hybrid MBR mirrors leaves that MBR as it
/// is, byte for byte: its boot code, its marker and its mirrors.
pub proof fn lemma_hybrid_front_is_kept(
    lba0: Seq<u8>,
    sector: Seq<u8>,
    parts: Seq<PartitionView>,
    total_sectors: int,
)
    requires
        lba0.len() == 512,
        signed(lba0),
        hybrid_of(lba0, parts),
        front_written(sector, lba0, in_use(lba0, 4), parts, total_sectors),
    ensures
        sector == lba0,
{
    let recorded = in_use(lba0, 4);
    lemma_in_use_recorded(lba0, 4);
    assert(records_marker(recorded)) by {
        let i = choose|i: int|
            0 <= i < 4 && role_of(#[trigger] entry_in(lba0, i)) == EntryRole::GptMarker;
        let r = choose|r: int| 0 <= r < recorded.len() && (#[trigger] recorded[r]).slot == i;
        assert(recorded[r].bytes == entry_in(lba0, i));
    }
    assert(records_hybrid(recorded)) by {
        let i = choose|i: int|
            0 <= i < 4 && role_of(#[trigger] entry_in(lba0, i)) != EntryRole::GptMarker && role_of(
                entry_in(lba0, i),
            ) != EntryRole::Empty;
        let r = choose|r: int| 0 <= r < recorded.len() && (#[trigger] recorded[r]).slot == i;
        assert(recorded[r].bytes == entry_in(lba0, i));
    }
    assert forall|i: int| 0 <= i < 4 implies #[trigger] entry_in(sector, i) == entry_in(
        lba0,
        i,
    ) by {
        lemma_recorded_for(recorded, i, 0);
        let entry = entry_in(lba0, i);
        assert(front_entry(recorded, parts, total_sectors, i) == entry) by {
            match recorded_for(recorded, i, 0) {
                Some(bytes) => {
                    let q = choose|q: int|
                        0 <= q < recorded.len() && (#[trigger] recorded[q]).slot == i
                            && recorded[q].bytes == bytes;
                    assert(bytes == entry);
                },
                None => {
                    assert(role_of(entry) == EntryRole::Empty);
                },
            }
        }
    }
    assert forall|j: int| 0 <= j < 512 implies sector[j] == lba0[j] by {
        if j < 446 {
            assert(sector.take(446)[j] == lba0.take(446)[j]);
        } else if j < 510 {
            let i = (j - 446) / 16;
            let k = (j - 446) % 16;
            assert(entry_in(sector, i) == entry_in(lba0, i));
            assert(entry_in(sector, i)[k] == sector[j]);
            assert(entry_in(lba0, i)[k] == lba0[j]);
        }
    }
    assert(sector =~= lba0);
}

/// A commit that changed nothing keeps a hybrid disk's MBR.
pub proof fn lemma_unchanged_commit_keeps_a_hybrid(
    content: Seq<u8>,
    after: Seq<u8>,
    size: u64,
    s: SetView,
    plan: GptPlanView,
)
    requires
        set_on(content, size) == Ok::<SetView, Error>(s),
        s.table_kind == TableKind::Gpt,
        signed(window(content, 0, 512)),
        hybrid_of(window(content, 0, 512), s.parts),
        gpt_plan(s.parts, s.geometry, size as int / 512) == Ok::<GptPlanView, Error>(plan),
        gpt_image(content, after, table_of(s), plan, size as int / 512),
    ensures
        window(after, 0, 512) == window(content, 0, 512),
{
    lemma_hybrid_front_is_kept(
        window(content, 0, 512),
        window(after, 0, 512),
        s.parts,
        size as int / 512,
    );
}

} // verus!
