//! What is left of a set when partitions are taken out of it.

use vstd::prelude::*;

use crate::block::BlockDevice;
use crate::error::{Error, Result};
use crate::gpt::{header_in, table_on};
use crate::gpt_write::plan::gpt_plan;
use crate::gpt_write::slots::{claims, claims_all, lemma_claims_are_honoured};
use crate::gpt_write::unchanged::{as_listed, lemma_clean_entries, own_slots};
use crate::mutation::sound::{lemma_sound_gpt_set_is_accepted, sound, well_placed};
use crate::mutation::{
    added, committed, edited, meets, meets_another, reflagged, set_on, set_usable, Addition,
    SetView,
};
use crate::order::lemma_ascending;
use crate::probe::{lba1_on, span, PartitionView, TableKind};

verus! {

/// `t` is what is left of `s` when only the partitions at `kept` stay, in
/// the order they were listed in. What is said of the rules they break may
/// have changed.
pub open spec fn left_of(t: SetView, s: SetView, kept: Seq<int>) -> bool {
    &&& t == (SetView { parts: t.parts, ..s })
    &&& t.parts.len() == kept.len()
    &&& forall|k: int|
        0 <= k < kept.len() ==> 0 <= #[trigger] kept[k] < s.parts.len() && t.parts[k] == (
        PartitionView { issues: t.parts[k].issues, ..s.parts[kept[k]] })
    &&& forall|j: int, k: int|
        0 <= j < k < kept.len() ==> #[trigger] kept[j] < #[trigger] kept[k]
}

/// A set is what is left of it when nothing is taken out.
pub proof fn lemma_all_is_left(s: SetView)
    ensures
        left_of(s, s, Seq::new(s.parts.len(), |k: int| k)),
{
}

/// A removal takes one partition out of what is left, and nothing else.
pub proof fn lemma_removal_leaves_the_rest(t: SetView, s: SetView, kept: Seq<int>, i: int)
    requires
        left_of(t, s, kept),
        0 <= i < kept.len(),
    ensures
        left_of(edited(t, t.parts.remove(i)), s, kept.remove(i)),
{
    let after = edited(t, t.parts.remove(i));
    let rest = kept.remove(i);
    assert forall|k: int| 0 <= k < rest.len() implies 0 <= #[trigger] rest[k] < s.parts.len()
        && after.parts[k] == (PartitionView {
        issues: after.parts[k].issues,
        ..s.parts[rest[k]]
    }) by {
        let from = if k < i {
            k
        } else {
            k + 1
        };
        assert(rest[k] == kept[from]);
        assert(t.parts.remove(i)[k] == t.parts[from]);
    }
    assert forall|j: int, k: int| 0 <= j < k < rest.len() implies #[trigger] rest[j]
        < #[trigger] rest[k] by {
        assert(kept[if j < i {
            j
        } else {
            j + 1
        }] < kept[if k < i {
            k
        } else {
            k + 1
        }]);
    }
}

/// Of a GPT that was probed, what is left when only partitions stay that the
/// reader finds nothing wrong with is a table that the writer takes: to drop
/// the entries that report an issue is enough.
///
/// The header's usable range is to be one that the table's own metadata
/// leaves free.
pub proof fn lemma_clean_rest_is_accepted(
    content: Seq<u8>,
    size: u64,
    s: SetView,
    t: SetView,
    kept: Seq<int>,
)
    requires
        set_on(content, size) == Ok::<SetView, Error>(s),
        s.table_kind == TableKind::Gpt,
        s.geometry.usable(size as int / 512) is Ok,
        left_of(t, s, kept),
        forall|k: int| 0 <= k < kept.len() ==> s.parts[#[trigger] kept[k]].issues == 0,
    ensures
        sound(t),
        gpt_plan(t.parts, t.geometry, size as int / 512) is Ok,
{
    let h = header_in(lba1_on(content, size))->Ok_0;
    let n = h.num_partition_entries as int;
    assert(table_on(content, size, h) == Ok::<Seq<PartitionView>, Error>(s.parts));
    lemma_clean_entries(content, size, h);
    let (first, last) = set_usable(t)->Ok_0;
    crate::gpt_write::geometry::lemma_usable_range_is_clear_of_the_table(
        s.geometry,
        size as int / 512,
    );
    assert(first == h.first_usable_lba && last == h.last_usable_lba);
    assert forall|k: int| 0 <= k < t.parts.len() implies span(#[trigger] t.parts[k]) == span(
        s.parts[kept[k]],
    ) && well_placed(t.parts[k], first, last) by {
        assert(s.parts[kept[k]].issues == 0);
        assert(well_placed(s.parts[kept[k]], first, last));
    }
    assert forall|i: int, j: int|
        0 <= i < t.parts.len() && 0 <= j < t.parts.len() && i != j implies !meets(
        #[trigger] t.parts[i],
        #[trigger] t.parts[j],
    ) by {
        assert(kept[i] != kept[j]) by {
            if i < j {
                assert(kept[i] < kept[j]);
            } else {
                assert(kept[j] < kept[i]);
            }
        }
        assert(s.parts[kept[i]].issues == 0 && s.parts[kept[j]].issues == 0);
        assert(!meets(s.parts[kept[i]], s.parts[kept[j]]));
    }
    if kept.len() > 0 {
        lemma_ascending(kept, kept.len() - 1);
        assert(kept[0] >= 0 && kept[kept.len() - 1] < s.parts.len());
    }
    assert forall|k: int| 0 <= k < t.parts.len() implies (#[trigger] t.parts[k]).slot is Some
        && t.parts[k].slot->Some_0 < n && t.parts[k].kind is Gpt && t.parts[k].kind->type_guid
        != crate::gpt::type_guids::UNUSED@ && t.parts[k].uuid is Some by {
        assert(as_listed(s.parts, n));
        assert(s.parts[kept[k]].slot is Some);
    }
    let slots = own_slots(t.parts);
    assert forall|k: int| 0 <= k < slots.len() implies #[trigger] slots[k] < n by {
        assert(t.parts[k].slot->Some_0 < n);
    }
    assert forall|j: int, k: int| 0 <= j < k < slots.len() implies #[trigger] slots[j]
        != #[trigger] slots[k] by {
        assert(kept[j] < kept[k]);
        assert(s.parts[kept[j]].slot->Some_0 < s.parts[kept[k]].slot->Some_0);
        assert(t.parts[j].slot == s.parts[kept[j]].slot);
        assert(t.parts[k].slot == s.parts[kept[k]].slot);
    }
    lemma_claims_are_honoured(slots, n, Seq::empty());
    assert(claims(t.parts) =~= claims_all(slots)) by {
        assert forall|k: int| 0 <= k < t.parts.len() implies claims(t.parts)[k] == claims_all(
            slots,
        )[k] by {
            assert(t.parts[k].slot is Some);
        }
    }
    lemma_sound_gpt_set_is_accepted(t);
}

/// Dropping the entries that report an issue makes a GPT committable: on a
/// dependable device that takes writes and holds what it states, the commit
/// of what is left succeeds.
pub proof fn lemma_clean_rest_is_committed<D: BlockDevice + ?Sized>(
    before: &D,
    after: &D,
    s: SetView,
    t: SetView,
    kept: Seq<int>,
    r: Result<()>,
)
    requires
        set_on(before.content(), before.stated_size()) == Ok::<SetView, Error>(s),
        s.table_kind == TableKind::Gpt,
        s.geometry.usable(before.stated_size() as int / 512) is Ok,
        left_of(t, s, kept),
        forall|k: int| 0 <= k < kept.len() ==> s.parts[#[trigger] kept[k]].issues == 0,
        before.dependable(),
        before.writable(),
        before.content().len() >= before.stated_size(),
        committed(before, after, t, r),
    ensures
        r is Ok,
{
    lemma_clean_rest_is_accepted(before.content(), before.stated_size(), s, t, kept);
}

/// An edit leaves the overlap bits as another edit would leave them.
pub proof fn lemma_edit_settles_the_overlap_bits(parts: Seq<PartitionView>)
    ensures
        reflagged(reflagged(parts)) == reflagged(parts),
{
    let once = reflagged(parts);
    assert forall|i: int| 0 <= i < parts.len() implies #[trigger] reflagged(once)[i] == once[i] by {
        assert(meets_another(once, i) == meets_another(parts, i)) by {
            assert forall|j: int| 0 <= j < parts.len() implies meets(once[i], once[j]) == meets(
                parts[i],
                parts[j],
            ) by {}
            if meets_another(parts, i) {
                let j = choose|j: int|
                    0 <= j < parts.len() && j != i && #[trigger] meets(parts[i], parts[j]);
                assert(meets(once[i], once[j]));
            }
            if meets_another(once, i) {
                let j = choose|j: int|
                    0 <= j < once.len() && j != i && #[trigger] meets(once[i], once[j]);
                assert(meets(parts[i], parts[j]));
            }
        }
        let issues = parts[i].issues;
        assert((issues | 4u32) | 4u32 == issues | 4u32) by (bit_vector);
        assert((issues & !4u32) & !4u32 == issues & !4u32) by (bit_vector);
    }
    assert(reflagged(once) =~= once);
}

/// Removing the partition that was just added gives the set there was
/// before, the overlap bits of a GPT up to date: the very set, where they
/// were so already.
pub proof fn lemma_removal_undoes_addition(
    before: SetView,
    after: SetView,
    i: usize,
    hint: Option<u64>,
    a: Addition,
)
    requires
        added(before, after, Ok::<usize, Error>(i), hint, a),
    ensures
        i < after.parts.len(),
        edited(after, after.parts.remove(i as int)) == edited(before, before.parts),
        before.table_kind == TableKind::Mbr || reflagged(before.parts) == before.parts ==> edited(
            after,
            after.parts.remove(i as int),
        ) == before,
{
    assert(after.parts.remove(i as int) =~= before.parts);
}

} // verus!
