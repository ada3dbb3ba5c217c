//! What every edit of a partition set keeps, and that a set that has kept it
//! can be written.

use vstd::prelude::*;

use crate::gpt::{
    forwards, lemma_runs_into_is_sharing, overlapped, part_starts, runs_into, share_sector,
    type_guids,
};
use crate::gpt_write::plan::{
    gpt_fault, gpt_plan, lemma_gpt_plan_is_writable, lemma_no_first_fault, spans_of,
};
use crate::gpt_write::slots::{claims, slots_for};
use crate::mbr::{
    mbr_fault, mbr_plan, mbr_walk, over_reserved, reserved_clash, reserved_slots, reserved_span,
    ReservedView,
};
use crate::mutation::{
    add_len, add_refused, added, added_at, apart, clash, clear, edited, first_clash, first_fit,
    first_spans, hinted_start, kept_spans, lemma_set_usable_bounded, meets, occupied, resize_len,
    resize_refused, resized, round_up, set_usable, Addition, SetView,
};
use crate::order::{ahead, key_order, lemma_key_order_sorts, sorts};
use crate::probe::{span, PartitionView, TableKind};
use crate::{Error, Result};

verus! {

/// A partition lies on sector bounds inside the usable range.
pub open spec fn well_placed(p: PartitionView, first: u64, last: u64) -> bool {
    &&& p.length > 0
    &&& p.start % 512 == 0 && p.length % 512 == 0
    &&& span(p) is Ok
    &&& first <= span(p)->Ok_0.0
    &&& span(p)->Ok_0.1 <= last
}

/// A set whose partitions lie on sector bounds inside the usable range, no
/// two sharing a sector, nor in an MBR any with what is kept beside them.
pub open spec fn sound(s: SetView) -> bool {
    &&& set_usable(s) is Ok
    &&& forall|k: int|
        0 <= k < s.parts.len() ==> well_placed(
            #[trigger] s.parts[k],
            set_usable(s)->Ok_0.0,
            set_usable(s)->Ok_0.1,
        )
    &&& forall|i: int, j: int|
        0 <= i < s.parts.len() && 0 <= j < s.parts.len() && i != j ==> !meets(
            #[trigger] s.parts[i],
            #[trigger] s.parts[j],
        )
    &&& s.table_kind == TableKind::Mbr ==> forall|k: int, r: int|
        0 <= k < s.parts.len() && 0 <= r < s.reserved.len() ==> !over_reserved(
            #[trigger] s.parts[k],
            (#[trigger] s.reserved[r]).bytes,
        )
}

/// Nothing clashes exactly where every partition but the one left out is
/// apart from the place.
pub proof fn lemma_no_clash(
    parts: Seq<PartitionView>,
    k: int,
    skip: int,
    start: int,
    len: int,
    overlap: Error,
)
    requires
        0 <= k <= parts.len(),
    ensures
        first_clash(parts, k, skip, start, len, overlap) is None <==> forall|j: int|
            k <= j < parts.len() && j != skip ==> apart(#[trigger] parts[j], start, len),
    decreases parts.len() - k,
{
    if k < parts.len() {
        lemma_no_clash(parts, k + 1, skip, start, len, overlap);
        if k != skip && !apart(parts[k], start, len) {
            assert(!(forall|j: int|
                k <= j < parts.len() && j != skip ==> apart(#[trigger] parts[j], start, len)));
        }
    }
}

/// The first `n` partitions have spans that are clear of a place exactly
/// where each is apart from it.
proof fn lemma_spans_clear(parts: Seq<PartitionView>, n: int, start: int, len: int)
    requires
        0 <= n <= parts.len(),
    ensures
        first_spans(parts, n) is Ok && clear(start, len, first_spans(parts, n)->Ok_0)
            <==> forall|j: int| 0 <= j < n ==> apart(#[trigger] parts[j], start, len),
    decreases n,
{
    if n > 0 {
        lemma_spans_clear(parts, n - 1, start, len);
        let before = first_spans(parts, n - 1)->Ok_0;
        let after = first_spans(parts, n)->Ok_0;
        let all = forall|j: int| 0 <= j < n ==> apart(#[trigger] parts[j], start, len);
        if first_spans(parts, n) is Ok && clear(start, len, after) {
            assert(clear(start, len, before)) by {
                assert forall|i: int| 0 <= i < before.len() implies start + len - 1 < (
                #[trigger] before[i]).0 || before[i].1 < start by {
                    assert(after[i] == before[i]);
                }
            }
            assert(after[before.len() as int] == span(parts[n - 1])->Ok_0);
            assert(apart(parts[n - 1], start, len));
            assert(all);
        }
        if all {
            assert(apart(parts[n - 1], start, len));
        }
    }
}

/// Nothing stands in the way of a place exactly where every partition has a
/// span and the place is clear of all that is occupied: a place that first
/// fit finds is never refused for an overlap.
pub proof fn lemma_clash_is_meeting(s: SetView, start: int, len: int, overlap: Error)
    ensures
        clash(s, -1, start, len, overlap) is None <==> occupied(s) is Ok && clear(
            start,
            len,
            occupied(s)->Ok_0,
        ),
{
    let n = s.parts.len() as int;
    lemma_no_clash(s.parts, 0, -1, start, len, overlap);
    lemma_spans_clear(s.parts, n, start, len);
    if first_spans(s.parts, n) is Ok {
        let own = first_spans(s.parts, n)->Ok_0;
        let kept = match s.table_kind {
            TableKind::Mbr => kept_spans(s.reserved, s.reserved.len() as int),
            TableKind::Gpt => Seq::empty(),
        };
        let both = own + kept;
        if clear(start, len, both) {
            assert forall|i: int| 0 <= i < own.len() implies start + len - 1 < (
            #[trigger] own[i]).0 || own[i].1 < start by {
                assert(both[i] == own[i]);
            }
            assert forall|i: int| 0 <= i < kept.len() implies start + len - 1 < (
            #[trigger] kept[i]).0 || kept[i].1 < start by {
                assert(both[own.len() + i] == kept[i]);
            }
        }
        if clear(start, len, own) && clear(start, len, kept) {
            assert forall|i: int| 0 <= i < both.len() implies start + len - 1 < (
            #[trigger] both[i]).0 || both[i].1 < start by {
                if i < own.len() {
                    assert(both[i] == own[i]);
                } else {
                    assert(both[i] == kept[i - own.len()]);
                }
            }
        }
    }
}

/// The kept spans have that of every reserved entry that keeps one.
proof fn lemma_span_is_kept(reserved: Seq<ReservedView>, n: int, r: int)
    requires
        0 <= r < n <= reserved.len(),
        reserved_span(reserved[r].bytes) is Some,
    ensures
        kept_spans(reserved, n).contains(reserved_span(reserved[r].bytes)->Some_0),
    decreases n,
{
    let before = kept_spans(reserved, n - 1);
    let after = kept_spans(reserved, n);
    let s = reserved_span(reserved[r].bytes)->Some_0;
    if r < n - 1 {
        lemma_span_is_kept(reserved, n - 1, r);
        let i = choose|i: int| 0 <= i < before.len() && before[i] == s;
        assert(after[i] == s);
    } else {
        assert(after[before.len() as int] == s);
    }
}

/// A place that nothing stands in the way of meets no other partition, and
/// in an MBR nothing that is kept.
proof fn lemma_clear_place(
    s: SetView,
    skip: int,
    start: int,
    len: int,
    overlap: Error,
    p: PartitionView,
)
    requires
        clash(s, skip, start, len, overlap) is None,
        len >= 1,
        span(p) is Ok,
        span(p)->Ok_0.0 == start,
        span(p)->Ok_0.1 == start + len - 1,
    ensures
        forall|k: int|
            0 <= k < s.parts.len() && k != skip ==> !meets(p, #[trigger] s.parts[k]) && !meets(
                s.parts[k],
                p,
            ),
        s.table_kind == TableKind::Mbr ==> forall|r: int|
            0 <= r < s.reserved.len() ==> !over_reserved(p, (#[trigger] s.reserved[r]).bytes),
{
    lemma_no_clash(s.parts, 0, skip, start, len, overlap);
    assert forall|k: int| 0 <= k < s.parts.len() && k != skip implies !meets(
        p,
        #[trigger] s.parts[k],
    ) && !meets(s.parts[k], p) by {
        assert(apart(s.parts[k], start, len));
    }
    if s.table_kind == TableKind::Mbr {
        let kept = kept_spans(s.reserved, s.reserved.len() as int);
        assert forall|r: int| 0 <= r < s.reserved.len() implies !over_reserved(
            p,
            (#[trigger] s.reserved[r]).bytes,
        ) by {
            if reserved_span(s.reserved[r].bytes) is Some {
                lemma_span_is_kept(s.reserved, s.reserved.len() as int, r);
                let i = choose|i: int|
                    0 <= i < kept.len() && kept[i] == reserved_span(s.reserved[r].bytes)->Some_0;
                assert(kept[i] == reserved_span(s.reserved[r].bytes)->Some_0);
            }
        }
    }
}

/// Rounding up to 1 MiB gives a multiple of it that is not less.
pub proof fn lemma_round_up(n: int)
    requires
        n >= 0,
    ensures
        round_up(n) % 2048 == 0,
        n <= round_up(n) < n + 2048,
        n > 0 ==> round_up(n) >= 2048,
{
}

/// A partition that could be added at a place keeps the set sound.
proof fn lemma_placed(before: SetView, after: SetView, r: Result<usize>, a: Addition, start: int)
    requires
        added_at(before, after, r, a, start),
        r is Ok,
        add_refused(before, a.length) is None,
        start % 2048 == 0,
        set_usable(before)->Ok_0.0 <= start,
        sound(before),
    ensures
        sound(after),
        after.parts.len() == before.parts.len() + 1,
        after.parts.last().start % 0x10_0000 == 0,
        after.parts.last().length % 0x10_0000 == 0,
{
    let len = add_len(a);
    lemma_round_up(crate::mutation::whole_sectors(a.length as int));
    lemma_set_usable_bounded(before);
    let p = after.parts.last();
    let n = before.parts.len() as int;
    assert(p == after.parts[n]);
    assert((start + len) * 512 <= before.disk_size);
    assert(p.start == start * 512 && p.length == len * 512);
    assert(p.start / 512 == start);
    assert((p.start + p.length - 1) / 512 == start + len - 1);
    assert(span(p)->Ok_0 == (start as u64, (start + len - 1) as u64));
    lemma_clear_place(
        before,
        -1,
        start,
        len,
        Error::Invalid("partition overlaps existing entry"),
        p,
    );
    assert(set_usable(after) == set_usable(before));
    assert forall|k: int| 0 <= k < after.parts.len() implies well_placed(
        #[trigger] after.parts[k],
        set_usable(after)->Ok_0.0,
        set_usable(after)->Ok_0.1,
    ) by {
        if k < n {
            assert(after.parts[k] == before.parts[k]);
        }
    }
    assert forall|i: int, j: int|
        0 <= i < after.parts.len() && 0 <= j < after.parts.len() && i != j implies !meets(
        #[trigger] after.parts[i],
        #[trigger] after.parts[j],
    ) by {
        if i < n && j < n {
            assert(!meets(before.parts[i], before.parts[j]));
        } else if i < n {
            assert(!meets(before.parts[i], p));
        } else {
            assert(!meets(p, before.parts[j]));
        }
    }
    if after.table_kind == TableKind::Mbr {
        assert forall|k: int, r: int|
            0 <= k < after.parts.len() && 0 <= r < after.reserved.len() implies !over_reserved(
            #[trigger] after.parts[k],
            (#[trigger] after.reserved[r]).bytes,
        ) by {
            if k < n {
                assert(!over_reserved(before.parts[k], before.reserved[r].bytes));
            }
        }
    }
}

/// An addition keeps the set sound, leaves the other partitions alone, and
/// makes a partition whose start and length are multiples of 1 MiB.
pub proof fn lemma_add_keeps_sound(
    before: SetView,
    after: SetView,
    r: Result<usize>,
    hint: Option<u64>,
    a: Addition,
)
    requires
        sound(before),
        added(before, after, r, hint, a),
    ensures
        sound(after),
        r is Ok ==> {
            &&& after.parts.len() == before.parts.len() + 1
            &&& after.parts.drop_last() == before.parts
            &&& after.parts.last().start % 0x10_0000 == 0
            &&& after.parts.last().length % 0x10_0000 == 0
            &&& after.parts.last().length >= a.length
        },
{
    if r is Ok {
        let (first, last) = set_usable(before)->Ok_0;
        lemma_round_up(crate::mutation::whole_sectors(a.length as int));
        match hint {
            Some(byte) => {
                lemma_round_up(
                    if crate::mutation::whole_sectors(byte as int) < first {
                        first as int
                    } else {
                        crate::mutation::whole_sectors(byte as int)
                    },
                );
                lemma_placed(before, after, r, a, hinted_start(byte, first));
            },
            None => {
                let spans = occupied(before)->Ok_0;
                let start = choose|start: int|
                    first_fit(start, add_len(a), first as int, last as int, spans)
                        && #[trigger] added_at(before, after, r, a, start);
                lemma_placed(before, after, r, a, start);
            },
        }
        assert(after.parts.drop_last() =~= before.parts);
        lemma_set_usable_bounded(before);
    }
}

/// The overlap bits of sound partitions say nothing of where they lie.
proof fn lemma_edit_keeps_places(s: SetView, parts: Seq<PartitionView>)
    requires
        sound(SetView { parts, ..s }),
    ensures
        sound(edited(s, parts)),
{
    let plain = SetView { parts, ..s };
    let after = edited(s, parts);
    assert(set_usable(after) == set_usable(plain));
    assert forall|k: int| 0 <= k < after.parts.len() implies span(#[trigger] after.parts[k])
        == span(parts[k]) && after.parts[k].start == parts[k].start && after.parts[k].length
        == parts[k].length by {}
    assert forall|k: int| 0 <= k < after.parts.len() implies well_placed(
        #[trigger] after.parts[k],
        set_usable(after)->Ok_0.0,
        set_usable(after)->Ok_0.1,
    ) by {
        assert(well_placed(plain.parts[k], set_usable(plain)->Ok_0.0, set_usable(plain)->Ok_0.1));
    }
    assert forall|i: int, j: int|
        0 <= i < after.parts.len() && 0 <= j < after.parts.len() && i != j implies !meets(
        #[trigger] after.parts[i],
        #[trigger] after.parts[j],
    ) by {
        assert(!meets(plain.parts[i], plain.parts[j]));
    }
    if after.table_kind == TableKind::Mbr {
        assert forall|k: int, r: int|
            0 <= k < after.parts.len() && 0 <= r < after.reserved.len() implies !over_reserved(
            #[trigger] after.parts[k],
            (#[trigger] after.reserved[r]).bytes,
        ) by {
            assert(!over_reserved(plain.parts[k], plain.reserved[r].bytes));
        }
    }
}

/// Removing a partition keeps the set sound.
pub proof fn lemma_remove_keeps_sound(s: SetView, i: int)
    requires
        sound(s),
        0 <= i < s.parts.len(),
    ensures
        sound(edited(s, s.parts.remove(i))),
{
    let parts = s.parts.remove(i);
    let plain = SetView { parts, ..s };
    assert(set_usable(plain) == set_usable(s));
    assert forall|k: int| 0 <= k < parts.len() implies #[trigger] parts[k] == s.parts[if k < i {
        k
    } else {
        k + 1
    }] by {}
    lemma_edit_keeps_places(s, parts);
}

/// A resize that is not refused keeps the set sound, and leaves the
/// partition where it starts.
pub proof fn lemma_resize_keeps_sound(s: SetView, i: int, length: u64)
    requires
        sound(s),
        0 <= i < s.parts.len(),
        length > 0,
        resize_refused(s, i, length) is None,
    ensures
        sound(edited(s, s.parts.update(i, resized(s.table_kind, s.parts[i], length)))),
        resized(s.table_kind, s.parts[i], length).start == s.parts[i].start,
        resized(s.table_kind, s.parts[i], length).length % 0x10_0000 == 0,
        resized(s.table_kind, s.parts[i], length).length >= length,
{
    let p = resized(s.table_kind, s.parts[i], length);
    let parts = s.parts.update(i, p);
    let plain = SetView { parts, ..s };
    let len = resize_len(length);
    let start = s.parts[i].start as int / 512;
    lemma_round_up(crate::mutation::whole_sectors(length as int));
    lemma_set_usable_bounded(s);
    let (first, last) = set_usable(s)->Ok_0;
    assert(well_placed(s.parts[i], first, last));
    assert(first <= start);
    assert((start + len) * 512 <= s.disk_size);
    assert(p.length == len * 512);
    assert(p.start == start * 512);
    assert((p.start + p.length - 1) / 512 == start + len - 1);
    assert(span(p)->Ok_0 == (start as u64, (start + len - 1) as u64));
    lemma_clear_place(
        s,
        i,
        start,
        len,
        Error::Invalid("resize would overlap another partition"),
        p,
    );
    assert(set_usable(plain) == set_usable(s));
    assert forall|k: int| 0 <= k < parts.len() implies well_placed(
        #[trigger] plain.parts[k],
        first,
        last,
    ) by {
        if k != i {
            assert(parts[k] == s.parts[k]);
        }
    }
    assert forall|a: int, b: int| 0 <= a < parts.len() && 0 <= b < parts.len() && a
        != b implies !meets(#[trigger] plain.parts[a], #[trigger] plain.parts[b]) by {
        if a != i && b != i {
            assert(!meets(s.parts[a], s.parts[b]));
        } else if a == i {
            assert(!meets(p, s.parts[b]));
        } else {
            assert(!meets(s.parts[a], p));
        }
    }
    if plain.table_kind == TableKind::Mbr {
        assert forall|k: int, r: int| 0 <= k < parts.len() && 0 <= r < plain.reserved.len() implies
            !over_reserved(#[trigger] plain.parts[k], (#[trigger] plain.reserved[r]).bytes) by {
            if k != i {
                assert(!over_reserved(s.parts[k], s.reserved[r].bytes));
            }
        }
    }
    lemma_edit_keeps_places(s, parts);
}

/// A sound GPT set is accepted by the writer on a disk of its size, as long
/// as every partition has a GPT type and a UUID, and there are slots for
/// them.
pub proof fn lemma_sound_gpt_set_is_accepted(s: SetView)
    requires
        sound(s),
        s.table_kind == TableKind::Gpt,
        s.parts.len() <= s.geometry.num_entries,
        forall|k: int|
            0 <= k < s.parts.len() ==> (#[trigger] s.parts[k]).kind is Gpt
                && s.parts[k].kind->type_guid != type_guids::UNUSED@ && s.parts[k].uuid is Some,
        slots_for(claims(s.parts), s.geometry.num_entries as int, Seq::empty()) is Ok,
    ensures
        gpt_plan(s.parts, s.geometry, s.disk_size as int / 512) is Ok,
{
    let (first, last) = set_usable(s)->Ok_0;
    let parts = s.parts;
    assert forall|k: int| 0 <= k < parts.len() implies gpt_fault(
        #[trigger] parts[k],
        first,
        last,
    ) is None by {
        assert(well_placed(parts[k], first, last));
    }
    lemma_no_first_fault(parts, 0, first, last);
    let spans = spans_of(parts);
    assert(forwards(spans)) by {
        assert forall|k: int| 0 <= k < spans.len() implies (#[trigger] spans[k]).0
            <= spans[k].1 by {
            assert(well_placed(parts[k], first, last));
        }
    }
    assert forall|i: int| 0 <= i < parts.len() implies !#[trigger] overlapped(spans, i) by {
        if overlapped(spans, i) {
            let j = choose|j: int| 0 <= j < spans.len() && j != i && #[trigger] runs_into(spans, i, j);
            lemma_runs_into_is_sharing(spans, i, j);
            assert(well_placed(parts[i], first, last) && well_placed(parts[j], first, last));
            assert(meets(parts[i], parts[j]));
        }
    }
}

/// A GPT set that the writer accepts is sound: nothing that breaks a rule
/// can be written.
pub proof fn lemma_accepted_gpt_set_is_sound(s: SetView)
    requires
        s.table_kind == TableKind::Gpt,
        gpt_plan(s.parts, s.geometry, s.disk_size as int / 512) is Ok,
    ensures
        sound(s),
{
    let (first, last) = set_usable(s)->Ok_0;
    let parts = s.parts;
    lemma_gpt_plan_is_writable(parts, s.geometry, s.disk_size as int / 512);
    let spans = spans_of(parts);
    assert forall|k: int| 0 <= k < parts.len() implies well_placed(
        #[trigger] s.parts[k],
        first,
        last,
    ) by {
        assert(gpt_fault(parts[k], first, last) is None);
    }
    assert(forwards(spans)) by {
        assert forall|k: int| 0 <= k < spans.len() implies (#[trigger] spans[k]).0
            <= spans[k].1 by {
            assert(well_placed(parts[k], first, last));
        }
    }
    assert forall|i: int, j: int|
        0 <= i < parts.len() && 0 <= j < parts.len() && i != j implies !meets(
        #[trigger] s.parts[i],
        #[trigger] s.parts[j],
    ) by {
        assert(well_placed(parts[i], first, last) && well_placed(parts[j], first, last));
        if meets(parts[i], parts[j]) {
            assert(share_sector(spans[i], spans[j]));
            lemma_runs_into_is_sharing(spans, i, j);
            assert(overlapped(spans, i));
        }
    }
}

/// A set without partitions is sound wherever a table fits at all.
pub proof fn lemma_empty_set_is_sound(s: SetView)
    requires
        s.parts.len() == 0,
        set_usable(s) is Ok,
    ensures
        sound(s),
{
}

/// Partitions that lie apart are walked without complaint.
pub proof fn lemma_walk_passes(
    parts: Seq<PartitionView>,
    order: Seq<int>,
    k: int,
    prev: Option<u64>,
    total: u64,
)
    requires
        0 <= k <= parts.len(),
        sorts(part_starts(parts), order, parts.len() as int),
        forall|i: int| 0 <= i < parts.len() ==> mbr_fault(#[trigger] parts[i], total) is None,
        forall|i: int, j: int|
            0 <= i < parts.len() && 0 <= j < parts.len() && i != j ==> !meets(
                #[trigger] parts[i],
                #[trigger] parts[j],
            ),
        prev is Some ==> k > 0 && prev == Some(span(parts[order[k - 1]])->Ok_0.1),
    ensures
        mbr_walk(parts, order, k, prev, total) is None,
    decreases parts.len() - k,
{
    if k < parts.len() {
        let p = parts[order[k]];
        assert(mbr_fault(p, total) is None);
        if prev is Some {
            let q = parts[order[k - 1]];
            assert(ahead(part_starts(parts), order[k - 1], order[k]));
            assert(mbr_fault(q, total) is None);
            assert(!meets(q, p));
            assert(q.start <= p.start);
        }
        lemma_walk_passes(parts, order, k + 1, Some(span(p)->Ok_0.1), total);
    }
}

/// A sound MBR set is accepted by the writer on a disk of its size, as long
/// as every partition has an MBR type, and there are slots for them beside
/// what is kept.
pub proof fn lemma_sound_mbr_set_is_accepted(s: SetView)
    requires
        sound(s),
        s.table_kind == TableKind::Mbr,
        s.disk_size >= 512,
        s.parts.len() + s.reserved.len() <= 4,
        forall|k: int| 0 <= k < s.parts.len() ==> (#[trigger] s.parts[k]).kind is Mbr,
        slots_for(claims(s.parts), 4, reserved_slots(s.reserved)) is Ok,
    ensures
        mbr_plan(s.parts, s.reserved, s.disk_size) is Ok,
{
    let parts = s.parts;
    let (first, last) = set_usable(s)->Ok_0;
    lemma_set_usable_bounded(s);
    assert forall|k: int| 0 <= k < parts.len() implies mbr_fault(
        #[trigger] parts[k],
        s.disk_size,
    ) is None by {
        assert(well_placed(parts[k], first, last));
        let p = parts[k];
        assert(p.start / 512 <= span(p)->Ok_0.1);
        assert(p.length / 512 <= span(p)->Ok_0.1);
    }
    let keys = part_starts(parts);
    let order = key_order(keys, parts.len() as int);
    lemma_key_order_sorts(keys, parts.len() as int);
    lemma_walk_passes(parts, order, 0, None, s.disk_size);
    assert(!reserved_clash(parts, s.reserved));
}

} // verus!
