//! What each edit of a set does to its partitions.

use vstd::prelude::*;

use crate::error::{Error, Result};
use crate::gpt::type_guids;
use crate::mbr::{reserved_span, ReservedView};
use crate::mutation::sound::{
    lemma_clash_is_meeting, lemma_no_clash, lemma_round_up, sound, well_placed,
};
use crate::mutation::{
    add_len, added, added_at, apart, clash, clear, edited, first_fit, fits, hinted_start,
    kept_spans, lemma_set_usable_bounded, meant, meets, meets_another, new_kind, occupied,
    resize_len, resize_refused, resized, round_up, set_usable, uuid_index, whole_sectors, Addition,
    PartitionRef, PartitionTypeId, SetView,
};
use crate::probe::{span, KindView, PartitionView, TableKind};
use crate::uuid::v4;

verus! {

proof fn lemma_uuid_index(parts: Seq<PartitionView>, uuid: Seq<u8>, k: int)
    requires
        0 <= k <= parts.len(),
    ensures
        match uuid_index(parts, uuid, k) {
            Ok(i) => k <= i < parts.len() && parts[i].uuid == Some(uuid) && forall|j: int|
                k <= j < i ==> (#[trigger] parts[j]).uuid != Some(uuid),
            Err(e) => e is Invalid && forall|j: int|
                k <= j < parts.len() ==> (#[trigger] parts[j]).uuid != Some(uuid),
        },
    decreases parts.len() - k,
{
    if k < parts.len() && parts[k].uuid != Some(uuid) {
        lemma_uuid_index(parts, uuid, k + 1);
    }
}

/// A partition is found by what it is named by: an index is that of the
/// partition itself, a UUID is that of the first partition that has it. None
/// is found exactly where there is none such.
pub proof fn lemma_partition_is_found(parts: Seq<PartitionView>, target: PartitionRef)
    ensures
        match target {
            PartitionRef::Index(n) => match meant(parts, target) {
                Ok(i) => i == n && n < parts.len(),
                Err(e) => e is Invalid && n >= parts.len(),
            },
            PartitionRef::Uuid(u) => match meant(parts, target) {
                Ok(i) => 0 <= i < parts.len() && parts[i].uuid == Some(u@) && forall|j: int|
                    0 <= j < i ==> (#[trigger] parts[j]).uuid != Some(u@),
                Err(e) => e is Invalid && forall|j: int|
                    0 <= j < parts.len() ==> (#[trigger] parts[j]).uuid != Some(u@),
            },
        },
{
    if let PartitionRef::Uuid(u) = target {
        lemma_uuid_index(parts, u@, 0);
    }
}

/// The `k`th partition shares a sector with another.
pub open spec fn runs_into_another(parts: Seq<PartitionView>, k: int) -> bool {
    exists|j: int|
        0 <= j < parts.len() && j != k && span(parts[k]) is Ok && span(#[trigger] parts[j]) is Ok
            && span(parts[k])->Ok_0.0 <= span(parts[j])->Ok_0.1 && span(parts[j])->Ok_0.0 <= span(
            parts[k],
        )->Ok_0.1
}

/// `now` is `was` but for the overlap bit.
pub open spec fn same_but_overlap(now: PartitionView, was: PartitionView) -> bool {
    &&& now.start == was.start
    &&& now.length == was.length
    &&& now.kind == was.kind
    &&& now.label == was.label
    &&& now.uuid == was.uuid
    &&& now.slot == was.slot
    &&& now.issues & !4u32 == was.issues & !4u32
}

/// An edit leaves the set as it is but for its list. In a GPT the overlap bit
/// of every partition says whether it now shares a sector with another, and
/// nothing else of it changes; in an MBR nothing does.
pub proof fn lemma_edit_only_flags_overlaps(s: SetView, parts: Seq<PartitionView>)
    ensures
        edited(s, parts).table_kind == s.table_kind,
        edited(s, parts).disk_size == s.disk_size,
        edited(s, parts).disk_guid == s.disk_guid,
        edited(s, parts).geometry == s.geometry,
        edited(s, parts).reserved == s.reserved,
        edited(s, parts).tails == s.tails,
        edited(s, parts).parts.len() == parts.len(),
        s.table_kind == TableKind::Mbr ==> edited(s, parts).parts == parts,
        s.table_kind == TableKind::Gpt ==> forall|k: int|
            0 <= k < parts.len() ==> same_but_overlap(#[trigger] edited(s, parts).parts[k], parts[k])
                && (edited(s, parts).parts[k].issues & 4 != 0 <==> runs_into_another(parts, k)),
{
    if s.table_kind == TableKind::Gpt {
        let after = edited(s, parts).parts;
        assert forall|k: int| 0 <= k < parts.len() implies same_but_overlap(
            #[trigger] after[k],
            parts[k],
        ) && (after[k].issues & 4 != 0 <==> runs_into_another(parts, k)) by {
            let x = parts[k].issues;
            assert((x | 4u32) & !4u32 == x & !4u32) by (bit_vector);
            assert((x & !4u32) & !4u32 == x & !4u32) by (bit_vector);
            assert((x | 4u32) & 4u32 != 0u32) by (bit_vector);
            assert((x & !4u32) & 4u32 == 0u32) by (bit_vector);
            if meets_another(parts, k) {
                let j = choose|j: int|
                    0 <= j < parts.len() && j != k && #[trigger] meets(parts[k], parts[j]);
                assert(span(parts[j]) is Ok);
                assert(runs_into_another(parts, k));
            }
            if runs_into_another(parts, k) {
                let j = choose|j: int|
                    0 <= j < parts.len() && j != k && span(parts[k]) is Ok && span(
                        #[trigger] parts[j],
                    ) is Ok && span(parts[k])->Ok_0.0 <= span(parts[j])->Ok_0.1 && span(
                        parts[j],
                    )->Ok_0.0 <= span(parts[k])->Ok_0.1;
                assert(meets(parts[k], parts[j]));
            }
        }
    }
}

/// A removal takes out the partition that was named and no other: those
/// before it stay where they are, those behind it move up by one. By UUID,
/// every partition that has another UUID, or none, is still there.
pub proof fn lemma_removal_takes_the_one_named(s: SetView, target: PartitionRef)
    requires
        meant(s.parts, target) is Ok,
    ensures
        ({
            let i = meant(s.parts, target)->Ok_0;
            let after = edited(s, s.parts.remove(i)).parts;
            &&& 0 <= i < s.parts.len()
            &&& after.len() == s.parts.len() - 1
            &&& forall|k: int| 0 <= k < i ==> same_but_overlap(#[trigger] after[k], s.parts[k])
            &&& forall|k: int|
                i <= k < after.len() ==> same_but_overlap(#[trigger] after[k], s.parts[k + 1])
            &&& target matches PartitionRef::Uuid(u) ==> forall|k: int|
                0 <= k < s.parts.len() && (#[trigger] s.parts[k]).uuid != Some(u@)
                    ==> same_but_overlap(
                    after[if k < i {
                        k
                    } else {
                        k - 1
                    }],
                    s.parts[k],
                )
            &&& target matches PartitionRef::Index(n) ==> i == n
        }),
{
    lemma_partition_is_found(s.parts, target);
    let i = meant(s.parts, target)->Ok_0;
    let rest = s.parts.remove(i);
    let after = edited(s, rest).parts;
    lemma_edit_only_flags_overlaps(s, rest);
    assert forall|k: int| 0 <= k < after.len() implies same_but_overlap(
        #[trigger] after[k],
        s.parts[if k < i {
            k
        } else {
            k + 1
        }],
    ) by {
        assert(rest[k] == s.parts[if k < i {
            k
        } else {
            k + 1
        }]);
    }
    if let PartitionRef::Uuid(u) = target {
        assert forall|k: int|
            0 <= k < s.parts.len() && (#[trigger] s.parts[k]).uuid != Some(u@) implies same_but_overlap(
            after[if k < i {
                k
            } else {
                k - 1
            }],
            s.parts[k],
        ) by {
            assert(k != i);
            let at = if k < i {
                k
            } else {
                k - 1
            };
            assert(same_but_overlap(after[at], s.parts[if at < i {
                at
            } else {
                at + 1
            }]));
        }
    }
}

/// The least multiple of 1 MiB that is not less than `bytes` is `n`.
pub open spec fn mib_for(bytes: int, n: int) -> bool {
    n % 0x10_0000 == 0 && bytes <= n < bytes + 0x10_0000
}

proof fn lemma_mib(bytes: int)
    requires
        bytes >= 0,
    ensures
        mib_for(bytes, round_up(whole_sectors(bytes)) * 512),
{
    lemma_round_up(whole_sectors(bytes));
}

proof fn lemma_mib_unique(bytes: int, a: int, b: int)
    requires
        mib_for(bytes, a),
        mib_for(bytes, b),
    ensures
        a == b,
{
}

/// A resize that is not refused gives the partition the least multiple of
/// 1 MiB that is not less than what was asked for, whether it grows or
/// shrinks by that, and leaves the rest of it alone; in a GPT it no longer
/// counts as running past the usable range.
pub proof fn lemma_resize_gives_what_was_asked(s: SetView, i: int, length: u64)
    requires
        0 <= i < s.parts.len(),
        length > 0,
        resize_refused(s, i, length) is None,
    ensures
        ({
            let p = s.parts[i];
            let q = resized(s.table_kind, p, length);
            &&& mib_for(length as int, q.length as int)
            &&& q.start == p.start && q.kind == p.kind && q.label == p.label && q.uuid == p.uuid
            &&& q.slot == p.slot
            &&& s.table_kind == TableKind::Gpt ==> q.issues == p.issues & !2u32
            &&& s.table_kind == TableKind::Mbr ==> q.issues == p.issues
        }),
        ({
            let after = edited(
                s,
                s.parts.update(i, resized(s.table_kind, s.parts[i], length)),
            ).parts;
            &&& after.len() == s.parts.len()
            &&& mib_for(length as int, after[i].length as int)
            &&& after[i].start == s.parts[i].start
            &&& forall|k: int|
                0 <= k < after.len() && k != i ==> same_but_overlap(#[trigger] after[k], s.parts[k])
        }),
{
    lemma_mib(length as int);
    lemma_set_usable_bounded(s);
    let parts = s.parts.update(i, resized(s.table_kind, s.parts[i], length));
    lemma_edit_only_flags_overlaps(s, parts);
    let after = edited(s, parts).parts;
    assert(after[i].length == parts[i].length && after[i].start == parts[i].start);
    assert forall|k: int| 0 <= k < after.len() && k != i implies same_but_overlap(
        #[trigger] after[k],
        s.parts[k],
    ) by {
        assert(parts[k] == s.parts[k]);
    }
}

/// Nothing lies in the `len` bytes at `at`: no sector of a partition but the
/// one at `skip`, and in an MBR none that an entry beside them keeps.
pub open spec fn free_at(s: SetView, skip: int, at: int, len: int) -> bool {
    &&& forall|k: int|
        0 <= k < s.parts.len() && k != skip ==> {
            &&& span(#[trigger] s.parts[k]) is Ok
            &&& at + len <= span(s.parts[k])->Ok_0.0 * 512 || (span(s.parts[k])->Ok_0.1 + 1) * 512
                <= at
        }
    &&& s.table_kind == TableKind::Mbr ==> forall|r: int|
        0 <= r < s.reserved.len() ==> match reserved_span((#[trigger] s.reserved[r]).bytes) {
            Some((first, last)) => at + len <= first * 512 || (last + 1) * 512 <= at,
            None => true,
        }
}

proof fn lemma_kept_clear(reserved: Seq<ReservedView>, n: int, start: int, len: int)
    requires
        0 <= n <= reserved.len(),
    ensures
        clear(start, len, kept_spans(reserved, n)) <==> forall|r: int|
            0 <= r < n ==> match reserved_span((#[trigger] reserved[r]).bytes) {
                Some((first, last)) => start + len - 1 < first || last < start,
                None => true,
            },
    decreases n,
{
    if n > 0 {
        lemma_kept_clear(reserved, n - 1, start, len);
        let before = kept_spans(reserved, n - 1);
        let after = kept_spans(reserved, n);
        if let Some(s) = reserved_span(reserved[n - 1].bytes) {
            assert(after == before.push(s));
            if clear(start, len, after) {
                assert forall|i: int| 0 <= i < before.len() implies start + len - 1 < (
                #[trigger] before[i]).0 || before[i].1 < start by {
                    assert(after[i] == before[i]);
                }
                assert(after[before.len() as int] == s);
            }
            if clear(start, len, before) && (start + len - 1 < s.0 || s.1 < start) {
                assert forall|i: int| 0 <= i < after.len() implies start + len - 1 < (
                #[trigger] after[i]).0 || after[i].1 < start by {
                    if i < before.len() {
                        assert(after[i] == before[i]);
                    }
                }
            }
            if forall|r: int|
                0 <= r < n ==> match reserved_span((#[trigger] reserved[r]).bytes) {
                    Some((first, last)) => start + len - 1 < first || last < start,
                    None => true,
                } {
                assert(match reserved_span(reserved[n - 1].bytes) {
                    Some((first, last)) => start + len - 1 < first || last < start,
                    None => true,
                });
            }
        }
    }
}

/// Nothing clashes exactly where the place is free.
proof fn lemma_clash_is_lack_of_room(
    s: SetView,
    skip: int,
    start: int,
    len: int,
    overlap: Error,
)
    requires
        len >= 1,
    ensures
        clash(s, skip, start, len, overlap) is None <==> free_at(s, skip, start * 512, len * 512),
{
    lemma_no_clash(s.parts, 0, skip, start, len, overlap);
    lemma_kept_clear(s.reserved, s.reserved.len() as int, start, len);
    if free_at(s, skip, start * 512, len * 512) {
        assert forall|k: int| 0 <= k < s.parts.len() && k != skip implies apart(
            #[trigger] s.parts[k],
            start,
            len,
        ) by {}
        if s.table_kind == TableKind::Mbr {
            assert forall|r: int| 0 <= r < s.reserved.len() implies match reserved_span(
                (#[trigger] s.reserved[r]).bytes,
            ) {
                Some((first, last)) => start + len - 1 < first || last < start,
                None => true,
            } by {
                assert(match reserved_span(s.reserved[r].bytes) {
                    Some((first, last)) => start * 512 + len * 512 <= first * 512 || (last + 1)
                        * 512 <= start * 512,
                    None => true,
                });
            }
        }
    }
    if clash(s, skip, start, len, overlap) is None {
        assert forall|k: int| 0 <= k < s.parts.len() && k != skip implies {
            &&& span(#[trigger] s.parts[k]) is Ok
            &&& start * 512 + len * 512 <= span(s.parts[k])->Ok_0.0 * 512 || (span(
                s.parts[k],
            )->Ok_0.1 + 1) * 512 <= start * 512
        } by {
            assert(apart(s.parts[k], start, len));
        }
        if s.table_kind == TableKind::Mbr {
            assert forall|r: int| 0 <= r < s.reserved.len() implies match reserved_span(
                (#[trigger] s.reserved[r]).bytes,
            ) {
                Some((first, last)) => start * 512 + len * 512 <= first * 512 || (last + 1) * 512
                    <= start * 512,
                None => true,
            } by {
                assert(match reserved_span(s.reserved[r].bytes) {
                    Some((first, last)) => start + len - 1 < first || last < start,
                    None => true,
                });
            }
        }
    }
}

/// A resize is refused exactly where there is no usable range, or the new end
/// lies past it, or something else lies in the way. `n` is the length in
/// bytes that it would give.
pub proof fn lemma_resize_is_refused_for_lack_of_room(s: SetView, i: int, length: u64, n: int)
    requires
        0 <= i < s.parts.len(),
        length > 0,
        mib_for(length as int, n),
    ensures
        resize_refused(s, i, length) is None <==> {
            let at = s.parts[i].start / 512 * 512;
            &&& set_usable(s) is Ok
            &&& at + n <= (set_usable(s)->Ok_0.1 + 1) * 512
            &&& s.table_kind == TableKind::Mbr ==> n < 0x200_0000_0000
            &&& free_at(s, i, at as int, n)
        },
        resize_refused(s, i, length) matches Some(e) ==> e is Invalid || set_usable(s) == Err::<
            (u64, u64),
            Error,
        >(e),
{
    lemma_mib(length as int);
    lemma_mib_unique(length as int, n, resize_len(length) * 512);
    let start = s.parts[i].start as int / 512;
    let why = Error::Invalid("resize would overlap another partition");
    lemma_round_up(whole_sectors(length as int));
    lemma_clash_is_lack_of_room(s, i, start, resize_len(length), why);
    lemma_clash_error(s, i, start, resize_len(length), why);
}

proof fn lemma_first_clash_error(
    parts: Seq<PartitionView>,
    k: int,
    skip: int,
    start: int,
    len: int,
    overlap: Error,
)
    requires
        0 <= k <= parts.len(),
        overlap is Invalid,
    ensures
        crate::mutation::first_clash(parts, k, skip, start, len, overlap) matches Some(e)
            ==> e is Invalid,
    decreases parts.len() - k,
{
    if k < parts.len() {
        lemma_first_clash_error(parts, k + 1, skip, start, len, overlap);
    }
}

proof fn lemma_clash_error(s: SetView, skip: int, start: int, len: int, overlap: Error)
    requires
        overlap is Invalid,
    ensures
        clash(s, skip, start, len, overlap) matches Some(e) ==> e is Invalid,
{
    lemma_first_clash_error(s.parts, 0, skip, start, len, overlap);
}

/// What is said of a resize that does not do: that it reaches past the usable
/// range, or that there is none on a disk so small; else that an MBR cannot
/// say it.
pub proof fn lemma_resize_reasons(s: SetView, i: int, length: u64, n: int)
    requires
        0 <= i < s.parts.len(),
        length > 0,
        mib_for(length as int, n),
    ensures
        ({
            let said = resize_refused(s, i, length);
            let end = s.parts[i].start / 512 * 512 + n;
            &&& set_usable(s) == Err::<(u64, u64), Error>(Error::DeviceTooSmall) ==> said == Some(
                Error::Invalid("resize extends past last usable LBA"),
            )
            &&& set_usable(s) is Ok && end > (set_usable(s)->Ok_0.1 + 1) * 512 ==> said == Some(
                Error::Invalid("resize extends past last usable LBA"),
            )
            &&& set_usable(s) is Ok && end <= (set_usable(s)->Ok_0.1 + 1) * 512 && s.table_kind
                == TableKind::Mbr && n >= 0x200_0000_0000 ==> said == Some(
                Error::Invalid("resize exceeds MBR 32-bit LBA range"),
            )
        }),
{
    lemma_mib(length as int);
    lemma_mib_unique(length as int, n, resize_len(length) * 512);
}

/// In a sound set a partition can always be given no more than it has.
pub proof fn lemma_shrinking_is_never_refused(s: SetView, i: int, length: u64, n: int)
    requires
        sound(s),
        0 <= i < s.parts.len(),
        length > 0,
        mib_for(length as int, n),
        n <= s.parts[i].length,
    ensures
        resize_refused(s, i, length) is None,
{
    lemma_resize_is_refused_for_lack_of_room(s, i, length, n);
    lemma_set_usable_bounded(s);
    let p = s.parts[i];
    let (first, last) = set_usable(s)->Ok_0;
    assert(well_placed(p, first, last));
    assert(p.start / 512 * 512 == p.start);
    assert(p.start + p.length <= (last + 1) * 512);
    assert(free_at(s, i, p.start as int, n)) by {
        assert forall|k: int| 0 <= k < s.parts.len() && k != i implies {
            &&& span(#[trigger] s.parts[k]) is Ok
            &&& p.start + n <= span(s.parts[k])->Ok_0.0 * 512 || (span(s.parts[k])->Ok_0.1 + 1)
                * 512 <= p.start
        } by {
            assert(well_placed(s.parts[k], first, last));
            assert(!meets(s.parts[i], s.parts[k]));
        }
        if s.table_kind == TableKind::Mbr {
            assert forall|r: int| 0 <= r < s.reserved.len() implies match reserved_span(
                (#[trigger] s.reserved[r]).bytes,
            ) {
                Some((a, b)) => p.start + n <= a * 512 || (b + 1) * 512 <= p.start,
                None => true,
            } by {
                assert(!crate::mbr::over_reserved(s.parts[i], s.reserved[r].bytes));
            }
        }
    }
}

/// The place the new partition is given, and what it is: at a multiple of
/// 1 MiB, the least multiple of 1 MiB long that holds what was asked for,
/// inside the usable range and free; of the type, with the label and with a
/// UUID made of the randomness that were given; in no slot yet, with nothing
/// wrong. It comes last, and nothing else of the set changes. With a hint it
/// starts at the first multiple of 1 MiB that is neither before it nor before
/// the usable range; without one at the lowest place there is.
pub proof fn lemma_addition_is_what_was_asked(
    before: SetView,
    after: SetView,
    i: usize,
    hint: Option<u64>,
    a: Addition,
)
    requires
        added(before, after, Ok::<usize, Error>(i), hint, a),
        before.parts.len() <= usize::MAX,
    ensures
        a.length > 0,
        i == before.parts.len(),
        after.parts.len() == before.parts.len() + 1,
        forall|k: int| 0 <= k < i ==> #[trigger] after.parts[k] == before.parts[k],
        after.table_kind == before.table_kind && after.disk_size == before.disk_size,
        after.disk_guid == before.disk_guid && after.geometry == before.geometry,
        after.reserved == before.reserved && after.tails == before.tails,
        ({
            let p = after.parts[i as int];
            &&& p.start % 0x10_0000 == 0
            &&& mib_for(a.length as int, p.length as int)
            &&& set_usable(before) is Ok
            &&& set_usable(before)->Ok_0.0 * 512 <= p.start
            &&& p.start + p.length <= (set_usable(before)->Ok_0.1 + 1) * 512
            &&& free_at(before, -1, p.start as int, p.length as int)
            &&& new_kind(before.table_kind, a.type_id) == Ok::<KindView, Error>(p.kind)
            &&& p.label == a.label
            &&& p.uuid == (if before.table_kind == TableKind::Gpt {
                Some(v4(a.random))
            } else {
                None
            })
            &&& p.slot is None
            &&& p.issues == 0
            &&& match hint {
                Some(h) => h <= p.start && (p.start < h + 0x10_0000 || p.start < set_usable(
                    before,
                )->Ok_0.0 * 512 + 0x10_0000),
                None => forall|at: int|
                    at % 0x10_0000 == 0 && set_usable(before)->Ok_0.0 * 512 <= at && at + p.length
                        <= (set_usable(before)->Ok_0.1 + 1) * 512 && #[trigger] free_at(
                        before,
                        -1,
                        at,
                        p.length as int,
                    ) ==> p.start <= at,
            }
        }),
{
    let (first, last) = set_usable(before)->Ok_0;
    lemma_set_usable_bounded(before);
    lemma_mib(a.length as int);
    lemma_round_up(whole_sectors(a.length as int));
    let len = add_len(a);
    let why = Error::Invalid("partition overlaps existing entry");
    let start = match hint {
        Some(h) => hinted_start(h, first),
        None => choose|start: int|
            first_fit(start, len, first as int, last as int, occupied(before)->Ok_0)
                && #[trigger] added_at(before, after, Ok::<usize, Error>(i), a, start),
    };
    match hint {
        Some(h) => {
            lemma_round_up(
                if whole_sectors(h as int) < first {
                    first as int
                } else {
                    whole_sectors(h as int)
                },
            );
        },
        None => {},
    }
    assert(added_at(before, after, Ok::<usize, Error>(i), a, start));
    let p = after.parts[i as int];
    assert(start % 2048 == 0 && first <= start);
    assert((start + len) * 512 <= before.disk_size);
    assert(p.start == start * 512 && p.length == len * 512);
    lemma_clash_is_lack_of_room(before, -1, start, len, why);
    if hint is None {
        assert forall|at: int|
            at % 0x10_0000 == 0 && first * 512 <= at && at + p.length <= (last + 1) * 512
                && #[trigger] free_at(before, -1, at, p.length as int) implies p.start <= at by {
            let other = at / 512;
            assert(other * 512 == at);
            assert(other % 2048 == 0);
            lemma_clash_is_lack_of_room(before, -1, other, len, why);
            lemma_clash_is_meeting(before, other, len, why);
            assert(fits(other, len, first as int, last as int, occupied(before)->Ok_0));
        }
    }
}

/// An addition that is refused changes nothing.
pub proof fn lemma_refused_addition_changes_nothing(
    before: SetView,
    after: SetView,
    r: Result<usize>,
    hint: Option<u64>,
    a: Addition,
)
    requires
        added(before, after, r, hint, a),
        r is Err,
    ensures
        after == before,
{
}

/// There is an entry left for one more partition.
pub open spec fn entry_left(s: SetView) -> bool {
    match s.table_kind {
        TableKind::Mbr => s.parts.len() + s.reserved.len() < 4,
        TableKind::Gpt => s.parts.len() < s.geometry.num_entries,
    }
}

/// An addition succeeds where it can: something is asked for, there is an
/// entry left, the type is one the table has, and there is a place. `n` is
/// the length it would take, and `at` the place: with a hint the one that the
/// hint leads to, without one any that is free.
pub proof fn lemma_addition_succeeds_where_it_can(
    before: SetView,
    after: SetView,
    r: Result<usize>,
    hint: Option<u64>,
    a: Addition,
    n: int,
    at: int,
)
    requires
        added(before, after, r, hint, a),
        a.length > 0,
        entry_left(before),
        new_kind(before.table_kind, a.type_id) is Ok,
        set_usable(before) is Ok,
        mib_for(a.length as int, n),
        at % 0x10_0000 == 0,
        set_usable(before)->Ok_0.0 * 512 <= at,
        at + n <= (set_usable(before)->Ok_0.1 + 1) * 512,
        free_at(before, -1, at, n),
        hint matches Some(h) ==> h <= at && (at < h + 0x10_0000 || at < set_usable(before)->Ok_0.0
            * 512 + 0x10_0000),
    ensures
        r is Ok,
{
    let (first, last) = set_usable(before)->Ok_0;
    lemma_set_usable_bounded(before);
    lemma_mib(a.length as int);
    lemma_mib_unique(a.length as int, n, add_len(a) * 512);
    lemma_round_up(whole_sectors(a.length as int));
    let len = add_len(a);
    let start = at / 512;
    assert(start * 512 == at && start % 2048 == 0);
    let why = Error::Invalid("partition overlaps existing entry");
    lemma_clash_is_lack_of_room(before, -1, start, len, why);
    lemma_clash_is_meeting(before, start, len, why);
    assert(fits(start, len, first as int, last as int, occupied(before)->Ok_0));
    match hint {
        Some(h) => {
            let sector = whole_sectors(h as int);
            lemma_round_up(
                if sector < first {
                    first as int
                } else {
                    sector
                },
            );
            assert(hinted_start(h, first) == start);
        },
        None => {
            let chosen = choose|start: int|
                first_fit(start, len, first as int, last as int, occupied(before)->Ok_0)
                    && #[trigger] added_at(before, after, r, a, start);
            lemma_clash_is_meeting(before, chosen, len, why);
        },
    }
}

/// What stops an addition before a place is looked for: nothing asked for,
/// no entry left, or no usable range.
pub proof fn lemma_addition_needs_room(
    before: SetView,
    after: SetView,
    r: Result<usize>,
    hint: Option<u64>,
    a: Addition,
)
    requires
        added(before, after, r, hint, a),
    ensures
        a.length == 0 ==> r matches Err(Error::Invalid(_)),
        a.length > 0 && !entry_left(before) ==> r matches Err(Error::Invalid(_)),
        a.length > 0 && entry_left(before) ==> (set_usable(before) matches Err(e) ==> r == Err::<
            usize,
            Error,
        >(e)),
        a.length > 0 && entry_left(before) ==> (set_usable(before) matches Ok((first, last)) && first
            > last ==> r == Err::<usize, Error>(Error::DeviceTooSmall)),
{
}

/// The type tags: each kind of partition has its own type GUID in a GPT and
/// its own type byte in an MBR; APFS has no type byte; a raw GUID or byte is
/// taken as it is, by the table it belongs to. A new partition has no
/// attributes and is not the active one.
pub proof fn lemma_type_tags(id: PartitionTypeId)
    ensures
        match id {
            PartitionTypeId::EfiSystem => id.guid() == Ok::<Seq<u8>, Error>(
                seq![
                    0x28u8, 0x73, 0x2A, 0xC1, 0x1F, 0xF8, 0xD2, 0x11, 0xBA, 0x4B, 0x00, 0xA0, 0xC9,
                    0x3E, 0xC9, 0x3B,
                ],
            ) && id.byte() == Ok::<u8, Error>(0xEF),
            PartitionTypeId::MicrosoftBasicData => id.guid() == Ok::<Seq<u8>, Error>(
                seq![
                    0xA2u8, 0xA0, 0xD0, 0xEB, 0xE5, 0xB9, 0x33, 0x44, 0x87, 0xC0, 0x68, 0xB6, 0xB7,
                    0x26, 0x99, 0xC7,
                ],
            ) && id.byte() == Ok::<u8, Error>(0x07),
            PartitionTypeId::LinuxFilesystem => id.guid() == Ok::<Seq<u8>, Error>(
                seq![
                    0xAFu8, 0x3D, 0xC6, 0x0F, 0x83, 0x84, 0x72, 0x47, 0x8E, 0x79, 0x3D, 0x69, 0xD8,
                    0x47, 0x7D, 0xE4,
                ],
            ) && id.byte() == Ok::<u8, Error>(0x83),
            PartitionTypeId::LinuxSwap => id.guid() == Ok::<Seq<u8>, Error>(
                seq![
                    0x6Du8, 0xFD, 0x57, 0x06, 0xAB, 0xA4, 0xC4, 0x43, 0x84, 0xE5, 0x09, 0x33, 0xC8,
                    0x4B, 0x4F, 0x4F,
                ],
            ) && id.byte() == Ok::<u8, Error>(0x82),
            PartitionTypeId::AppleHfsPlus => id.guid() == Ok::<Seq<u8>, Error>(
                seq![
                    0x00u8, 0x53, 0x46, 0x48, 0x00, 0x00, 0xAA, 0x11, 0xAA, 0x11, 0x00, 0x30, 0x65,
                    0x43, 0xEC, 0xAC,
                ],
            ) && id.byte() == Ok::<u8, Error>(0xAF),
            PartitionTypeId::AppleApfs => id.guid() == Ok::<Seq<u8>, Error>(
                seq![
                    0xEFu8, 0x57, 0x34, 0x7C, 0x00, 0x00, 0xAA, 0x11, 0xAA, 0x11, 0x00, 0x30, 0x65,
                    0x43, 0xEC, 0xAC,
                ],
            ) && id.byte() matches Err(Error::Invalid(_)),
            PartitionTypeId::GptCustom(g) => id.guid() == Ok::<Seq<u8>, Error>(g@)
                && id.byte() matches Err(Error::Invalid(_)),
            PartitionTypeId::MbrCustom(b) => id.byte() == Ok::<u8, Error>(b) && id.guid() matches Err(
                Error::Invalid(_),
            ),
        },
        match id.guid() {
            Ok(g) => new_kind(TableKind::Gpt, id) == Ok::<KindView, Error>(
                KindView::Gpt { type_guid: g, attributes: 0 },
            ),
            Err(e) => new_kind(TableKind::Gpt, id) == Err::<KindView, Error>(e),
        },
        match id.byte() {
            Ok(b) => new_kind(TableKind::Mbr, id) == Ok::<KindView, Error>(
                KindView::Mbr { type_byte: b, active: false },
            ),
            Err(e) => new_kind(TableKind::Mbr, id) == Err::<KindView, Error>(e),
        },
{
    assert(type_guids::EFI_SYSTEM@ =~= seq![
        0x28u8, 0x73, 0x2A, 0xC1, 0x1F, 0xF8, 0xD2, 0x11, 0xBA, 0x4B, 0x00, 0xA0, 0xC9, 0x3E, 0xC9,
        0x3B,
    ]);
    assert(type_guids::MICROSOFT_BASIC_DATA@ =~= seq![
        0xA2u8, 0xA0, 0xD0, 0xEB, 0xE5, 0xB9, 0x33, 0x44, 0x87, 0xC0, 0x68, 0xB6, 0xB7, 0x26, 0x99,
        0xC7,
    ]);
    assert(type_guids::LINUX_FILESYSTEM@ =~= seq![
        0xAFu8, 0x3D, 0xC6, 0x0F, 0x83, 0x84, 0x72, 0x47, 0x8E, 0x79, 0x3D, 0x69, 0xD8, 0x47, 0x7D,
        0xE4,
    ]);
    assert(type_guids::LINUX_SWAP@ =~= seq![
        0x6Du8, 0xFD, 0x57, 0x06, 0xAB, 0xA4, 0xC4, 0x43, 0x84, 0xE5, 0x09, 0x33, 0xC8, 0x4B, 0x4F,
        0x4F,
    ]);
    assert(type_guids::APPLE_HFS_PLUS@ =~= seq![
        0x00u8, 0x53, 0x46, 0x48, 0x00, 0x00, 0xAA, 0x11, 0xAA, 0x11, 0x00, 0x30, 0x65, 0x43, 0xEC,
        0xAC,
    ]);
    assert(type_guids::APPLE_APFS@ =~= seq![
        0xEFu8, 0x57, 0x34, 0x7C, 0x00, 0x00, 0xAA, 0x11, 0xAA, 0x11, 0x00, 0x30, 0x65, 0x43, 0xEC,
        0xAC,
    ]);
}

/// In an MBR the usable range is everything behind the first sector, as far
/// as 32 bits reach; a disk with no sector behind it has none.
pub proof fn lemma_mbr_usable_range(s: SetView)
    requires
        s.table_kind == TableKind::Mbr,
    ensures
        set_usable(s) matches Ok((first, last)) && first == 1 && {
            &&& s.disk_size < 1024 ==> last == 0
            &&& 1024 <= s.disk_size < 0x200_0000_0000 ==> last * 512 + 512 <= s.disk_size < last
                * 512 + 1024
            &&& s.disk_size >= 0x200_0000_0000 ==> last == 0xFFFF_FFFF
        },
{
}

/// Sectors fit at a place exactly where it is a whole MiB, they lie in the
/// usable range, and none of them is occupied.
pub proof fn lemma_places(start: int, len: int, first: int, last: int, spans: Seq<(u64, u64)>)
    requires
        len > 0,
        forall|k: int| 0 <= k < spans.len() ==> (#[trigger] spans[k]).0 <= spans[k].1,
    ensures
        fits(start, len, first, last, spans) <==> {
            &&& start % 2048 == 0
            &&& first <= start && start + len <= last + 1
            &&& forall|k: int, x: int|
                0 <= k < spans.len() && start <= x < start + len ==> !(#[trigger] within(
                    spans[k],
                    x,
                ))
        },
{
    if start % 2048 == 0 && first <= start && start + len <= last + 1 && (forall|k: int, x: int|
        0 <= k < spans.len() && start <= x < start + len ==> !(#[trigger] within(spans[k], x))) {
        assert forall|k: int| 0 <= k < spans.len() implies start + len - 1 < (
        #[trigger] spans[k]).0 || spans[k].1 < start by {
            assert(!within(spans[k], start));
            if start <= spans[k].0 < start + len {
                assert(!within(spans[k], spans[k].0 as int));
            }
        }
    }
}

/// The sector `x` is one of the span's.
pub open spec fn within(span: (u64, u64), x: int) -> bool {
    span.0 <= x <= span.1
}

} // verus!
