//! When the two copies of a GPT agree.

use vstd::prelude::*;

use crate::gpt::{
    backup_on, backup_status, by_start, compared, difference, first_difference, part_starts,
    BackupStatus,
};
use crate::order::{ahead, key_order, lemma_ascending, lemma_key_order_sorts};
use crate::probe::PartitionView;

verus! {

/// Two entries say the same of a partition: its range, UUID, type, slot and
/// label.
pub open spec fn same_entry(a: PartitionView, b: PartitionView) -> bool {
    &&& a.start == b.start && a.length == b.length
    &&& a.uuid == b.uuid
    &&& a.kind == b.kind
    &&& a.slot == b.slot
    &&& a.label == b.label
}

/// The list has an entry that says the same as `p`.
pub open spec fn has_same(parts: Seq<PartitionView>, p: PartitionView) -> bool {
    exists|j: int| 0 <= j < parts.len() && same_entry(p, #[trigger] parts[j])
}

/// Every entry of `a` has one in `b` that says the same.
pub open spec fn covers(a: Seq<PartitionView>, b: Seq<PartitionView>) -> bool {
    forall|i: int| 0 <= i < a.len() ==> has_same(b, #[trigger] a[i])
}

/// No two partitions start at one place.
pub open spec fn distinct_starts(parts: Seq<PartitionView>) -> bool {
    forall|i: int, j: int|
        0 <= i < parts.len() && 0 <= j < parts.len() && i != j ==> (#[trigger] parts[i]).start
            != (#[trigger] parts[j]).start
}

/// Sorting moves the entries about: none is lost, none comes in, and their
/// starts ascend.
proof fn lemma_by_start(parts: Seq<PartitionView>)
    ensures
        by_start(parts).len() == parts.len(),
        forall|k: int| 0 <= k < parts.len() ==> parts.contains(#[trigger] by_start(parts)[k]),
        forall|i: int| 0 <= i < parts.len() ==> by_start(parts).contains(#[trigger] parts[i]),
        forall|j: int, k: int|
            0 <= j < k < parts.len() ==> (#[trigger] by_start(parts)[j]).start <= (
            #[trigger] by_start(parts)[k]).start,
        distinct_starts(parts) ==> forall|j: int, k: int|
            0 <= j < k < parts.len() ==> (#[trigger] by_start(parts)[j]).start < (
            #[trigger] by_start(parts)[k]).start,
{
    let n = parts.len() as int;
    let keys = part_starts(parts);
    let order = key_order(keys, n);
    let sorted = by_start(parts);
    lemma_key_order_sorts(keys, n);
    assert forall|k: int| 0 <= k < n implies parts.contains(#[trigger] sorted[k]) by {
        assert(sorted[k] == parts[order[k]]);
    }
    assert forall|i: int| 0 <= i < n implies sorted.contains(#[trigger] parts[i]) by {
        assert(order.contains(i));
        let k = choose|k: int| 0 <= k < order.len() && order[k] == i;
        assert(sorted[k] == parts[i]);
    }
    assert forall|j: int, k: int| 0 <= j < k < n implies {
        &&& (#[trigger] sorted[j]).start <= (#[trigger] sorted[k]).start
        &&& distinct_starts(parts) ==> sorted[j].start < sorted[k].start
    } by {
        assert(ahead(keys, order[j], order[k]));
        assert(sorted[j] == parts[order[j]] && sorted[k] == parts[order[k]]);
        assert(keys[order[j]] == parts[order[j]].start && keys[order[k]] == parts[order[k]].start);
    }
}

/// Indices below `n` that ascend, `n` of them, are all of them in order.
proof fn lemma_ascending_is_identity(f: Seq<int>, k: int)
    requires
        0 <= k < f.len(),
        forall|i: int| 0 <= i < f.len() ==> 0 <= #[trigger] f[i] < f.len(),
        forall|i: int, j: int| 0 <= i < j < f.len() ==> #[trigger] f[i] < #[trigger] f[j],
    ensures
        f[k] == k,
{
    assert(0 <= f[0]);
    lemma_ascending(f, k);
    lemma_at_most(f, k);
}

/// Ascending indices leave room for those after them.
proof fn lemma_at_most(f: Seq<int>, k: int)
    requires
        0 <= k < f.len(),
        forall|i: int| 0 <= i < f.len() ==> 0 <= #[trigger] f[i] < f.len(),
        forall|i: int, j: int| 0 <= i < j < f.len() ==> #[trigger] f[i] < #[trigger] f[j],
    ensures
        f[k] <= k,
    decreases f.len() - k,
{
    if k < f.len() - 1 {
        lemma_at_most(f, k + 1);
        assert(f[k] < f[k + 1]);
    } else {
        assert(f[k] < f.len());
    }
}

/// Two lists of one length that ascend by start, the first strictly: where
/// each entry of the first starts where one of the second does, the two
/// stand at one place.
proof fn lemma_same_place(a: Seq<PartitionView>, b: Seq<PartitionView>, f: Seq<int>, k: int)
    requires
        a.len() == b.len() == f.len(),
        0 <= k < a.len(),
        forall|i: int, j: int|
            0 <= i < j < a.len() ==> (#[trigger] a[i]).start < (#[trigger] a[j]).start,
        forall|i: int, j: int|
            0 <= i < j < b.len() ==> (#[trigger] b[i]).start <= (#[trigger] b[j]).start,
        forall|i: int|
            0 <= i < f.len() ==> 0 <= #[trigger] f[i] < b.len() && a[i].start == b[f[i]].start,
    ensures
        f[k] == k,
{
    assert forall|i: int, j: int| 0 <= i < j < f.len() implies #[trigger] f[i] < #[trigger] f[j] by {
        assert(a[i].start < a[j].start);
        if f[j] < f[i] {
            assert(b[f[j]].start <= b[f[i]].start);
        }
    }
    lemma_ascending_is_identity(f, k);
}

/// Two lists compare equal from `k` on exactly where they say the same
/// entry by entry.
proof fn lemma_no_difference(a: Seq<PartitionView>, b: Seq<PartitionView>, k: int)
    requires
        0 <= k <= a.len(),
    ensures
        first_difference(a, b, k) == BackupStatus::Agrees <==> forall|i: int|
            k <= i < a.len() ==> same_entry(#[trigger] a[i], b[i]),
    decreases a.len() - k,
{
    if k < a.len() {
        lemma_no_difference(a, b, k + 1);
        assert(difference(a[k], b[k]) is None <==> same_entry(a[k], b[k]));
        if !same_entry(a[k], b[k]) {
            assert(!(forall|i: int| k <= i < a.len() ==> same_entry(#[trigger] a[i], b[i])));
        }
    }
}

/// Agreement is agreement entry by entry: copies that agree have as many
/// entries, and each entry of one has one in the other with the same range,
/// UUID, type, slot and label.
pub proof fn lemma_agreement_covers(primary: Seq<PartitionView>, backup: Seq<PartitionView>)
    requires
        compared(primary, backup) == BackupStatus::Agrees,
    ensures
        primary.len() == backup.len(),
        covers(primary, backup),
        covers(backup, primary),
{
    let a = by_start(primary);
    let b = by_start(backup);
    lemma_by_start(primary);
    lemma_by_start(backup);
    lemma_no_difference(a, b, 0);
    assert forall|i: int| 0 <= i < primary.len() implies has_same(backup, #[trigger] primary[i]) by {
        assert(a.contains(primary[i]));
        let k = choose|k: int| 0 <= k < a.len() && a[k] == primary[i];
        assert(same_entry(a[k], b[k]));
        assert(backup.contains(b[k]));
        let j = choose|j: int| 0 <= j < backup.len() && backup[j] == b[k];
        assert(same_entry(primary[i], backup[j]));
    }
    assert forall|i: int| 0 <= i < backup.len() implies has_same(primary, #[trigger] backup[i]) by {
        assert(b.contains(backup[i]));
        let k = choose|k: int| 0 <= k < b.len() && b[k] == backup[i];
        assert(same_entry(a[k], b[k]));
        assert(primary.contains(a[k]));
        let j = choose|j: int| 0 <= j < primary.len() && primary[j] == a[k];
        assert(same_entry(backup[i], primary[j]));
    }
}

/// A backup that has as many entries as the primary, and one that says the
/// same for each of the primary's, agrees with it, whatever the order of
/// either. No two partitions of the primary are to start at one place.
pub proof fn lemma_covered_agrees(primary: Seq<PartitionView>, backup: Seq<PartitionView>)
    requires
        distinct_starts(primary),
        primary.len() == backup.len(),
        covers(primary, backup),
    ensures
        compared(primary, backup) == BackupStatus::Agrees,
{
    let a = by_start(primary);
    let b = by_start(backup);
    lemma_by_start(primary);
    lemma_by_start(backup);
    assert forall|k: int| 0 <= k < a.len() implies has_same(b, #[trigger] a[k]) by {
        assert(primary.contains(a[k]));
        let i = choose|i: int| 0 <= i < primary.len() && primary[i] == a[k];
        assert(has_same(backup, primary[i]));
        let j = choose|j: int| 0 <= j < backup.len() && same_entry(primary[i], #[trigger] backup[j]);
        assert(b.contains(backup[j]));
        let m = choose|m: int| 0 <= m < b.len() && b[m] == backup[j];
        assert(same_entry(a[k], b[m]));
    }
    let f = Seq::new(
        a.len(),
        |k: int| choose|m: int| 0 <= m < b.len() && same_entry(a[k], #[trigger] b[m]),
    );
    assert forall|k: int| 0 <= k < f.len() implies 0 <= #[trigger] f[k] < b.len() && same_entry(
        a[k],
        b[f[k]],
    ) by {
        assert(has_same(b, a[k]));
    }
    assert forall|k: int| 0 <= k < a.len() implies same_entry(#[trigger] a[k], b[k]) by {
        lemma_same_place(a, b, f, k);
        assert(same_entry(a[k], b[f[k]]));
    }
    lemma_no_difference(a, b, 0);
}

/// A list with the entries of another, in whatever order, sorts as it does.
/// No two of the partitions are to start at one place.
proof fn lemma_permutation_sorts_alike(parts: Seq<PartitionView>, other: Seq<PartitionView>)
    requires
        distinct_starts(parts),
        parts.to_multiset() == other.to_multiset(),
    ensures
        other.len() == parts.len(),
        by_start(other) == by_start(parts),
{
    broadcast use vstd::seq_lib::group_to_multiset_ensures;

    let a = by_start(parts);
    let b = by_start(other);
    assert(parts.len() == parts.to_multiset().len());
    assert(other.len() == other.to_multiset().len());
    lemma_by_start(parts);
    lemma_by_start(other);
    assert forall|k: int| 0 <= k < a.len() implies b.contains(#[trigger] a[k]) by {
        assert(parts.contains(a[k]));
        assert(parts.to_multiset().count(a[k]) > 0);
        assert(other.contains(a[k]));
        let j = choose|j: int| 0 <= j < other.len() && other[j] == a[k];
        assert(b.contains(other[j]));
    }
    let f = Seq::new(a.len(), |k: int| choose|m: int| 0 <= m < b.len() && b[m] == a[k]);
    assert forall|k: int| 0 <= k < f.len() implies 0 <= #[trigger] f[k] < b.len() && a[k]
        == b[f[k]] by {
        assert(b.contains(a[k]));
    }
    assert forall|k: int| 0 <= k < a.len() implies #[trigger] a[k] == b[k] by {
        lemma_same_place(a, b, f, k);
        assert(a[k] == b[f[k]]);
    }
    assert(a =~= b);
}

/// The order in which either copy lists its partitions plays no part: what
/// is said of the two, and why, stays the same when either is listed
/// otherwise. No two partitions of one copy are to start at one place.
pub proof fn lemma_order_plays_no_part(
    primary: Seq<PartitionView>,
    backup: Seq<PartitionView>,
    primary_otherwise: Seq<PartitionView>,
    backup_otherwise: Seq<PartitionView>,
)
    requires
        distinct_starts(primary),
        distinct_starts(backup),
        primary_otherwise.to_multiset() == primary.to_multiset(),
        backup_otherwise.to_multiset() == backup.to_multiset(),
    ensures
        compared(primary_otherwise, backup_otherwise) == compared(primary, backup),
{
    lemma_permutation_sorts_alike(primary, primary_otherwise);
    lemma_permutation_sorts_alike(backup, backup_otherwise);
}

/// A backup that lists the primary's partitions in whatever order agrees
/// with it. No two of them are to start at one place.
pub proof fn lemma_permutation_agrees(primary: Seq<PartitionView>, backup: Seq<PartitionView>)
    requires
        distinct_starts(primary),
        backup.to_multiset() == primary.to_multiset(),
    ensures
        compared(primary, backup) == BackupStatus::Agrees,
{
    lemma_permutation_sorts_alike(primary, backup);
    lemma_no_difference(by_start(primary), by_start(backup), 0);
}

/// What is said of the backup on a device: a mismatch where it cannot be
/// parsed; else that it agrees exactly where it has as many entries as the
/// primary and one that says the same for each of the primary's, whatever
/// the order of either. No two partitions of the primary are to start at one
/// place.
pub proof fn lemma_backup_status(content: Seq<u8>, size: u64, primary: Seq<PartitionView>)
    requires
        distinct_starts(primary),
    ensures
        match backup_on(content, size) {
            Err(_) => backup_status(content, size, primary) is Mismatch,
            Ok(backup) => {
                &&& backup_status(content, size, primary) == BackupStatus::Agrees
                    <==> primary.len() == backup.len() && covers(primary, backup)
                &&& backup.to_multiset() == primary.to_multiset() ==> backup_status(
                    content,
                    size,
                    primary,
                ) == BackupStatus::Agrees
            },
        },
{
    if let Ok(backup) = backup_on(content, size) {
        if compared(primary, backup) == BackupStatus::Agrees {
            lemma_agreement_covers(primary, backup);
        }
        if primary.len() == backup.len() && covers(primary, backup) {
            lemma_covered_agrees(primary, backup);
        }
        if backup.to_multiset() == primary.to_multiset() {
            lemma_permutation_agrees(primary, backup);
        }
    }
}

} // verus!
