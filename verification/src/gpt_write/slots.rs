//! Which table slot each partition is written into.

use vstd::prelude::*;

use crate::error::{Error, Result};
use crate::probe::{views, Partition, PartitionView};

pub mod laws;

verus! {

/// The slot each partition says it came from.
pub open spec fn claims(parts: Seq<PartitionView>) -> Seq<Option<u32>> {
    parts.map_values(|p: PartitionView| p.slot)
}

/// The taken slots once `slot` is taken too, or why it cannot be: it is past
/// the end of the table, which `past` words, or somebody has it.
pub open spec fn seated(taken: Set<int>, slot: u32, num: int, past: &'static str) -> core::result::Result<
    Set<int>,
    Error,
> {
    if slot >= num {
        Err(Error::Invalid(past))
    } else if taken.contains(slot as int) {
        Err(Error::Invalid("two entries claim the same table slot"))
    } else {
        Ok(taken.insert(slot as int))
    }
}

/// The slots taken once the first `n` of `pre_taken` are.
pub open spec fn seat_reserved(pre_taken: Seq<u32>, num: int, n: int) -> core::result::Result<
    Set<int>,
    Error,
>
    decreases n,
{
    if n <= 0 {
        Ok(Set::empty())
    } else {
        match seat_reserved(pre_taken, num, n - 1) {
            Err(e) => Err(e),
            Ok(taken) => seated(
                taken,
                pre_taken[n - 1],
                num,
                "reserved entry slot past the end of the table",
            ),
        }
    }
}

/// The slots taken once the first `n` partitions have theirs, of those that
/// claim one.
pub open spec fn seat_claimed(
    claims: Seq<Option<u32>>,
    num: int,
    n: int,
    taken: Set<int>,
) -> core::result::Result<Set<int>, Error>
    decreases n,
{
    if n <= 0 {
        Ok(taken)
    } else {
        match seat_claimed(claims, num, n - 1, taken) {
            Err(e) => Err(e),
            Ok(before) => match claims[n - 1] {
                None => Ok(before),
                Some(slot) => seated(before, slot, num, "partition slot past the end of the table"),
            },
        }
    }
}

/// The lowest slot from `at` on that nobody has; `num` if there is none.
pub open spec fn lowest_free(taken: Set<int>, at: int, num: int) -> int
    decreases num - at,
{
    if at >= num || !taken.contains(at) {
        at
    } else {
        lowest_free(taken, at + 1, num)
    }
}

/// The slots of the first `n` partitions, and the slots taken then: a
/// partition without a claim gets the lowest free slot.
pub open spec fn seat_all(
    claims: Seq<Option<u32>>,
    num: int,
    n: int,
    taken: Set<int>,
) -> core::result::Result<(Seq<u32>, Set<int>), Error>
    decreases n,
{
    if n <= 0 {
        Ok((Seq::empty(), taken))
    } else {
        match seat_all(claims, num, n - 1, taken) {
            Err(e) => Err(e),
            Ok((slots, before)) => match claims[n - 1] {
                Some(slot) => Ok((slots.push(slot), before)),
                None => {
                    let free = lowest_free(before, 0, num);
                    if free >= num {
                        Err(Error::Invalid("no free slot left in the table"))
                    } else {
                        Ok((slots.push(free as u32), before.insert(free)))
                    }
                },
            },
        }
    }
}

/// Which table slot each partition is written into, in a table of `num`
/// slots of which `pre_taken` are spoken for; or why they cannot all be.
pub open spec fn slots_for(
    claims: Seq<Option<u32>>,
    num: int,
    pre_taken: Seq<u32>,
) -> core::result::Result<Seq<u32>, Error> {
    match seat_reserved(pre_taken, num, pre_taken.len() as int) {
        Err(e) => Err(e),
        Ok(reserved) => match seat_claimed(claims, num, claims.len() as int, reserved) {
            Err(e) => Err(e),
            Ok(taken) => match seat_all(claims, num, claims.len() as int, taken) {
                Err(e) => Err(e),
                Ok((slots, _)) => Ok(slots),
            },
        },
    }
}

/// Slots that a table can be written with: each below `num`, no two alike,
/// every claim honoured, none of them spoken for.
pub open spec fn sound_slots(
    slots: Seq<u32>,
    claims: Seq<Option<u32>>,
    num: int,
    pre_taken: Seq<u32>,
) -> bool {
    &&& slots.len() == claims.len()
    &&& forall|k: int| 0 <= k < slots.len() ==> #[trigger] slots[k] < num
    &&& forall|j: int, k: int|
        0 <= j < k < slots.len() ==> #[trigger] slots[j] != #[trigger] slots[k]
    &&& forall|k: int|
        0 <= k < slots.len() && (#[trigger] claims[k]) is Some ==> slots[k] == claims[k]->Some_0
    &&& forall|k: int, r: int|
        0 <= k < slots.len() && 0 <= r < pre_taken.len() ==> #[trigger] slots[k]
            != #[trigger] pre_taken[r]
}

/// The seats taken for slots that are spoken for are those slots, each inside
/// the table and no two alike.
pub proof fn lemma_reserved_seated(pre_taken: Seq<u32>, num: int, n: int)
    requires
        0 <= n <= pre_taken.len(),
        seat_reserved(pre_taken, num, n) is Ok,
    ensures
        forall|r: int|
            0 <= r < n ==> seat_reserved(pre_taken, num, n)->Ok_0.contains(
                #[trigger] pre_taken[r] as int,
            ),
        forall|s: int|
            seat_reserved(pre_taken, num, n)->Ok_0.contains(s) ==> exists|r: int|
                0 <= r < n && #[trigger] pre_taken[r] == s,
        forall|r: int| 0 <= r < n ==> #[trigger] pre_taken[r] < num,
        forall|q: int, r: int| 0 <= q < r < n ==> #[trigger] pre_taken[q] != #[trigger] pre_taken[r],
    decreases n,
{
    if n > 0 {
        lemma_reserved_seated(pre_taken, num, n - 1);
        let before = seat_reserved(pre_taken, num, n - 1)->Ok_0;
        let after = seat_reserved(pre_taken, num, n)->Ok_0;
        assert(after == before.insert(pre_taken[n - 1] as int));
        assert forall|s: int| after.contains(s) implies exists|r: int|
            0 <= r < n && #[trigger] pre_taken[r] == s by {
            if s == pre_taken[n - 1] {
            } else {
                assert(before.contains(s));
                let r = choose|r: int| 0 <= r < n - 1 && #[trigger] pre_taken[r] == s;
                assert(pre_taken[r] == s);
            }
        }
    }
}

proof fn lemma_claims_seated(claims: Seq<Option<u32>>, num: int, n: int, taken: Set<int>)
    requires
        0 <= n <= claims.len(),
        seat_claimed(claims, num, n, taken) is Ok,
    ensures
        taken.subset_of(seat_claimed(claims, num, n, taken)->Ok_0),
        forall|k: int|
            0 <= k < n && (#[trigger] claims[k]) is Some ==> {
                &&& claims[k]->Some_0 < num
                &&& !taken.contains(claims[k]->Some_0 as int)
                &&& seat_claimed(claims, num, n, taken)->Ok_0.contains(claims[k]->Some_0 as int)
            },
        forall|j: int, k: int|
            0 <= j < k < n && (#[trigger] claims[j]) is Some && (#[trigger] claims[k]) is Some
                ==> claims[j]->Some_0 != claims[k]->Some_0,
    decreases n,
{
    if n > 0 {
        lemma_claims_seated(claims, num, n - 1, taken);
    }
}

proof fn lemma_lowest_free(taken: Set<int>, at: int, num: int)
    requires
        at <= num,
    ensures
        at <= lowest_free(taken, at, num) <= num,
        lowest_free(taken, at, num) < num ==> !taken.contains(lowest_free(taken, at, num)),
        forall|s: int| at <= s < lowest_free(taken, at, num) ==> taken.contains(s),
    decreases num - at,
{
    if at < num && taken.contains(at) {
        lemma_lowest_free(taken, at + 1, num);
    }
}

proof fn lemma_all_seated(
    claims: Seq<Option<u32>>,
    num: int,
    n: int,
    reserved: Set<int>,
    taken: Set<int>,
)
    requires
        0 <= n <= claims.len(),
        0 <= num <= u32::MAX,
        seat_claimed(claims, num, claims.len() as int, reserved) == Ok::<Set<int>, Error>(taken),
        seat_all(claims, num, n, taken) is Ok,
    ensures
        ({
            let (slots, now) = seat_all(claims, num, n, taken)->Ok_0;
            &&& slots.len() == n
            &&& taken.subset_of(now)
            &&& forall|k: int|
                0 <= k < n ==> (#[trigger] slots[k]) < num && now.contains(slots[k] as int)
                    && !reserved.contains(slots[k] as int)
            &&& forall|k: int|
                0 <= k < n ==> match claims[k] {
                    Some(slot) => #[trigger] slots[k] == slot,
                    None => !taken.contains(slots[k] as int),
                }
            &&& forall|j: int, k: int|
                0 <= j < k < n ==> #[trigger] slots[j] != #[trigger] slots[k]
        }),
    decreases n,
{
    lemma_claims_seated(claims, num, claims.len() as int, reserved);
    if n > 0 {
        lemma_all_seated(claims, num, n - 1, reserved, taken);
        let (slots, before) = seat_all(claims, num, n - 1, taken)->Ok_0;
        lemma_lowest_free(before, 0, num);
        let (after, now) = seat_all(claims, num, n, taken)->Ok_0;
        assert forall|j: int, k: int| 0 <= j < k < n implies #[trigger] after[j]
            != #[trigger] after[k] by {
            if k == n - 1 {
                assert(after[j] == slots[j]);
                if claims[n - 1] is Some {
                    assert(claims[j] is Some ==> claims[j]->Some_0 != claims[k]->Some_0);
                }
            } else {
                assert(after[j] == slots[j] && after[k] == slots[k]);
            }
        }
        assert forall|k: int| 0 <= k < n implies match claims[k] {
            Some(slot) => #[trigger] after[k] == slot,
            None => !taken.contains(after[k] as int),
        } by {
            if k < n - 1 {
                assert(after[k] == slots[k]);
            }
        }
        assert forall|k: int| 0 <= k < n implies (#[trigger] after[k]) < num && now.contains(
            after[k] as int,
        ) && !reserved.contains(after[k] as int) by {
            if k < n - 1 {
                assert(after[k] == slots[k]);
            }
        }
    }
}

/// Every partition gets a slot of its own inside the table; one that came
/// off a disk goes back into the slot it came from; and nothing goes into a
/// slot that is spoken for.
pub proof fn lemma_slots_are_sound(claims: Seq<Option<u32>>, num: int, pre_taken: Seq<u32>)
    requires
        0 <= num <= u32::MAX,
        slots_for(claims, num, pre_taken) is Ok,
    ensures
        sound_slots(slots_for(claims, num, pre_taken)->Ok_0, claims, num, pre_taken),
{
    let reserved = seat_reserved(pre_taken, num, pre_taken.len() as int)->Ok_0;
    let taken = seat_claimed(claims, num, claims.len() as int, reserved)->Ok_0;
    lemma_reserved_seated(pre_taken, num, pre_taken.len() as int);
    lemma_all_seated(claims, num, claims.len() as int, reserved, taken);
    let slots = slots_for(claims, num, pre_taken)->Ok_0;
    assert forall|k: int| 0 <= k < slots.len() && (#[trigger] claims[k]) is Some implies slots[k]
        == claims[k]->Some_0 by {
        assert(slots[k] == slots[k]);
    }
}

/// The table of taken slots holds just the slots of a set.
spec fn marks(taken: Seq<bool>, set: Set<int>) -> bool {
    forall|s: int| 0 <= s < taken.len() ==> #[trigger] taken[s] == set.contains(s)
}

/// Takes one slot, or says why it cannot be had.
fn take_seat(taken: &mut Vec<bool>, slot: u32, past: &'static str, set: Ghost<Set<int>>) -> (r:
    Result<()>)
    requires
        marks(old(taken)@, set@),
    ensures
        final(taken)@.len() == old(taken)@.len(),
        match r {
            Ok(()) => {
                &&& seated(set@, slot, old(taken)@.len() as int, past) is Ok
                &&& marks(
                    final(taken)@,
                    seated(set@, slot, old(taken)@.len() as int, past)->Ok_0,
                )
            },
            Err(e) => seated(set@, slot, old(taken)@.len() as int, past) == Err::<Set<int>, Error>(e),
        },
{
    if slot as usize >= taken.len() {
        return Err(Error::Invalid(past));
    }
    if taken[slot as usize] {
        return Err(Error::Invalid("two entries claim the same table slot"));
    }
    taken[slot as usize] = true;
    Ok(())
}

proof fn lemma_reserved_refusal_persists(pre_taken: Seq<u32>, num: int, i: int, n: int, e: Error)
    requires
        0 <= i <= n,
        seat_reserved(pre_taken, num, i) == Err::<Set<int>, Error>(e),
    ensures
        seat_reserved(pre_taken, num, n) == Err::<Set<int>, Error>(e),
    decreases n,
{
    if i < n {
        lemma_reserved_refusal_persists(pre_taken, num, i, n - 1, e);
    }
}

proof fn lemma_claim_refusal_persists(
    claims: Seq<Option<u32>>,
    num: int,
    i: int,
    n: int,
    taken: Set<int>,
    e: Error,
)
    requires
        0 <= i <= n,
        seat_claimed(claims, num, i, taken) == Err::<Set<int>, Error>(e),
    ensures
        seat_claimed(claims, num, n, taken) == Err::<Set<int>, Error>(e),
    decreases n,
{
    if i < n {
        lemma_claim_refusal_persists(claims, num, i, n - 1, taken, e);
    }
}

proof fn lemma_seat_refusal_persists(
    claims: Seq<Option<u32>>,
    num: int,
    i: int,
    n: int,
    taken: Set<int>,
    e: Error,
)
    requires
        0 <= i <= n,
        seat_all(claims, num, i, taken) == Err::<(Seq<u32>, Set<int>), Error>(e),
    ensures
        seat_all(claims, num, n, taken) == Err::<(Seq<u32>, Set<int>), Error>(e),
    decreases n,
{
    if i < n {
        lemma_seat_refusal_persists(claims, num, i, n - 1, taken, e);
    }
}

proof fn lemma_lowest_free_from(taken: Set<int>, at: int, num: int)
    requires
        0 <= at <= num,
        forall|s: int| 0 <= s < at ==> taken.contains(s),
    ensures
        lowest_free(taken, 0, num) == lowest_free(taken, at, num),
{
    lemma_lowest_free(taken, 0, num);
    lemma_lowest_free(taken, at, num);
}

/// Which table slot each partition is written into.
///
/// A partition that came off a disk goes back into the slot it came from;
/// one with no slot takes the lowest free one. Two partitions claiming the
/// same slot is refused: one would be written over the other.
pub fn assign_slots(partitions: &[Partition], num_entries: u32) -> (r: Result<Vec<u32>>)
    ensures
        match r {
            Ok(slots) => slots_for(claims(views(partitions@)), num_entries as int, Seq::empty())
                == Ok::<Seq<u32>, Error>(slots@),
            Err(e) => slots_for(claims(views(partitions@)), num_entries as int, Seq::empty())
                == Err::<Seq<u32>, Error>(e),
        },
{
    let none: Vec<u32> = Vec::new();
    assign_slots_with_taken(partitions, num_entries, none.as_slice())
}

/// As [`assign_slots`], with `pre_taken` naming slots that are already
/// spoken for by something that is not in `partitions`.
pub fn assign_slots_with_taken(
    partitions: &[Partition],
    num_entries: u32,
    pre_taken: &[u32],
) -> (r: Result<Vec<u32>>)
    ensures
        match r {
            Ok(slots) => slots_for(claims(views(partitions@)), num_entries as int, pre_taken@)
                == Ok::<Seq<u32>, Error>(slots@),
            Err(e) => slots_for(claims(views(partitions@)), num_entries as int, pre_taken@)
                == Err::<Seq<u32>, Error>(e),
        },
{
    let ghost wants = claims(views(partitions@));
    let ghost num = num_entries as int;
    let mut taken: Vec<bool> = vec![false; num_entries as usize];
    let ghost mut set: Set<int> = Set::empty();
    let mut i: usize = 0;
    while i < pre_taken.len()
        invariant
            i <= pre_taken.len(),
            num == num_entries,
            taken@.len() == num,
            marks(taken@, set),
            seat_reserved(pre_taken@, num, i as int) == Ok::<Set<int>, Error>(set),
        decreases pre_taken.len() - i,
    {
        match take_seat(
            &mut taken,
            pre_taken[i],
            "reserved entry slot past the end of the table",
            Ghost(set),
        ) {
            Ok(()) => {},
            Err(e) => {
                proof {
                    lemma_reserved_refusal_persists(
                        pre_taken@,
                        num,
                        i + 1,
                        pre_taken@.len() as int,
                        e,
                    );
                }
                return Err(e);
            },
        }
        proof {
            set = seat_reserved(pre_taken@, num, i + 1)->Ok_0;
        }
        i = i + 1;
    }
    let ghost reserved = set;
    let mut k: usize = 0;
    while k < partitions.len()
        invariant
            k <= partitions.len(),
            wants == claims(views(partitions@)),
            num == num_entries,
            taken@.len() == num,
            marks(taken@, set),
            seat_claimed(wants, num, k as int, reserved) == Ok::<Set<int>, Error>(set),
            seat_reserved(pre_taken@, num, pre_taken@.len() as int) == Ok::<Set<int>, Error>(
                reserved,
            ),
        decreases partitions.len() - k,
    {
        assert(wants[k as int] == partitions@[k as int].slot);
        if let Some(slot) = partitions[k].slot {
            match take_seat(
                &mut taken,
                slot,
                "partition slot past the end of the table",
                Ghost(set),
            ) {
                Ok(()) => {},
                Err(e) => {
                    proof {
                        lemma_claim_refusal_persists(
                            wants,
                            num,
                            k + 1,
                            wants.len() as int,
                            reserved,
                            e,
                        );
                    }
                    return Err(e);
                },
            }
            proof {
                set = seat_claimed(wants, num, k + 1, reserved)->Ok_0;
            }
        }
        k = k + 1;
    }
    let ghost claimed = set;
    let mut next_free: usize = 0;
    let mut out: Vec<u32> = Vec::new();
    let mut k: usize = 0;
    while k < partitions.len()
        invariant
            k <= partitions.len(),
            wants == claims(views(partitions@)),
            num == num_entries,
            taken@.len() == num,
            marks(taken@, set),
            next_free <= num,
            forall|s: int| 0 <= s < next_free ==> set.contains(s),
            seat_all(wants, num, k as int, claimed) == Ok::<(Seq<u32>, Set<int>), Error>(
                (out@, set),
            ),
            seat_claimed(wants, num, wants.len() as int, reserved) == Ok::<Set<int>, Error>(
                claimed,
            ),
            seat_reserved(pre_taken@, num, pre_taken@.len() as int) == Ok::<Set<int>, Error>(
                reserved,
            ),
        decreases partitions.len() - k,
    {
        assert(wants[k as int] == partitions@[k as int].slot);
        match partitions[k].slot {
            Some(slot) => {
                out.push(slot);
            },
            None => {
                while next_free < taken.len() && taken[next_free]
                    invariant
                        taken@.len() == num,
                        marks(taken@, set),
                        next_free <= num,
                        forall|s: int| 0 <= s < next_free ==> set.contains(s),
                    decreases num - next_free,
                {
                    assert(set.contains(next_free as int));
                    next_free = next_free + 1;
                }
                proof {
                    lemma_lowest_free_from(set, next_free as int, num);
                }
                if next_free == taken.len() {
                    proof {
                        lemma_seat_refusal_persists(
                            wants,
                            num,
                            k + 1,
                            wants.len() as int,
                            claimed,
                            Error::Invalid("no free slot left in the table"),
                        );
                    }
                    return Err(Error::Invalid("no free slot left in the table"));
                }
                taken[next_free] = true;
                out.push(next_free as u32);
                proof {
                    set = set.insert(next_free as int);
                }
            },
        }
        k = k + 1;
    }
    Ok(out)
}

/// Claims that can all be honoured: each below `num`, no two alike.
pub open spec fn sound_claims(slots: Seq<u32>, num: int) -> bool {
    &&& forall|k: int| 0 <= k < slots.len() ==> #[trigger] slots[k] < num
    &&& forall|j: int, k: int|
        0 <= j < k < slots.len() ==> #[trigger] slots[j] != #[trigger] slots[k]
}

/// Each partition claims its own slot of `slots`.
pub open spec fn claims_all(slots: Seq<u32>) -> Seq<Option<u32>> {
    slots.map_values(|s: u32| Some(s))
}

proof fn lemma_reserve_all(pre_taken: Seq<u32>, num: int, n: int)
    requires
        0 <= n <= pre_taken.len(),
        sound_claims(pre_taken, num),
    ensures
        seat_reserved(pre_taken, num, n) is Ok,
        forall|s: int| #[trigger]
            seat_reserved(pre_taken, num, n)->Ok_0.contains(s) ==> exists|r: int|
                0 <= r < n && #[trigger] pre_taken[r] == s,
    decreases n,
{
    if n > 0 {
        lemma_reserve_all(pre_taken, num, n - 1);
        let before = seat_reserved(pre_taken, num, n - 1)->Ok_0;
        let slot = pre_taken[n - 1];
        assert(!before.contains(slot as int)) by {
            if before.contains(slot as int) {
                let r = choose|r: int| 0 <= r < n - 1 && #[trigger] pre_taken[r] == slot;
                assert(pre_taken[r] != pre_taken[n - 1]);
            }
        }
        lemma_reserved_seated(pre_taken, num, n);
    }
}

proof fn lemma_claim_all(slots: Seq<u32>, num: int, n: int, reserved: Set<int>)
    requires
        0 <= n <= slots.len(),
        sound_claims(slots, num),
        forall|k: int| 0 <= k < slots.len() ==> !reserved.contains(#[trigger] slots[k] as int),
    ensures
        seat_claimed(claims_all(slots), num, n, reserved) is Ok,
        forall|s: int| #[trigger]
            seat_claimed(claims_all(slots), num, n, reserved)->Ok_0.contains(s) ==> reserved.contains(
                s,
            ) || exists|k: int| 0 <= k < n && #[trigger] slots[k] == s,
    decreases n,
{
    let wants = claims_all(slots);
    if n > 0 {
        lemma_claim_all(slots, num, n - 1, reserved);
        let before = seat_claimed(wants, num, n - 1, reserved)->Ok_0;
        let slot = slots[n - 1];
        assert(wants[n - 1] == Some(slot));
        assert(!before.contains(slot as int)) by {
            if before.contains(slot as int) {
                let k = choose|k: int| 0 <= k < n - 1 && #[trigger] slots[k] == slot;
                assert(slots[k] != slots[n - 1]);
            }
        }
        let after = seat_claimed(wants, num, n, reserved)->Ok_0;
        assert(after == before.insert(slot as int));
        assert forall|s: int| #[trigger] after.contains(s) implies reserved.contains(s) || exists|
            k: int,
        |
            0 <= k < n && #[trigger] slots[k] == s by {
            if s != slot && !reserved.contains(s) {
                assert(before.contains(s));
                let k = choose|k: int| 0 <= k < n - 1 && #[trigger] slots[k] == s;
                assert(slots[k] == s);
            }
        }
    }
}

proof fn lemma_seat_as_claimed(slots: Seq<u32>, num: int, n: int, taken: Set<int>)
    requires
        0 <= n <= slots.len(),
    ensures
        seat_all(claims_all(slots), num, n, taken) == Ok::<(Seq<u32>, Set<int>), Error>(
            (slots.take(n), taken),
        ),
    decreases n,
{
    if n > 0 {
        lemma_seat_as_claimed(slots, num, n - 1, taken);
        assert(slots.take(n) =~= slots.take(n - 1).push(slots[n - 1]));
    } else {
        assert(slots.take(0) =~= Seq::<u32>::empty());
    }
}

/// Partitions that all have a slot, no two the same and none spoken for, are
/// all written where they were.
pub proof fn lemma_claims_are_honoured(slots: Seq<u32>, num: int, pre_taken: Seq<u32>)
    requires
        sound_claims(slots, num),
        sound_claims(pre_taken, num),
        forall|k: int, r: int|
            0 <= k < slots.len() && 0 <= r < pre_taken.len() ==> #[trigger] slots[k]
                != #[trigger] pre_taken[r],
    ensures
        slots_for(claims_all(slots), num, pre_taken) == Ok::<Seq<u32>, Error>(slots),
{
    lemma_reserve_all(pre_taken, num, pre_taken.len() as int);
    let reserved = seat_reserved(pre_taken, num, pre_taken.len() as int)->Ok_0;
    assert forall|k: int| 0 <= k < slots.len() implies !reserved.contains(
        #[trigger] slots[k] as int,
    ) by {
        if reserved.contains(slots[k] as int) {
            let r = choose|r: int| 0 <= r < pre_taken.len() && #[trigger] pre_taken[r] == slots[k];
            assert(slots[k] != pre_taken[r]);
        }
    }
    lemma_claim_all(slots, num, slots.len() as int, reserved);
    let taken = seat_claimed(claims_all(slots), num, slots.len() as int, reserved)->Ok_0;
    lemma_seat_as_claimed(slots, num, slots.len() as int, taken);
    assert(slots.take(slots.len() as int) =~= slots);
}

/// Once the slots of a table have been recorded, writing it again moves
/// nothing.
pub proof fn lemma_recorded_slots_stay(claims: Seq<Option<u32>>, num: int, pre_taken: Seq<u32>)
    requires
        0 <= num <= u32::MAX,
        slots_for(claims, num, pre_taken) is Ok,
    ensures
        slots_for(claims_all(slots_for(claims, num, pre_taken)->Ok_0), num, pre_taken)
            == slots_for(claims, num, pre_taken),
{
    lemma_slots_are_sound(claims, num, pre_taken);
    lemma_reserved_seated(pre_taken, num, pre_taken.len() as int);
    lemma_claims_are_honoured(slots_for(claims, num, pre_taken)->Ok_0, num, pre_taken);
}

} // verus!
