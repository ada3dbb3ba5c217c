//! Which slot a partition is given, and when there is one for each.

use vstd::prelude::*;
use vstd::set_lib::{lemma_int_range, lemma_len_subset, set_int_range};

use crate::error::Error;
use crate::gpt_write::slots::{
    lemma_lowest_free, lemma_reserve_all, lemma_reserved_seated, lemma_slots_are_sound,
    lowest_free, seat_all, seat_claimed, seat_reserved, slots_for, sound_claims,
};

verus! {

proof fn lemma_claimed_is_claimed(claims: Seq<Option<u32>>, num: int, n: int, taken: Set<int>)
    requires
        0 <= n <= claims.len(),
        seat_claimed(claims, num, n, taken) is Ok,
    ensures
        forall|s: int| #[trigger]
            seat_claimed(claims, num, n, taken)->Ok_0.contains(s) ==> taken.contains(s) || exists|
                k: int,
            |
                0 <= k < n && #[trigger] claims[k] == Some(s as u32),
    decreases n,
{
    if n > 0 {
        lemma_claimed_is_claimed(claims, num, n - 1, taken);
        let before = seat_claimed(claims, num, n - 1, taken)->Ok_0;
        let after = seat_claimed(claims, num, n, taken)->Ok_0;
        assert forall|s: int| #[trigger] after.contains(s) implies taken.contains(s) || exists|
            k: int,
        |
            0 <= k < n && #[trigger] claims[k] == Some(s as u32) by {
            if before.contains(s) {
                if !taken.contains(s) {
                    let k = choose|k: int| 0 <= k < n - 1 && #[trigger] claims[k] == Some(s as u32);
                    assert(claims[k] == Some(s as u32));
                }
            } else {
                assert(claims[n - 1] == Some(s as u32));
            }
        }
    }
}

/// The slot `s` was given to a partition before the `k`th that claims none.
pub open spec fn given_before(
    claims: Seq<Option<u32>>,
    slots: Seq<u32>,
    k: int,
    s: int,
) -> bool {
    exists|j: int| 0 <= j < k && claims[j] is None && #[trigger] slots[j] == s
}

proof fn lemma_lowest_is_given(claims: Seq<Option<u32>>, num: int, n: int, taken: Set<int>)
    requires
        0 <= n <= claims.len(),
        0 <= num <= u32::MAX,
        seat_all(claims, num, n, taken) is Ok,
    ensures
        seat_all(claims, num, n, taken)->Ok_0.0.len() == n,
        forall|s: int| #[trigger]
            seat_all(claims, num, n, taken)->Ok_0.1.contains(s) ==> taken.contains(s)
                || given_before(claims, seat_all(claims, num, n, taken)->Ok_0.0, n, s),
        forall|k: int, s: int|
            0 <= k < n && claims[k] is None && 0 <= s < seat_all(
                claims,
                num,
                n,
                taken,
            )->Ok_0.0[k] ==> #[trigger] taken.contains(s) || #[trigger] given_before(
                claims,
                seat_all(claims, num, n, taken)->Ok_0.0,
                k,
                s,
            ),
    decreases n,
{
    if n > 0 {
        lemma_lowest_is_given(claims, num, n - 1, taken);
        let (slots, before) = seat_all(claims, num, n - 1, taken)->Ok_0;
        let (after, now) = seat_all(claims, num, n, taken)->Ok_0;
        lemma_lowest_free(before, 0, num);
        assert forall|k: int, s: int| 0 <= k < n && #[trigger] given_before(claims, slots, k, s)
            && k <= n - 1 implies given_before(claims, after, k, s) by {
            let j = choose|j: int| 0 <= j < k && claims[j] is None && #[trigger] slots[j] == s;
            assert(after[j] == s);
        }
        assert forall|s: int| #[trigger] now.contains(s) implies taken.contains(s) || given_before(
            claims,
            after,
            n,
            s,
        ) by {
            if before.contains(s) && !taken.contains(s) {
                assert(given_before(claims, slots, n - 1, s));
                let j = choose|j: int|
                    0 <= j < n - 1 && claims[j] is None && #[trigger] slots[j] == s;
                assert(after[j] == s);
            } else if !before.contains(s) {
                assert(after[n - 1] == s);
            }
        }
        assert forall|k: int, s: int|
            0 <= k < n && claims[k] is None && 0 <= s < after[k] implies #[trigger] taken.contains(
            s,
        ) || #[trigger] given_before(claims, after, k, s) by {
            if k < n - 1 {
                assert(after[k] == slots[k]);
                assert(taken.contains(s) || given_before(claims, slots, k, s));
            } else {
                assert(before.contains(s));
                if !taken.contains(s) {
                    assert(given_before(claims, slots, n - 1, s));
                }
            }
        }
    }
}

/// Who gets which slot. Each partition gets one of its own below `num`, none
/// of them spoken for; one that names a slot gets that one; one that names
/// none gets the lowest that nobody named, nobody spoke for, and none before
/// it was given.
pub proof fn lemma_who_gets_which_slot(
    claims: Seq<Option<u32>>,
    num: int,
    pre_taken: Seq<u32>,
    slots: Seq<u32>,
)
    requires
        0 <= num <= u32::MAX,
        slots_for(claims, num, pre_taken) == Ok::<Seq<u32>, Error>(slots),
    ensures
        slots.len() == claims.len(),
        forall|k: int| 0 <= k < slots.len() ==> #[trigger] slots[k] < num,
        forall|j: int, k: int|
            0 <= j < k < slots.len() ==> #[trigger] slots[j] != #[trigger] slots[k],
        forall|k: int| 0 <= k < slots.len() ==> !pre_taken.contains(#[trigger] slots[k]),
        forall|k: int|
            0 <= k < slots.len() && (#[trigger] claims[k]) is Some ==> slots[k] == claims[k]->Some_0,
        forall|k: int, s: int|
            0 <= k < slots.len() && claims[k] is None && 0 <= s < slots[k] ==> {
                ||| pre_taken.contains(s as u32)
                ||| claims.contains(Some(s as u32))
                ||| #[trigger] given_before(claims, slots, k, s)
            },
{
    let n = claims.len() as int;
    lemma_slots_are_sound(claims, num, pre_taken);
    let reserved = seat_reserved(pre_taken, num, pre_taken.len() as int)->Ok_0;
    let taken = seat_claimed(claims, num, n, reserved)->Ok_0;
    lemma_reserved_seated(pre_taken, num, pre_taken.len() as int);
    lemma_claimed_is_claimed(claims, num, n, reserved);
    lemma_lowest_is_given(claims, num, n, taken);
    assert forall|k: int| 0 <= k < slots.len() implies !pre_taken.contains(#[trigger] slots[k]) by {
        if pre_taken.contains(slots[k]) {
            let r = choose|r: int| 0 <= r < pre_taken.len() && pre_taken[r] == slots[k];
            assert(slots[k] != pre_taken[r]);
        }
    }
    assert forall|k: int, s: int|
        0 <= k < slots.len() && claims[k] is None && 0 <= s < slots[k] implies {
        ||| pre_taken.contains(s as u32)
        ||| claims.contains(Some(s as u32))
        ||| #[trigger] given_before(claims, slots, k, s)
    } by {
        assert(taken.contains(s) || given_before(claims, slots, k, s));
        if taken.contains(s) {
            if reserved.contains(s) {
                let r = choose|r: int| 0 <= r < pre_taken.len() && #[trigger] pre_taken[r] == s;
                assert(pre_taken[r] == s as u32);
            } else {
                let j = choose|j: int| 0 <= j < n && #[trigger] claims[j] == Some(s as u32);
                assert(claims.contains(Some(s as u32)));
            }
        }
    }
}

/// How many of the first `n` partitions name a slot.
pub open spec fn named(claims: Seq<Option<u32>>, n: int) -> int
    decreases n,
{
    if n <= 0 {
        0
    } else {
        named(claims, n - 1) + (if claims[n - 1] is Some {
            1int
        } else {
            0int
        })
    }
}

spec fn below(taken: Set<int>, num: int) -> bool {
    taken.finite() && forall|s: int| #[trigger] taken.contains(s) ==> 0 <= s < num
}

proof fn lemma_reserved_len(pre_taken: Seq<u32>, num: int, n: int)
    requires
        0 <= n <= pre_taken.len(),
        seat_reserved(pre_taken, num, n) is Ok,
    ensures
        below(seat_reserved(pre_taken, num, n)->Ok_0, num),
        seat_reserved(pre_taken, num, n)->Ok_0.len() == n,
    decreases n,
{
    if n > 0 {
        lemma_reserved_len(pre_taken, num, n - 1);
    }
}

/// The slots named are all different, inside the table, and not spoken for.
pub open spec fn names_agree(claims: Seq<Option<u32>>, num: int, pre_taken: Seq<u32>) -> bool {
    &&& forall|k: int|
        0 <= k < claims.len() && (#[trigger] claims[k]) is Some ==> claims[k]->Some_0 < num
            && !pre_taken.contains(claims[k]->Some_0)
    &&& forall|j: int, k: int|
        0 <= j < k < claims.len() && (#[trigger] claims[j]) is Some ==> claims[j]
            != #[trigger] claims[k]
}

proof fn lemma_names_are_seated(
    claims: Seq<Option<u32>>,
    num: int,
    pre_taken: Seq<u32>,
    n: int,
    reserved: Set<int>,
)
    requires
        0 <= n <= claims.len(),
        names_agree(claims, num, pre_taken),
        below(reserved, num),
        forall|s: int| #[trigger]
            reserved.contains(s) ==> exists|r: int|
                0 <= r < pre_taken.len() && #[trigger] pre_taken[r] == s,
    ensures
        seat_claimed(claims, num, n, reserved) is Ok,
        below(seat_claimed(claims, num, n, reserved)->Ok_0, num),
        seat_claimed(claims, num, n, reserved)->Ok_0.len() == reserved.len() + named(claims, n),
    decreases n,
{
    if n > 0 {
        lemma_names_are_seated(claims, num, pre_taken, n - 1, reserved);
        lemma_claimed_is_claimed(claims, num, n - 1, reserved);
        let before = seat_claimed(claims, num, n - 1, reserved)->Ok_0;
        if let Some(slot) = claims[n - 1] {
            assert(!before.contains(slot as int)) by {
                if before.contains(slot as int) {
                    if reserved.contains(slot as int) {
                        let r = choose|r: int|
                            0 <= r < pre_taken.len() && #[trigger] pre_taken[r] == slot as int;
                        assert(pre_taken.contains(slot));
                    } else {
                        let k = choose|k: int|
                            0 <= k < n - 1 && #[trigger] claims[k] == Some((slot as int) as u32);
                        assert(claims[k] != claims[n - 1]);
                    }
                }
            }
        }
    }
}

proof fn lemma_room_is_found(taken: Set<int>, num: int)
    requires
        0 <= num,
        below(taken, num),
        taken.len() < num,
    ensures
        lowest_free(taken, 0, num) < num,
{
    lemma_lowest_free(taken, 0, num);
    if lowest_free(taken, 0, num) >= num {
        lemma_int_range(0, num);
        assert(set_int_range(0, num).subset_of(taken));
        lemma_len_subset(set_int_range(0, num), taken);
    }
}

proof fn lemma_all_find_room(claims: Seq<Option<u32>>, num: int, n: int, taken: Set<int>)
    requires
        0 <= n <= claims.len(),
        0 <= num,
        below(taken, num),
        taken.len() + (n - named(claims, n)) <= num,
    ensures
        seat_all(claims, num, n, taken) is Ok,
        below(seat_all(claims, num, n, taken)->Ok_0.1, num),
        seat_all(claims, num, n, taken)->Ok_0.1.len() == taken.len() + (n - named(claims, n)),
    decreases n,
{
    if n > 0 {
        lemma_all_find_room(claims, num, n - 1, taken);
        let before = seat_all(claims, num, n - 1, taken)->Ok_0.1;
        if claims[n - 1] is None {
            lemma_room_is_found(before, num);
            lemma_lowest_free(before, 0, num);
        }
    }
}

/// There is a slot for each exactly where those spoken for and those named
/// are inside the table and all different, and there are as many slots as
/// there are partitions and slots spoken for.
pub proof fn lemma_slots_suffice(claims: Seq<Option<u32>>, num: int, pre_taken: Seq<u32>)
    requires
        0 <= num <= u32::MAX,
        pre_taken.len() + claims.len() <= num,
    ensures
        slots_for(claims, num, pre_taken) is Ok <==> sound_claims(pre_taken, num) && names_agree(
            claims,
            num,
            pre_taken,
        ),
        slots_for(claims, num, pre_taken) matches Err(e) ==> e is Invalid,
{
    let n = claims.len() as int;
    let m = pre_taken.len() as int;
    if sound_claims(pre_taken, num) && names_agree(claims, num, pre_taken) {
        lemma_reserve_all(pre_taken, num, m);
        lemma_reserved_len(pre_taken, num, m);
        let reserved = seat_reserved(pre_taken, num, m)->Ok_0;
        lemma_names_are_seated(claims, num, pre_taken, n, reserved);
        lemma_all_find_room(claims, num, n, seat_claimed(claims, num, n, reserved)->Ok_0);
    }
    if slots_for(claims, num, pre_taken) is Ok {
        let slots = slots_for(claims, num, pre_taken)->Ok_0;
        lemma_who_gets_which_slot(claims, num, pre_taken, slots);
        lemma_reserved_seated(pre_taken, num, m);
        assert forall|j: int, k: int|
            0 <= j < k < claims.len() && (#[trigger] claims[j]) is Some implies claims[j]
            != #[trigger] claims[k] by {
            if claims[j] == claims[k] {
                assert(slots[j] != slots[k]);
            }
        }
    }
    lemma_reserved_errors(pre_taken, num, m);
    if let Ok(reserved) = seat_reserved(pre_taken, num, m) {
        lemma_claimed_errors(claims, num, n, reserved);
        if let Ok(taken) = seat_claimed(claims, num, n, reserved) {
            lemma_seat_errors(claims, num, n, taken);
        }
    }
}

proof fn lemma_full_table(claims: Seq<Option<u32>>, num: int, n: int, taken: Set<int>)
    ensures
        seat_all(claims, num, n, taken) is Err ==> seat_all(claims, num, n, taken) == Err::<
            (Seq<u32>, Set<int>),
            Error,
        >(Error::Invalid("no free slot left in the table")),
    decreases n,
{
    if n > 0 {
        lemma_full_table(claims, num, n - 1, taken);
    }
}

/// Where the slots spoken for and those named agree and there is still not a
/// slot for each, what is said is that none is left.
pub proof fn lemma_no_slot_is_left(
    claims: Seq<Option<u32>>,
    num: int,
    pre_taken: Seq<u32>,
    e: Error,
)
    requires
        0 <= num <= u32::MAX,
        sound_claims(pre_taken, num),
        names_agree(claims, num, pre_taken),
        slots_for(claims, num, pre_taken) == Err::<Seq<u32>, Error>(e),
    ensures
        e == Error::Invalid("no free slot left in the table"),
        pre_taken.len() + claims.len() > num,
{
    let n = claims.len() as int;
    let m = pre_taken.len() as int;
    if m + n <= num {
        lemma_slots_suffice(claims, num, pre_taken);
    }
    lemma_reserve_all(pre_taken, num, m);
    lemma_reserved_len(pre_taken, num, m);
    lemma_reserved_seated(pre_taken, num, m);
    let reserved = seat_reserved(pre_taken, num, m)->Ok_0;
    lemma_names_are_seated(claims, num, pre_taken, n, reserved);
    lemma_full_table(claims, num, n, seat_claimed(claims, num, n, reserved)->Ok_0);
}

proof fn lemma_reserved_errors(pre_taken: Seq<u32>, num: int, n: int)
    ensures
        seat_reserved(pre_taken, num, n) matches Err(e) ==> e is Invalid,
    decreases n,
{
    if n > 0 {
        lemma_reserved_errors(pre_taken, num, n - 1);
    }
}

proof fn lemma_claimed_errors(claims: Seq<Option<u32>>, num: int, n: int, taken: Set<int>)
    ensures
        seat_claimed(claims, num, n, taken) matches Err(e) ==> e is Invalid,
    decreases n,
{
    if n > 0 {
        lemma_claimed_errors(claims, num, n - 1, taken);
    }
}

proof fn lemma_seat_errors(claims: Seq<Option<u32>>, num: int, n: int, taken: Set<int>)
    ensures
        seat_all(claims, num, n, taken) matches Err(e) ==> e is Invalid,
    decreases n,
{
    if n > 0 {
        lemma_seat_errors(claims, num, n - 1, taken);
    }
}

} // verus!
