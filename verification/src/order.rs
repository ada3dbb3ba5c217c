//! A stable ordering of table entries by where they start.

use vstd::prelude::*;

pub mod laws;

verus! {

/// `order` with the index `i` put behind every index whose key is not
/// greater.
pub open spec fn place(keys: Seq<u64>, order: Seq<int>, i: int) -> Seq<int>
    decreases order.len(),
{
    if order.len() == 0 || keys[order.last()] <= keys[i] {
        order.push(i)
    } else {
        place(keys, order.drop_last(), i).push(order.last())
    }
}

/// The first `n` indices of `keys` in ascending order of key, those of
/// equal keys in their own order.
pub open spec fn key_order(keys: Seq<u64>, n: int) -> Seq<int>
    decreases n,
{
    if n <= 0 {
        Seq::empty()
    } else {
        place(keys, key_order(keys, n - 1), n - 1)
    }
}

/// `i` comes ahead of `j` once sorted.
pub open spec fn ahead(keys: Seq<u64>, i: int, j: int) -> bool {
    keys[i] < keys[j] || (keys[i] == keys[j] && i < j)
}

/// `order` holds each of the indices below `n` once, sorted.
pub open spec fn sorts(keys: Seq<u64>, order: Seq<int>, n: int) -> bool {
    &&& order.len() == n
    &&& forall|a: int| 0 <= a < n ==> 0 <= #[trigger] order[a] < n
    &&& forall|a: int, b: int|
        0 <= a < b < n ==> ahead(keys, #[trigger] order[a], #[trigger] order[b])
    &&& forall|i: int| 0 <= i < n ==> #[trigger] order.contains(i)
}

/// Where `place` puts the index.
proof fn lemma_place(keys: Seq<u64>, order: Seq<int>, i: int, p: int)
    requires
        0 <= p <= order.len(),
        p > 0 ==> keys[order[p - 1]] <= keys[i],
        forall|a: int| p <= a < order.len() ==> keys[#[trigger] order[a]] > keys[i],
    ensures
        place(keys, order, i) == order.insert(p, i),
    decreases order.len(),
{
    if p == order.len() {
        assert(order.insert(p, i) =~= order.push(i));
    } else {
        lemma_place(keys, order.drop_last(), i, p);
        assert(order.drop_last().insert(p, i).push(order.last()) =~= order.insert(p, i));
    }
}

/// Putting the next index in keeps the order sorted.
proof fn lemma_insert_sorts(keys: Seq<u64>, order: Seq<int>, n: int, p: int)
    requires
        0 <= n,
        sorts(keys, order, n),
        0 <= p <= n,
        p > 0 ==> keys[order[p - 1]] <= keys[n],
        forall|a: int| p <= a < n ==> keys[#[trigger] order[a]] > keys[n],
    ensures
        sorts(keys, order.insert(p, n), n + 1),
{
    let after = order.insert(p, n);
    assert forall|a: int, b: int| 0 <= a < b < n + 1 implies ahead(
        keys,
        #[trigger] after[a],
        #[trigger] after[b],
    ) by {
        let a0 = if a < p { a } else { a - 1 };
        let b0 = if b < p { b } else { b - 1 };
        if b == p {
            assert(after[a] == order[a0]);
            assert(a == p - 1 || ahead(keys, order[a], order[p - 1]));
        } else if a == p {
            assert(after[b] == order[b0]);
        } else {
            assert(after[a] == order[a0] && after[b] == order[b0]);
        }
    }
    assert forall|i: int| 0 <= i < n + 1 implies #[trigger] after.contains(i) by {
        if i == n {
            assert(after[p] == i);
        } else {
            assert(order.contains(i));
            let k = choose|k: int| 0 <= k < order.len() && order[k] == i;
            assert(after[if k < p { k } else { k + 1 }] == i);
        }
    }
}

/// The order is a permutation of the indices, sorted by key, and stable.
pub proof fn lemma_key_order_sorts(keys: Seq<u64>, n: int)
    requires
        0 <= n <= keys.len(),
    ensures
        sorts(keys, key_order(keys, n), n),
    decreases n,
{
    if n > 0 {
        lemma_key_order_sorts(keys, n - 1);
        let order = key_order(keys, n - 1);
        let p = lemma_find_place(keys, order, n - 1);
        lemma_place(keys, order, n - 1, p);
        lemma_insert_sorts(keys, order, n - 1, p);
    }
}

/// A sorted order has one place for a new index.
proof fn lemma_find_place(keys: Seq<u64>, order: Seq<int>, i: int) -> (p: int)
    requires
        forall|a: int, b: int|
            0 <= a < b < order.len() ==> ahead(keys, #[trigger] order[a], #[trigger] order[b]),
    ensures
        0 <= p <= order.len(),
        p > 0 ==> keys[order[p - 1]] <= keys[i],
        forall|a: int| p <= a < order.len() ==> keys[#[trigger] order[a]] > keys[i],
    decreases order.len(),
{
    if order.len() == 0 || keys[order.last()] <= keys[i] {
        order.len() as int
    } else {
        let shorter = order.drop_last();
        assert forall|a: int, b: int| 0 <= a < b < shorter.len() implies ahead(
            keys,
            #[trigger] shorter[a],
            #[trigger] shorter[b],
        ) by {
            assert(ahead(keys, order[a], order[b]));
        }
        let p = lemma_find_place(keys, shorter, i);
        assert forall|a: int| p <= a < order.len() implies keys[#[trigger] order[a]] > keys[i] by {
            if a < order.len() - 1 {
                assert(order[a] == shorter[a]);
            }
        }
        assert(p > 0 ==> order[p - 1] == shorter[p - 1]);
        p
    }
}

/// Ascending indices leave room for those before them.
pub proof fn lemma_ascending(indices: Seq<int>, k: int)
    requires
        0 <= k < indices.len(),
        indices[0] >= 0,
        forall|i: int, j: int|
            0 <= i < j < indices.len() ==> #[trigger] indices[i] < #[trigger] indices[j],
    ensures
        indices[k] >= k,
    decreases k,
{
    if k > 0 {
        lemma_ascending(indices, k - 1);
        assert(indices[k - 1] < indices[k]);
    }
}

/// The indices of `keys` in ascending order of key, those of equal keys in
/// their own order.
pub fn order_by_key(keys: &Vec<u64>) -> (order: Vec<usize>)
    ensures
        order@.map_values(|i: usize| i as int) == key_order(keys@, keys@.len() as int),
        sorts(keys@, order@.map_values(|i: usize| i as int), keys@.len() as int),
{
    let mut order: Vec<usize> = Vec::new();
    let mut i: usize = 0;
    while i < keys.len()
        invariant
            i <= keys@.len(),
            order@.len() == i,
            order@.map_values(|i: usize| i as int) =~= key_order(keys@, i as int),
            sorts(keys@, order@.map_values(|i: usize| i as int), i as int),
        decreases keys@.len() - i,
    {
        let ghost view = order@.map_values(|i: usize| i as int);
        let mut p: usize = i;
        assert forall|a: int| 0 <= a < i implies (#[trigger] order@[a]) < i by {
            assert(view[a] == order@[a]);
        }
        while p > 0 && keys[order[p - 1]] > keys[i]
            invariant
                p <= i < keys@.len(),
                order@.len() == i,
                view == order@.map_values(|i: usize| i as int),
                forall|a: int| 0 <= a < i ==> (#[trigger] order@[a]) < i,
                forall|a: int| p <= a < i ==> keys@[#[trigger] view[a]] > keys@[i as int],
            decreases p,
        {
            p = p - 1;
        }
        proof {
            if p > 0 {
                assert(view[p - 1] == order@[p - 1]);
            }
            lemma_place(keys@, view, i as int, p as int);
            lemma_insert_sorts(keys@, view, i as int, p as int);
        }
        order.insert(p, i);
        assert(order@.map_values(|i: usize| i as int) =~= view.insert(p as int, i as int));
        i = i + 1;
    }
    order
}

} // verus!
