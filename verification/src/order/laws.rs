//! What sorting does.

use vstd::prelude::*;

use crate::order::{key_order, lemma_key_order_sorts};

verus! {

/// Sorting by key visits each index once, the lower key first, and of equal
/// keys the one listed first.
pub proof fn lemma_order_is_stable(keys: Seq<u64>)
    ensures
        key_order(keys, keys.len() as int).len() == keys.len(),
        forall|i: int|
            0 <= i < keys.len() ==> #[trigger] key_order(keys, keys.len() as int).contains(i),
        forall|a: int, b: int|
            0 <= a < b < keys.len() ==> {
                let i = #[trigger] key_order(keys, keys.len() as int)[a];
                let j = #[trigger] key_order(keys, keys.len() as int)[b];
                &&& 0 <= i < keys.len() && 0 <= j < keys.len()
                &&& keys[i] <= keys[j]
                &&& keys[i] == keys[j] ==> i < j
            },
{
    let n = keys.len() as int;
    lemma_key_order_sorts(keys, n);
    let order = key_order(keys, n);
    assert forall|a: int, b: int| 0 <= a < b < n implies {
        let i = #[trigger] order[a];
        let j = #[trigger] order[b];
        &&& 0 <= i < n && 0 <= j < n
        &&& keys[i] <= keys[j]
        &&& keys[i] == keys[j] ==> i < j
    } by {
        assert(crate::order::ahead(keys, order[a], order[b]));
    }
}

} // verus!
