//! The sequence a caller performs on a disk it knows nothing of: decide what
//! the table is, then what is in each partition.

use vstd::prelude::*;

use crate::block::{past_end_answers, BlockRead, Bytes};
use crate::codec::copy_range;
use crate::error::Result;
use crate::probe::{probe_with_status, table_recovered, views, PartitionView};
use crate::sniff::{sniff, sniff_outcome, FsKind};

pub mod laws;

verus! {

/// How many partitions one walk looks into. A table can claim any number.
pub const PARTITION_BUDGET: usize = 64;

/// The partitions of a disk image that a walk looks into: those of its
/// table, from whichever copy it can be had, as far as the budget goes.
pub open spec fn walked(image: Seq<u8>) -> Seq<PartitionView> {
    match table_recovered(image, image.len() as u64) {
        Ok((_, parts, _)) => if parts.len() <= PARTITION_BUDGET {
            parts
        } else {
            parts.take(PARTITION_BUDGET as int)
        },
        Err(_) => Seq::empty(),
    }
}

/// Probes a disk image and sniffs what was found. Whatever the image holds,
/// this returns.
pub fn walk(image: &[u8]) -> (kinds: Vec<Result<FsKind>>)
    ensures
        kinds@.len() == walked(image@).len(),
        forall|k: int|
            0 <= k < kinds@.len() ==> sniff_outcome(
                #[trigger] kinds@[k],
                image@,
                image.len() as u64,
                walked(image@)[k],
                true,
                past_end_answers(),
            ),
{
    let dev: Bytes = Bytes(copy_range(image, 0, image.len()));
    assert(dev.content() =~= image@);
    let mut kinds: Vec<Result<FsKind>> = Vec::new();
    let parts = match probe_with_status(&dev) {
        Ok((_, parts, _)) => parts,
        Err(_) => return kinds,
    };
    let n: usize = if parts.len() <= PARTITION_BUDGET { parts.len() } else { PARTITION_BUDGET };
    let ghost chosen = walked(image@);
    assert(chosen.len() == n);
    assert forall|k: int| 0 <= k < n implies chosen[k] == (#[trigger] parts@[k])@ by {
        assert(views(parts@)[k] == parts@[k]@);
    }
    let mut i: usize = 0;
    while i < n
        invariant
            i <= n <= parts@.len(),
            kinds@.len() == i,
            dev.content() == image@,
            dev.stated_size() == image@.len() as u64,
            dev.dependable(),
            forall|k: int| 0 <= k < n ==> chosen[k] == (#[trigger] parts@[k])@,
            forall|k: int|
                0 <= k < i ==> sniff_outcome(
                    #[trigger] kinds@[k],
                    image@,
                    image.len() as u64,
                    chosen[k],
                    true,
                    past_end_answers(),
                ),
        decreases n - i,
    {
        kinds.push(sniff(&dev, &parts[i]));
        i = i + 1;
    }
    kinds
}

} // verus!
