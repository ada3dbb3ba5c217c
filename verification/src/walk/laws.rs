//! What a walk looks into.

use vstd::prelude::*;

use crate::probe::table_recovered;
use crate::walk::walked;

verus! {

/// A walk looks into the partitions that were found, in their order: all of
/// them, or the first 64. Where no table was found it looks into none.
pub proof fn lemma_walk_looks_into_what_was_found(image: Seq<u8>)
    ensures
        match table_recovered(image, image.len() as u64) {
            Ok((_, parts, _)) => {
                &&& walked(image).len() == (if parts.len() < 64 {
                    parts.len() as int
                } else {
                    64
                })
                &&& forall|k: int|
                    0 <= k < walked(image).len() ==> #[trigger] walked(image)[k] == parts[k]
            },
            Err(_) => walked(image).len() == 0,
        },
{
}

} // verus!
