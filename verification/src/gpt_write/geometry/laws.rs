//! How much room a GPT takes, and what it leaves.

use vstd::arithmetic::power2::pow2;
use vstd::prelude::*;

use crate::error::Error;
use crate::gpt::laws::lemma_entry_sizes;
use crate::gpt_write::geometry::{canonical_geometry, lemma_product_bound, GptGeometry};

verus! {

/// An array takes as many sectors as it needs, and no more.
pub proof fn lemma_array_sectors(g: GptGeometry)
    ensures
        g.bytes_spec() == g.num_entries * g.entry_size,
        g.sectors_spec() * 512 >= g.num_entries * g.entry_size,
        (g.sectors_spec() - 1) * 512 < g.num_entries * g.entry_size,
{
    lemma_product_bound(g.num_entries as int, g.entry_size as int);
}

/// A shape is one a table can have exactly where it has an entry, its entries
/// are 128 times a power of two bytes, its array starts behind the header,
/// and the array ends where a byte offset still fits a `u64`.
pub proof fn lemma_shapes(g: GptGeometry)
    ensures
        g.shape_fault() is None <==> {
            &&& g.num_entries > 0
            &&& exists|k: nat| g.entry_size == 128 * #[trigger] pow2(k)
            &&& g.entry_lba >= 2
            &&& g.entry_lba + g.sectors_spec() <= 0x7F_FFFF_FFFF_FFFF
        },
        g.shape_fault() matches Some(e) ==> e is Invalid,
{
    lemma_product_bound(g.num_entries as int, g.entry_size as int);
    lemma_entry_sizes(g.entry_size as int);
    if exists|k: nat| g.entry_size == 128 * #[trigger] pow2(k) {
        let k = choose|k: nat| g.entry_size == 128 * #[trigger] pow2(k);
        vstd::arithmetic::power2::lemma_pow2_pos(k);
        assert(g.entry_size % 8 == 0 && g.entry_size >= 128);
    }
}

/// The usable range is what both copies of the table leave between them: from
/// the sector behind the primary array to the one ahead of the backup array,
/// or the part of it that the disk declares. There is none where nothing is
/// left, or where what is declared is not part of it.
pub proof fn lemma_usable_range(g: GptGeometry, total: int)
    requires
        0 <= total <= u64::MAX,
        g.shape_fault() is None,
    ensures
        ({
            let first = g.entry_lba + g.sectors_spec();
            let last = total - 2 - g.sectors_spec();
            &&& first > last ==> g.usable(total) == Err::<(u64, u64), Error>(Error::DeviceTooSmall)
            &&& first <= last ==> match g.declared_usable {
                None => g.usable(total) == Ok::<(u64, u64), Error>((first as u64, last as u64)),
                Some((a, b)) => if first <= a && a <= b && b <= last {
                    g.usable(total) == Ok::<(u64, u64), Error>((a, b))
                } else {
                    g.usable(total) is Err && g.usable(total)->Err_0 is Invalid
                },
            }
        }),
{
    lemma_product_bound(g.num_entries as int, g.entry_size as int);
}

/// A shape that no table can have has no usable range.
pub proof fn lemma_no_shape_no_range(g: GptGeometry, total: int)
    requires
        g.shape_fault() is Some,
    ensures
        g.usable(total) is Err && g.usable(total)->Err_0 is Invalid,
{
    lemma_shapes(g);
}

/// A table made here leaves everything from LBA 34 to the thirty-fourth
/// sector from the end, on any disk that has one sector to leave.
pub proof fn lemma_canonical_range(total: int)
    requires
        0 <= total <= u64::MAX,
    ensures
        total >= 68 ==> canonical_geometry().usable(total) == Ok::<(u64, u64), Error>(
            (34, (total - 34) as u64),
        ),
        total < 68 ==> canonical_geometry().usable(total) == Err::<(u64, u64), Error>(
            Error::DeviceTooSmall,
        ),
{
    let g = canonical_geometry();
    lemma_shapes(g);
    vstd::arithmetic::power2::lemma2_to64();
    assert(g.entry_size == 128 * pow2(0));
    lemma_usable_range(g, total);
}

} // verus!
