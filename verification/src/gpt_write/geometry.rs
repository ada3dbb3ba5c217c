//! The shape of a GPT, and the usable range that follows from it.

use vstd::prelude::*;

use crate::error::{Error, Result};
use crate::gpt::{doubles_128, is_doubled_128, Header};
use crate::gpt_layout::{ENTRY_SIZE, NUM_ENTRIES};
use crate::SECTOR_SIZE;

pub mod laws;

verus! {

/// The largest LBA whose byte offset fits in a `u64`.
pub const MAX_LBA: u64 = 0x007F_FFFF_FFFF_FFFF;

/// The shape of a GPT's entry array, and the usable range that follows from
/// it.
///
/// A table that came off a disk is written back in the shape it was found
/// in; a table being created gets the canonical one.
#[derive(Debug, Clone, Copy, PartialEq, Eq)]
pub struct GptGeometry {
    /// Entries the array holds.
    pub num_entries: u32,
    /// Bytes per entry.
    pub entry_size: u32,
    /// LBA the primary entry array starts at.
    pub entry_lba: u64,
    /// The usable range the disk declares, for a geometry that came off a
    /// disk: it may reserve more than the metadata needs. `None` for a
    /// table being created, where the range follows from the device's size.
    pub declared_usable: Option<(u64, u64)>,
}

impl GptGeometry {
    /// Bytes the entry array occupies.
    pub open spec fn bytes_spec(self) -> int {
        self.num_entries * self.entry_size
    }

    /// Sectors the entry array occupies, the last one maybe in part.
    pub open spec fn sectors_spec(self) -> int {
        (self.bytes_spec() + 511) / 512
    }

    /// What keeps the shape from being one a table can have, whatever disk
    /// it is going on.
    pub open spec fn shape_fault(self) -> Option<Error> {
        if self.num_entries == 0 {
            Some(Error::Invalid("a GPT with no entry slots"))
        } else if self.entry_size < 128 || self.entry_size % 8 != 0 {
            Some(Error::Invalid("a GPT entry size below 128 bytes or not a multiple of 8"))
        } else if !doubles_128(self.entry_size as int) {
            Some(Error::Invalid("a GPT entry size that is not 128 times a power of two"))
        } else if self.entry_lba < 2 {
            Some(Error::Invalid("a GPT entry array starting at or before the header"))
        } else if self.entry_lba > MAX_LBA {
            Some(
                Error::Invalid("a GPT entry array at an LBA whose byte offset does not fit a u64"),
            )
        } else if self.sectors_spec() > MAX_LBA {
            Some(Error::Invalid("a GPT entry array longer than any device could hold"))
        } else if self.entry_lba + self.sectors_spec() > MAX_LBA {
            Some(Error::Invalid("a GPT whose entry array ends past the last addressable LBA"))
        } else {
            None
        }
    }

    /// The usable range on a device of `total_sectors`, or why this geometry
    /// does not fit it.
    pub open spec fn usable(self, total_sectors: int) -> core::result::Result<(u64, u64), Error> {
        let first_possible = self.entry_lba + self.sectors_spec();
        let reserve = self.sectors_spec() + 1;
        let last_possible = total_sectors - 1 - reserve;
        if self.shape_fault() is Some {
            Err(self.shape_fault()->Some_0)
        } else if total_sectors <= first_possible + reserve {
            Err(Error::DeviceTooSmall)
        } else {
            match self.declared_usable {
                None => Ok((first_possible as u64, last_possible as u64)),
                Some((first, last)) => if first < first_possible {
                    Err(
                        Error::Invalid("the table's first usable LBA is inside its own entry array"),
                    )
                } else if last > last_possible {
                    Err(
                        Error::Invalid(
                            "the table's last usable LBA is inside the space the backup copy needs",
                        ),
                    )
                } else if first > last {
                    Err(Error::Invalid("the table's usable range runs backwards"))
                } else {
                    Ok((first, last))
                },
            }
        }
    }

    /// The canonical shape: 128 entries of 128 bytes at LBA 2.
    pub fn canonical() -> (g: Self)
        ensures
            g == canonical_geometry(),
    {
        GptGeometry {
            num_entries: NUM_ENTRIES,
            entry_size: ENTRY_SIZE,
            entry_lba: 2,
            declared_usable: None,
        }
    }

    /// The shape a disk's header describes, with the usable range it
    /// declares.
    pub fn from_header(h: &Header) -> (g: Self)
        ensures
            g == (GptGeometry {
                num_entries: h.num_partition_entries,
                entry_size: h.partition_entry_size,
                entry_lba: h.partition_entry_lba,
                declared_usable: Some((h.first_usable_lba, h.last_usable_lba)),
            }),
    {
        GptGeometry {
            num_entries: h.num_partition_entries,
            entry_size: h.partition_entry_size,
            entry_lba: h.partition_entry_lba,
            declared_usable: Some((h.first_usable_lba, h.last_usable_lba)),
        }
    }

    /// Bytes the entry array occupies.
    pub fn array_bytes(&self) -> (r: u64)
        ensures
            r == self.bytes_spec(),
    {
        proof {
            lemma_product_bound(self.num_entries as int, self.entry_size as int);
        }
        self.num_entries as u64 * self.entry_size as u64
    }

    /// Sectors the entry array occupies, rounded up: an array that does not
    /// fill its last sector still owns it.
    pub fn array_sectors(&self) -> (r: u64)
        ensures
            r == self.sectors_spec(),
    {
        proof {
            lemma_product_bound(self.num_entries as int, self.entry_size as int);
        }
        (self.array_bytes() + (SECTOR_SIZE - 1)) / SECTOR_SIZE
    }

    /// Sectors reserved at the end of the disk: the backup array and the
    /// backup header.
    pub fn backup_reserve_sectors(&self) -> (r: u64)
        ensures
            r == self.sectors_spec() + 1,
    {
        proof {
            lemma_product_bound(self.num_entries as int, self.entry_size as int);
        }
        self.array_sectors() + 1
    }

    /// Refuses a shape that no table can have, whatever disk it is going
    /// on. Every LBA that an accepted shape names has a byte offset.
    pub fn check_shape(&self) -> (r: Result<()>)
        ensures
            match r {
                Ok(()) => self.shape_fault() is None,
                Err(e) => self.shape_fault() == Some(e),
            },
    {
        if self.num_entries == 0 {
            return Err(Error::Invalid("a GPT with no entry slots"));
        }
        if self.entry_size < ENTRY_SIZE || self.entry_size % 8 != 0 {
            return Err(Error::Invalid("a GPT entry size below 128 bytes or not a multiple of 8"));
        }
        if !is_doubled_128(self.entry_size) {
            return Err(Error::Invalid("a GPT entry size that is not 128 times a power of two"));
        }
        if self.entry_lba < 2 {
            return Err(Error::Invalid("a GPT entry array starting at or before the header"));
        }
        if self.entry_lba > MAX_LBA {
            return Err(
                Error::Invalid("a GPT entry array at an LBA whose byte offset does not fit a u64"),
            );
        }
        let array_sectors: u64 = self.array_sectors();
        if array_sectors > MAX_LBA {
            return Err(Error::Invalid("a GPT entry array longer than any device could hold"));
        }
        if self.entry_lba + array_sectors > MAX_LBA {
            return Err(Error::Invalid("a GPT whose entry array ends past the last addressable LBA"));
        }
        Ok(())
    }

    /// The usable range on a device of `total_sectors`, or why this geometry
    /// does not fit it.
    ///
    /// A declared range is checked rather than trusted: it must start no
    /// earlier than the entry array ends and finish no later than the backup
    /// reserve begins, or the table would describe usable space on top of
    /// its own metadata.
    pub fn usable_range(&self, total_sectors: u64) -> (r: Result<(u64, u64)>)
        ensures
            r == self.usable(total_sectors as int),
    {
        match self.check_shape() {
            Ok(()) => {},
            Err(e) => return Err(e),
        }
        let first_possible: u64 = self.entry_lba + self.array_sectors();
        let reserve: u64 = self.backup_reserve_sectors();
        if total_sectors <= first_possible + reserve {
            return Err(Error::DeviceTooSmall);
        }
        let last_possible: u64 = total_sectors - 1 - reserve;
        match self.declared_usable {
            None => Ok((first_possible, last_possible)),
            Some((first, last)) => {
                if first < first_possible {
                    return Err(
                        Error::Invalid("the table's first usable LBA is inside its own entry array"),
                    );
                }
                if last > last_possible {
                    return Err(
                        Error::Invalid(
                            "the table's last usable LBA is inside the space the backup copy needs",
                        ),
                    );
                }
                if first > last {
                    return Err(Error::Invalid("the table's usable range runs backwards"));
                }
                Ok((first, last))
            },
        }
    }
}

/// The canonical shape: 128 entries of 128 bytes at LBA 2.
pub open spec fn canonical_geometry() -> GptGeometry {
    GptGeometry { num_entries: 128, entry_size: 128, entry_lba: 2, declared_usable: None }
}

proof fn lemma_product_bound(a: int, b: int)
    requires
        0 <= a <= u32::MAX,
        0 <= b <= u32::MAX,
    ensures
        0 <= a * b <= 0xFFFF_FFFE_0000_0001,
{
    assert(0 <= a * b <= 0xFFFF_FFFE_0000_0001) by (nonlinear_arith)
        requires
            0 <= a <= 0xFFFF_FFFF,
            0 <= b <= 0xFFFF_FFFF,
    ;
}

/// A usable range starts behind the entry array, ends ahead of the backup
/// copy, and is not empty; and the two copies of the table do not meet.
pub proof fn lemma_usable_range_is_clear_of_the_table(g: GptGeometry, total_sectors: int)
    requires
        total_sectors <= u64::MAX,
        g.usable(total_sectors) is Ok,
    ensures
        ({
            let (first, last) = g.usable(total_sectors)->Ok_0;
            &&& 2 <= g.entry_lba
            &&& g.entry_lba + g.sectors_spec() <= first
            &&& first <= last
            &&& last < total_sectors - 1 - g.sectors_spec()
        }),
{
    lemma_product_bound(g.num_entries as int, g.entry_size as int);
}

} // verus!
