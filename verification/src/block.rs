//! Block sources: what this crate reads tables from and writes them to.

use vstd::prelude::*;

use crate::codec::{put_bytes, same_outside, splice};
use crate::error::BlockError;

verus! {

/// A range of `len` bytes at `offset` lies inside a device of `size`
/// bytes. An empty range lies inside every device.
pub open spec fn inside(offset: int, len: int, size: int) -> bool {
    len == 0 || offset + len <= size
}

/// A read-only random-access block source.
///
/// A device is a string of bytes and a size it states. The two need not
/// agree: a raw device node states 0 and still serves reads.
///
/// The spec functions say which bytes and which size those are. They have
/// bodies that say nothing, so that a device written in plain Rust need not
/// mention them.
pub trait BlockRead {
    /// The bytes the device holds.
    closed spec fn content(&self) -> Seq<u8> {
        arbitrary()
    }

    /// The size the device states.
    closed spec fn stated_size(&self) -> u64 {
        arbitrary()
    }

    /// The device serves every request that lies inside `content`. One
    /// that may fail for reasons of its own does not claim this.
    closed spec fn dependable(&self) -> bool {
        false
    }

    /// What the device may answer where it does not serve a request.
    closed spec fn answers(&self) -> Set<BlockError> {
        arbitrary()
    }

    /// Fills `buf` with the bytes at `offset`.
    ///
    /// Success delivers the device's bytes; an answer that the range
    /// reaches past the end is given only where it does. Any other failure
    /// is the device's own, and a dependable device has none.
    fn read_at(&self, offset: u64, buf: &mut [u8]) -> (r: core::result::Result<(), BlockError>)
        ensures
            final(buf)@.len() == old(buf)@.len(),
            r is Ok ==> inside(offset as int, old(buf)@.len() as int, self.content().len() as int),
            r is Ok ==> forall|i: int|
                0 <= i < old(buf)@.len() ==> final(buf)@[i] == self.content()[offset + i],
            r matches Err(e) && e.past_end_spec() ==> !inside(
                offset as int,
                old(buf)@.len() as int,
                self.content().len() as int,
            ),
            self.dependable() && inside(
                offset as int,
                old(buf)@.len() as int,
                self.content().len() as int,
            ) ==> r is Ok,
            self.dependable() ==> (r matches Err(e) ==> e.past_end_spec()),
            r matches Err(e) ==> self.answers().contains(e),
    ;

    /// The size the device states, in bytes. 0 from one that cannot tell.
    fn size_bytes(&self) -> (n: u64)
        ensures
            n == self.stated_size(),
    ;
}

/// A random-access block device that may take writes.
pub trait BlockDevice: BlockRead {
    /// Whether the device takes writes.
    closed spec fn writable(&self) -> bool {
        arbitrary()
    }

    /// Every write has reached stable storage.
    closed spec fn settled(&self) -> bool {
        arbitrary()
    }

    /// Why the last flush failed, where it did and no write was tried since.
    closed spec fn flush_fault(&self) -> Option<BlockError> {
        arbitrary()
    }

    /// Writes `data` at `offset`.
    ///
    /// Success overwrites exactly that range. A failure is one of the
    /// device's answers, and says nothing about the bytes of the range. Every other byte, the size of the device, and
    /// what it promises of itself stay as they were either way.
    fn write_at(&mut self, offset: u64, data: &[u8]) -> (r: core::result::Result<(), BlockError>)
        ensures
            final(self).stated_size() == old(self).stated_size(),
            final(self).dependable() == old(self).dependable(),
            final(self).answers() == old(self).answers(),
            final(self).writable() == old(self).writable(),
            same_outside(
                old(self).content(),
                final(self).content(),
                offset as int,
                data.len() as int,
            ),
            r is Ok ==> inside(
                offset as int,
                data.len() as int,
                old(self).content().len() as int,
            ),
            r is Ok ==> final(self).content() == splice(
                old(self).content(),
                offset as int,
                data@,
            ),
            old(self).dependable() && old(self).writable() && inside(
                offset as int,
                data.len() as int,
                old(self).content().len() as int,
            ) ==> r is Ok,
            r matches Err(e) ==> old(self).answers().contains(e),
            r matches Err(e) && e.past_end_spec() ==> !inside(
                offset as int,
                data.len() as int,
                old(self).content().len() as int,
            ),
            final(self).flush_fault() is None,
    ;

    /// Pushes pending writes to stable storage. Whether that failed, and why,
    /// stays known until the next write.
    fn flush(&mut self) -> (r: core::result::Result<(), BlockError>)
        ensures
            final(self).stated_size() == old(self).stated_size(),
            final(self).dependable() == old(self).dependable(),
            final(self).answers() == old(self).answers(),
            final(self).writable() == old(self).writable(),
            final(self).content() == old(self).content(),
            r is Ok ==> final(self).settled(),
            final(self).flush_fault() == (match r {
                Ok(()) => None,
                Err(e) => Some(e),
            }),
            old(self).dependable() ==> r is Ok,
    ;

    /// Whether the device takes writes.
    fn is_writable(&self) -> (r: bool)
        ensures
            r == self.writable(),
    ;
}

/// What no operation changes of a device: its size, and what it promises of
/// itself.
pub open spec fn same_device<D: BlockDevice + ?Sized>(a: &D, b: &D) -> bool {
    &&& a.stated_size() == b.stated_size()
    &&& a.dependable() == b.dependable()
    &&& a.answers() == b.answers()
    &&& a.writable() == b.writable()
    &&& a.content().len() == b.content().len()
}

/// `e` is what a device answers a request among its first `extent` bytes
/// with: that they reach past its end only where they do.
pub open spec fn answered_within<D: BlockRead + ?Sized>(
    dev: &D,
    e: BlockError,
    extent: int,
) -> bool {
    &&& dev.answers().contains(e)
    &&& e.past_end_spec() ==> dev.content().len() < extent
}

/// No flush failed last between `before` and `after`.
pub open spec fn no_flush_failed<D: BlockDevice + ?Sized>(before: &D, after: &D) -> bool {
    after.flush_fault() is None || after.flush_fault() == before.flush_fault()
}

/// The answers that report a range past the end of the device.
pub open spec fn past_end_answers() -> Set<BlockError> {
    Set::new(|e: BlockError| e.past_end_spec())
}

/// A disk held in memory.
#[derive(Debug)]
pub struct Bytes(pub Vec<u8>);

impl BlockRead for Bytes {
    open spec fn content(&self) -> Seq<u8> {
        self.0@
    }

    open spec fn stated_size(&self) -> u64 {
        self.0@.len() as u64
    }

    open spec fn dependable(&self) -> bool {
        true
    }

    open spec fn answers(&self) -> Set<BlockError> {
        past_end_answers()
    }

    fn read_at(&self, offset: u64, buf: &mut [u8]) -> (r: core::result::Result<(), BlockError>)
        ensures
            r matches Err(e) ==> e == (BlockError::ShortRead {
                offset,
                want: old(buf)@.len() as usize,
                got: if offset < self.0@.len() {
                    (self.0@.len() - offset) as usize
                } else {
                    0
                },
            }),
    {
        if buf.len() == 0 {
            return Ok(());
        }
        let size: u64 = self.0.len() as u64;
        if offset > size || (buf.len() as u64) > size - offset {
            let got: usize = if offset > size { 0 } else { (size - offset) as usize };
            return Err(BlockError::ShortRead { offset, want: buf.len(), got });
        }
        let start: usize = offset as usize;
        let mut k: usize = 0;
        while k < buf.len()
            invariant
                k <= buf.len(),
                buf.len() == old(buf)@.len(),
                start + buf.len() <= self.0.len(),
                forall|i: int| 0 <= i < k ==> buf@[i] == self.0@[start + i],
            decreases buf.len() - k,
        {
            buf[k] = self.0[start + k];
            k = k + 1;
        }
        Ok(())
    }

    fn size_bytes(&self) -> (n: u64) {
        self.0.len() as u64
    }
}

impl BlockDevice for Bytes {
    open spec fn writable(&self) -> bool {
        true
    }

    open spec fn settled(&self) -> bool {
        true
    }

    open spec fn flush_fault(&self) -> Option<BlockError> {
        None
    }

    fn write_at(&mut self, offset: u64, data: &[u8]) -> (r: core::result::Result<(), BlockError>)
        ensures
            r matches Err(e) ==> final(self).0@ == old(self).0@ && e == (BlockError::OutOfBounds {
                offset,
                len: data@.len() as u64,
                size: old(self).0@.len() as u64,
            }),
    {
        if data.len() == 0 {
            assert(splice(self.0@, offset as int, data@) =~= self.0@);
            return Ok(());
        }
        let size: u64 = self.0.len() as u64;
        if offset > size || (data.len() as u64) > size - offset {
            return Err(BlockError::OutOfBounds { offset, len: data.len() as u64, size });
        }
        put_bytes(self.0.as_mut_slice(), offset as usize, data);
        Ok(())
    }

    fn flush(&mut self) -> (r: core::result::Result<(), BlockError>) {
        Ok(())
    }

    fn is_writable(&self) -> (r: bool) {
        true
    }
}

} // verus!
