//! The device the engine writes to: bytes, bounds, and one barrier.

use crate::codec::splice;
use crate::error::{FsError, Result};
use vstd::prelude::*;

verus! {

/// The refusal of a range that leaves a disk of `disk_size` bytes.
pub open spec fn out_of_bounds(offset: u64, len: nat, disk_size: nat) -> FsError {
    FsError::OutOfBounds { offset, len: len as u64, disk_size: disk_size as u64 }
}

/// `after` differs from `before` in nothing but the `len` bytes at `offset`.
pub open spec fn same_outside(before: Seq<u8>, after: Seq<u8>, offset: int, len: int) -> bool {
    &&& before.len() == after.len()
    &&& forall|i: int|
        0 <= i < before.len() && !(offset <= i < offset + len) ==> #[trigger] after[i] == before[i]
}

/// The contents of a device, as the contracts see them.
pub type Image = Seq<u8>;

/// A place on a device, as the contracts see it.
pub type Position = int;

/// A counter that has gone up by one.
pub open spec fn counted(n: u64) -> u64 {
    if n == u64::MAX {
        0
    } else {
        (n + 1) as u64
    }
}

/// A fixed-size device. Writes are visible to reads at once and durable
/// after the next flush. A faultless device refuses only what leaves its
/// bounds; any other may fail whenever it likes, and a failed write may
/// have landed in part. `Full` is a store's word, never a device's.
pub trait Disk {
    /// What must hold of a handle for its methods to work.
    spec fn valid(&self) -> bool;

    /// What a read sees.
    spec fn bytes(&self) -> Image;

    /// What a power loss would leave.
    spec fn durable(&self) -> Image;

    /// Whether the byte at `i` was written since the last flush, so that a
    /// power loss decides what becomes of it.
    spec fn at_risk(&self, i: Position) -> bool;

    /// Whether the device fails on nothing but a range out of bounds.
    spec fn faultless(&self) -> bool;

    /// How often a flush was called for, whatever became of it.
    spec fn barriers(&self) -> u64;

    /// Total size in bytes. Fixed for the life of the handle.
    fn size(&self) -> (size: u64)
        requires
            self.valid(),
        ensures
            size == self.bytes().len(),
    ;

    /// Fill `buf` from `offset`. Errors if the range leaves the disk.
    fn read_at(&self, offset: u64, buf: &mut [u8]) -> (r: Result<()>)
        requires
            self.valid(),
        ensures
            final(buf)@.len() == old(buf)@.len(),
            offset + old(buf)@.len() > self.bytes().len() ==> final(buf)@ == old(buf)@,
            offset + old(buf)@.len() > self.bytes().len() ==> r == Err::<(), FsError>(
                out_of_bounds(offset, old(buf)@.len(), self.bytes().len()),
            ),
            r is Ok ==> final(buf)@ == self.bytes().subrange(
                offset as int,
                offset + old(buf)@.len(),
            ),
            self.faultless() && offset + old(buf)@.len() <= self.bytes().len() ==> r is Ok,
    ;

    /// Write `data` at `offset`: visible to reads immediately, durable only
    /// after the next `flush`. Errors if the range leaves the disk.
    fn write_at(&mut self, offset: u64, data: &[u8]) -> (r: Result<()>)
        requires
            old(self).valid(),
        ensures
            final(self).valid(),
            final(self).faultless() == old(self).faultless(),
            offset + data@.len() > old(self).bytes().len() ==> r == Err::<(), FsError>(
                out_of_bounds(offset, data@.len(), old(self).bytes().len()),
            ) && final(self).bytes() == old(self).bytes(),
            r is Ok ==> final(self).bytes() == splice(old(self).bytes(), offset as int, data@),
            same_outside(
                old(self).bytes(),
                final(self).bytes(),
                offset as int,
                data@.len() as int,
            ),
            forall|i: int| #[trigger] final(self).at_risk(i) ==> old(self).at_risk(i) || offset <= i < offset + data@.len(),
            r matches Err(e) ==> e != FsError::Full,
            final(self).barriers() == old(self).barriers(),
            old(self).faultless() && offset + data@.len() <= old(self).bytes().len() ==> r is Ok,
    ;

    /// The durability barrier. Everything written before this call is on
    /// stable storage when it returns.
    fn flush(&mut self) -> (r: Result<()>)
        requires
            old(self).valid(),
        ensures
            final(self).valid(),
            final(self).faultless() == old(self).faultless(),
            final(self).bytes() == old(self).bytes(),
            r is Ok ==> final(self).durable() == final(self).bytes(),
            r is Ok ==> forall|i: int| !#[trigger] final(self).at_risk(i),
            forall|i: int| #[trigger] final(self).at_risk(i) ==> old(self).at_risk(i),
            final(self).barriers() == counted(old(self).barriers()),
            old(self).faultless() ==> r is Ok,
    ;
}

/// An image a power loss may leave: every byte that is not at risk is as a
/// read sees it.
pub open spec fn may_remain<D: Disk>(disk: &D, image: Image) -> bool {
    &&& image.len() == disk.bytes().len()
    &&& forall|i: int| 0 <= i < image.len() && !#[trigger] disk.at_risk(i) ==> image[i] == disk.bytes()[i]
}

/// Read `len` bytes from `offset`.
pub fn read_vec<D: Disk>(disk: &D, offset: u64, len: usize) -> (r: Result<Vec<u8>>)
    requires
        disk.valid(),
    ensures
        offset + len > disk.bytes().len() ==> r == Err::<Vec<u8>, FsError>(
            out_of_bounds(offset, len as nat, disk.bytes().len()),
        ),
        r matches Ok(v) ==> v@ == disk.bytes().subrange(offset as int, offset + len) && v@.len()
            == len && offset + len <= disk.bytes().len(),
        disk.faultless() && offset + len <= disk.bytes().len() ==> r is Ok,
{
    let mut buf: Vec<u8> = vec![0u8; len];
    match disk.read_at(offset, buf.as_mut_slice()) {
        Ok(()) => Ok(buf),
        Err(e) => Err(e),
    }
}

} // verus!
