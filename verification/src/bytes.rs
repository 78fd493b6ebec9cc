//! The byte-granular view of a vdisk: the shape a block device speaks.
//!
//! Unmapped ranges read as zeros, as do the tails of short payloads. A write
//! covering part of a block is a read-modify-write of that block; old-or-new
//! atomicity holds per block. A trim unmaps only the blocks it covers
//! entirely. `WalFull` surfaces mid-write with the finished blocks already
//! written: the caller checkpoints and retries the whole call.
//!
//! The view is a trait because two things speak blocks underneath it: a bare
//! [`Pool`], and a [`ReplNode`], where every write must also cross the wire.

use crate::disk::Disk;
use crate::error::{FsError, Result};
use crate::hash::{address_of, BlockHash};
use crate::pool::checkpoint::{checkpointed, lemma_faithful_before};
use crate::pool::vdisk::{block_read, block_wrote, index_fault, trimmed, with_dirty};
use crate::pool::{capacity, lemma_grew_twice, lemma_same_grew, mapped, stock_grew, tree_depth, Pool};
use crate::repl::guest::{block_refusal, op_served, stored_and_mapped, write_served};
use crate::repl::ops::{op_done, op_step, retried};
use crate::repl::read::read_served;
use crate::repl::wire::ReplOp;
use crate::repl::ReplNode;
use crate::store::{grew, is_zero};
use vstd::prelude::*;

pub mod adopt;
pub mod crash;
pub mod peers;
pub mod ranges;
pub mod reads;
pub mod ring;
pub mod rollback;
pub mod run;

verus! {

/// A size in bytes, in blocks.
pub open spec fn blocks_in(size: u64, block_size: int) -> int {
    size as int / block_size + if size as int % block_size != 0 {
        1int
    } else {
        0int
    }
}

/// Why a byte range is refused, if it is: it reaches past the edge.
pub open spec fn range_fault(size: u64, block_size: int, offset: u64, len: int) -> Option<FsError> {
    if offset + len <= size {
        None
    } else {
        Some(FsError::OutOfRange { index: (offset as int / block_size) as u64, capacity: blocks_in(size, block_size) as u64 })
    }
}

fn byte_bounds(size: u64, block_size: u64, offset: u64, len: u64) -> (r: Result<()>)
    requires
        block_size > 0,
    ensures
        match range_fault(size, block_size as int, offset, len as int) {
            Some(e) => r == Err::<(), FsError>(e),
            None => r is Ok,
        },
{
    if offset <= size && len <= size - offset {
        Ok(())
    } else {
        let whole: u64 = size / block_size;
        proof {
            assert(size as int % block_size as int != 0 ==> size as int / block_size as int + 1 <= size) by (nonlinear_arith)
                requires block_size > 0, size >= 0;
        }
        let capacity: u64 = if size % block_size != 0 {
            whole + 1
        } else {
            whole
        };
        Err(FsError::OutOfRange { index: offset / block_size, capacity })
    }
}

/// A byte of a block: zero where the block is unmapped or too short.
pub open spec fn byte_of(block: Option<Seq<u8>>, i: int) -> u8 {
    match block {
        Some(payload) => if i < payload.len() {
            payload[i]
        } else {
            0
        },
        None => 0,
    }
}

pub open spec fn payload_view(got: Option<Vec<u8>>) -> Option<Seq<u8>> {
    match got {
        Some(payload) => Some(payload@),
        None => None,
    }
}

/// What contracts say of a store of vdisks.
pub trait Contents: Sized {
    /// In order to be called.
    spec fn ready(&self) -> bool;

    spec fn unit_len(&self) -> u32;

    spec fn byte_size(&self, vdisk: u64) -> Option<u64>;

    /// What a block holds: nothing where it is unmapped, and no answer where
    /// it cannot be read here.
    spec fn block_at(&self, vdisk: u64, index: u64) -> Option<Option<Seq<u8>>>;

    /// What a successful read gives is what the block holds.
    spec fn exact(&self) -> bool;

    /// Every block written is stored here.
    spec fn local(&self) -> bool;

    /// Every block stored is found again as it was.
    spec fn sound(&self) -> bool;

    /// A block that can be read is read, and reading changes nothing.
    spec fn steady(&self) -> bool;

    /// What reading a block comes to: the answer, and the state it leaves.
    spec fn read_to(&self, after: &Self, vdisk: u64, index: u64, r: Result<Option<Vec<u8>>>) -> bool;

    /// What writing a block comes to.
    spec fn write_to(&self, after: &Self, vdisk: u64, index: u64, payload: Seq<u8>, r: Result<()>) -> bool;

    /// What trimming a block comes to.
    spec fn trim_to(&self, after: &Self, vdisk: u64, index: u64, r: Result<()>) -> bool;
}

/// A byte of a vdisk, by its position.
pub open spec fn byte_at<B: Contents>(b: &B, vdisk: u64, pos: int) -> u8 {
    byte_of(b.block_at(vdisk, (pos / b.unit_len() as int) as u64)->Some_0, pos % b.unit_len() as int)
}

/// The block a byte is in can be read.
pub open spec fn readable_at<B: Contents>(b: &B, vdisk: u64, pos: int) -> bool {
    b.block_at(vdisk, (pos / b.unit_len() as int) as u64) is Some
}

/// Two states with the same shape.
pub open spec fn same_shape<B: Contents>(a: &B, b: &B) -> bool {
    &&& b.ready()
    &&& b.unit_len() == a.unit_len()
    &&& forall|v: u64| #[trigger] b.byte_size(v) == a.byte_size(v)
    &&& b.local() == a.local()
    &&& a.exact() ==> b.exact()
}

/// Every block but one still reads as it did.
pub open spec fn others_kept<B: Contents>(a: &B, b: &B, vdisk: u64, index: u64) -> bool {
    forall|v: u64, k: u64| (v != vdisk || k != index) && (#[trigger] a.block_at(v, k)) is Some ==> b.block_at(v, k) == a.block_at(v, k)
}

/// Every block still reads as it did.
pub open spec fn all_kept<B: Contents>(a: &B, b: &B) -> bool {
    forall|v: u64, k: u64| (#[trigger] a.block_at(v, k)) is Some ==> b.block_at(v, k) == a.block_at(v, k)
}

/// The bytes from `offset` to `done` are those of `data`, and all others are
/// as they were.
pub open spec fn overwritten<B: Contents>(a: &B, b: &B, vdisk: u64, offset: u64, data: Seq<u8>, done: int) -> bool {
    &&& forall|v: u64, k: u64| v != vdisk && (#[trigger] a.block_at(v, k)) is Some ==> b.block_at(v, k) == a.block_at(v, k)
    &&& forall|pos: int|
        offset <= pos < done ==> #[trigger] readable_at(b, vdisk, pos) && byte_at(b, vdisk, pos) == data[pos - offset]
    &&& forall|pos: int|
        0 <= pos < a.byte_size(vdisk)->Some_0 && !(offset <= pos < done) && #[trigger] readable_at(a, vdisk, pos) ==> readable_at(b, vdisk, pos)
            && byte_at(b, vdisk, pos) == byte_at(a, vdisk, pos)
}

/// The first block that a range starting here covers whole.
pub open spec fn first_whole(offset: u64, block_size: int) -> int {
    blocks_in(offset, block_size)
}

/// The end of the blocks a range ending here covers whole. Reaching the edge
/// covers the final block, however short.
pub open spec fn end_whole(end: int, size: u64, block_size: int) -> int {
    if end == size {
        blocks_in(size, block_size)
    } else {
        end / block_size
    }
}

/// The blocks from `first` to `done` are unmapped, and all others read as
/// they did.
pub open spec fn discarded<B: Contents>(a: &B, b: &B, vdisk: u64, first: int, done: int) -> bool {
    &&& forall|k: u64| first <= k < done ==> #[trigger] b.block_at(vdisk, k) == Some(None::<Seq<u8>>)
    &&& forall|v: u64, k: u64| !(v == vdisk && first <= k < done) && (#[trigger] a.block_at(v, k)) is Some ==> b.block_at(v, k) == a.block_at(v, k)
}

/// Where the next piece of a range starts: the next block, or the end.
pub open spec fn next_place(pos: int, block_size: int, end: int) -> int {
    let edge = (pos / block_size) * block_size + block_size;
    if edge < end {
        edge
    } else {
        end
    }
}

/// Where the `i`-th piece of a range starts.
pub open spec fn place(offset: int, block_size: int, end: int, i: nat) -> int
    decreases i,
{
    if i == 0 {
        offset
    } else {
        next_place(place(offset, block_size, end, (i - 1) as nat), block_size, end)
    }
}

/// The length of the block that `pos` is in: the final one of an unaligned
/// vdisk is shorter.
pub open spec fn logical_len(size: u64, block_size: int, pos: int) -> int {
    let start = (pos / block_size) * block_size;
    if block_size < size - start {
        block_size
    } else {
        size - start
    }
}

/// What the block that `pos` is in holds once the data from there on is laid
/// over what it held.
pub open spec fn laid(existing: Option<Seq<u8>>, size: u64, block_size: int, offset: u64, data: Seq<u8>, pos: int) -> Seq<u8> {
    let start = (pos / block_size) * block_size;
    let next = next_place(pos, block_size, offset + data.len());
    Seq::new(
        logical_len(size, block_size, pos) as nat,
        |j: int| if pos <= start + j < next {
            data[start + j - offset]
        } else {
            byte_of(existing, j)
        },
    )
}

/// What writing the piece of a range at `pos` comes to: unless it covers its
/// block whole the block is read first, and then the block is written.
pub open spec fn piece_written<B: Contents>(
    a: &B,
    read: &B,
    b: &B,
    vdisk: u64,
    offset: u64,
    data: Seq<u8>,
    pos: int,
    existing: Result<Option<Vec<u8>>>,
    r: Result<()>,
) -> bool {
    let block_size = a.unit_len() as int;
    let size = a.byte_size(vdisk)->Some_0;
    let start = (pos / block_size) * block_size;
    let block = (pos / block_size) as u64;
    let whole = pos == start && next_place(pos, block_size, offset + data.len()) == start + logical_len(size, block_size, pos);
    &&& if whole {
        *read == *a && existing is Ok && existing->Ok_0 is None
    } else {
        a.read_to(read, vdisk, block, existing)
    }
    &&& match existing {
        Err(e) => r == Err::<(), FsError>(e) && *b == *read,
        Ok(held) => read.write_to(b, vdisk, block, laid(payload_view(held), size, block_size, offset, data, pos), r),
    }
}

/// The piece of a range at `pos` was written.
pub open spec fn piece_done<B: Contents>(a: &B, b: &B, vdisk: u64, offset: u64, data: Seq<u8>, pos: int) -> bool {
    exists|read: B, existing: Result<Option<Vec<u8>>>, c: Result<()>| #[trigger]
        piece_written(a, &read, b, vdisk, offset, data, pos, existing, c) && c is Ok
}

/// The `i`-th piece of a range was written between two states.
pub open spec fn piece_step<B: Contents>(steps: Seq<B>, i: int, vdisk: u64, offset: u64, data: Seq<u8>, block_size: int) -> bool {
    let pos = place(offset as int, block_size, offset + data.len(), i as nat);
    pos < offset + data.len() && piece_done(&steps[i], &steps[i + 1], vdisk, offset, data, pos)
}

/// Where writing a range got to, one state after each piece: to its end, or
/// to the first piece that failed.
pub open spec fn write_run<B: Contents>(steps: Seq<B>, a: &B, b: &B, vdisk: u64, offset: u64, data: Seq<u8>, r: Result<()>) -> bool {
    let block_size = a.unit_len() as int;
    let end = offset + data.len();
    let last = place(offset as int, block_size, end, (steps.len() - 1) as nat);
    &&& steps.len() >= 1
    &&& steps[0] == *a
    &&& forall|i: int| 0 <= i < steps.len() - 1 ==> #[trigger] piece_step(steps, i, vdisk, offset, data, block_size)
    &&& match r {
        Ok(_) => last == end && steps.last() == *b,
        Err(_) => last < end && exists|read: B, existing: Result<Option<Vec<u8>>>| #[trigger]
            piece_written(&steps.last(), &read, b, vdisk, offset, data, last, existing, r),
    }
}

/// A block was trimmed.
pub open spec fn trim_done<B: Contents>(a: &B, b: &B, vdisk: u64, block: u64) -> bool {
    exists|c: Result<()>| #[trigger] a.trim_to(b, vdisk, block, c) && c is Ok
}

/// The `i`-th of the blocks from `first` on was trimmed between two states.
pub open spec fn trim_step<B: Contents>(steps: Seq<B>, i: int, vdisk: u64, first: int, bound: int) -> bool {
    first + i < bound && trim_done(&steps[i], &steps[i + 1], vdisk, (first + i) as u64)
}

/// Where trimming the blocks from `first` to `bound` got to, one state after
/// each: to the last, or to the first that failed.
pub open spec fn trim_run<B: Contents>(steps: Seq<B>, a: &B, b: &B, vdisk: u64, first: int, bound: int, r: Result<()>) -> bool {
    let last = first + steps.len() - 1;
    &&& steps.len() >= 1
    &&& steps[0] == *a
    &&& forall|i: int| 0 <= i < steps.len() - 1 ==> #[trigger] trim_step(steps, i, vdisk, first, bound)
    &&& match r {
        Ok(_) => last >= bound && steps.last() == *b,
        Err(_) => last < bound && steps.last().trim_to(b, vdisk, last as u64, r),
    }
}

/// Anything that reads and writes vdisk blocks.
pub trait BlockView: Contents {
    fn block_size(&self) -> (r: u32)
        requires
            self.ready(),
        ensures
            r == self.unit_len(),
            r > 0,
    ;

    fn vdisk_size(&self, vdisk: u64) -> (r: Result<u64>)
        requires
            self.ready(),
        ensures
            match self.byte_size(vdisk) {
                Some(size) => r == Ok::<u64, FsError>(size),
                None => r == Err::<u64, FsError>(FsError::UnknownVdisk(vdisk)),
            },
    ;

    fn read_block(&mut self, vdisk: u64, index: u64) -> (r: Result<Option<Vec<u8>>>)
        requires
            old(self).ready(),
        ensures
            same_shape(old(self), final(self)),
            old(self).read_to(final(self), vdisk, index, r),
            final(self).sound() == old(self).sound(),
            old(self).steady() ==> final(self).steady(),
            forall|v: u64, k: u64| #[trigger] final(self).block_at(v, k) == old(self).block_at(v, k),
            old(self).exact() && r is Ok ==> old(self).block_at(vdisk, index) == Some(payload_view(r->Ok_0)),
            old(self).steady() && old(self).block_at(vdisk, index) is Some ==> r is Ok,
    ;

    fn write_block(&mut self, vdisk: u64, index: u64, payload: &[u8]) -> (r: Result<()>)
        requires
            old(self).ready(),
        ensures
            same_shape(old(self), final(self)),
            old(self).write_to(final(self), vdisk, index, payload@, r),
            final(self).sound() ==> old(self).sound() && others_kept(old(self), final(self), vdisk, index),
            final(self).sound() && r is Err ==> all_kept(old(self), final(self)),
            final(self).sound() && old(self).local() && r is Ok ==> final(self).block_at(vdisk, index) == Some(Some(payload@)),
    ;

    fn trim_block(&mut self, vdisk: u64, index: u64) -> (r: Result<()>)
        requires
            old(self).ready(),
        ensures
            same_shape(old(self), final(self)),
            old(self).trim_to(final(self), vdisk, index, r),
            final(self).sound() ==> old(self).sound() && others_kept(old(self), final(self), vdisk, index),
            final(self).sound() && r is Err ==> all_kept(old(self), final(self)),
            final(self).sound() && r is Ok ==> final(self).block_at(vdisk, index) == Some(None::<Seq<u8>>),
    ;
}

/// A block was read.
pub open spec fn read_done<B: Contents>(a: &B, b: &B, vdisk: u64, block: u64) -> bool {
    exists|got: Result<Option<Vec<u8>>>| #[trigger] a.read_to(b, vdisk, block, got) && got is Ok
}

/// Reading a block failed.
pub open spec fn read_failed<B: Contents>(a: &B, b: &B, vdisk: u64, block: u64, e: FsError) -> bool {
    exists|got: Result<Option<Vec<u8>>>| #[trigger] a.read_to(b, vdisk, block, got) && got == Err::<Option<Vec<u8>>, FsError>(e)
}

/// The `i`-th piece of a range was read between two states.
pub open spec fn read_step<B: Contents>(steps: Seq<B>, i: int, vdisk: u64, offset: u64, len: u64, block_size: int) -> bool {
    let pos = place(offset as int, block_size, offset + len, i as nat);
    pos < offset + len && read_done(&steps[i], &steps[i + 1], vdisk, (pos / block_size) as u64)
}

/// Where reading a range got to, one state after each block: to its end, or
/// to the first block that failed.
pub open spec fn read_run<B: Contents>(steps: Seq<B>, a: &B, b: &B, vdisk: u64, offset: u64, len: u64, r: Result<Vec<u8>>) -> bool {
    let block_size = a.unit_len() as int;
    let last = place(offset as int, block_size, offset + len, (steps.len() - 1) as nat);
    &&& steps.len() >= 1
    &&& steps[0] == *a
    &&& forall|i: int| 0 <= i < steps.len() - 1 ==> #[trigger] read_step(steps, i, vdisk, offset, len, block_size)
    &&& match r {
        Ok(_) => last == offset + len && steps.last() == *b,
        Err(e) => last < offset + len && read_failed(&steps.last(), b, vdisk, (last / block_size) as u64, e),
    }
}

/// What reading a byte range comes to.
pub open spec fn bytes_read<B: Contents>(a: &B, b: &B, vdisk: u64, offset: u64, len: u64, r: Result<Vec<u8>>) -> bool {
    &&& same_shape(a, b)
    &&& forall|v: u64, k: u64| #[trigger] b.block_at(v, k) == a.block_at(v, k)
    &&& match a.byte_size(vdisk) {
        None => r == Err::<Vec<u8>, FsError>(FsError::UnknownVdisk(vdisk)),
        Some(size) => match range_fault(size, a.unit_len() as int, offset, len as int) {
            Some(e) => r == Err::<Vec<u8>, FsError>(e),
            None => {
                &&& exists|steps: Seq<B>| #[trigger] read_run(steps, a, b, vdisk, offset, len, r)
                &&& r matches Ok(out) ==> out@.len() == len
                &&& a.exact() ==> (r matches Ok(out) ==> forall|i: int| 0 <= i < len ==> #[trigger]
                    out@[i] == byte_at(a, vdisk, offset + i))
                &&& a.steady() && (forall|pos: int| offset <= pos < offset + len ==> #[trigger] readable_at(a, vdisk, pos))
                    ==> r is Ok
            },
        },
    }
}

/// What writing a byte range comes to.
pub open spec fn bytes_written<B: Contents>(a: &B, b: &B, vdisk: u64, offset: u64, data: Seq<u8>, r: Result<()>) -> bool {
    &&& same_shape(a, b)
    &&& match a.byte_size(vdisk) {
        None => r == Err::<(), FsError>(FsError::UnknownVdisk(vdisk)) && all_kept(a, b),
        Some(size) => match range_fault(size, a.unit_len() as int, offset, data.len() as int) {
            Some(e) => r == Err::<(), FsError>(e) && all_kept(a, b),
            None => {
                &&& exists|steps: Seq<B>| #[trigger] write_run(steps, a, b, vdisk, offset, data, r)
                &&& b.sound() && a.local() && a.exact() ==> exists|done: int|
                    offset <= done <= offset + data.len() && (r is Ok ==> done == offset + data.len()) && #[trigger] overwritten(
                        a,
                        b,
                        vdisk,
                        offset,
                        data,
                        done,
                    )
            },
        },
    }
}

/// What trimming a byte range comes to.
pub open spec fn bytes_trimmed<B: Contents>(a: &B, b: &B, vdisk: u64, offset: u64, len: u64, r: Result<()>) -> bool {
    &&& same_shape(a, b)
    &&& match a.byte_size(vdisk) {
        None => r == Err::<(), FsError>(FsError::UnknownVdisk(vdisk)) && all_kept(a, b),
        Some(size) => match range_fault(size, a.unit_len() as int, offset, len as int) {
            Some(e) => r == Err::<(), FsError>(e) && all_kept(a, b),
            None => {
                let first = first_whole(offset, a.unit_len() as int);
                let bound = end_whole(offset + len, size, a.unit_len() as int);
                &&& exists|steps: Seq<B>| #[trigger] trim_run(steps, a, b, vdisk, first, bound, r)
                &&& b.sound() ==> exists|done: int|
                    first <= done && (r is Ok ==> done >= bound) && (done <= bound || done == first) && #[trigger] discarded(
                        a,
                        b,
                        vdisk,
                        first,
                        done,
                    )
            },
        },
    }
}

/// Byte-granular I/O over anything that reads and writes vdisk blocks.
pub trait ByteView: BlockView {
    /// Read a byte range. Always returns exactly `len` bytes; what was never
    /// written is zeros.
    fn read_bytes(&mut self, vdisk: u64, offset: u64, len: u64) -> (r: Result<Vec<u8>>)
        requires
            old(self).ready(),
        ensures
            bytes_read(old(self), final(self), vdisk, offset, len, r),
    ;

    /// Write a byte range. Blocks covered only in part are read, overlaid,
    /// and rewritten whole. On an error the blocks before it are written and
    /// the rest are not.
    fn write_bytes(&mut self, vdisk: u64, offset: u64, data: &[u8]) -> (r: Result<()>)
        requires
            old(self).ready(),
        ensures
            bytes_written(old(self), final(self), vdisk, offset, data@, r),
    ;

    /// Discard a byte range, unmapping every block the range covers whole.
    /// Partial edges are untouched.
    fn trim_bytes(&mut self, vdisk: u64, offset: u64, len: u64) -> (r: Result<()>)
        requires
            old(self).ready(),
        ensures
            bytes_trimmed(old(self), final(self), vdisk, offset, len, r),
    ;
}

fn range_read<B: BlockView>(b: &mut B, vdisk: u64, offset: u64, len: u64) -> (r: Result<Vec<u8>>)
    requires
        old(b).ready(),
    ensures
        bytes_read(old(b), final(b), vdisk, offset, len, r),
{
    let size: u64 = match b.vdisk_size(vdisk) {
        Ok(size) => size,
        Err(e) => {
            return Err(e);
        },
    };
    let block_size: u64 = b.block_size() as u64;
    if let Err(e) = byte_bounds(size, block_size, offset, len) {
        return Err(e);
    }
    let end: u64 = offset + len;
    let mut out: Vec<u8> = Vec::new();
    let mut pos: u64 = offset;
    let ghost mut steps: Seq<B> = seq![*b];
    while pos < end
        invariant
            steps.len() >= 1,
            steps[0] == *old(b),
            steps.last() == *b,
            pos == place(offset as int, block_size as int, end as int, (steps.len() - 1) as nat),
            forall|i: int| 0 <= i < steps.len() - 1 ==> #[trigger] read_step(steps, i, vdisk, offset, len, block_size as int),
            same_shape(old(b), b),
            old(b).byte_size(vdisk) == Some(size),
            range_fault(size, old(b).unit_len() as int, offset, len as int) is None,
            forall|v: u64, k: u64| #[trigger] b.block_at(v, k) == old(b).block_at(v, k),
            block_size == old(b).unit_len(),
            0 < block_size <= u32::MAX,
            end == offset + len,
            offset <= pos <= end <= size,
            out@.len() == pos - offset,
            old(b).exact() ==> forall|i: int| 0 <= i < out@.len() ==> #[trigger] out@[i] == byte_at(old(b), vdisk, offset + i),
            old(b).steady() ==> b.steady(),
        decreases end - pos,
    {
        let block: u64 = pos / block_size;
        proof {
            lemma_place(pos as int, block_size as int);
        }
        let start: u64 = block * block_size;
        let in_off: u64 = pos - start;
        let room: u64 = block_size - in_off;
        let take: u64 = if room < end - pos {
            room
        } else {
            end - pos
        };
        assert(readable_at(old(b), vdisk, pos as int) == (old(b).block_at(vdisk, block) is Some));
        assert(pos + take == next_place(pos as int, block_size as int, end as int));
        let ghost start = *b;
        let found = b.read_block(vdisk, block);
        let ghost heard = found;
        let got = match found {
            Ok(got) => got,
            Err(e) => {
                let failed: Result<Vec<u8>> = Err(e);
                proof {
                    assert(start.read_to(b, vdisk, block, heard));
                    assert(read_failed(&start, b, vdisk, block, e));
                    assert(read_run(steps, old(b), b, vdisk, offset, len, failed));
                }
                return failed;
            },
        };
        proof {
            let before = steps;
            steps = steps.push(*b);
            assert(start.read_to(b, vdisk, block, heard));
            assert(read_done(&start, b, vdisk, block));
            assert forall|i: int| 0 <= i < steps.len() - 1 implies #[trigger] read_step(steps, i, vdisk, offset, len, block_size as int) by {
                if i < before.len() - 1 {
                    assert(read_step(before, i, vdisk, offset, len, block_size as int));
                }
            }
        }
        let ghost held = old(b).block_at(vdisk, block)->Some_0;
        let ghost was = out@;
        let mut n: u64 = 0;
        while n < take
            invariant
                n <= take,
                in_off + take <= block_size <= u32::MAX,
                out@.len() == was.len() + n,
                forall|i: int| 0 <= i < was.len() ==> #[trigger] out@[i] == was[i],
                forall|i: int| was.len() <= i < out@.len() ==> #[trigger] out@[i] == byte_of(payload_view(got), in_off + i - was.len()),
            decreases take - n,
        {
            let at: u64 = in_off + n;
            let byte: u8 = match &got {
                Some(payload) => if at < payload.len() as u64 {
                    payload[at as usize]
                } else {
                    0
                },
                None => 0,
            };
            out.push(byte);
            n += 1;
        }
        proof {
            if old(b).exact() {
                assert forall|i: int| 0 <= i < out@.len() implies #[trigger] out@[i] == byte_at(old(b), vdisk, offset + i) by {
                    if i < was.len() {
                        assert(out@[i] == was[i]);
                    } else {
                        let p = offset + i;
                        lemma_same_place(pos as int, p, block_size as int);
                        assert(p % block_size as int == in_off + i - was.len());
                    }
                }
            }
        }
        pos += take;
    }
    let done: Result<Vec<u8>> = Ok(out);
    assert(read_run(steps, old(b), b, vdisk, offset, len, done));
    done
}

#[verifier::rlimit(60)]
fn range_write<B: BlockView>(b: &mut B, vdisk: u64, offset: u64, data: &[u8]) -> (r: Result<()>)
    requires
        old(b).ready(),
    ensures
        bytes_written(old(b), final(b), vdisk, offset, data@, r),
{
    let size: u64 = match b.vdisk_size(vdisk) {
        Ok(size) => size,
        Err(e) => {
            return Err(e);
        },
    };
    let block_size: u64 = b.block_size() as u64;
    let len: u64 = data.len() as u64;
    if let Err(e) = byte_bounds(size, block_size, offset, len) {
        return Err(e);
    }
    let end: u64 = offset + len;
    let mut pos: u64 = offset;
    let ghost mut steps: Seq<B> = seq![*b];
    assert(overwritten(old(b), b, vdisk, offset, data@, offset as int));
    while pos < end
        invariant
            steps.len() >= 1,
            steps[0] == *old(b),
            steps.last() == *b,
            pos == place(offset as int, block_size as int, end as int, (steps.len() - 1) as nat),
            forall|i: int| 0 <= i < steps.len() - 1 ==> #[trigger] piece_step(steps, i, vdisk, offset, data@, block_size as int),
            same_shape(old(b), b),
            old(b).byte_size(vdisk) == Some(size),
            range_fault(size, old(b).unit_len() as int, offset, data@.len() as int) is None,
            block_size == old(b).unit_len(),
            0 < block_size <= u32::MAX,
            len == data@.len(),
            end == offset + len,
            offset <= pos <= end <= size,
            b.sound() && old(b).local() && old(b).exact() ==> overwritten(old(b), b, vdisk, offset, data@, pos as int),
        decreases end - pos,
    {
        let ghost start = *b;
        let block: u64 = pos / block_size;
        proof {
            lemma_place(pos as int, block_size as int);
        }
        let block_start: u64 = block * block_size;
        // The final block of an unaligned vdisk is logically shorter;
        // covering it to the vdisk's edge is covering it whole.
        let logical: u64 = if block_size < size - block_start {
            block_size
        } else {
            size - block_start
        };
        let in_off: u64 = pos - block_start;
        let take: u64 = if logical - in_off < end - pos {
            logical - in_off
        } else {
            end - pos
        };
        let from: u64 = pos - offset;
        assert(pos + take == next_place(pos as int, block_size as int, end as int));
        let mut existing: Option<Vec<u8>> = None;
        if !(in_off == 0 && take == logical) {
            let found = b.read_block(vdisk, block);
            existing = match found {
                Ok(existing) => existing,
                Err(e) => {
                    proof {
                        let failed: Result<()> = Err(e);
                        assert(piece_written(&start, b, b, vdisk, offset, data@, pos as int, found, failed));
                        assert(write_run(steps, old(b), b, vdisk, offset, data@, failed));
                        if b.sound() && old(b).local() && old(b).exact() {
                            lemma_carried(old(b), &start, b, vdisk, offset, data@, pos as int);
                        }
                    }
                    return Err(e);
                },
            };
        }
        let ghost read = *b;
        let piece: Vec<u8> = overlay(&existing, logical, in_off, data, from, take);
        let r = b.write_block(vdisk, block, piece.as_slice());
        proof {
            let found: Result<Option<Vec<u8>>> = Ok(existing);
            assert(piece@ =~= laid(payload_view(existing), size, block_size as int, offset, data@, pos as int));
            assert(piece_written(&start, &read, b, vdisk, offset, data@, pos as int, found, r));
        }
        if let Err(e) = r {
            proof {
                assert(write_run(steps, old(b), b, vdisk, offset, data@, r));
                if b.sound() && old(b).local() && old(b).exact() {
                    lemma_carried(old(b), &start, &read, vdisk, offset, data@, pos as int);
                    lemma_carried(old(b), &read, b, vdisk, offset, data@, pos as int);
                }
            }
            return r;
        }
        proof {
            let before = steps;
            steps = steps.push(*b);
            assert(piece_done(&start, b, vdisk, offset, data@, pos as int));
            assert forall|i: int| 0 <= i < steps.len() - 1 implies #[trigger] piece_step(steps, i, vdisk, offset, data@, block_size as int) by {
                if i < before.len() - 1 {
                    assert(piece_step(before, i, vdisk, offset, data@, block_size as int));
                }
            }
            if b.sound() && old(b).local() && old(b).exact() {
                lemma_carried(old(b), &start, &read, vdisk, offset, data@, pos as int);
                assert(in_off == 0 && take == logical || read.block_at(vdisk, block) == Some(payload_view(existing)));
                lemma_block_laid(old(b), &read, b, vdisk, offset, data@, pos as int, block, piece@, size, logical as int, in_off as int, take as int, existing);
            }
        }
        pos += take;
    }
    let done: Result<()> = Ok(());
    assert(write_run(steps, old(b), b, vdisk, offset, data@, done));
    done
}

fn range_trim<B: BlockView>(b: &mut B, vdisk: u64, offset: u64, len: u64) -> (r: Result<()>)
    requires
        old(b).ready(),
    ensures
        bytes_trimmed(old(b), final(b), vdisk, offset, len, r),
{
    let size: u64 = match b.vdisk_size(vdisk) {
        Ok(size) => size,
        Err(e) => {
            return Err(e);
        },
    };
    let block_size: u64 = b.block_size() as u64;
    if let Err(e) = byte_bounds(size, block_size, offset, len) {
        return Err(e);
    }
    let first: u64 = blocks_of(offset, block_size);
    let end: u64 = offset + len;
    let bound: u64 = if end == size {
        blocks_of(size, block_size)
    } else {
        end / block_size
    };
    let mut block: u64 = first;
    let ghost mut steps: Seq<B> = seq![*b];
    assert(discarded(old(b), b, vdisk, first as int, first as int));
    while block < bound
        invariant
            steps.len() == block - first + 1,
            steps[0] == *old(b),
            steps.last() == *b,
            forall|i: int| 0 <= i < steps.len() - 1 ==> #[trigger] trim_step(steps, i, vdisk, first as int, bound as int),
            same_shape(old(b), b),
            old(b).byte_size(vdisk) == Some(size),
            range_fault(size, old(b).unit_len() as int, offset, len as int) is None,
            first == first_whole(offset, old(b).unit_len() as int),
            bound == end_whole(offset + len, size, old(b).unit_len() as int),
            first <= block,
            block <= bound || block == first,
            b.sound() ==> discarded(old(b), b, vdisk, first as int, block as int),
        decreases bound - block,
    {
        let ghost start = *b;
        let r = b.trim_block(vdisk, block);
        proof {
            if b.sound() {
                assert(discarded(old(b), &start, vdisk, first as int, block as int));
                let done = if r is Ok { block + 1 } else { block as int };
                assert forall|k: u64| first <= k < done implies #[trigger] b.block_at(vdisk, k) == Some(None::<Seq<u8>>) by {
                    if k < block {
                        assert(start.block_at(vdisk, k) == Some(None::<Seq<u8>>));
                    }
                }
                assert forall|v: u64, k: u64| !(v == vdisk && first <= k < done) && (#[trigger] old(b).block_at(v, k)) is Some implies b.block_at(v, k)
                    == old(b).block_at(v, k) by {
                    assert(start.block_at(v, k) == old(b).block_at(v, k));
                }
                assert(discarded(old(b), b, vdisk, first as int, done));
            }
        }
        if let Err(e) = r {
            assert(trim_run(steps, old(b), b, vdisk, first as int, bound as int, r));
            return r;
        }
        proof {
            let before = steps;
            steps = steps.push(*b);
            assert(trim_done(&start, b, vdisk, block));
            assert forall|i: int| 0 <= i < steps.len() - 1 implies #[trigger] trim_step(steps, i, vdisk, first as int, bound as int) by {
                if i < before.len() - 1 {
                    assert(trim_step(before, i, vdisk, first as int, bound as int));
                }
            }
        }
        block += 1;
    }
    let done: Result<()> = Ok(());
    assert(trim_run(steps, old(b), b, vdisk, first as int, bound as int, done));
    done
}

fn blocks_of(size: u64, block_size: u64) -> (r: u64)
    requires
        block_size > 0,
    ensures
        r == blocks_in(size, block_size as int),
{
    let whole: u64 = size / block_size;
    proof {
        assert(size as int % block_size as int != 0 ==> size as int / block_size as int + 1 <= size) by (nonlinear_arith)
            requires block_size > 0, size >= 0;
    }
    if size % block_size != 0 {
        whole + 1
    } else {
        whole
    }
}

/// A block of `logical` bytes with part of `data` laid over what it held.
fn overlay(existing: &Option<Vec<u8>>, logical: u64, in_off: u64, data: &[u8], from: u64, take: u64) -> (piece: Vec<u8>)
    requires
        in_off + take <= logical <= u32::MAX,
        from + take <= data@.len(),
    ensures
        piece@.len() == logical,
        forall|j: int| 0 <= j < logical ==> #[trigger] piece@[j] == if in_off <= j < in_off + take {
            data@[from + j - in_off]
        } else {
            byte_of(payload_view(*existing), j)
        },
{
    let mut piece: Vec<u8> = Vec::new();
    let len: usize = data.len();
    let mut j: u64 = 0;
    while j < logical
        invariant
            len == data@.len(),
            j <= logical <= u32::MAX,
            in_off + take <= logical,
            from + take <= data@.len(),
            piece@.len() == j,
            forall|i: int| 0 <= i < j ==> #[trigger] piece@[i] == if in_off <= i < in_off + take {
                data@[from + i - in_off]
            } else {
                byte_of(payload_view(*existing), i)
            },
        decreases logical - j,
    {
        let byte: u8 = if in_off <= j && j < in_off + take {
            data[(from + (j - in_off)) as usize]
        } else {
            match existing {
                Some(payload) => if j < payload.len() as u64 {
                    payload[j as usize]
                } else {
                    0
                },
                None => 0,
            }
        };
        piece.push(byte);
        j += 1;
    }
    piece
}

proof fn lemma_place(pos: int, bs: int)
    requires
        0 <= pos,
        bs > 0,
    ensures
        (pos / bs) * bs <= pos < (pos / bs) * bs + bs,
        pos % bs == pos - (pos / bs) * bs,
        pos / bs <= pos,
{
    vstd::arithmetic::div_mod::lemma_fundamental_div_mod(pos, bs);
    vstd::arithmetic::div_mod::lemma_mod_bound(pos, bs);
    vstd::arithmetic::mul::lemma_mul_is_commutative(bs, pos / bs);
    assert(pos / bs <= pos) by (nonlinear_arith)
        requires bs > 0, pos >= 0;
}

/// Positions within one block's length of its start are in it.
proof fn lemma_same_place(pos: int, p: int, bs: int)
    requires
        0 <= pos,
        0 <= p,
        bs > 0,
        (pos / bs) * bs <= p < (pos / bs) * bs + bs,
    ensures
        p / bs == pos / bs,
        p % bs == p - (pos / bs) * bs,
{
    vstd::arithmetic::div_mod::lemma_fundamental_div_mod_converse(p, bs, pos / bs, p - (pos / bs) * bs);
}

proof fn lemma_carried<B: Contents>(a: &B, b: &B, c: &B, vdisk: u64, offset: u64, data: Seq<u8>, done: int)
    requires
        overwritten(a, b, vdisk, offset, data, done),
        all_kept(b, c),
        c.unit_len() == b.unit_len(),
        b.unit_len() == a.unit_len(),
    ensures
        overwritten(a, c, vdisk, offset, data, done),
{
    assert forall|v: u64, k: u64| v != vdisk && (#[trigger] a.block_at(v, k)) is Some implies c.block_at(v, k) == a.block_at(v, k) by {
        assert(b.block_at(v, k) == a.block_at(v, k));
    }
    assert forall|pos: int| offset <= pos < done implies #[trigger] readable_at(c, vdisk, pos) && byte_at(c, vdisk, pos) == data[pos - offset] by {
        assert(readable_at(b, vdisk, pos));
    }
    assert forall|pos: int|
        0 <= pos < a.byte_size(vdisk)->Some_0 && !(offset <= pos < done) && #[trigger] readable_at(a, vdisk, pos) implies readable_at(c, vdisk, pos)
        && byte_at(c, vdisk, pos) == byte_at(a, vdisk, pos) by {
        assert(readable_at(b, vdisk, pos));
    }
}

proof fn lemma_block_laid<B: Contents>(
    a: &B,
    b: &B,
    c: &B,
    vdisk: u64,
    offset: u64,
    data: Seq<u8>,
    pos: int,
    block: u64,
    piece: Seq<u8>,
    size: u64,
    logical: int,
    in_off: int,
    take: int,
    existing: Option<Vec<u8>>,
)
    requires
        overwritten(a, b, vdisk, offset, data, pos),
        others_kept(b, c, vdisk, block),
        c.block_at(vdisk, block) == Some(Some(piece)),
        c.unit_len() == b.unit_len(),
        b.unit_len() == a.unit_len(),
        a.unit_len() > 0,
        a.byte_size(vdisk) == Some(size),
        0 <= offset <= pos < size,
        block == pos / a.unit_len() as int,
        logical == if a.unit_len() < size - block * a.unit_len() { a.unit_len() as int } else { size - block * a.unit_len() },
        in_off == pos - block * a.unit_len(),
        0 < take <= logical - in_off,
        pos + take <= offset + data.len(),
        piece.len() == logical,
        forall|j: int| 0 <= j < logical ==> #[trigger] piece[j] == if in_off <= j < in_off + take {
            data[pos - offset + j - in_off]
        } else {
            byte_of(payload_view(existing), j)
        },
        (in_off == 0 && take == logical) || b.block_at(vdisk, block) == Some(payload_view(existing)),
    ensures
        overwritten(a, c, vdisk, offset, data, pos + take),
{
    let bs = a.unit_len() as int;
    lemma_place(pos, bs);
    assert forall|v: u64, k: u64| v != vdisk && (#[trigger] a.block_at(v, k)) is Some implies c.block_at(v, k) == a.block_at(v, k) by {
        assert(b.block_at(v, k) == a.block_at(v, k));
    }
    assert forall|p: int| offset <= p < pos + take implies #[trigger] readable_at(c, vdisk, p) && byte_at(c, vdisk, p) == data[p - offset] by {
        lemma_place(p, bs);
        if p >= pos {
            lemma_same_place(pos, p, bs);
            assert(piece[p - block * bs] == data[p - offset]);
        } else {
            assert(readable_at(b, vdisk, p));
            if p / bs == block {
                lemma_same_place(pos, p, bs);
                let j = p - block * bs;
                assert(j < in_off);
                assert(piece[j] == byte_of(payload_view(existing), j));
            }
        }
    }
    assert forall|p: int|
        0 <= p < a.byte_size(vdisk)->Some_0 && !(offset <= p < pos + take) && #[trigger] readable_at(a, vdisk, p) implies readable_at(c, vdisk, p) && byte_at(
        c,
        vdisk,
        p,
    ) == byte_at(a, vdisk, p) by {
        lemma_place(p, bs);
        assert(readable_at(b, vdisk, p));
        if p / bs == block {
            lemma_same_place(pos, p, bs);
            let j = p - block * bs;
            assert(0 <= j < logical);
            assert(piece[j] == byte_of(payload_view(existing), j));
        }
    }
}

// ---------------------------------------------------------------------
// The contents of a pool

/// What a block of a pool holds.
pub open spec fn block_here<D: Disk>(pool: &Pool<D>, vdisk: u64, index: u64) -> Option<Option<Seq<u8>>> {
    if index_fault(pool, vdisk, index) is Some {
        None
    } else {
        let v = pool.vdisk_map()[vdisk];
        match mapped(pool.shelf(0), pool.unit(), v, index) {
            None => None,
            Some(None) => Some(None),
            Some(Some(h)) => if pool.shelf(v.tier).contains_key(h) {
                Some(Some(pool.shelf(v.tier)[h]))
            } else {
                None
            },
        }
    }
}

/// Every tier keeps its promises, and no block has the all-zeros address.
pub open spec fn pool_sound<D: Disk>(pool: &Pool<D>) -> bool {
    &&& forall|t: u8| #[trigger] pool.faithful(t)
    &&& forall|t: u8, h: BlockHash| #[trigger] pool.shelf(t).contains_key(h) ==> !is_zero(h)
}

/// Every block of a pool still reads as it did.
pub open spec fn contents_same<D: Disk>(a: &Pool<D>, b: &Pool<D>) -> bool {
    forall|v: u64, k: u64| (#[trigger] block_here(a, v, k)) is Some ==> block_here(b, v, k) == block_here(a, v, k)
}

/// Every block of a pool but one still reads as it did.
pub open spec fn contents_but<D: Disk>(a: &Pool<D>, b: &Pool<D>, vdisk: u64, index: u64) -> bool {
    forall|v: u64, k: u64| (v != vdisk || k != index) && (#[trigger] block_here(a, v, k)) is Some ==> block_here(b, v, k) == block_here(a, v, k)
}

/// The same vdisks, of the same sizes.
pub open spec fn same_sizes<D: Disk>(a: &Pool<D>, b: &Pool<D>) -> bool {
    &&& b.unit() == a.unit()
    &&& b.vdisk_map().dom() == a.vdisk_map().dom()
    &&& forall|v: u64| #[trigger] a.vdisk_map().contains_key(v) ==> b.vdisk_map()[v].size_bytes == a.vdisk_map()[v].size_bytes
}

proof fn lemma_sound_before<D: Disk>(a: &Pool<D>, b: &Pool<D>)
    requires
        stock_grew(&a.stock(), &b.stock()),
        pool_sound(b),
    ensures
        pool_sound(a),
{
    assert forall|t: u8| #[trigger] a.faithful(t) by {
        assert(b.faithful(t));
        lemma_faithful_before(&a.stock(), &b.stock(), t);
    }
    assert forall|t: u8, h: BlockHash| #[trigger] a.shelf(t).contains_key(h) implies !is_zero(h) by {
        assert(grew(a.holds(t), a.shelf(t), b.holds(t), b.shelf(t)));
        assert(b.shelf(t).contains_key(h));
    }
}

/// Growth alone changes nothing that could be read.
proof fn lemma_growth_keeps<D: Disk>(a: &Pool<D>, b: &Pool<D>)
    requires
        stock_grew(&a.stock(), &b.stock()),
        b.vdisk_map() == a.vdisk_map(),
    ensures
        contents_same(a, b),
        same_sizes(a, b),
{
    assert(grew(a.holds(0), a.shelf(0), b.holds(0), b.shelf(0)));
    assert forall|v: u64, k: u64| (#[trigger] block_here(a, v, k)) is Some implies block_here(b, v, k) == block_here(a, v, k) by {
        let d = a.vdisk_map()[v];
        assert(grew(a.holds(d.tier), a.shelf(d.tier), b.holds(d.tier), b.shelf(d.tier)));
        if !d.dirty.contains_key(k) {
            if let Some(root) = d.root {
                crate::map::lemma_tree_grows(a.shelf(0), b.shelf(0), a.unit(), root, tree_depth(a.unit(), d.size_bytes), k);
            }
        }
    }
}

/// So does a mutation of one index, for all others.
proof fn lemma_mutation_keeps<D: Disk>(a: &Pool<D>, b: &Pool<D>, vdisk: u64, index: u64, value: Option<BlockHash>)
    requires
        stock_grew(&a.stock(), &b.stock()),
        index_fault(a, vdisk, index) is None,
        b.vdisk_map() == a.vdisk_map().insert(vdisk, with_dirty(a.vdisk_map()[vdisk], index, value)),
    ensures
        contents_but(a, b, vdisk, index),
        same_sizes(a, b),
        value is None ==> block_here(b, vdisk, index) == Some(None::<Seq<u8>>),
{
    assert(b.vdisk_map().dom() =~= a.vdisk_map().dom());
    assert(grew(a.holds(0), a.shelf(0), b.holds(0), b.shelf(0)));
    assert forall|v: u64, k: u64| (v != vdisk || k != index) && (#[trigger] block_here(a, v, k)) is Some implies block_here(b, v, k) == block_here(a, v, k) by {
        let d = a.vdisk_map()[v];
        let e = b.vdisk_map()[v];
        assert(grew(a.holds(d.tier), a.shelf(d.tier), b.holds(d.tier), b.shelf(d.tier)));
        if v == vdisk {
            assert(e == with_dirty(d, index, value));
            assert(e.dirty.contains_key(k) == d.dirty.contains_key(k));
        }
        if !d.dirty.contains_key(k) {
            if let Some(root) = d.root {
                crate::map::lemma_tree_grows(a.shelf(0), b.shelf(0), a.unit(), root, tree_depth(a.unit(), d.size_bytes), k);
            }
        }
    }
}

proof fn lemma_checkpoint_keeps<D: Disk>(a: &Pool<D>, b: &Pool<D>, c: Result<()>)
    requires
        checkpointed(a, b, c),
    ensures
        same_sizes(a, b),
        stock_grew(&a.stock(), &b.stock()),
        pool_sound(b) ==> contents_same(a, b),
{
    if pool_sound(b) {
        assert(b.faithful(0));
        assert forall|v: u64, k: u64| (#[trigger] block_here(a, v, k)) is Some implies block_here(b, v, k) == block_here(a, v, k) by {
            let d = a.vdisk_map()[v];
            assert(a.vdisk_map().contains_key(v));
            assert(grew(a.holds(d.tier), a.shelf(d.tier), b.holds(d.tier), b.shelf(d.tier)));
            assert(mapped(a.shelf(0), a.unit(), d, k) is Some);
        }
    }
}

proof fn lemma_twice<D: Disk>(a: &Pool<D>, b: &Pool<D>, c: &Pool<D>, vdisk: u64, index: u64)
    requires
        same_sizes(a, b),
        same_sizes(b, c),
    ensures
        same_sizes(a, c),
        contents_same(a, b) && contents_but(b, c, vdisk, index) ==> contents_but(a, c, vdisk, index),
        contents_same(a, b) && contents_same(b, c) ==> contents_same(a, c),
{
    assert forall|v: u64| #[trigger] a.vdisk_map().contains_key(v) implies c.vdisk_map()[v].size_bytes == a.vdisk_map()[v].size_bytes by {
        assert(b.vdisk_map().dom().contains(v));
    }
    if contents_same(a, b) && contents_but(b, c, vdisk, index) {
        assert forall|v: u64, k: u64| (v != vdisk || k != index) && (#[trigger] block_here(a, v, k)) is Some implies block_here(c, v, k) == block_here(a, v, k) by {
            assert(block_here(b, v, k) == block_here(a, v, k));
        }
    }
    if contents_same(a, b) && contents_same(b, c) {
        assert forall|v: u64, k: u64| (#[trigger] block_here(a, v, k)) is Some implies block_here(c, v, k) == block_here(a, v, k) by {
            assert(block_here(b, v, k) == block_here(a, v, k));
        }
    }
}

/// What an op that maps or unmaps one index leaves readable.
pub open spec fn index_set<D: Disk>(a: &Pool<D>, b: &Pool<D>, vdisk: u64, index: u64, value: Option<BlockHash>, r: Result<()>) -> bool {
    &&& same_sizes(a, b)
    &&& stock_grew(&a.stock(), &b.stock())
    &&& pool_sound(b) ==> contents_but(a, b, vdisk, index)
    &&& pool_sound(b) && r is Err ==> contents_same(a, b)
    &&& r is Ok ==> {
        &&& index_fault(b, vdisk, index) is None
        &&& b.vdisk_map()[vdisk].dirty.contains_key(index)
        &&& b.vdisk_map()[vdisk].dirty[index] == value
        &&& b.vdisk_map()[vdisk].tier == a.vdisk_map()[vdisk].tier
    }
}

proof fn lemma_step_sets<D: Disk>(a: &Pool<D>, b: &Pool<D>, vdisk: u64, index: u64, value: Option<BlockHash>, op: ReplOp, r: Result<()>)
    requires
        op_step(a, b, op, r),
        match value {
            Some(hash) => op == (ReplOp::Write { vdisk, index, hash }),
            None => op == (ReplOp::Trim { vdisk, index }),
        },
    ensures
        index_set(a, b, vdisk, index, value, r),
{
    lemma_same_grew(&a.stock(), &b.stock());
    if r is Ok {
        lemma_mutation_keeps(a, b, vdisk, index, value);
    } else {
        lemma_growth_keeps(a, b);
    }
}

proof fn lemma_op_sets<D: Disk>(a: &Pool<D>, b: &Pool<D>, vdisk: u64, index: u64, value: Option<BlockHash>, op: ReplOp, r: Result<()>)
    requires
        op_done(a, b, op, r),
        match value {
            Some(hash) => op == (ReplOp::Write { vdisk, index, hash }),
            None => op == (ReplOp::Trim { vdisk, index }),
        },
    ensures
        index_set(a, b, vdisk, index, value, r),
{
    if op_step(a, b, op, r) {
        lemma_step_sets(a, b, vdisk, index, value, op, r);
    } else {
        let (full, room, c) = choose|full: Pool<D>, room: Pool<D>, c: Result<()>| #[trigger] retried(a, &full, &room, b, op, c, r);
        let refused: Result<()> = Err(FsError::WalFull);
        lemma_step_sets(a, &full, vdisk, index, value, op, refused);
        lemma_checkpoint_keeps(&full, &room, c);
        lemma_grew_twice(&a.stock(), &full.stock(), &room.stock());
        lemma_twice(a, &full, &room, vdisk, index);
        if c is Ok {
            lemma_step_sets(&room, b, vdisk, index, value, op, r);
            lemma_grew_twice(&a.stock(), &room.stock(), &b.stock());
            lemma_twice(a, &room, b, vdisk, index);
            if pool_sound(b) {
                lemma_sound_before(&room, b);
                lemma_sound_before(&full, &room);
            }
        } else {
            if pool_sound(b) {
                lemma_sound_before(&full, &room);
            }
        }
    }
}

/// An index mapped to a block that was promised reads as that block.
proof fn lemma_set_reads<D: Disk>(a: &Pool<D>, b: &Pool<D>, vdisk: u64, index: u64, hash: BlockHash, payload: Seq<u8>, r: Result<()>)
    requires
        index_set(a, b, vdisk, index, Some(hash), r),
        r is Ok,
        pool_sound(b),
        b.promised(b.vdisk_map()[vdisk].tier).contains((hash, payload)),
    ensures
        block_here(b, vdisk, index) == Some(Some(payload)),
{
    assert(b.faithful(b.vdisk_map()[vdisk].tier));
}

impl<D: Disk> Contents for Pool<D> {
    open spec fn ready(&self) -> bool {
        self.inv()
    }

    open spec fn unit_len(&self) -> u32 {
        self.unit()
    }

    open spec fn byte_size(&self, vdisk: u64) -> Option<u64> {
        if self.vdisk_map().contains_key(vdisk) {
            Some(self.vdisk_map()[vdisk].size_bytes)
        } else {
            None
        }
    }

    open spec fn block_at(&self, vdisk: u64, index: u64) -> Option<Option<Seq<u8>>> {
        block_here(self, vdisk, index)
    }

    open spec fn exact(&self) -> bool {
        true
    }

    open spec fn local(&self) -> bool {
        true
    }

    open spec fn sound(&self) -> bool {
        pool_sound(self)
    }

    open spec fn steady(&self) -> bool {
        self.reliable()
    }

    open spec fn read_to(&self, after: &Self, vdisk: u64, index: u64, r: Result<Option<Vec<u8>>>) -> bool {
        *after == *self && block_read(self, vdisk, index, r)
    }

    open spec fn write_to(&self, after: &Self, vdisk: u64, index: u64, payload: Seq<u8>, r: Result<()>) -> bool {
        block_wrote(self, after, vdisk, index, payload, r)
    }

    open spec fn trim_to(&self, after: &Self, vdisk: u64, index: u64, r: Result<()>) -> bool {
        trimmed(self, after, vdisk, index, r)
    }
}

impl<D: Disk> BlockView for Pool<D> {
    fn block_size(&self) -> (r: u32) {
        proof {
            self.lemma_pool();
            crate::pool::lemma_capacity(self.unit(), 0);
        }
        Pool::block_size(self)
    }

    fn vdisk_size(&self, vdisk: u64) -> (r: Result<u64>) {
        Pool::vdisk_size(self, vdisk)
    }

    fn read_block(&mut self, vdisk: u64, index: u64) -> (r: Result<Option<Vec<u8>>>) {
        Pool::read_block(self, vdisk, index)
    }

    fn write_block(&mut self, vdisk: u64, index: u64, payload: &[u8]) -> (r: Result<()>) {
        let ghost a = *self;
        let r = Pool::write_block(self, vdisk, index, payload);
        proof {
            let hash = address_of(payload@);
            if self.sound() {
                lemma_sound_before(&a, self);
            }
            if r is Ok {
                lemma_mutation_keeps(&a, self, vdisk, index, Some(hash));
                if self.sound() {
                    let tier = a.vdisk_map()[vdisk].tier;
                    assert(self.faithful(tier));
                    assert(self.promised(tier).contains((hash, payload@)));
                }
            } else {
                lemma_growth_keeps(&a, self);
            }
            assert forall|v: u64| #[trigger] self.byte_size(v) == a.byte_size(v) by {
                assert(self.vdisk_map().dom().contains(v) == a.vdisk_map().dom().contains(v));
            }
        }
        r
    }

    fn trim_block(&mut self, vdisk: u64, index: u64) -> (r: Result<()>) {
        let ghost a = *self;
        let r = Pool::trim_block(self, vdisk, index);
        proof {
            lemma_same_grew(&a.stock(), &self.stock());
            if self.sound() {
                lemma_sound_before(&a, self);
            }
            if r is Ok {
                lemma_mutation_keeps(&a, self, vdisk, index, None);
            } else {
                lemma_growth_keeps(&a, self);
            }
            assert forall|v: u64| #[trigger] self.byte_size(v) == a.byte_size(v) by {
                assert(self.vdisk_map().dom().contains(v) == a.vdisk_map().dom().contains(v));
            }
        }
        r
    }
}

impl<D: Disk> ByteView for Pool<D> {
    fn read_bytes(&mut self, vdisk: u64, offset: u64, len: u64) -> (r: Result<Vec<u8>>) {
        range_read(self, vdisk, offset, len)
    }

    fn write_bytes(&mut self, vdisk: u64, offset: u64, data: &[u8]) -> (r: Result<()>) {
        range_write(self, vdisk, offset, data)
    }

    fn trim_bytes(&mut self, vdisk: u64, offset: u64, len: u64) -> (r: Result<()>) {
        range_trim(self, vdisk, offset, len)
    }
}

impl<D: Disk> Contents for ReplNode<D> {
    open spec fn ready(&self) -> bool {
        self.inv()
    }

    open spec fn unit_len(&self) -> u32 {
        self.engine().unit()
    }

    open spec fn byte_size(&self, vdisk: u64) -> Option<u64> {
        if self.engine().vdisk_map().contains_key(vdisk) {
            Some(self.engine().vdisk_map()[vdisk].size_bytes)
        } else {
            None
        }
    }

    /// What this member's own bricks hold.
    open spec fn block_at(&self, vdisk: u64, index: u64) -> Option<Option<Seq<u8>>> {
        block_here(&self.engine(), vdisk, index)
    }

    /// Nothing fetched waits to be served.
    open spec fn exact(&self) -> bool {
        forall|k: crate::table::TierHash| !(#[trigger] self@.fetched.contains_key(k))
    }

    open spec fn local(&self) -> bool {
        self.engine().seat() is None
    }

    open spec fn sound(&self) -> bool {
        pool_sound(&self.engine())
    }

    open spec fn steady(&self) -> bool {
        self.engine().reliable() && self.exact()
    }

    open spec fn read_to(&self, after: &Self, vdisk: u64, index: u64, r: Result<Option<Vec<u8>>>) -> bool {
        read_served(self, after, vdisk, index, r)
    }

    open spec fn write_to(&self, after: &Self, vdisk: u64, index: u64, payload: Seq<u8>, r: Result<()>) -> bool {
        write_served(self, after, vdisk, index, payload, r)
    }

    open spec fn trim_to(&self, after: &Self, vdisk: u64, index: u64, r: Result<()>) -> bool {
        op_served(self, after, vdisk, ReplOp::Trim { vdisk, index }, r)
    }
}

/// The guest path of a node: mutations replicate, with the same byte
/// semantics.
impl<D: Disk> BlockView for ReplNode<D> {
    fn block_size(&self) -> (r: u32) {
        let pool = self.pool();
        proof {
            pool.lemma_pool();
            crate::pool::lemma_capacity(pool.unit(), 0);
        }
        pool.block_size()
    }

    fn vdisk_size(&self, vdisk: u64) -> (r: Result<u64>) {
        self.pool().vdisk_size(vdisk)
    }

    fn read_block(&mut self, vdisk: u64, index: u64) -> (r: Result<Option<Vec<u8>>>) {
        let ghost a = *self;
        let r = ReplNode::read_block(self, vdisk, index);
        proof {
            let local = choose|local: Result<Option<Vec<u8>>>| #[trigger]
                crate::pool::vdisk::block_read(&a.engine(), vdisk, index, local) && crate::repl::read::served_once(a@, self@, local, r);
            if a.exact() {
                assert(r == local);
            }
        }
        r
    }

    fn write_block(&mut self, vdisk: u64, index: u64, payload: &[u8]) -> (r: Result<()>) {
        let ghost a = *self;
        let r = ReplNode::write_block(self, vdisk, index, payload);
        proof {
            a.lemma_node();
            let hash = address_of(payload@);
            if block_refusal(a@, &a.engine(), vdisk, hash) is None {
                lemma_node_writes(&a, self, vdisk, index, payload@, r);
            } else {
                lemma_same_pool(&a.engine());
            }
        }
        r
    }

    fn trim_block(&mut self, vdisk: u64, index: u64) -> (r: Result<()>) {
        let ghost a = *self;
        let r = ReplNode::trim_block(self, vdisk, index);
        proof {
            a.lemma_node();
            let op = ReplOp::Trim { vdisk, index };
            if crate::repl::guest::write_refusal(a@, &a.engine(), vdisk) is None {
                let (p, q) = (a.engine(), self.engine());
                lemma_op_sets(&p, &q, vdisk, index, None, op, r);
                crate::repl::ops::law_ops_keep_the_seat(&p, &q, op, r);
                if self.sound() {
                    lemma_sound_before(&p, &q);
                }
                assert forall|v: u64| #[trigger] self.byte_size(v) == a.byte_size(v) by {
                    assert(q.vdisk_map().dom().contains(v) == p.vdisk_map().dom().contains(v));
                }
            } else {
                lemma_same_pool(&a.engine());
            }
        }
        r
    }
}

impl<D: Disk> ByteView for ReplNode<D> {
    fn read_bytes(&mut self, vdisk: u64, offset: u64, len: u64) -> (r: Result<Vec<u8>>) {
        range_read(self, vdisk, offset, len)
    }

    fn write_bytes(&mut self, vdisk: u64, offset: u64, data: &[u8]) -> (r: Result<()>) {
        range_write(self, vdisk, offset, data)
    }

    fn trim_bytes(&mut self, vdisk: u64, offset: u64, len: u64) -> (r: Result<()>) {
        range_trim(self, vdisk, offset, len)
    }
}

proof fn lemma_same_pool<D: Disk>(a: &Pool<D>)
    ensures
        contents_same(a, a),
        same_sizes(a, a),
{
}

proof fn lemma_node_writes<D: Disk>(a: &ReplNode<D>, b: &ReplNode<D>, vdisk: u64, index: u64, payload: Seq<u8>, r: Result<()>)
    requires
        a.inv(),
        b.inv(),
        a.engine().inv(),
        crate::repl::guest::block_written(a, b, vdisk, index, payload, r),
    ensures
        same_shape(a, b),
        b.sound() ==> a.sound() && others_kept(a, b, vdisk, index),
        b.sound() && r is Err ==> all_kept(a, b),
        b.sound() && a.local() && r is Ok ==> b.block_at(vdisk, index) == Some(Some(payload)),
{
    let v = a@;
    let hash = address_of(payload);
    let (p, q) = (a.engine(), b.engine());
    let homes = crate::repl::guest::homes_for(v, &p, hash);
    let here = homes.contains(v.node);
    let tier = p.vdisk_map()[vdisk].tier;
    let op = ReplOp::Write { vdisk, index, hash };
    let (mid, c) = choose|mid: Pool<D>, c: Result<()>| #[trigger] stored_and_mapped(&p, &mid, &q, here, tier, payload, op, c, r);
    crate::repl::guest::lemma_told_all(
        v,
        crate::repl::guest::reachable(v, homes),
        crate::repl::wire::MessageView::Payloads(seq![(tier, payload)]),
    );
    if here {
        lemma_growth_keeps(&p, &mid);
    } else {
        p.lemma_pool();
        crate::pool::lemma_stock_self(&p.stock());
        lemma_same_pool(&p);
    }
    assert(stock_grew(&p.stock(), &mid.stock()));
    if c is Ok {
        lemma_op_sets(&mid, &q, vdisk, index, Some(hash), op, r);
        crate::repl::ops::law_ops_keep_the_seat(&mid, &q, op, r);
        lemma_grew_twice(&p.stock(), &mid.stock(), &q.stock());
        lemma_twice(&p, &mid, &q, vdisk, index);
        if pool_sound(&q) {
            lemma_sound_before(&mid, &q);
            lemma_sound_before(&p, &mid);
            if a.local() && r is Ok {
                let everyone = crate::repl::guest::everyone(v);
                assert(everyone[v.peers.len() as int] == v.node);
                assert(here);
                assert(mid.promised(tier).contains((hash, payload)));
                assert(mid.promised(tier).subset_of(q.promised(tier)));
                lemma_set_reads(&mid, &q, vdisk, index, hash, payload, r);
            }
        }
    } else {
        if pool_sound(&q) {
            lemma_sound_before(&p, &mid);
        }
    }
    assert forall|v: u64| #[trigger] b.byte_size(v) == a.byte_size(v) by {
        assert(q.vdisk_map().dom().contains(v) == p.vdisk_map().dom().contains(v));
    }
}

proof fn lemma_zero_blocks<B: Contents>(a: &B, b: &B, vdisk: u64, first: int, done: int, pos: int)
    requires
        discarded(a, b, vdisk, first, done),
        a.unit_len() > 0,
        b.unit_len() == a.unit_len(),
        0 <= pos <= u64::MAX,
        first <= pos / a.unit_len() as int,
        pos / (a.unit_len() as int) < done,
    ensures
        byte_at(b, vdisk, pos) == 0,
{
    lemma_place(pos, a.unit_len() as int);
    let k = (pos / a.unit_len() as int) as u64;
    assert(b.block_at(vdisk, k) == Some(None::<Seq<u8>>));
}

/// A trim reads as zeros wherever it covered a block whole, and changes no
/// byte of a block it covered in part.
pub proof fn law_trim_zeroes_whole_blocks_only<B: Contents>(a: &B, b: &B, vdisk: u64, first: int, done: int, pos: int)
    requires
        discarded(a, b, vdisk, first, done),
        a.unit_len() > 0,
        b.unit_len() == a.unit_len(),
        0 <= pos <= u64::MAX,
        readable_at(a, vdisk, pos),
    ensures
        byte_at(b, vdisk, pos) == if first <= pos / (a.unit_len() as int) < done {
            0
        } else {
            byte_at(a, vdisk, pos)
        },
{
    lemma_place(pos, a.unit_len() as int);
    if first <= pos / (a.unit_len() as int) < done {
        lemma_zero_blocks(a, b, vdisk, first, done, pos);
    }
}

/// What was written reads back, byte for byte, and the bytes around it are
/// as they were.
pub proof fn law_bytes_written_read_back<B: Contents>(a: &B, b: &B, vdisk: u64, offset: u64, data: Seq<u8>, pos: int)
    requires
        overwritten(a, b, vdisk, offset, data, offset + data.len()),
        0 <= pos < a.byte_size(vdisk)->Some_0,
        readable_at(a, vdisk, pos),
    ensures
        byte_at(b, vdisk, pos) == if offset <= pos < offset + data.len() {
            data[pos - offset]
        } else {
            byte_at(a, vdisk, pos)
        },
{
    if offset <= pos < offset + data.len() {
        assert(readable_at(b, vdisk, pos));
    }
}

} // verus!
