//! What byte ranges take of the ring, and that they succeed while it lasts.

use super::{
    bytes_trimmed, bytes_written, end_whole, first_whole, laid, next_place, payload_view, piece_step, piece_written, place, trim_run, trim_step,
    write_run, Contents,
};
use crate::disk::Disk;
use crate::error::Result;
use crate::hash::address_of;
use crate::pool::entry::{law_entries_have_their_length, WalEntry};
use crate::pool::vdisk::{block_wrote, index_fault, trimmed};
use crate::pool::{capacity, lemma_capacity, Pool};
use crate::wal::{frame_size, law_a_young_ring_has_room, Wal};
use vstd::prelude::*;

verus! {

/// The ring has never gone round, and takes `n` more frames of `len` payload
/// bytes each.
pub open spec fn takes(ring: Wal, n: int, len: nat) -> bool {
    &&& ring.wf()
    &&& ring.unwound()
    &&& ring.replay_start == ring.start
    &&& ring.next_seq + n < u64::MAX
    &&& ring.cursor + n * frame_size(len) < ring.start + ring.size
}

/// `b` is `a` with `n` more frames of `len` payload bytes each.
pub open spec fn took(a: Wal, b: Wal, n: int, len: nat) -> bool {
    &&& b.cursor == a.cursor + n * frame_size(len)
    &&& b.next_seq == a.next_seq + n
    &&& b.start == a.start
    &&& b.size == a.size
    &&& b.replay_start == a.replay_start
    &&& b.epoch == a.epoch
}

/// One frame that is taken of a ring that takes `n`, of which `k` were taken.
proof fn lemma_took(first: Wal, ring: Wal, n: int, k: int, len: nat)
    requires
        takes(first, n, len),
        0 <= k < n,
        took(first, ring, k, len),
        ring.wf(),
    ensures
        ring.unwound(),
        ring.has_room(len),
        ring.next_place(frame_size(len) as int) == ring.cursor,
        first.cursor + (k + 1) * frame_size(len) == ring.cursor + frame_size(len) <= u64::MAX,
{
    let f = frame_size(len) as int;
    assert((k + 1) * f == k * f + f && (k + 1) * f <= n * f && k * f >= 0) by (nonlinear_arith)
        requires
            0 <= k < n,
            f >= 0,
    ;
    law_a_young_ring_has_room(ring, len);
}

/// The pool after the first `k` blocks of a range were trimmed.
proof fn lemma_trims<D: Disk>(steps: Seq<Pool<D>>, k: int, vdisk: u64, first: int, bound: int)
    requires
        0 <= first,
        0 <= k < steps.len(),
        forall|i: int| 0 <= i < steps.len() - 1 ==> #[trigger] trim_step(steps, i, vdisk, first, bound),
        steps[0].inv(),
        steps[0].vdisk_map().contains_key(vdisk),
        takes(steps[0].ring(), bound - first, 17),
        k <= bound - first,
    ensures
        steps[k].inv(),
        steps[k].reliable() == steps[0].reliable(),
        steps[k].unit() == steps[0].unit(),
        steps[k].vdisk_map().contains_key(vdisk),
        steps[k].vdisk_map()[vdisk].size_bytes == steps[0].vdisk_map()[vdisk].size_bytes,
        took(steps[0].ring(), steps[k].ring(), k, 17),
    decreases k,
{
    if k > 0 {
        lemma_trims(steps, k - 1, vdisk, first, bound);
        assert(trim_step(steps, k - 1, vdisk, first, bound));
        let (a, b) = (&steps[k - 1], &steps[k]);
        let index = (first + (k - 1)) as u64;
        let c = choose|c: Result<()>| #[trigger] a.trim_to(b, vdisk, index, c) && c is Ok;
        assert(trimmed(a, b, vdisk, index, c));
        law_entries_have_their_length(WalEntry::TrimBlock { vdisk, index });
        a.lemma_pool();
        lemma_took(steps[0].ring(), a.ring(), bound - first, k - 1, 17);
    }
}

/// A range that lies in its vdisk is trimmed while the ring takes one frame
/// for each block that the range covers whole.
pub proof fn law_a_trim_with_room_succeeds<D: Disk>(a: &Pool<D>, b: &Pool<D>, vdisk: u64, offset: u64, len: u64, r: Result<()>)
    requires
        a.inv(),
        a.reliable(),
        bytes_trimmed(a, b, vdisk, offset, len, r),
        a.vdisk_map().contains_key(vdisk),
        offset + len <= a.vdisk_map()[vdisk].size_bytes,
        ({
            let first = first_whole(offset, a.unit() as int);
            let bound = end_whole(offset + len, a.vdisk_map()[vdisk].size_bytes, a.unit() as int);
            takes(a.ring(), if bound > first { bound - first } else { 0 }, 17)
        }),
    ensures
        r is Ok,
{
    let size = a.vdisk_map()[vdisk].size_bytes;
    let bs = a.unit() as int;
    let first = first_whole(offset, bs);
    let bound = end_whole(offset + len, size, bs);
    if let Err(e) = r {
        let steps = choose|steps: Seq<Pool<D>>| #[trigger] trim_run(steps, a, b, vdisk, first, bound, r);
        let k = steps.len() - 1;
        a.lemma_pool();
        lemma_capacity(a.unit(), size);
        assert(first >= 0 && bound <= capacity(a.unit(), size)) by (nonlinear_arith)
            requires
                bs > 0,
                first == first_whole(offset, bs),
                bound == end_whole(offset + len, size, bs),
                offset + len <= size,
                capacity(a.unit(), size) == super::blocks_in(size, bs),
        {
            assert(offset as int / bs >= 0 && (offset + len) / bs <= size as int / bs);
        }
        lemma_trims(steps, k, vdisk, first, bound);
        let last = &steps[k];
        let index = (first + k) as u64;
        law_entries_have_their_length(WalEntry::TrimBlock { vdisk, index });
        last.lemma_pool();
        lemma_took(a.ring(), last.ring(), bound - first, k, 17);
        assert(index_fault(last, vdisk, index) is None);
        assert(trimmed(last, b, vdisk, index, r));
    }
}

/// The pool after the first `k` pieces of a range were written.
proof fn lemma_pieces<D: Disk>(steps: Seq<Pool<D>>, k: int, vdisk: u64, offset: u64, data: Seq<u8>, n: int)
    requires
        0 <= k < steps.len(),
        forall|i: int| 0 <= i < steps.len() - 1 ==> #[trigger] piece_step(steps, i, vdisk, offset, data, steps[0].unit() as int),
        steps[0].inv(),
        steps[0].vdisk_map().contains_key(vdisk),
        takes(steps[0].ring(), n, 49),
        k <= n,
    ensures
        steps[k].inv(),
        steps[k].unit() == steps[0].unit(),
        steps[k].reliable() == steps[0].reliable(),
        took(steps[0].ring(), steps[k].ring(), k, 49),
    decreases k,
{
    if k > 0 {
        lemma_pieces(steps, k - 1, vdisk, offset, data, n);
        let bs = steps[0].unit() as int;
        assert(piece_step(steps, k - 1, vdisk, offset, data, bs));
        let (a, b) = (&steps[k - 1], &steps[k]);
        let pos = place(offset as int, bs, offset + data.len(), (k - 1) as nat);
        let (read, existing, c) = choose|read: Pool<D>, existing: Result<Option<Vec<u8>>>, c: Result<()>| #[trigger]
            piece_written(a, &read, b, vdisk, offset, data, pos, existing, c) && c is Ok;
        assert(read == *a);
        let index = (pos / bs) as u64;
        let payload = laid(payload_view(existing->Ok_0), a.byte_size(vdisk)->Some_0, bs, offset, data, pos);
        assert(block_wrote(a, b, vdisk, index, payload, c));
        law_entries_have_their_length(WalEntry::MapWrite { vdisk, index, hash: address_of(payload) });
        a.lemma_pool();
        lemma_took(steps[0].ring(), a.ring(), n, k - 1, 49);
    }
}

/// Where the `i`-th piece of a range starts: at the `i`-th block edge behind
/// its start, or at its end.
proof fn lemma_place(offset: int, bs: int, end: int, i: nat)
    requires
        bs > 0,
        0 <= offset <= end,
        i > 0,
        place(offset, bs, end, (i - 1) as nat) < end,
    ensures
        place(offset, bs, end, i) == if (offset / bs + i) * bs < end {
            (offset / bs + i) * bs
        } else {
            end
        },
    decreases i,
{
    let q = offset / bs;
    let before = place(offset, bs, end, (i - 1) as nat);
    if i == 1 {
        assert((q + 1) * bs == q * bs + bs) by (nonlinear_arith);
    } else {
        if place(offset, bs, end, (i - 2) as nat) >= end {
            let was = place(offset, bs, end, (i - 2) as nat);
            assert(before == next_place(was, bs, end));
            assert((was / bs) * bs + bs > was) by (nonlinear_arith)
                requires
                    bs > 0,
            ;
        }
        lemma_place(offset, bs, end, (i - 1) as nat);
        assert(before == (q + i - 1) * bs);
        vstd::arithmetic::div_mod::lemma_div_by_multiple(q + i - 1, bs);
        assert((q + i - 1) * bs + bs == (q + i) * bs) by (nonlinear_arith);
    }
}

/// The blocks a range touches.
pub open spec fn touched(offset: u64, len: nat, bs: int) -> int {
    if len == 0 {
        0
    } else {
        (offset + len - 1) / bs - offset as int / bs + 1
    }
}

/// A range that was written took one frame of the ring for each block that
/// it touches.
pub proof fn law_a_write_takes_its_frames<D: Disk>(a: &Pool<D>, b: &Pool<D>, vdisk: u64, offset: u64, data: Seq<u8>, r: Result<()>)
    requires
        a.inv(),
        bytes_written(a, b, vdisk, offset, data, r),
        r is Ok,
        takes(a.ring(), touched(offset, data.len(), a.unit() as int), 49),
    ensures
        b.reliable() == a.reliable(),
        took(a.ring(), b.ring(), touched(offset, data.len(), a.unit() as int), 49),
{
    let bs = a.unit() as int;
    let end = offset + data.len();
    let n = touched(offset, data.len(), bs);
    a.lemma_pool();
    lemma_capacity(a.unit(), 0);
    let steps = choose|steps: Seq<Pool<D>>| #[trigger] write_run(steps, a, b, vdisk, offset, data, r);
    let k = steps.len() - 1;
    if k > 0 {
        assert(piece_step(steps, 0, vdisk, offset, data, bs));
        assert(piece_step(steps, k - 1, vdisk, offset, data, bs));
        lemma_place(offset as int, bs, end, k as nat);
        if k > 1 {
            assert(piece_step(steps, k - 2, vdisk, offset, data, bs));
            lemma_place(offset as int, bs, end, (k - 1) as nat);
        }
        let q = offset as int / bs;
        assert(k == n) by (nonlinear_arith)
            requires
                bs > 0,
                k > 0,
                q == offset as int / bs,
                offset < end,
                end <= (q + k) * bs,
                k == 1 || (q + k - 1) * bs < end,
                n == (end - 1) / bs - q + 1,
        {
            if k == 1 {
                assert(q * bs <= offset);
                assert((end - 1) / bs == q);
            } else {
                assert((end - 1) / bs == q + k - 1);
            }
        }
    }
    lemma_pieces(steps, k, vdisk, offset, data, n);
}

} // verus!
