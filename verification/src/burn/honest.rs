//! What a burn leaves to be read, and how it judges what it reads.

use super::round::{asked, collected_if_due, marked, op_tried, rounded, sealed_up, wound_up};
use super::{judged, last_touch, payload_of, target, Verdict, BURN_BATCH};
use crate::bytes::ranges::{gives_back, law_a_trim_gives_whole_blocks_back, law_a_write_makes_its_range_readable};
use crate::bytes::reads::lemma_flush_keeps;
use crate::bytes::{block_here, byte_at, bytes_read, bytes_trimmed, bytes_written, overwritten, pool_sound, readable_at, Contents};
use crate::disk::Disk;
use crate::error::{FsError, Result};
use crate::nbd::replies::lemma_change_was_attempted;
use crate::pool::vdisk::flushed;
use crate::pool::Pool;
use crate::room::{change_made, untried, Change};
use vstd::bytes::spec_u64_to_le_bytes;
use vstd::prelude::*;

verus! {

/// An operation of a burn that succeeded can be read: the block it wrote
/// reads as the operation's payload, and the one it trimmed as never written.
pub proof fn law_a_burnt_block_reads_as_its_op<D: Disk>(
    a: &Pool<D>,
    b: &Pool<D>,
    after: &Pool<D>,
    vdisk: u64,
    seed: u64,
    n: u64,
    blocks: u64,
    c: Result<()>,
    got: Result<Vec<u8>>,
)
    requires
        blocks >= 2,
        b.inv(),
        op_tried(a, b, vdisk, seed, n, blocks, b.unit(), c),
        c is Ok,
        pool_sound(b),
        b.reliable(),
        blocks * b.unit() <= u64::MAX,
        bytes_read(b, after, vdisk, (target(seed, n, blocks).0 * b.unit()) as u64, b.unit() as u64, got),
    ensures
        1 <= target(seed, n, blocks).0 < blocks,
        !target(seed, n, blocks).1 ==> got is Ok && got->Ok_0@ == payload_of(seed, n, b.unit() as nat),
        target(seed, n, blocks).1 ==> block_here(b, vdisk, target(seed, n, blocks).0) == Some(None::<Seq<u8>>),
{
    let (index, trim) = target(seed, n, blocks);
    let unit = b.unit();
    b.lemma_pool();
    assert(1 <= index < blocks) by {
        let roll = super::roll(seed, n) as int;
        vstd::arithmetic::div_mod::lemma_mod_bound(roll, blocks - 1);
    }
    let change = choose|change: Change| #[trigger] change_made(a, b, vdisk, change, untried(), c) && asked(change, seed, n, blocks, unit);
    let from = lemma_change_was_attempted(a, b, vdisk, change, untried(), c);
    assert(index * unit <= blocks * unit) by (nonlinear_arith)
        requires
            index < blocks,
            unit >= 0,
    ;
    match change {
        Change::Write { offset, data } => {
            assert(bytes_written(&from, b, vdisk, offset, data@, c));
            assert(data@.len() == unit);
            law_a_write_makes_its_range_readable(&from, b, after, vdisk, offset, data@, c, got);
        },
        Change::Trim { offset, len } => {
            assert(bytes_trimmed(&from, b, vdisk, offset, len, c));
            assert(b.byte_size(vdisk) == from.byte_size(vdisk));
            law_a_trim_gives_whole_blocks_back(&from, b, vdisk, offset, len, c, vdisk, index);
            let size = from.byte_size(vdisk)->Some_0;
            assert(gives_back(unit as int, size, offset, len, index));
        },
    }
}

/// Bytes written at the head of a vdisk read back from there once they are
/// flushed.
proof fn lemma_written_then_flushed<D: Disk>(
    from: &Pool<D>,
    wrote: &Pool<D>,
    b: &Pool<D>,
    after: &Pool<D>,
    vdisk: u64,
    data: Seq<u8>,
    w: Result<()>,
    last: Result<()>,
    got: Result<Vec<u8>>,
)
    requires
        bytes_written(from, wrote, vdisk, 0, data, w),
        w is Ok,
        flushed(wrote, b, last),
        data.len() == 8,
        pool_sound(b),
        b.reliable(),
        bytes_read(b, after, vdisk, 0, 8, got),
    ensures
        got is Ok,
        got->Ok_0@ == data,
{
    lemma_flush_keeps(wrote, b, last);
    let end = choose|end: int| 0 <= end <= data.len() && (w is Ok ==> end == data.len()) && #[trigger] overwritten(from, wrote, vdisk, 0, data, end);
    assert forall|pos: int| 0 <= pos < 8 implies #[trigger] readable_at(b, vdisk, pos) && byte_at(b, vdisk, pos) == data[pos] by {
        assert(readable_at(wrote, vdisk, pos));
        let k = (pos / b.unit() as int) as u64;
        assert(block_here(wrote, vdisk, k) is Some);
        assert(block_here(b, vdisk, k) == block_here(wrote, vdisk, k));
    }
    assert(wrote.byte_size(vdisk) == from.byte_size(vdisk));
    assert(b.byte_size(vdisk) == wrote.byte_size(vdisk));
    assert(b.steady());
    assert(got is Ok);
    assert forall|i: int| 0 <= i < 8 implies #[trigger] got->Ok_0@[i] == data[i] by {
        assert(got->Ok_0@[i] == byte_at(b, vdisk, 0 + i));
        assert(readable_at(b, vdisk, i));
    }
    assert(got->Ok_0@ =~= data);
}

/// A round that succeeds has made one batch of operations, and leaves
/// everything on stable storage with the mark of how far it has come at the
/// head of the vdisk: the mark reads back.
pub proof fn law_a_round_leaves_its_mark<D: Disk>(
    a: &Pool<D>,
    b: &Pool<D>,
    after: &Pool<D>,
    vdisk: u64,
    seed: u64,
    done: u64,
    blocks: u64,
    below: u64,
    r: Result<(u64, u64)>,
    got: Result<Vec<u8>>,
)
    requires
        b.inv(),
        rounded(a, b, vdisk, seed, done, blocks, below, r),
        r is Ok,
        done + BURN_BATCH <= u64::MAX,
        pool_sound(b),
        b.reliable(),
        bytes_read(b, after, vdisk, 0, 8, got),
    ensures
        r->Ok_0.0 == done + BURN_BATCH,
        b.stock().durable(),
        got is Ok,
        got->Ok_0@ == spec_u64_to_le_bytes((done + BURN_BATCH) as u64),
{
    let now = (done + BURN_BATCH) as u64;
    let (steps, mid, c) = choose|steps: Seq<Pool<D>>, mid: Pool<D>, c: Result<()>| #[trigger]
        super::round::batch_run(steps, a, &mid, vdisk, seed, done, blocks, c) && match c {
            Err(e) => r == Err::<(u64, u64), FsError>(e) && *b == mid,
            Ok(_) => wound_up(&mid, b, vdisk, now, below, r),
        };
    let (still, f) = choose|still: Pool<D>, f: Result<()>| #[trigger]
        flushed(&mid, &still, f) && match f {
            Err(e) => r == Err::<(u64, u64), FsError>(e) && *b == still,
            Ok(_) => exists|mid: Pool<D>, next: u64, c: Result<()>| #[trigger]
                collected_if_due(&still, &mid, below, next, c) && match c {
                    Err(e) => r == Err::<(u64, u64), FsError>(e) && *b == mid,
                    Ok(_) => sealed_up(&mid, b, vdisk, now, next, r),
                },
        };
    let (clear, next, g) = choose|mid: Pool<D>, next: u64, c: Result<()>| #[trigger]
        collected_if_due(&still, &mid, below, next, c) && match c {
            Err(e) => r == Err::<(u64, u64), FsError>(e) && *b == mid,
            Ok(_) => sealed_up(&mid, b, vdisk, now, next, r),
        };
    let (wrote, w) = choose|mid: Pool<D>, w: Result<()>| #[trigger]
        marked(&clear, &mid, vdisk, now, w) && match w {
            Err(e) => r == Err::<(u64, u64), FsError>(e) && *b == mid,
            Ok(_) => exists|f: Result<()>| #[trigger]
                flushed(&mid, b, f) && match f {
                    Ok(_) => r == Ok::<(u64, u64), FsError>((now, next)),
                    Err(e) => r == Err::<(u64, u64), FsError>(e),
                },
        };
    let last = choose|f: Result<()>| #[trigger]
        flushed(&wrote, b, f) && match f {
            Ok(_) => r == Ok::<(u64, u64), FsError>((now, next)),
            Err(e) => r == Err::<(u64, u64), FsError>(e),
        };
    let change = choose|change: Change| #[trigger]
        change_made(&clear, &wrote, vdisk, change, untried(), w) && (change matches Change::Write { offset, data } && offset == 0 && data@ == spec_u64_to_le_bytes(now));
    let from = lemma_change_was_attempted(&clear, &wrote, vdisk, change, untried(), w);
    let data = change->Write_data@;
    assert(bytes_written(&from, &wrote, vdisk, 0, data, w));
    vstd::bytes::lemma_auto_spec_u64_to_from_le_bytes();
    assert(data.len() == 8);
    lemma_written_then_flushed(&from, &wrote, b, after, vdisk, data, w, last, got);
}

/// What was found is exact where it is what the acknowledged history left, to
/// the byte; not acknowledged where it is what an operation in flight would
/// leave; and wrong everywhere else.
pub proof fn law_a_wrong_block_is_found_out(seed: u64, found: Seq<u8>, acked: Option<Option<u64>>, in_flight: Option<Option<u64>>, i: int)
    ensures
        judged(seed, found, acked, in_flight) == Verdict::Exact && 0 <= i < found.len() ==> found[i] == match acked {
            Some(Some(n)) => super::payload_byte(seed, n, i),
            _ => 0,
        },
        in_flight is None && 0 <= i < found.len() && found[i] != (match acked {
            Some(Some(n)) => super::payload_byte(seed, n, i),
            _ => 0,
        }) ==> judged(seed, found, acked, in_flight) == Verdict::Wrong,
        judged(seed, found, acked, in_flight) == Verdict::Unacknowledged && 0 <= i < found.len() ==> in_flight is Some && found[i] == match in_flight->Some_0 {
            Some(n) => super::payload_byte(seed, n, i),
            None => 0,
        },
{
}

/// The history leaves at an index what the last operation there did: its
/// number where it wrote, nothing where it trimmed; and where no operation
/// went there, the history says nothing of it.
pub proof fn law_the_last_op_at_an_index_counts(seed: u64, first: u64, count: nat, blocks: u64, index: u64, n: int)
    requires
        first + count <= u64::MAX,
    ensures
        first <= n < first + count && target(seed, n as u64, blocks).0 == index && (forall|m: u64|
            n < m < first + count ==> (#[trigger] target(seed, m, blocks)).0 != index) ==> last_touch(seed, first, count, blocks, index) == Some(
            if target(seed, n as u64, blocks).1 {
                None::<u64>
            } else {
                Some(n as u64)
            },
        ),
        (forall|m: u64| first <= m < first + count ==> (#[trigger] target(seed, m, blocks)).0 != index) ==> last_touch(seed, first, count, blocks, index) is None,
    decreases count,
{
    if count > 0 {
        let last = (first + count - 1) as u64;
        law_the_last_op_at_an_index_counts(seed, first, (count - 1) as nat, blocks, index, n);
        if n != last && first <= n < last && target(seed, last, blocks).0 == index {
            assert(n < last < first + count);
        }
    }
}

} // verus!
