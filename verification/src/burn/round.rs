//! One round of the burn-in.

use super::{next_collect_below, op_payload, op_target, payload_of, should_collect, target, Tried, BURN_BATCH};
use crate::brick::GcStats;
use crate::brick_set::care::stats_sum;
use crate::disk::Disk;
use crate::error::{FsError, Result};
use crate::pool::collect::garbage_collected;
use crate::pool::vdisk::flushed;
use crate::pool::Pool;
use crate::room::{change_made, make_change, untried, Change};
use vstd::bytes::*;
use vstd::prelude::*;

verus! {

/// The change that operation `n` asks for: one whole block.
pub open spec fn asked(change: Change, seed: u64, n: u64, blocks: u64, unit: u32) -> bool {
    let (index, trim) = target(seed, n, blocks);
    match change {
        Change::Trim { offset, len } => trim && offset == index * unit && len == unit,
        Change::Write { offset, data } => !trim && offset == index * unit && data@ == payload_of(seed, n, unit as nat),
    }
}

/// Operation `n` was tried.
pub open spec fn op_tried<D: Disk>(a: &Pool<D>, b: &Pool<D>, vdisk: u64, seed: u64, n: u64, blocks: u64, unit: u32, c: Result<()>) -> bool {
    exists|change: Change| #[trigger] change_made(a, b, vdisk, change, untried(), c) && asked(change, seed, n, blocks, unit)
}

/// The `i`-th operation of a batch was made.
pub open spec fn made_at<D: Disk>(steps: Seq<Pool<D>>, i: int, vdisk: u64, seed: u64, done: u64, blocks: u64, unit: u32) -> bool {
    exists|c: Result<()>| #[trigger] op_tried(&steps[i], &steps[i + 1], vdisk, seed, (done + 1 + i) as u64, blocks, unit, c) && c is Ok
}

/// Where a batch got to, one state after each operation: to its end, or to
/// the first that failed.
pub open spec fn batch_run<D: Disk>(
    steps: Seq<Pool<D>>,
    before: &Pool<D>,
    after: &Pool<D>,
    vdisk: u64,
    seed: u64,
    done: u64,
    blocks: u64,
    c: Result<()>,
) -> bool {
    let unit = before.unit();
    &&& 1 <= steps.len() <= BURN_BATCH + 1
    &&& steps[0] == *before
    &&& forall|i: int| 0 <= i < steps.len() - 1 ==> #[trigger] made_at(steps, i, vdisk, seed, done, blocks, unit)
    &&& match c {
        Ok(_) => steps.len() == BURN_BATCH + 1 && steps.last() == *after,
        Err(_) => steps.len() <= BURN_BATCH && op_tried(&steps.last(), after, vdisk, seed, (done + steps.len()) as u64, blocks, unit, c),
    }
}

/// The segments that are free, over all bricks.
pub open spec fn free_now<D: Disk>(pool: &Pool<D>) -> u64 {
    stats_sum(pool.stock().members(), pool.stock().members().len()).segments_free
}

/// A collection is asked for.
pub open spec fn collection_due<D: Disk>(pool: &Pool<D>, below: u64) -> bool {
    free_now(pool) < stats_sum(pool.stock().members(), pool.stock().members().len()).segments_total / 4 && free_now(pool) < below
}

/// A collection was made if one was asked for, and the level below which to
/// ask again set by what it gained.
pub open spec fn collected_if_due<D: Disk>(a: &Pool<D>, b: &Pool<D>, below: u64, next: u64, c: Result<()>) -> bool {
    if collection_due(a, below) {
        exists|g: Result<GcStats>| #[trigger]
            garbage_collected(a, b, g) && match g {
                Ok(_) => c is Ok && next == if free_now(b) > free_now(a) {
                    u64::MAX
                } else if free_now(a) == 0 {
                    0
                } else {
                    (free_now(a) - 1) as u64
                },
                Err(e) => c == Err::<(), FsError>(e),
            }
    } else {
        *b == *a && c is Ok && next == below
    }
}

/// The watermark was written.
pub open spec fn marked<D: Disk>(a: &Pool<D>, b: &Pool<D>, vdisk: u64, done: u64, c: Result<()>) -> bool {
    exists|change: Change| #[trigger]
        change_made(a, b, vdisk, change, untried(), c) && (change matches Change::Write { offset, data } && offset == 0 && data@ == spec_u64_to_le_bytes(done))
}

/// From the watermark on.
pub open spec fn sealed_up<D: Disk>(a: &Pool<D>, b: &Pool<D>, vdisk: u64, done: u64, below: u64, r: Result<(u64, u64)>) -> bool {
    exists|mid: Pool<D>, w: Result<()>| #[trigger]
        marked(a, &mid, vdisk, done, w) && match w {
            Err(e) => r == Err::<(u64, u64), FsError>(e) && *b == mid,
            Ok(_) => exists|f: Result<()>| #[trigger]
                flushed(&mid, b, f) && match f {
                    Ok(_) => r == Ok::<(u64, u64), FsError>((done, below)),
                    Err(e) => r == Err::<(u64, u64), FsError>(e),
                },
        }
}

/// From the flush of the batch on: nothing is claimed that is not durable.
pub open spec fn wound_up<D: Disk>(a: &Pool<D>, b: &Pool<D>, vdisk: u64, done: u64, below: u64, r: Result<(u64, u64)>) -> bool {
    exists|still: Pool<D>, f: Result<()>| #[trigger]
        flushed(a, &still, f) && match f {
            Err(e) => r == Err::<(u64, u64), FsError>(e) && *b == still,
            Ok(_) => exists|mid: Pool<D>, next: u64, c: Result<()>| #[trigger]
                collected_if_due(&still, &mid, below, next, c) && match c {
                    Err(e) => r == Err::<(u64, u64), FsError>(e) && *b == mid,
                    Ok(_) => sealed_up(&mid, b, vdisk, done, next, r),
                },
        }
}

/// What a round comes to: every operation of the batch, a flush, a
/// collection if one is due, the watermark, and another flush.
pub open spec fn rounded<D: Disk>(a: &Pool<D>, b: &Pool<D>, vdisk: u64, seed: u64, done: u64, blocks: u64, below: u64, r: Result<(u64, u64)>) -> bool {
    exists|steps: Seq<Pool<D>>, mid: Pool<D>, c: Result<()>| #[trigger]
        batch_run(steps, a, &mid, vdisk, seed, done, blocks, c) && match c {
            Err(e) => r == Err::<(u64, u64), FsError>(e) && *b == mid,
            Ok(_) => wound_up(&mid, b, vdisk, (done + BURN_BATCH) as u64, below, r),
        }
}

/// Make operation `n`.
fn make_op<D: Disk>(pool: &mut Pool<D>, vdisk: u64, seed: u64, n: u64, blocks: u64, unit: u32) -> (r: Result<()>)
    requires
        old(pool).inv(),
        blocks >= 2,
        blocks * unit <= u64::MAX,
    ensures
        final(pool).inv(),
        op_tried(old(pool), final(pool), vdisk, seed, n, blocks, unit, r),
{
    let (index, trim) = op_target(seed, n, blocks);
    assert(index * unit <= blocks * unit) by (nonlinear_arith)
        requires
            index < blocks,
            unit >= 0,
    ;
    let offset: u64 = index * unit as u64;
    let change = if trim {
        Change::Trim { offset, len: unit as u64 }
    } else {
        Change::Write { offset, data: op_payload(seed, n, unit as usize) }
    };
    let r = make_change(pool, vdisk, &change, Tried { checkpointed: false, collected: false });
    assert(change_made(old(pool), pool, vdisk, change, untried(), r));
    assert(asked(change, seed, n, blocks, unit));
    r
}

/// Make the next batch of operations.
fn batch<D: Disk>(pool: &mut Pool<D>, vdisk: u64, seed: u64, done: u64, blocks: u64) -> (r: Result<()>)
    requires
        old(pool).inv(),
        blocks >= 2,
        blocks * old(pool).unit() <= u64::MAX,
        done + BURN_BATCH <= u64::MAX,
    ensures
        final(pool).inv(),
        exists|steps: Seq<Pool<D>>| #[trigger] batch_run(steps, old(pool), final(pool), vdisk, seed, done, blocks, r),
{
    let unit: u32 = pool.block_size();
    let ghost mut steps: Seq<Pool<D>> = seq![*pool];
    let mut i: u64 = 0;
    while i < BURN_BATCH
        invariant
            i <= BURN_BATCH,
            pool.inv(),
            blocks >= 2,
            blocks * unit <= u64::MAX,
            unit == old(pool).unit(),
            done + BURN_BATCH <= u64::MAX,
            steps.len() == i + 1,
            steps[0] == *old(pool),
            steps.last() == *pool,
            forall|k: int| 0 <= k < steps.len() - 1 ==> #[trigger] made_at(steps, k, vdisk, seed, done, blocks, unit),
        decreases BURN_BATCH - i,
    {
        let ghost was = steps;
        let r = make_op(pool, vdisk, seed, done + 1 + i, blocks, unit);
        if let Err(e) = r {
            assert(batch_run(steps, old(pool), pool, vdisk, seed, done, blocks, r));
            return r;
        }
        proof {
            steps = steps.push(*pool);
            assert forall|k: int| 0 <= k < steps.len() - 1 implies #[trigger] made_at(steps, k, vdisk, seed, done, blocks, unit) by {
                if k < was.len() - 1 {
                    assert(made_at(was, k, vdisk, seed, done, blocks, unit));
                    assert(steps[k] == was[k] && steps[k + 1] == was[k + 1]);
                } else {
                    assert(op_tried(&steps[k], &steps[k + 1], vdisk, seed, (done + 1 + k) as u64, blocks, unit, r));
                }
            }
        }
        i += 1;
    }
    let r: Result<()> = Ok(());
    assert(batch_run(steps, old(pool), pool, vdisk, seed, done, blocks, r));
    r
}

/// Collect if it is time to. Returns the level below which to ask again.
fn collect_if_due<D: Disk>(pool: &mut Pool<D>, below: u64) -> (r: Result<u64>)
    requires
        old(pool).inv(),
    ensures
        final(pool).inv(),
        match r {
            Ok(next) => collected_if_due(old(pool), final(pool), below, next, Ok(())),
            Err(e) => collected_if_due(old(pool), final(pool), below, 0, Err(e)),
        },
{
    let space = pool.space();
    if !should_collect(&space, below) {
        return Ok(below);
    }
    let g = pool.collect_garbage();
    assert(garbage_collected(old(pool), pool, g));
    match g {
        Ok(_) => Ok(next_collect_below(space.segments_free, pool.space().segments_free)),
        Err(e) => Err(e),
    }
}

/// One round of the burn-in: the operations after `done`, then the watermark
/// that claims them. The data is durable before the watermark is written.
/// Returns the new watermark and the level below which to collect next.
pub fn round<D: Disk>(pool: &mut Pool<D>, vdisk: u64, seed: u64, done: u64, blocks: u64, collect_below: u64) -> (r: Result<(u64, u64)>)
    requires
        old(pool).inv(),
        blocks >= 2,
        blocks * old(pool).unit() <= u64::MAX,
        done + BURN_BATCH <= u64::MAX,
    ensures
        final(pool).inv(),
        rounded(old(pool), final(pool), vdisk, seed, done, blocks, collect_below, r),
        r is Ok ==> final(pool).stock().durable(),
{
    let c = batch(pool, vdisk, seed, done, blocks);
    let ghost steps = choose|steps: Seq<Pool<D>>| #[trigger] batch_run(steps, old(pool), pool, vdisk, seed, done, blocks, c);
    let ghost worked = *pool;
    assert(batch_run(steps, old(pool), &worked, vdisk, seed, done, blocks, c));
    if let Err(e) = c {
        return Err(e);
    }
    let ghost base = *pool;
    let f = pool.flush();
    let ghost still = *pool;
    assert(flushed(&base, &still, f));
    if let Err(e) = f {
        assert(wound_up(&base, pool, vdisk, (done + BURN_BATCH) as u64, collect_below, Err(e)));
        return Err(e);
    }
    let g = collect_if_due(pool, collect_below);
    let ghost mid = *pool;
    let next = match g {
        Ok(next) => next,
        Err(e) => {
            proof {
                assert(collected_if_due(&still, &mid, collect_below, 0, Err(e)));
                assert(wound_up(&base, pool, vdisk, (done + BURN_BATCH) as u64, collect_below, Err(e)));
            }
            return Err(e);
        },
    };
    let now: u64 = done + BURN_BATCH;
    let change = Change::Write { offset: 0, data: u64_to_le_bytes(now) };
    let w = make_change(pool, vdisk, &change, Tried { checkpointed: false, collected: false });
    let ghost written = *pool;
    proof {
        assert(change_made(&mid, &written, vdisk, change, untried(), w));
        assert(marked(&mid, &written, vdisk, now, w));
        assert(collected_if_due(&still, &mid, collect_below, next, Ok(())));
    }
    if let Err(e) = w {
        proof {
            assert(sealed_up(&mid, pool, vdisk, now, next, Err(e)));
            assert(wound_up(&base, pool, vdisk, now, collect_below, Err(e)));
        }
        return Err(e);
    }
    let s = pool.flush();
    let r: Result<(u64, u64)> = match s {
        Ok(()) => Ok((now, next)),
        Err(e) => Err(e),
    };
    proof {
        assert(flushed(&written, pool, s));
        assert(sealed_up(&mid, pool, vdisk, now, next, r));
        assert(wound_up(&base, pool, vdisk, now, collect_below, r));
    }
    r
}

} // verus!
