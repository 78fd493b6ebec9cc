//! The burn-in: a deterministic workload that can be killed at any instant,
//! and the rules by which its remains are judged.
//!
//! Block 0 of the vdisk is a watermark: the number of operations the
//! workload has acknowledged. Each round writes a batch of data blocks,
//! flushes them, then writes the new watermark and flushes again. So at every
//! instant every operation at or below the stored watermark must be present
//! and exact, and the one batch above it may have landed or not. Operations
//! are derived from the seed and their number alone.

pub mod honest;
pub mod round;

use crate::brick::BrickStats;
use crate::error::FsError;
use crate::hash::BlockHash;
use crate::sim::{mixed, next_state, state_after, wrapped_product, SplitMix64};
use vstd::bytes::spec_u64_to_le_bytes;
use vstd::prelude::*;

verus! {

/// How many data operations per flushed round.
pub const BURN_BATCH: u64 = 24;

/// The roll of operation `n`.
pub open spec fn roll(seed: u64, n: u64) -> u64 {
    mixed(next_state(seed ^ wrapped_product(n, 0x9E37_79B9_7F4A_7C15)))
}

/// A byte of the payload of operation `n`.
pub open spec fn payload_byte(seed: u64, n: u64, i: int) -> u8 {
    spec_u64_to_le_bytes(mixed(state_after(seed ^ n ^ 0x5AFE_D00D_5AFE_D00D, (i / 8 + 1) as nat)))[i % 8]
}

/// The payload of operation `n`.
pub open spec fn payload_of(seed: u64, n: u64, len: nat) -> Seq<u8> {
    Seq::new(len, |i: int| payload_byte(seed, n, i))
}

/// Which block operation `n` is about, and whether it trims it. Block 0 is
/// the watermark, so data lives at `1..blocks`.
pub open spec fn target(seed: u64, n: u64, blocks: u64) -> (u64, bool) {
    ((1 + roll(seed, n) as int % (blocks - 1)) as u64, roll(seed, n) % 10 == 0)
}

pub fn op_roll(seed: u64, n: u64) -> (r: u64)
    ensures
        r == roll(seed, n),
{
    let mut rng = SplitMix64::new(seed ^ n.wrapping_mul(0x9E37_79B9_7F4A_7C15));
    rng.next_u64()
}

pub fn op_payload(seed: u64, n: u64, len: usize) -> (payload: Vec<u8>)
    ensures
        payload@ == payload_of(seed, n, len as nat),
{
    let mut rng = SplitMix64::new(seed ^ n ^ 0x5AFE_D00D_5AFE_D00D);
    let mut payload: Vec<u8> = Vec::new();
    crate::codec::pad_zeros(&mut payload, len as u64);
    rng.fill(payload.as_mut_slice());
    assert(payload@ =~= payload_of(seed, n, len as nat));
    payload
}

/// What operation `n` does: a whole-block write, or a trim one time in ten.
pub fn op_target(seed: u64, n: u64, blocks: u64) -> (r: (u64, bool))
    requires
        blocks >= 2,
    ensures
        r == target(seed, n, blocks),
        1 <= r.0 < blocks,
{
    let word: u64 = op_roll(seed, n);
    let index: u64 = 1 + word % (blocks - 1);
    (index, word % 10 == 0)
}

/// The last of the operations `first..first + count` that touched a block:
/// its number, or the fact that it was a trim.
pub open spec fn last_touch(seed: u64, first: u64, count: nat, blocks: u64, index: u64) -> Option<Option<u64>>
    decreases count,
{
    if count == 0 {
        None
    } else {
        let n = (first + count - 1) as u64;
        let (at, trim) = target(seed, n, blocks);
        if at == index {
            Some(
                if trim {
                    None
                } else {
                    Some(n)
                },
            )
        } else {
            last_touch(seed, first, (count - 1) as nat, blocks, index)
        }
    }
}

/// What a run of operations leaves at each block: nothing where it touched
/// none, and else the last write, or a trim.
pub fn replay(seed: u64, first: u64, count: u64, blocks: u64) -> (r: Vec<Option<Option<u64>>>)
    requires
        blocks >= 2,
        blocks <= usize::MAX,
        first + count <= u64::MAX,
    ensures
        r@.len() == blocks,
        forall|i: u64| i < blocks ==> #[trigger] r@[i as int] == last_touch(seed, first, count as nat, blocks, i),
{
    let mut out: Vec<Option<Option<u64>>> = Vec::new();
    let mut i: u64 = 0;
    while i < blocks
        invariant
            i <= blocks,
            out@.len() == i,
            forall|j: int| 0 <= j < i ==> #[trigger] out@[j] == None::<Option<u64>>,
        decreases blocks - i,
    {
        out.push(None);
        i += 1;
    }
    let mut done: u64 = 0;
    while done < count
        invariant
            done <= count,
            blocks >= 2,
            blocks <= usize::MAX,
            first + count <= u64::MAX,
            out@.len() == blocks,
            forall|j: u64| j < blocks ==> #[trigger] out@[j as int] == last_touch(seed, first, done as nat, blocks, j),
        decreases count - done,
    {
        let n: u64 = first + done;
        let (index, trim) = op_target(seed, n, blocks);
        let touch: Option<u64> = if trim {
            None
        } else {
            Some(n)
        };
        let ghost was = out@;
        out.set(index as usize, Some(touch));
        proof {
            assert forall|j: u64| j < blocks implies #[trigger] out@[j as int] == last_touch(seed, first, (done + 1) as nat, blocks, j) by {
                assert(was[j as int] == last_touch(seed, first, done as nat, blocks, j));
            }
        }
        done += 1;
    }
    out
}

/// What a block must hold after a run of operations: a payload, or zeros.
pub open spec fn due(seed: u64, touch: Option<u64>, len: nat) -> Seq<u8> {
    match touch {
        Some(n) => payload_of(seed, n, len),
        None => Seq::new(len, |i: int| 0u8),
    }
}

/// How a block found on the disk is judged.
#[derive(Debug, Clone, Copy, PartialEq, Eq, Structural)]
pub enum Verdict {
    /// It holds what the acknowledged history says.
    Exact,
    /// It holds what the one batch in flight would have left.
    Unacknowledged,
    /// It holds neither: a promise was broken.
    Wrong,
}

/// The judgement: `acked` is what the acknowledged history left, `in_flight`
/// what the batch after it would have.
pub open spec fn judged(seed: u64, found: Seq<u8>, acked: Option<Option<u64>>, in_flight: Option<Option<u64>>) -> Verdict {
    let owed = match acked {
        Some(touch) => touch,
        None => None,
    };
    if found == due(seed, owed, found.len()) {
        Verdict::Exact
    } else if in_flight is Some && found == due(seed, in_flight->Some_0, found.len()) {
        Verdict::Unacknowledged
    } else {
        Verdict::Wrong
    }
}

fn holds_due(seed: u64, found: &[u8], touch: Option<u64>) -> (r: bool)
    ensures
        r == (found@ == due(seed, touch, found@.len())),
{
    let want: Vec<u8> = match touch {
        Some(n) => op_payload(seed, n, found.len()),
        None => {
            let mut zeros: Vec<u8> = Vec::new();
            crate::codec::pad_zeros(&mut zeros, found.len() as u64);
            assert(zeros@ =~= Seq::new(found@.len(), |i: int| 0u8));
            zeros
        },
    };
    crate::codec::same_bytes(found, want.as_slice())
}

/// Judges one block.
pub fn judge(seed: u64, found: &[u8], acked: Option<Option<u64>>, in_flight: Option<Option<u64>>) -> (r: Verdict)
    ensures
        r == judged(seed, found@, acked, in_flight),
{
    let owed: Option<u64> = match acked {
        Some(touch) => touch,
        None => None,
    };
    if holds_due(seed, found, owed) {
        return Verdict::Exact;
    }
    if let Some(touch) = in_flight {
        if holds_due(seed, found, touch) {
            return Verdict::Unacknowledged;
        }
    }
    Verdict::Wrong
}

/// Whether to collect on the way down rather than at the bottom: fewer than
/// a quarter of the segments are free, and fewer than where collecting last
/// proved not to help.
pub fn should_collect(space: &BrickStats, collect_below: u64) -> (r: bool)
    ensures
        r == (space.segments_free < space.segments_total / 4 && space.segments_free < collect_below),
{
    space.segments_free < space.segments_total / 4 && space.segments_free < collect_below
}

/// The level below which to ask again: a collection that gained nothing
/// lowers it.
pub fn next_collect_below(before: u64, after: u64) -> (r: u64)
    ensures
        r == if after > before {
            u64::MAX
        } else if before == 0 {
            0
        } else {
            (before - 1) as u64
        },
{
    if after > before {
        u64::MAX
    } else if before == 0 {
        0
    } else {
        before - 1
    }
}

/// What makes room for an operation that found none.
#[derive(Debug, Clone, Copy, PartialEq, Eq, Structural)]
pub enum Remedy {
    /// A full ring wants a checkpoint.
    Checkpoint,
    /// A full brick wants a collection.
    Collect,
}

/// Which remedies an operation has had. A collection checkpoints on the way
/// in, so it counts as both.
#[derive(Debug, Clone, Copy, PartialEq, Eq, Structural)]
pub struct Tried {
    pub checkpointed: bool,
    pub collected: bool,
}

/// The remedy for an error, if there is one that was not tried yet.
pub open spec fn remedy_for(err: FsError, tried: Tried) -> Option<Remedy> {
    if err is WalFull && !tried.checkpointed {
        Some(Remedy::Checkpoint)
    } else if err is Full && !tried.collected {
        Some(Remedy::Collect)
    } else {
        None
    }
}

/// What has been tried once a remedy has.
pub open spec fn after_remedy(tried: Tried, remedy: Remedy) -> Tried {
    match remedy {
        Remedy::Checkpoint => Tried { checkpointed: true, ..tried },
        Remedy::Collect => Tried { checkpointed: true, collected: true },
    }
}

/// Each remedy is tried at most once per operation, so a genuinely full pool
/// surfaces its error instead of spinning.
pub fn remedy(err: &FsError, tried: &mut Tried) -> (r: Option<Remedy>)
    ensures
        r == remedy_for(*err, *old(tried)),
        *final(tried) == match r {
            Some(remedy) => after_remedy(*old(tried), remedy),
            None => *old(tried),
        },
{
    match err {
        FsError::WalFull => if !tried.checkpointed {
            tried.checkpointed = true;
            Some(Remedy::Checkpoint)
        } else {
            None
        },
        FsError::Full => if !tried.collected {
            tried.collected = true;
            tried.checkpointed = true;
            Some(Remedy::Collect)
        } else {
            None
        },
        _ => None,
    }
}

/// How many remedies are left.
pub open spec fn remedies_left(tried: Tried) -> nat {
    (if tried.checkpointed {
        0nat
    } else {
        1nat
    }) + (if tried.collected {
        0nat
    } else {
        1nat
    })
}

/// Making room ends: every remedy uses one up.
pub proof fn law_remedies_run_out(err: FsError, tried: Tried)
    ensures
        remedy_for(err, tried) matches Some(remedy) ==> remedies_left(after_remedy(tried, remedy)) < remedies_left(tried),
        remedies_left(tried) == 0 ==> remedy_for(err, tried) is None,
{
}

/// A block that the acknowledged history left exact is never judged wrong,
/// whatever was in flight.
pub proof fn law_acknowledged_blocks_are_exact(seed: u64, acked: Option<Option<u64>>, in_flight: Option<Option<u64>>, len: nat)
    ensures
        judged(
            seed,
            due(
                seed,
                match acked {
                    Some(touch) => touch,
                    None => None,
                },
                len,
            ),
            acked,
            in_flight,
        ) == Verdict::Exact,
{
    let owed = match acked {
        Some(touch) => touch,
        None => None,
    };
    assert(due(seed, owed, len).len() == len);
}

/// Segment and ring sizes for a disk: small backing files get small
/// geometry.
pub fn geometry(disk_bytes: u64) -> (r: (u64, u64))
    ensures
        r == if disk_bytes >= 0x4000_0000 {
            (0x400_0000u64, 0x400_0000u64)
        } else {
            (0x40_0000u64, 0x80_0000u64)
        },
{
    if disk_bytes >= 0x4000_0000 {
        (0x400_0000, 0x400_0000)
    } else {
        (0x40_0000, 0x80_0000)
    }
}

/// A pool identity and a brick identity out of one hash: its two halves.
pub fn identities(seed: &BlockHash) -> (r: ([u8; 16], [u8; 16]))
    ensures
        r.0@ == seed.0@.subrange(0, 16),
        r.1@ == seed.0@.subrange(16, 32),
{
    let pool = crate::codec::get_16(seed.0.as_slice(), 0);
    let brick = crate::codec::get_16(seed.0.as_slice(), 16);
    (pool, brick)
}

} // verus!
