//! Running a replicated operation against a pool.
//!
//! The writer runs an op here before it sends it, and its peers run the same
//! op here when it arrives, so both ends are held to one contract.

use super::wire::ReplOp;
use crate::disk::Disk;
use crate::error::{FsError, Result};
use crate::pool::checkpoint::checkpointed;
use crate::pool::lease::{lease_step, only_leases};
use crate::pool::snapshot::{cloned, rolled_back, snapshot_deleted, snapshotted};
use crate::pool::vdisk::{created, deleted, mapped_to, trimmed};
use crate::pool::Pool;
use vstd::prelude::*;

verus! {

/// What one try at an op comes to: what the pool call behind it does.
pub open spec fn op_step<D: Disk>(before: &Pool<D>, after: &Pool<D>, op: ReplOp, r: Result<()>) -> bool {
    match op {
        ReplOp::CreateVdisk { id, size_bytes, tier } => created(before, after, id, size_bytes, tier, r),
        ReplOp::Write { vdisk, index, hash } => mapped_to(before, after, vdisk, index, hash, r),
        ReplOp::Trim { vdisk, index } => trimmed(before, after, vdisk, index, r),
        ReplOp::DeleteVdisk { id } => deleted(before, after, id, r),
        ReplOp::Snapshot { vdisk, snapshot } => snapshotted(before, after, vdisk, snapshot, r),
        ReplOp::DeleteSnapshot { vdisk, snapshot } => snapshot_deleted(before, after, vdisk, snapshot, r),
        ReplOp::Rollback { vdisk, snapshot } => rolled_back(before, after, vdisk, snapshot, r),
        ReplOp::Clone { new_id, vdisk, snapshot } => cloned(before, after, new_id, vdisk, snapshot, r),
        ReplOp::SetLease { vdisk, lease } => only_leases(before, after, r) && lease_step(before, after, vdisk, lease, r),
    }
}

/// An op that is tried again after a checkpoint when the ring is full.
pub open spec fn makes_room(op: ReplOp) -> bool {
    op is CreateVdisk || op is Write || op is Trim || op is DeleteVdisk
}

/// The first try found the ring full, and a checkpoint was made before the
/// second.
pub open spec fn retried<D: Disk>(before: &Pool<D>, full: &Pool<D>, room: &Pool<D>, after: &Pool<D>, op: ReplOp, c: Result<()>, r: Result<()>) -> bool {
    &&& op_step(before, full, op, Err(FsError::WalFull))
    &&& checkpointed(full, room, c)
    &&& match c {
        Err(e) => r == Err::<(), FsError>(e) && *after == *room,
        Ok(_) => op_step(room, after, op, r),
    }
}

/// What running an op comes to.
pub open spec fn op_done<D: Disk>(before: &Pool<D>, after: &Pool<D>, op: ReplOp, r: Result<()>) -> bool {
    ||| op_step(before, after, op, r) && (makes_room(op) ==> r != Err::<(), FsError>(FsError::WalFull))
    ||| makes_room(op) && exists|full: Pool<D>, room: Pool<D>, c: Result<()>| #[trigger] retried(before, &full, &room, after, op, c, r)
}

fn try_op<D: Disk>(pool: &mut Pool<D>, op: ReplOp) -> (r: Result<()>)
    requires
        old(pool).inv(),
    ensures
        op_step(old(pool), final(pool), op, r),
        final(pool).inv(),
{
    match op {
        ReplOp::CreateVdisk { id, size_bytes, tier } => pool.create_vdisk(id, size_bytes, tier),
        ReplOp::Write { vdisk, index, hash } => pool.write_block_prehashed(vdisk, index, hash),
        ReplOp::Trim { vdisk, index } => pool.trim_block(vdisk, index),
        ReplOp::DeleteVdisk { id } => pool.delete_vdisk(id),
        ReplOp::Snapshot { vdisk, snapshot } => pool.snapshot_vdisk(vdisk, snapshot),
        ReplOp::DeleteSnapshot { vdisk, snapshot } => pool.delete_snapshot(vdisk, snapshot),
        ReplOp::Rollback { vdisk, snapshot } => pool.rollback_vdisk(vdisk, snapshot),
        ReplOp::Clone { new_id, vdisk, snapshot } => pool.clone_vdisk(new_id, vdisk, snapshot),
        ReplOp::SetLease { vdisk, lease } => pool.set_lease(vdisk, lease),
    }
}

/// Runs an op. Local ring pressure is local business: checkpoint and go
/// again.
pub(super) fn run_op<D: Disk>(pool: &mut Pool<D>, op: ReplOp) -> (r: Result<()>)
    requires
        old(pool).inv(),
    ensures
        op_done(old(pool), final(pool), op, r),
        final(pool).inv(),
{
    let ghost before = *pool;
    let r = try_op(pool, op);
    let roomy: bool = matches!(op, ReplOp::CreateVdisk { .. } | ReplOp::Write { .. } | ReplOp::Trim { .. } | ReplOp::DeleteVdisk { .. });
    if let Err(FsError::WalFull) = r {
        if roomy {
            let ghost full = *pool;
            let c = pool.checkpoint();
            let ghost room = *pool;
            match c {
                Err(e) => {
                    assert(retried(&before, &full, &room, pool, op, c, Err(e)));
                    return Err(e);
                },
                Ok(_) => {
                    let again = try_op(pool, op);
                    assert(retried(&before, &full, &room, pool, op, c, again));
                    return again;
                },
            }
        }
    }
    r
}

/// Neither the map a pool is placed by nor what its sessions have pinned
/// changes when an op runs, and its era stays.
pub proof fn law_ops_keep_the_seat<D: Disk>(before: &Pool<D>, after: &Pool<D>, op: ReplOp, r: Result<()>)
    requires
        op_done(before, after, op, r),
    ensures
        after.inv(),
        after.seat() == before.seat(),
        after.pending() == before.pending(),
        after.pin_map() == before.pin_map(),
        after.era_now() == before.era_now(),
{
}

} // verus!
