//! Who holds the pen: the node's side of the writer leases.

use super::guest::idle;
use super::wire::ReplOp;
use super::{NodeView, ReplNode, ReplState};
use crate::disk::Disk;
use crate::error::{FsError, Result};
use crate::pool::lease::{binding, claimed, handover_aborted, handover_begun, relinquished, writer};
use crate::pool::Pool;
use crate::slice::NodeId;
use vstd::prelude::*;

verus! {

/// A node after a lease change: where it went through, the peers are sent
/// the lease it settled on rather than the request.
pub open spec fn lease_told<D: Disk>(before: &ReplNode<D>, after: &ReplNode<D>, vdisk: u64, r: Result<()>) -> bool {
    after@ == if r is Ok {
        before@.sent(seq![ReplOp::SetLease { vdisk, lease: after.engine().lease_map()[vdisk] }], None)
    } else {
        before@
    }
}

/// A stale lease whose holder may still be writing.
pub open spec fn live_holder<D: Disk>(v: NodeView, pool: &Pool<D>, vdisk: u64) -> bool {
    let lease = pool.lease_map()[vdisk];
    pool.lease_map().contains_key(vdisk) && !binding(lease, pool.era_now()) && lease.holder != v.node && !v.fenced(lease.holder)
}

/// What claiming the pen comes to.
pub open spec fn pen_claimed<D: Disk>(before: &ReplNode<D>, after: &ReplNode<D>, vdisk: u64, r: Result<()>) -> bool {
    if live_holder(before@, &before.engine(), vdisk) {
        r == Err::<(), FsError>(FsError::LeaseHeld { vdisk, holder: before.engine().lease_map()[vdisk].holder }) && idle(before, after)
    } else if !before@.serving() {
        r == Err::<(), FsError>(FsError::Suspended) && idle(before, after)
    } else {
        claimed(&before.engine(), &after.engine(), vdisk, before@.node, r) && lease_told(before, after, vdisk, r)
    }
}

/// What offering the pen comes to.
pub open spec fn pen_offered<D: Disk>(before: &ReplNode<D>, after: &ReplNode<D>, vdisk: u64, to: NodeId, r: Result<()>) -> bool {
    if !before@.serving() {
        r == Err::<(), FsError>(FsError::Suspended) && idle(before, after)
    } else {
        handover_begun(&before.engine(), &after.engine(), vdisk, before@.node, to, r) && lease_told(before, after, vdisk, r)
    }
}

/// What giving the pen away comes to.
pub open spec fn pen_given<D: Disk>(before: &ReplNode<D>, after: &ReplNode<D>, vdisk: u64, to: NodeId, r: Result<()>) -> bool {
    if !before@.serving() {
        r == Err::<(), FsError>(FsError::Suspended) && idle(before, after)
    } else {
        relinquished(&before.engine(), &after.engine(), vdisk, before@.node, to, r) && lease_told(before, after, vdisk, r)
    }
}

/// What calling a handover off comes to.
pub open spec fn pen_kept<D: Disk>(before: &ReplNode<D>, after: &ReplNode<D>, vdisk: u64, r: Result<()>) -> bool {
    if !before@.serving() {
        r == Err::<(), FsError>(FsError::Suspended) && idle(before, after)
    } else {
        handover_aborted(&before.engine(), &after.engine(), vdisk, before@.node, r) && lease_told(before, after, vdisk, r)
    }
}

/// What accepting the pen comes to.
pub open spec fn pen_accepted<D: Disk>(node: &ReplNode<D>, vdisk: u64, r: Result<()>) -> bool {
    let pool = node.engine();
    if node@.state() == ReplState::Suspended {
        r == Err::<(), FsError>(FsError::Suspended)
    } else if writer(pool.lease_map(), pool.era_now(), vdisk, node@.node) && pool.lease_map()[vdisk].handing_to is None {
        r is Ok
    } else {
        r == Err::<(), FsError>(FsError::NoSuchHandover(vdisk))
    }
}

impl<D: Disk> ReplNode<D> {
    /// Take the writer role for a vdisk. A stale lease is claimable only
    /// when its holder is fenced, or is this node: the era retired the
    /// lease's authority, not the machine.
    pub fn claim_writer(&mut self, vdisk: u64) -> (r: Result<()>)
        requires
            old(self).inv(),
        ensures
            final(self).inv(),
            pen_claimed(old(self), final(self), vdisk, r),
    {
        if let Some(lease) = self.pool.lease(vdisk) {
            let stale: bool = lease.era < self.pool.era();
            if stale && lease.holder != self.node && !self.is_fenced(lease.holder) {
                return Err(FsError::LeaseHeld { vdisk, holder: lease.holder });
            }
        }
        if !self.serving() {
            return Err(FsError::Suspended);
        }
        let node: NodeId = self.node;
        let r = self.pool.claim_lease(vdisk, node);
        self.tell_lease(vdisk, r)
    }

    /// Open the migration window. The guest keeps running, and writing,
    /// here; the destination may open the disk alongside.
    pub fn begin_handover(&mut self, vdisk: u64, to: NodeId) -> (r: Result<()>)
        requires
            old(self).inv(),
        ensures
            final(self).inv(),
            pen_offered(old(self), final(self), vdisk, to, r),
    {
        if !self.serving() {
            return Err(FsError::Suspended);
        }
        let node: NodeId = self.node;
        let r = self.pool.begin_handover(vdisk, node, to);
        self.tell_lease(vdisk, r)
    }

    /// Hand the pen to the destination: the instant this node stops being
    /// the writer and the other starts. Runs on the source.
    pub fn relinquish(&mut self, vdisk: u64, to: NodeId) -> (r: Result<()>)
        requires
            old(self).inv(),
        ensures
            final(self).inv(),
            pen_given(old(self), final(self), vdisk, to, r),
    {
        if !self.serving() {
            return Err(FsError::Suspended);
        }
        let node: NodeId = self.node;
        let r = self.pool.relinquish_lease(vdisk, node, to);
        self.tell_lease(vdisk, r)
    }

    /// Confirm the pen is here and settled: the destination's half of a
    /// migration, and a question rather than an act. Nothing here can take
    /// a lease.
    pub fn accept_handover(&mut self, vdisk: u64) -> (r: Result<()>)
        requires
            old(self).inv(),
        ensures
            final(self).inv(),
            idle(old(self), final(self)),
            pen_accepted(old(self), vdisk, r),
    {
        if let ReplState::Suspended = self.state() {
            return Err(FsError::Suspended);
        }
        let settled: bool = match self.pool.lease(vdisk) {
            Some(lease) => lease.handing_to.is_none(),
            None => false,
        };
        if settled && self.pool.may_write(vdisk, self.node) {
            Ok(())
        } else {
            Err(FsError::NoSuchHandover(vdisk))
        }
    }

    /// The migration failed. The window closes and the disk stays where it
    /// was.
    pub fn abort_handover(&mut self, vdisk: u64) -> (r: Result<()>)
        requires
            old(self).inv(),
        ensures
            final(self).inv(),
            pen_kept(old(self), final(self), vdisk, r),
    {
        if !self.serving() {
            return Err(FsError::Suspended);
        }
        let node: NodeId = self.node;
        let r = self.pool.abort_handover(vdisk, node);
        self.tell_lease(vdisk, r)
    }

    /// Replicate whatever a lease change settled on.
    fn tell_lease(&mut self, vdisk: u64, r: Result<()>) -> (result: Result<()>)
        requires
            old(self).inv(),
            r is Ok ==> old(self).engine().lease_map().contains_key(vdisk),
        ensures
            final(self).inv(),
            final(self).engine() == old(self).engine(),
            result == r,
            lease_told(old(self), final(self), vdisk, r),
    {
        if r.is_ok() {
            if let Some(lease) = self.pool.lease(vdisk) {
                let ops: Vec<ReplOp> = vec![ReplOp::SetLease { vdisk, lease }];
                assert(ops@ =~= seq![ReplOp::SetLease { vdisk, lease }]);
                self.send_ops(ops);
            }
        }
        r
    }
}

/// A node takes no lease from a member that may still be writing: a claim
/// succeeds only where no lease stands, this node held it, or the one that
/// stood was retired by an era and its holder is fenced.
pub proof fn law_no_claim_from_a_live_writer<D: Disk>(before: &ReplNode<D>, after: &ReplNode<D>, vdisk: u64)
    requires
        !live_holder(before@, &before.engine(), vdisk),
        claimed(&before.engine(), &after.engine(), vdisk, before@.node, Ok(())),
        before.engine().lease_map().contains_key(vdisk),
    ensures
        ({
            let lease = before.engine().lease_map()[vdisk];
            lease.holder == before@.node || (!binding(lease, before.engine().era_now()) && before@.fenced(lease.holder))
        }),
{
}

} // verus!
