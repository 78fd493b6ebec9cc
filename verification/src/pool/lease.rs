//! Writer leases: who may write a vdisk, and how the pen changes hands.

use super::entry::WalEntry;
use super::vdisk::{history_kept, log_outcome, logged};
use super::{stock_same, Lease, Pool};
use crate::disk::Disk;
use crate::error::{FsError, Result};
use crate::slice::NodeId;
use crate::table::SortKey;
use vstd::prelude::*;

verus! {

/// A lease binds while it was granted in the era the pool is in, or later.
pub open spec fn binding(lease: Lease, era: u64) -> bool {
    lease.era >= era
}

/// Whether a node may write a vdisk.
pub open spec fn writer(leases: Map<u64, Lease>, era: u64, vdisk: u64, node: NodeId) -> bool {
    leases.contains_key(vdisk) && binding(leases[vdisk], era) && leases[vdisk].holder == node
}

/// What recording a lease comes to.
pub open spec fn lease_step<D: Disk>(before: &Pool<D>, after: &Pool<D>, vdisk: u64, lease: Lease, r: Result<()>) -> bool {
    let e = WalEntry::SetLease { vdisk, lease };
    &&& if !before.vdisk_map().contains_key(vdisk) {
        r == Err::<(), FsError>(FsError::UnknownVdisk(vdisk))
    } else {
        log_outcome(before.ring(), before.reliable(), e, r)
    }
    &&& r is Ok ==> after.lease_map() == before.lease_map().insert(vdisk, lease) && logged(
        before.ring(),
        before.stock().wal_area(),
        e,
        after.ring(),
        after.stock().wal_area(),
    )
}

/// Everything but the leases and the ring is as in `before`.
pub open spec fn only_leases<D: Disk>(before: &Pool<D>, after: &Pool<D>, r: Result<()>) -> bool {
    &&& after.inv()
    &&& history_kept(before, after)
    &&& stock_same(&before.stock(), &after.stock())
    &&& after.vdisk_map() == before.vdisk_map()
    &&& after.snapshot_map() == before.snapshot_map()
    &&& after.era_now() == before.era_now()
    &&& after.generation() == before.generation()
    &&& after.seat() == before.seat()
    &&& after.pending() == before.pending()
    &&& after.pin_map() == before.pin_map()
    &&& r is Err ==> after.lease_map() == before.lease_map() && after.ring() == before.ring()
}

impl<D: Disk> Pool<D> {
    /// Who may write this vdisk, if anyone yet has.
    pub fn lease(&self, vdisk: u64) -> (r: Option<Lease>)
        requires
            self.inv(),
        ensures
            r == if self.lease_map().contains_key(vdisk) {
                Some(self.lease_map()[vdisk])
            } else {
                None
            },
    {
        self.leases.get(&vdisk)
    }

    /// Every lease, sorted by vdisk.
    pub fn leases(&self) -> (r: Vec<(u64, Lease)>)
        requires
            self.inv(),
        ensures
            forall|i: int, j: int| 0 <= i < j < r@.len() ==> (#[trigger] r@[i]).0 < (#[trigger] r@[j]).0,
            forall|i: int| 0 <= i < r@.len() ==> self.lease_map().contains_pair((#[trigger] r@[i]).0, r@[i].1),
            forall|id: u64| #[trigger] self.lease_map().contains_key(id) ==> r@.contains((id, self.lease_map()[id])),
    {
        let n: usize = self.leases.len();
        let ghost s = self.leases.listing();
        proof {
            self.leases.lemma_listing();
        }
        let mut r: Vec<(u64, Lease)> = Vec::new();
        let mut i: usize = 0;
        while i < n
            invariant
                self.leases.wf(),
                s == self.leases.listing(),
                i <= n == s.len(),
                r@ == s.subrange(0, i as int),
            decreases n - i,
        {
            r.push(self.leases.entry_at(i));
            i += 1;
            assert(r@ =~= s.subrange(0, i as int));
        }
        proof {
            assert(r@ =~= s);
            assert forall|i: int, j: int| 0 <= i < j < r@.len() implies (#[trigger] r@[i]).0 < (#[trigger] r@[j]).0 by {
                assert(s[i].0.lt(s[j].0));
            }
            assert forall|id: u64| #[trigger] self.lease_map().contains_key(id) implies r@.contains((id, self.lease_map()[id])) by {
                let k = choose|k: int| #[trigger] crate::table::entry_for(s, id, k);
                assert(self.leases@.contains_pair(s[k].0, s[k].1));
                assert(r@[k] == (id, self.lease_map()[id]));
            }
        }
        r
    }

    /// Whether `node` may write `vdisk` right now. During a handover the
    /// holder keeps writing, so there is never an instant with two writers.
    pub fn may_write(&self, vdisk: u64, node: NodeId) -> (r: bool)
        requires
            self.inv(),
        ensures
            r == writer(self.lease_map(), self.era_now(), vdisk, node),
    {
        match self.leases.get(&vdisk) {
            Some(lease) => lease.era >= self.era && lease.holder == node,
            None => false,
        }
    }

    /// Record a lease. Durable at the next flush, replayed like any write.
    pub fn set_lease(&mut self, vdisk: u64, lease: Lease) -> (r: Result<()>)
        requires
            old(self).inv(),
        ensures
            only_leases(old(self), final(self), r),
            lease_step(old(self), final(self), vdisk, lease, r),
    {
        proof {
            self.lemma_still();
        }
        if !self.vdisks.contains(&vdisk) {
            return Err(FsError::UnknownVdisk(vdisk));
        }
        let entry = WalEntry::SetLease { vdisk, lease };
        match self.log(&entry) {
            Ok(()) => {},
            Err(e) => {
                return Err(e);
            },
        }
        self.leases.insert(vdisk, lease);
        Ok(())
    }

    /// Take the lease for `node`. Legal when the vdisk has no binding lease;
    /// refused while a peer holds it in the current era.
    pub fn claim_lease(&mut self, vdisk: u64, node: NodeId) -> (r: Result<()>)
        requires
            old(self).inv(),
        ensures
            claimed(old(self), final(self), vdisk, node, r),
    {
        proof {
            self.lemma_still();
        }
        if let Some(lease) = self.leases.get(&vdisk) {
            if lease.era >= self.era && lease.holder != node {
                return Err(FsError::LeaseHeld { vdisk, holder: lease.holder });
            }
        }
        let era: u64 = self.era;
        self.set_lease(vdisk, Lease { holder: node, handing_to: None, era })
    }

    /// Open the migration window: both nodes may hold the disk open; only
    /// the holder writes.
    pub fn begin_handover(&mut self, vdisk: u64, from: NodeId, to: NodeId) -> (r: Result<()>)
        requires
            old(self).inv(),
        ensures
            handover_begun(old(self), final(self), vdisk, from, to, r),
    {
        proof {
            self.lemma_still();
        }
        if !self.may_write(vdisk, from) {
            return Err(FsError::NotWriter(vdisk));
        }
        let era: u64 = self.era;
        self.set_lease(vdisk, Lease { holder: from, handing_to: Some(to), era })
    }

    /// The migration completed: the holder hands the pen over in one durable
    /// step, and the window closes with it. A window must already be open
    /// toward exactly this destination.
    pub fn relinquish_lease(&mut self, vdisk: u64, from: NodeId, to: NodeId) -> (r: Result<()>)
        requires
            old(self).inv(),
        ensures
            relinquished(old(self), final(self), vdisk, from, to, r),
    {
        proof {
            self.lemma_still();
        }
        let open_to = match self.leases.get(&vdisk) {
            Some(lease) => match lease.handing_to {
                Some(n) => n == to,
                None => false,
            },
            None => false,
        };
        if !open_to || !self.may_write(vdisk, from) {
            return Err(FsError::NoSuchHandover(vdisk));
        }
        let era: u64 = self.era;
        self.set_lease(vdisk, Lease { holder: to, handing_to: None, era })
    }

    /// The migration failed: the window closes and the disk stays exactly
    /// where it was.
    pub fn abort_handover(&mut self, vdisk: u64, from: NodeId) -> (r: Result<()>)
        requires
            old(self).inv(),
        ensures
            handover_aborted(old(self), final(self), vdisk, from, r),
    {
        proof {
            self.lemma_still();
        }
        if let Some(lease) = self.leases.get(&vdisk) {
            if lease.holder == from && lease.handing_to.is_some() {
                let era: u64 = lease.era;
                return self.set_lease(vdisk, Lease { holder: from, handing_to: None, era });
            }
        }
        Err(FsError::NoSuchHandover(vdisk))
    }
}

/// A vdisk has at most one writer.
pub proof fn law_one_writer(leases: Map<u64, Lease>, era: u64, vdisk: u64, a: NodeId, b: NodeId)
    requires
        writer(leases, era, vdisk, a),
        writer(leases, era, vdisk, b),
    ensures
        a == b,
{
}

/// Handing the pen over moves it exactly once: before, only the source may
/// write; after, only the destination; and an open window moves nothing.
pub proof fn law_handover_moves_the_pen_once(leases: Map<u64, Lease>, era: u64, vdisk: u64, from: NodeId, to: NodeId, node: NodeId)
    requires
        writer(leases, era, vdisk, from),
    ensures
        ({
            let window = leases.insert(vdisk, Lease { holder: from, handing_to: Some(to), era });
            let over = window.insert(vdisk, Lease { holder: to, handing_to: None, era });
            &&& writer(leases, era, vdisk, node) <==> node == from
            &&& writer(window, era, vdisk, node) <==> node == from
            &&& writer(over, era, vdisk, node) <==> node == to
        }),
{
}

/// A new era retires every lease of the ones before it.
pub proof fn law_new_era_retires_leases(leases: Map<u64, Lease>, era: u64, vdisk: u64, node: NodeId)
    requires
        leases.contains_key(vdisk) ==> leases[vdisk].era < era,
    ensures
        !writer(leases, era, vdisk, node),
{
}

/// What claiming a lease comes to.
pub open spec fn claimed<D: Disk>(before: &Pool<D>, after: &Pool<D>, vdisk: u64, node: NodeId, r: Result<()>) -> bool {
    &&& only_leases(before, after, r)
    &&& ({
        let held = before.lease_map()[vdisk];
        if before.lease_map().contains_key(vdisk) && binding(held, before.era_now()) && held.holder != node {
            r == Err::<(), FsError>(FsError::LeaseHeld { vdisk, holder: held.holder })
        } else {
            lease_step(
                before,
                after,
                vdisk,
                Lease { holder: node, handing_to: None, era: before.era_now() },
                r,
            )
        }
    })
}

/// What opening a handover window comes to.
pub open spec fn handover_begun<D: Disk>(before: &Pool<D>, after: &Pool<D>, vdisk: u64, from: NodeId, to: NodeId, r: Result<()>) -> bool {
    &&& only_leases(before, after, r)
    &&& if writer(before.lease_map(), before.era_now(), vdisk, from) {
        lease_step(
            before,
            after,
            vdisk,
            Lease { holder: from, handing_to: Some(to), era: before.era_now() },
            r,
        )
    } else {
        r == Err::<(), FsError>(FsError::NotWriter(vdisk))
    }
}

/// What handing the pen over comes to.
pub open spec fn relinquished<D: Disk>(before: &Pool<D>, after: &Pool<D>, vdisk: u64, from: NodeId, to: NodeId, r: Result<()>) -> bool {
    &&& only_leases(before, after, r)
    &&& if writer(before.lease_map(), before.era_now(), vdisk, from) && before.lease_map()[vdisk].handing_to == Some(to) {
        lease_step(
            before,
            after,
            vdisk,
            Lease { holder: to, handing_to: None, era: before.era_now() },
            r,
        )
    } else {
        r == Err::<(), FsError>(FsError::NoSuchHandover(vdisk))
    }
}

/// What closing a handover window comes to.
pub open spec fn handover_aborted<D: Disk>(before: &Pool<D>, after: &Pool<D>, vdisk: u64, from: NodeId, r: Result<()>) -> bool {
    &&& only_leases(before, after, r)
    &&& ({
        let lease = before.lease_map()[vdisk];
        if before.lease_map().contains_key(vdisk) && lease.holder == from && lease.handing_to is Some {
            lease_step(
                before,
                after,
                vdisk,
                Lease { holder: from, handing_to: None, era: lease.era },
                r,
            )
        } else {
            r == Err::<(), FsError>(FsError::NoSuchHandover(vdisk))
        }
    })
}

} // verus!
