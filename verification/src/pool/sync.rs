//! The replication layer's entry points: pins, offers and adoption.

use super::checkpoint::checkpointed;
use super::snapshot::same_ground;
use super::{views_of, Lease, Pool, SessionPins, SnapshotState, VdiskState, VdiskView};
use crate::brick_set::ops::tier_exists;
use crate::disk::Disk;
use crate::error::{FsError, Result};
use crate::hash::BlockHash;
use crate::slice::NodeId;
use crate::table::{SnapshotId, SortKey, SortedMap, TierHash};
use vstd::prelude::*;

verus! {

/// One vdisk in a sync offer: id, size, tier, checkpointed root.
pub type VdiskOffer = (u64, u64, u8, Option<BlockHash>);

/// One snapshot in a sync offer: vdisk, snapshot, size, pinned root.
pub type SnapshotOffer = (u64, u64, u64, Option<BlockHash>);

/// How much of the pool an adoption replaces. `Whole` discards everything
/// the offer does not name; `Named` replaces only the vdisks the offer
/// carries and leaves the rest standing.
#[derive(Debug, Clone, Copy, PartialEq, Eq, Structural)]
pub enum AdoptScope {
    Whole,
    Named,
}

/// A pool that differs in nothing but its pins.
pub open spec fn only_pins<D: Disk>(a: &Pool<D>, b: &Pool<D>) -> bool {
    &&& b.inv()
    &&& b.stock() == a.stock()
    &&& b.ring() == a.ring()
    &&& b.vdisk_map() == a.vdisk_map()
    &&& b.snapshot_map() == a.snapshot_map()
    &&& b.lease_map() == a.lease_map()
    &&& b.era_now() == a.era_now()
    &&& b.generation() == a.generation()
    &&& b.seat() == a.seat()
    &&& b.pending() == a.pending()
    &&& b.manifest_view() == a.manifest_view()
}

/// The roots a session has pinned.
pub open spec fn pinned_roots<D: Disk>(pool: &Pool<D>, peer: NodeId) -> Seq<(BlockHash, u32, u8)> {
    if pool.pin_map().contains_key(peer as u64) {
        pool.pin_map()[peer as u64].offer@
    } else {
        Seq::empty()
    }
}

/// The blocks a session has pinned ahead of their ops.
pub open spec fn pinned_blocks<D: Disk>(pool: &Pool<D>, peer: NodeId) -> Set<TierHash> {
    if pool.pin_map().contains_key(peer as u64) {
        pool.pin_map()[peer as u64].inflight@.dom()
    } else {
        Set::empty()
    }
}

/// Every session but one is as it was.
pub open spec fn other_pins<D: Disk>(a: &Pool<D>, b: &Pool<D>, peer: NodeId) -> bool {
    forall|p: u64| p != peer as u64 ==> (#[trigger] b.pin_map().contains_key(p) == a.pin_map().contains_key(p)) && (a.pin_map().contains_key(p)
        ==> b.pin_map()[p] == a.pin_map()[p])
}

/// The snapshot an offer speaks of.
pub open spec fn offer_key(o: SnapshotOffer) -> SnapshotId {
    SnapshotId { vdisk: o.0, snapshot: o.1 }
}

/// Every vdisk and every snapshot a pool has, as an offer lists them.
pub open spec fn offered_whole<D: Disk>(pool: &Pool<D>, vdisks: Seq<VdiskOffer>, snapshots: Seq<SnapshotOffer>) -> bool {
    &&& forall|i: int, j: int| 0 <= i < j < vdisks.len() ==> (#[trigger] vdisks[i]).0 < (#[trigger] vdisks[j]).0
    &&& forall|i: int| 0 <= i < vdisks.len() ==> pool.vdisk_map().contains_key((#[trigger] vdisks[i]).0) && vdisks[i] == vdisk_offer(pool.vdisk_map(), vdisks[i].0)
    &&& forall|id: u64| #[trigger] pool.vdisk_map().contains_key(id) ==> vdisks.contains(vdisk_offer(pool.vdisk_map(), id))
    &&& forall|i: int, j: int| 0 <= i < j < snapshots.len() ==> offer_key(#[trigger] snapshots[i]).lt(offer_key(#[trigger] snapshots[j]))
    &&& forall|i: int| 0 <= i < snapshots.len() ==> snapshot_offered(pool.snapshot_map(), #[trigger] snapshots[i])
    &&& forall|key: SnapshotId| #[trigger] pool.snapshot_map().contains_key(key) ==> snapshots.contains(snapshot_offer(pool.snapshot_map(), key))
}

/// A vdisk as an offer gives it.
pub open spec fn offered_view(o: VdiskOffer) -> VdiskView {
    VdiskView { size_bytes: o.1, tier: o.2, root: o.3, dirty: Map::empty() }
}

/// Vdisks after an offer's have been laid over them; the later of two wins.
pub open spec fn offered_vdisks(base: Map<u64, VdiskView>, s: Seq<VdiskOffer>) -> Map<u64, VdiskView>
    decreases s.len(),
{
    if s.len() == 0 {
        base
    } else {
        offered_vdisks(base, s.drop_last()).insert(s.last().0, offered_view(s.last()))
    }
}

/// Snapshots after an offer's have been laid over them.
pub open spec fn offered_snapshots(base: Map<SnapshotId, SnapshotState>, s: Seq<SnapshotOffer>) -> Map<SnapshotId, SnapshotState>
    decreases s.len(),
{
    if s.len() == 0 {
        base
    } else {
        offered_snapshots(base, s.drop_last()).insert(
            SnapshotId { vdisk: s.last().0, snapshot: s.last().1 },
            SnapshotState { size_bytes: s.last().2, root: s.last().3 },
        )
    }
}

/// Leases after an offer's have been laid over them.
pub open spec fn offered_leases(base: Map<u64, Lease>, s: Seq<(u64, Lease)>) -> Map<u64, Lease>
    decreases s.len(),
{
    if s.len() == 0 {
        base
    } else {
        offered_leases(base, s.drop_last()).insert(s.last().0, s.last().1)
    }
}

/// The offer names the vdisk.
pub open spec fn offers(s: Seq<VdiskOffer>, id: u64) -> bool {
    exists|i: int| 0 <= i < s.len() && (#[trigger] s[i]).0 == id
}

/// Why an offer cannot be adopted, if it cannot: a vdisk on a tier this set
/// lacks, or a root the store does not hold.
pub open spec fn adopt_fault<D: Disk>(pool: &Pool<D>, vdisks: Seq<VdiskOffer>, snapshots: Seq<SnapshotOffer>, n: nat) -> Option<FsError>
    decreases n,
{
    if n == 0 {
        None
    } else {
        match adopt_fault(pool, vdisks, snapshots, (n - 1) as nat) {
            Some(e) => Some(e),
            None => if n <= vdisks.len() {
                let o = vdisks[n - 1];
                if !tier_exists(pool.stock().members(), o.2) {
                    Some(FsError::NoSuchTier(o.2))
                } else if o.3 matches Some(root) && !pool.holds(0).contains(root) {
                    Some(FsError::Corrupt("adopting a root the store does not hold"))
                } else {
                    None
                }
            } else {
                let o = snapshots[n - 1 - vdisks.len()];
                if o.3 matches Some(root) && !pool.holds(0).contains(root) {
                    Some(FsError::Corrupt("adopting a root the store does not hold"))
                } else {
                    None
                }
            },
        }
    }
}

/// The pool with an offer's tables in place.
pub open spec fn adopted<D: Disk>(
    a: &Pool<D>,
    b: &Pool<D>,
    era: u64,
    vdisks: Seq<VdiskOffer>,
    snapshots: Seq<SnapshotOffer>,
    leases: Seq<(u64, Lease)>,
    scope: AdoptScope,
) -> bool {
    &&& same_ground(a, b)
    &&& b.seat() == a.seat()
    &&& b.pending() == a.pending()
    &&& b.era_now() == era
    &&& match scope {
        AdoptScope::Whole => {
            &&& b.vdisk_map() == offered_vdisks(Map::empty(), vdisks)
            &&& b.snapshot_map() == offered_snapshots(Map::empty(), snapshots)
            &&& b.lease_map() == offered_leases(Map::empty(), leases)
        },
        AdoptScope::Named => {
            &&& b.vdisk_map() == offered_vdisks(a.vdisk_map().remove_keys(named_ids(vdisks)), vdisks)
            &&& b.snapshot_map() == offered_snapshots(without_vdisks(a.snapshot_map(), named_ids(vdisks)), snapshots)
            &&& b.lease_map() == offered_leases(a.lease_map().remove_keys(named_ids(vdisks)), leases)
        },
    }
}

/// The ids an offer names.
pub open spec fn named_ids(s: Seq<VdiskOffer>) -> Set<u64> {
    Set::new(|id: u64| offers(s, id))
}

/// Snapshots but those of some vdisks.
pub open spec fn without_vdisks(m: Map<SnapshotId, SnapshotState>, ids: Set<u64>) -> Map<SnapshotId, SnapshotState> {
    Map::new(|key: SnapshotId| m.contains_key(key) && !ids.contains(key.vdisk), |key: SnapshotId| m[key])
}

/// Snapshots of some vdisks only.
pub open spec fn of_vdisks(m: Map<SnapshotId, SnapshotState>, ids: Set<u64>) -> Map<SnapshotId, SnapshotState> {
    Map::new(|key: SnapshotId| m.contains_key(key) && ids.contains(key.vdisk), |key: SnapshotId| m[key])
}

impl<D: Disk> Pool<D> {
    /// Take a session's pins out of the table, or none at all.
    fn take_pins(&mut self, peer: NodeId) -> (pins: SessionPins)
        requires
            old(self).inv(),
        ensures
            only_pins(old(self), final(self)),
            other_pins(old(self), final(self), peer),
            !final(self).pin_map().contains_key(peer as u64),
            pins.offer@ == pinned_roots(old(self), peer),
            pins.inflight.wf(),
            pins.inflight@.dom() == pinned_blocks(old(self), peer),
    {
        let ghost before = *self;
        let r = match self.session_pins.take(&(peer as u64)) {
            Some(pins) => pins,
            None => SessionPins { offer: Vec::new(), inflight: SortedMap::new() },
        };
        proof {
            self.lemma_manifest_same(&before);
            assert(r.offer@ =~= pinned_roots(&before, peer));
            assert(r.inflight@.dom() =~= pinned_blocks(&before, peer));
            assert forall|p: u64| #[trigger] self.session_pins@.contains_key(p) implies self.session_pins@[p].inflight.wf() by {
                assert(before.session_pins@.contains_key(p));
            }
        }
        r
    }

    fn put_pins(&mut self, peer: NodeId, pins: SessionPins)
        requires
            old(self).inv(),
            pins.inflight.wf(),
        ensures
            only_pins(old(self), final(self)),
            other_pins(old(self), final(self), peer),
            final(self).pin_map().contains_key(peer as u64),
            final(self).pin_map()[peer as u64] == pins,
    {
        let ghost before = *self;
        self.session_pins.insert(peer as u64, pins);
        proof {
            self.lemma_manifest_same(&before);
            assert forall|p: u64| #[trigger] self.session_pins@.contains_key(p) implies self.session_pins@[p].inflight.wf() by {
                if p != peer as u64 {
                    assert(before.session_pins@.contains_key(p));
                }
            }
        }
    }

    /// Hold these roots live through collections for one peer's session.
    pub fn pin_sync(&mut self, peer: NodeId, pins: Vec<(BlockHash, u32, u8)>)
        requires
            old(self).inv(),
        ensures
            only_pins(old(self), final(self)),
            other_pins(old(self), final(self), peer),
            pinned_roots(final(self), peer) == pins@,
            pinned_blocks(final(self), peer) == pinned_blocks(old(self), peer),
    {
        let mut held = self.take_pins(peer);
        held.offer = pins;
        self.put_pins(peer, held);
    }

    /// This peer's resync is over: its offer pins come off.
    pub fn unpin_sync(&mut self, peer: NodeId)
        requires
            old(self).inv(),
        ensures
            only_pins(old(self), final(self)),
            other_pins(old(self), final(self), peer),
            pinned_roots(final(self), peer) == Seq::<(BlockHash, u32, u8)>::empty(),
            pinned_blocks(final(self), peer) == pinned_blocks(old(self), peer),
    {
        let mut held = self.take_pins(peer);
        held.offer = Vec::new();
        self.put_pins(peer, held);
        assert(pinned_roots(self, peer) =~= Seq::<(BlockHash, u32, u8)>::empty());
    }

    /// A payload arrived on this peer's session ahead of the op that will
    /// reference it.
    pub fn pin_inflight(&mut self, peer: NodeId, tier: u8, hash: BlockHash)
        requires
            old(self).inv(),
        ensures
            only_pins(old(self), final(self)),
            other_pins(old(self), final(self), peer),
            pinned_roots(final(self), peer) == pinned_roots(old(self), peer),
            pinned_blocks(final(self), peer) == pinned_blocks(old(self), peer).insert(TierHash { tier, hash }),
    {
        let mut held = self.take_pins(peer);
        held.inflight.insert(TierHash { tier, hash }, ());
        self.put_pins(peer, held);
        assert(pinned_blocks(self, peer) =~= pinned_blocks(old(self), peer).insert(TierHash { tier, hash }));
    }

    /// The op referencing this payload landed.
    pub fn clear_inflight(&mut self, peer: NodeId, tier: u8, hash: &BlockHash)
        requires
            old(self).inv(),
        ensures
            only_pins(old(self), final(self)),
            other_pins(old(self), final(self), peer),
            pinned_roots(final(self), peer) == pinned_roots(old(self), peer),
            pinned_blocks(final(self), peer) == pinned_blocks(old(self), peer).remove(TierHash { tier, hash: *hash }),
    {
        let mut held = self.take_pins(peer);
        let _ = held.inflight.remove(&TierHash { tier, hash: *hash });
        self.put_pins(peer, held);
        assert(pinned_blocks(self, peer) =~= pinned_blocks(old(self), peer).remove(TierHash { tier, hash: *hash }));
    }

    /// The peer's session died: every claim it held comes off.
    pub fn drop_session_pins(&mut self, peer: NodeId)
        requires
            old(self).inv(),
        ensures
            only_pins(old(self), final(self)),
            other_pins(old(self), final(self), peer),
            !final(self).pin_map().contains_key(peer as u64),
    {
        let _ = self.take_pins(peer);
    }

    /// The settled state a resync source offers: era, vdisks, snapshots.
    pub fn sync_manifest(&self) -> (r: (u64, Vec<VdiskOffer>, Vec<SnapshotOffer>))
        requires
            self.inv(),
        ensures
            r.0 == self.era_now(),
            offered_whole(self, r.1@, r.2@),
    {
        let mut vdisks: Vec<VdiskOffer> = Vec::new();
        let n: usize = self.vdisks.len();
        let ghost s = self.vdisks.listing();
        proof {
            self.vdisks.lemma_listing();
            self.snapshots.lemma_listing();
        }
        let mut i: usize = 0;
        while i < n
            invariant
                self.vdisks.wf(),
                s == self.vdisks.listing(),
                i <= n == s.len(),
                vdisks@.len() == i,
                forall|k: int| 0 <= k < i ==> #[trigger] vdisks@[k] == (s[k].0, s[k].1.size_bytes, s[k].1.tier, s[k].1.root),
            decreases n - i,
        {
            let id: u64 = self.vdisks.key_at(i);
            let state = self.vdisks.value_at(i);
            vdisks.push((id, state.size_bytes, state.tier, state.root));
            i += 1;
        }
        let mut snapshots: Vec<SnapshotOffer> = Vec::new();
        let n: usize = self.snapshots.len();
        let ghost t = self.snapshots.listing();
        let mut i: usize = 0;
        while i < n
            invariant
                self.snapshots.wf(),
                t == self.snapshots.listing(),
                i <= n == t.len(),
                snapshots@.len() == i,
                forall|k: int| 0 <= k < i ==> #[trigger] snapshots@[k] == (t[k].0.vdisk, t[k].0.snapshot, t[k].1.size_bytes, t[k].1.root),
            decreases n - i,
        {
            let (key, state) = self.snapshots.entry_at(i);
            snapshots.push((key.vdisk, key.snapshot, state.size_bytes, state.root));
            i += 1;
        }
        proof {
            assert forall|i: int, j: int| 0 <= i < j < vdisks@.len() implies (#[trigger] vdisks@[i]).0 < (#[trigger] vdisks@[j]).0 by {
                assert(s[i].0.lt(s[j].0));
            }
            assert forall|k: int| 0 <= k < vdisks@.len() implies self.vdisk_map().contains_key((#[trigger] vdisks@[k]).0) && vdisks@[k] == vdisk_offer(self.vdisk_map(), vdisks@[k].0) by {
                assert(self.vdisks@.contains_pair(s[k].0, s[k].1));
            }
            assert forall|id: u64| #[trigger] self.vdisk_map().contains_key(id) implies vdisks@.contains(vdisk_offer(self.vdisk_map(), id)) by {
                assert(self.vdisks@.contains_key(id));
                let k = choose|k: int| #[trigger] crate::table::entry_for(s, id, k);
                assert(self.vdisks@.contains_pair(s[k].0, s[k].1));
                assert(vdisks@[k] == vdisk_offer(self.vdisk_map(), id));
            }
            assert forall|i: int, j: int| 0 <= i < j < snapshots@.len() implies offer_key(#[trigger] snapshots@[i]).lt(offer_key(#[trigger] snapshots@[j])) by {
                assert(t[i].0.lt(t[j].0));
            }
            assert forall|k: int| 0 <= k < snapshots@.len() implies snapshot_offered(self.snapshot_map(), #[trigger] snapshots@[k]) by {
                assert(self.snapshots@.contains_pair(t[k].0, t[k].1));
                assert(t[k].0 == SnapshotId { vdisk: snapshots@[k].0, snapshot: snapshots@[k].1 });
            }
            assert forall|key: SnapshotId| #[trigger] self.snapshot_map().contains_key(key) implies snapshots@.contains(snapshot_offer(self.snapshot_map(), key)) by {
                let k = choose|k: int| #[trigger] crate::table::entry_for(t, key, k);
                assert(self.snapshots@.contains_pair(t[k].0, t[k].1));
                assert(snapshots@[k] == snapshot_offer(self.snapshot_map(), key));
            }
        }
        (self.era, vdisks, snapshots)
    }

    fn check_offer(&self, vdisks: &Vec<VdiskOffer>, snapshots: &Vec<SnapshotOffer>) -> (r: Result<()>)
        requires
            self.inv(),
        ensures
            match adopt_fault(self, vdisks@, snapshots@, (vdisks@.len() + snapshots@.len()) as nat) {
                Some(e) => r == Err::<(), FsError>(e),
                None => r is Ok,
            },
    {
        let mut i: usize = 0;
        while i < vdisks.len()
            invariant
                self.inv(),
                i <= vdisks@.len(),
                adopt_fault(self, vdisks@, snapshots@, i as nat) is None,
            decreases vdisks@.len() - i,
        {
            let (_, _, tier, root) = vdisks[i];
            let fault: Option<FsError> = if !self.store.has_tier(tier) {
                Some(FsError::NoSuchTier(tier))
            } else {
                match root {
                    Some(root) => if !self.store.contains(0, &root) {
                        Some(FsError::Corrupt("adopting a root the store does not hold"))
                    } else {
                        None
                    },
                    None => None,
                }
            };
            assert(fault == adopt_fault(self, vdisks@, snapshots@, (i + 1) as nat));
            if let Some(e) = fault {
                proof {
                    lemma_fault_stays(self, vdisks@, snapshots@, (i + 1) as nat, (vdisks@.len() + snapshots@.len()) as nat);
                }
                return Err(e);
            }
            i += 1;
        }
        let mut k: usize = 0;
        while k < snapshots.len()
            invariant
                self.inv(),
                k <= snapshots@.len(),
                adopt_fault(self, vdisks@, snapshots@, (vdisks@.len() + k) as nat) is None,
            decreases snapshots@.len() - k,
        {
            let (_, _, _, root) = snapshots[k];
            let fault: Option<FsError> = match root {
                Some(root) => if !self.store.contains(0, &root) {
                    Some(FsError::Corrupt("adopting a root the store does not hold"))
                } else {
                    None
                },
                None => None,
            };
            assert(fault == adopt_fault(self, vdisks@, snapshots@, (vdisks@.len() + k + 1) as nat));
            if let Some(e) = fault {
                proof {
                    lemma_fault_stays(self, vdisks@, snapshots@, (vdisks@.len() + k + 1) as nat, (vdisks@.len() + snapshots@.len()) as nat);
                }
                return Err(e);
            }
            k += 1;
        }
        Ok(())
    }

    /// Become the offered state: replace what the offer names, adopt its
    /// era, and anchor it all.
    pub fn adopt_sync(&mut self, era: u64, vdisks: &Vec<VdiskOffer>, snapshots: &Vec<SnapshotOffer>, leases: &Vec<(u64, Lease)>, scope: AdoptScope) -> (r: Result<()>)
        requires
            old(self).inv(),
        ensures
            sync_adopted(old(self), final(self), era, vdisks@, snapshots@, leases@, scope, r),
    {
        self.check_offer(vdisks, snapshots)?;
        if scope == AdoptScope::Whole {
            self.vdisks = SortedMap::new();
            self.snapshots = SortedMap::new();
            self.leases = SortedMap::new();
            proof {
                assert(views_of(self.vdisks@) =~= Map::<u64, VdiskView>::empty());
            }
        } else {
            self.drop_named(vdisks);
        }
        let ghost base = *self;
        self.lay_vdisks(vdisks);
        let mut i: usize = 0;
        assert(snapshots@.subrange(0, 0) =~= Seq::<SnapshotOffer>::empty());
        let ghost laid = *self;
        while i < snapshots.len()
            invariant
                i <= snapshots@.len(),
                self.inv(),
                same_tables_but_snapshots(&laid, self),
                self.snapshots@ == offered_snapshots(base.snapshots@, snapshots@.subrange(0, i as int)),
            decreases snapshots@.len() - i,
        {
            let (vdisk, snapshot, size_bytes, root) = snapshots[i];
            self.snapshots.insert(SnapshotId { vdisk, snapshot }, SnapshotState { size_bytes, root });
            proof {
                let now = snapshots@.subrange(0, i + 1);
                assert(now.drop_last() =~= snapshots@.subrange(0, i as int));
            }
            i += 1;
        }
        assert(snapshots@.subrange(0, i as int) =~= snapshots@);
        let mut i: usize = 0;
        assert(leases@.subrange(0, 0) =~= Seq::<(u64, Lease)>::empty());
        let ghost snapped = *self;
        while i < leases.len()
            invariant
                i <= leases@.len(),
                self.inv(),
                same_tables_but_leases(&snapped, self),
                self.leases@ == offered_leases(base.leases@, leases@.subrange(0, i as int)),
            decreases leases@.len() - i,
        {
            let (vdisk, lease) = leases[i];
            self.leases.insert(vdisk, lease);
            proof {
                let now = leases@.subrange(0, i + 1);
                assert(now.drop_last() =~= leases@.subrange(0, i as int));
            }
            i += 1;
        }
        assert(leases@.subrange(0, i as int) =~= leases@);
        self.era = era;
        let ghost mid = *self;
        proof {
            assert(adopted(old(self), &mid, era, vdisks@, snapshots@, leases@, scope));
        }
        let r = self.checkpoint();
        assert(checkpointed(&mid, self, r));
        r
    }

    /// Drop the vdisks an offer names, with their snapshots and leases.
    fn drop_named(&mut self, vdisks: &Vec<VdiskOffer>)
        requires
            old(self).inv(),
        ensures
            final(self).inv(),
            final(self).store == old(self).store,
            final(self).wal == old(self).wal,
            final(self).anchor_generation == old(self).anchor_generation,
            final(self).era == old(self).era,
            final(self).session_pins == old(self).session_pins,
            final(self).placement == old(self).placement,
            final(self).pending_map == old(self).pending_map,
            final(self).vdisk_map() == old(self).vdisk_map().remove_keys(named_ids(vdisks@)),
            final(self).snapshots@ == without_vdisks(old(self).snapshots@, named_ids(vdisks@)),
            final(self).leases@ == old(self).leases@.remove_keys(named_ids(vdisks@)),
    {
        let mut ids: SortedMap<u64, ()> = SortedMap::new();
        let mut i: usize = 0;
        while i < vdisks.len()
            invariant
                i <= vdisks@.len(),
                ids.wf(),
                forall|id: u64| #[trigger] ids@.contains_key(id) <==> offered_before(vdisks@, i as int, id),
            decreases vdisks@.len() - i,
        {
            let id: u64 = vdisks[i].0;
            let ghost mid = ids@;
            ids.insert(id, ());
            proof {
                assert forall|x: u64| #[trigger] ids@.contains_key(x) <==> offered_before(vdisks@, i + 1, x) by {
                    assert(mid.contains_key(x) <==> offered_before(vdisks@, i as int, x));
                    if offered_before(vdisks@, i as int, x) {
                        let j = choose|j: int| 0 <= j < i && (#[trigger] vdisks@[j]).0 == x;
                        assert(vdisks@[j].0 == x);
                    }
                    if x == id {
                        assert(vdisks@[i as int].0 == x);
                        assert(offered_before(vdisks@, i + 1, x));
                    } else if offered_before(vdisks@, i + 1, x) {
                        let j = choose|j: int| 0 <= j < i + 1 && (#[trigger] vdisks@[j]).0 == x;
                        assert(j < i);
                        assert(offered_before(vdisks@, i as int, x));
                    }
                }
            }
            i += 1;
        }
        proof {
            assert forall|id: u64| #[trigger] ids@.contains_key(id) <==> named_ids(vdisks@).contains(id) by {
                assert(offered_before(vdisks@, i as int, id) == offers(vdisks@, id));
            }
        }
        self.keep_vdisks(&ids, false);
        proof {
            assert(self.vdisk_map() =~= old(self).vdisk_map().remove_keys(named_ids(vdisks@)));
            assert(self.snapshots@ =~= without_vdisks(old(self).snapshots@, named_ids(vdisks@)));
            assert(self.leases@ =~= old(self).leases@.remove_keys(named_ids(vdisks@)));
        }
    }

    /// Keep the vdisks whose id is in `ids`, or, with `inside` false, those
    /// whose id is not, with their snapshots and leases.
    fn keep_vdisks(&mut self, ids: &SortedMap<u64, ()>, inside: bool)
        requires
            old(self).inv(),
            ids.wf(),
        ensures
            final(self).inv(),
            final(self).store == old(self).store,
            final(self).wal == old(self).wal,
            final(self).anchor_generation == old(self).anchor_generation,
            final(self).era == old(self).era,
            final(self).session_pins == old(self).session_pins,
            final(self).placement == old(self).placement,
            final(self).pending_map == old(self).pending_map,
            forall|id: u64| #[trigger] final(self).vdisks@.contains_key(id) <==> old(self).vdisks@.contains_key(id) && ids@.contains_key(id) == inside,
            forall|id: u64| #[trigger] final(self).vdisks@.contains_key(id) ==> final(self).vdisks@[id] == old(self).vdisks@[id],
            forall|key: SnapshotId| #[trigger] final(self).snapshots@.contains_key(key) <==> old(self).snapshots@.contains_key(key) && ids@.contains_key(key.vdisk) == inside,
            forall|key: SnapshotId| #[trigger] final(self).snapshots@.contains_key(key) ==> final(self).snapshots@[key] == old(self).snapshots@[key],
            forall|id: u64| #[trigger] final(self).leases@.contains_key(id) <==> old(self).leases@.contains_key(id) && ids@.contains_key(id) == inside,
            forall|id: u64| #[trigger] final(self).leases@.contains_key(id) ==> final(self).leases@[id] == old(self).leases@[id],
    {
        let ghost before = *self;
        let keys = self.vdisks.keys();
        let mut i: usize = 0;
        while i < keys.len()
            invariant
                i <= keys@.len(),
                ids.wf(),
                self.vdisks.wf(),
                self.store == before.store,
                self.wal == before.wal,
                self.anchor_generation == before.anchor_generation,
                self.era == before.era,
                self.session_pins == before.session_pins,
                self.placement == before.placement,
                self.pending_map == before.pending_map,
                self.snapshots == before.snapshots,
                self.leases == before.leases,
                forall|id: u64| #[trigger] self.vdisks@.contains_key(id) <==> before.vdisks@.contains_key(id) && (ids@.contains_key(id) == inside || !in_first(keys@, i as int, id)),
                forall|id: u64| #[trigger] self.vdisks@.contains_key(id) ==> self.vdisks@[id] == before.vdisks@[id],
            decreases keys@.len() - i,
        {
            let id: u64 = keys[i];
            let ghost mid = self.vdisks@;
            let keep = ids.contains(&id) == inside;
            if !keep {
                let _ = self.vdisks.remove(&id);
            }
            proof {
                assert forall|x: u64| #[trigger] self.vdisks@.contains_key(x) <==> before.vdisks@.contains_key(x) && (ids@.contains_key(x) == inside || !in_first(keys@, i + 1, x)) by {
                    assert(mid.contains_key(x) <==> before.vdisks@.contains_key(x) && (ids@.contains_key(x) == inside || !in_first(keys@, i as int, x)));
                    lemma_in_first(keys@, i as int, x);
                }
            }
            i += 1;
        }
        let snaps = self.snapshots.keys();
        let ghost cut = *self;
        let mut i: usize = 0;
        while i < snaps.len()
            invariant
                i <= snaps@.len(),
                ids.wf(),
                self.snapshots.wf(),
                self.store == before.store,
                self.wal == before.wal,
                self.anchor_generation == before.anchor_generation,
                self.era == before.era,
                self.session_pins == before.session_pins,
                self.placement == before.placement,
                self.pending_map == before.pending_map,
                self.vdisks == cut.vdisks,
                self.leases == before.leases,
                forall|key: SnapshotId| #[trigger] self.snapshots@.contains_key(key) <==> before.snapshots@.contains_key(key) && (ids@.contains_key(key.vdisk) == inside || !key_in_first(snaps@, i as int, key)),
                forall|key: SnapshotId| #[trigger] self.snapshots@.contains_key(key) ==> self.snapshots@[key] == before.snapshots@[key],
            decreases snaps@.len() - i,
        {
            let key = snaps[i];
            let ghost mid = self.snapshots@;
            let keep = ids.contains(&key.vdisk) == inside;
            if !keep {
                let _ = self.snapshots.remove(&key);
            }
            proof {
                assert forall|x: SnapshotId| #[trigger] self.snapshots@.contains_key(x) <==> before.snapshots@.contains_key(x) && (ids@.contains_key(x.vdisk) == inside || !key_in_first(snaps@, i + 1, x)) by {
                    assert(mid.contains_key(x) <==> before.snapshots@.contains_key(x) && (ids@.contains_key(x.vdisk) == inside || !key_in_first(snaps@, i as int, x)));
                    lemma_key_in_first(snaps@, i as int, x);
                }
            }
            i += 1;
        }
        let held = self.leases.keys();
        let ghost cut2 = *self;
        let mut i: usize = 0;
        while i < held.len()
            invariant
                i <= held@.len(),
                ids.wf(),
                self.leases.wf(),
                self.store == before.store,
                self.wal == before.wal,
                self.anchor_generation == before.anchor_generation,
                self.era == before.era,
                self.session_pins == before.session_pins,
                self.placement == before.placement,
                self.pending_map == before.pending_map,
                self.vdisks == cut.vdisks,
                self.snapshots == cut2.snapshots,
                forall|id: u64| #[trigger] self.leases@.contains_key(id) <==> before.leases@.contains_key(id) && (ids@.contains_key(id) == inside || !in_first(held@, i as int, id)),
                forall|id: u64| #[trigger] self.leases@.contains_key(id) ==> self.leases@[id] == before.leases@[id],
            decreases held@.len() - i,
        {
            let id: u64 = held[i];
            let ghost mid = self.leases@;
            let keep = ids.contains(&id) == inside;
            if !keep {
                let _ = self.leases.remove(&id);
            }
            proof {
                assert forall|x: u64| #[trigger] self.leases@.contains_key(x) <==> before.leases@.contains_key(x) && (ids@.contains_key(x) == inside || !in_first(held@, i + 1, x)) by {
                    assert(mid.contains_key(x) <==> before.leases@.contains_key(x) && (ids@.contains_key(x) == inside || !in_first(held@, i as int, x)));
                    lemma_in_first(held@, i as int, x);
                }
            }
            i += 1;
        }
        proof {
            assert forall|id: u64| #[trigger] before.vdisks@.contains_key(id) implies in_first(keys@, keys@.len() as int, id) by {
                assert(keys@.contains(id));
                let j = choose|j: int| 0 <= j < keys@.len() && keys@[j] == id;
                assert(keys@[j] == id);
            }
            assert forall|key: SnapshotId| #[trigger] before.snapshots@.contains_key(key) implies key_in_first(snaps@, snaps@.len() as int, key) by {
                assert(snaps@.contains(key));
                let j = choose|j: int| 0 <= j < snaps@.len() && snaps@[j] == key;
                assert(snaps@[j] == key);
            }
            assert forall|id: u64| #[trigger] before.leases@.contains_key(id) implies in_first(held@, held@.len() as int, id) by {
                assert(held@.contains(id));
                let j = choose|j: int| 0 <= j < held@.len() && held@[j] == id;
                assert(held@[j] == id);
            }
            self.lemma_fewer_vdisks(before.vdisks@);
        }
    }

    /// Lay an offer's vdisks over the table.
    fn lay_vdisks(&mut self, vdisks: &Vec<VdiskOffer>)
        requires
            old(self).inv(),
        ensures
            final(self).inv(),
            final(self).store == old(self).store,
            final(self).wal == old(self).wal,
            final(self).snapshots == old(self).snapshots,
            final(self).leases == old(self).leases,
            final(self).anchor_generation == old(self).anchor_generation,
            final(self).era == old(self).era,
            final(self).session_pins == old(self).session_pins,
            final(self).placement == old(self).placement,
            final(self).pending_map == old(self).pending_map,
            final(self).vdisk_map() == offered_vdisks(old(self).vdisk_map(), vdisks@),
    {
        let mut i: usize = 0;
        assert(vdisks@.subrange(0, 0) =~= Seq::<VdiskOffer>::empty());
        while i < vdisks.len()
            invariant
                i <= vdisks@.len(),
                self.inv(),
                self.store == old(self).store,
                self.wal == old(self).wal,
                self.snapshots == old(self).snapshots,
                self.leases == old(self).leases,
                self.anchor_generation == old(self).anchor_generation,
                self.era == old(self).era,
                self.session_pins == old(self).session_pins,
                self.placement == old(self).placement,
                self.pending_map == old(self).pending_map,
                self.vdisk_map() == offered_vdisks(old(self).vdisk_map(), vdisks@.subrange(0, i as int)),
            decreases vdisks@.len() - i,
        {
            let (id, size_bytes, tier, root) = vdisks[i];
            let ghost before = self.vdisks@;
            self.vdisks.insert(id, VdiskState { size_bytes, tier, root, dirty: SortedMap::new() });
            proof {
                self.lemma_new_vdisk(before, id);
                let now = vdisks@.subrange(0, i + 1);
                assert(now.drop_last() =~= vdisks@.subrange(0, i as int));
                assert(views_of(self.vdisks@) =~= views_of(before).insert(id, offered_view(vdisks@[i as int])));
            }
            i += 1;
        }
        assert(vdisks@.subrange(0, i as int) =~= vdisks@);
    }

    /// Keep exactly these vdisks; drop the rest with their snapshots and
    /// leases, and anchor the result if any went.
    pub fn retain_vdisks(&mut self, keep: &SortedMap<u64, ()>) -> (r: Result<()>)
        requires
            old(self).inv(),
            keep.wf(),
        ensures
            vdisks_retained(old(self), final(self), keep@.dom(), r),
    {
        let before: usize = self.vdisks.len();
        proof {
            self.lemma_domains();
        }
        self.keep_vdisks(keep, true);
        let after: usize = self.vdisks.len();
        let ghost mid = *self;
        proof {
            let kept = keep@.dom();
            assert(mid.vdisk_map() =~= old(self).vdisk_map().restrict(kept));
            assert(mid.snapshot_map() =~= of_vdisks(old(self).snapshot_map(), kept));
            assert(mid.lease_map() =~= old(self).lease_map().restrict(kept));
            assert(retained(old(self), &mid, kept));
            assert(mid.vdisks@.dom().subset_of(old(self).vdisks@.dom()));
            vstd::set_lib::lemma_len_subset(mid.vdisks@.dom(), old(self).vdisks@.dom());
            if after == before {
                vstd::set_lib::lemma_subset_equality(mid.vdisks@.dom(), old(self).vdisks@.dom());
                assert(old(self).vdisk_map().dom().subset_of(kept));
            }
            if old(self).vdisk_map().dom().subset_of(kept) {
                assert(mid.vdisks@.dom() =~= old(self).vdisks@.dom());
            }
        }
        if after != before {
            let r = self.checkpoint();
            assert(checkpointed(&mid, self, r));
            r
        } else {
            Ok(())
        }
    }
}

/// The pool with only some of its vdisks left.
pub open spec fn retained<D: Disk>(a: &Pool<D>, b: &Pool<D>, kept: Set<u64>) -> bool {
    &&& same_ground(a, b)
    &&& b.era_now() == a.era_now()
    &&& b.seat() == a.seat()
    &&& b.pending() == a.pending()
    &&& b.vdisk_map() == a.vdisk_map().restrict(kept)
    &&& b.snapshot_map() == of_vdisks(a.snapshot_map(), kept)
    &&& b.lease_map() == a.lease_map().restrict(kept)
}

/// A vdisk as an offer names it.
pub open spec fn vdisk_offer(m: Map<u64, VdiskView>, id: u64) -> VdiskOffer {
    (id, m[id].size_bytes, m[id].tier, m[id].root)
}

/// A snapshot as an offer names it.
pub open spec fn snapshot_offer(m: Map<SnapshotId, SnapshotState>, key: SnapshotId) -> SnapshotOffer {
    (key.vdisk, key.snapshot, m[key].size_bytes, m[key].root)
}

/// The offer's line is one of the table's.
pub open spec fn snapshot_offered(m: Map<SnapshotId, SnapshotState>, o: SnapshotOffer) -> bool {
    let key = SnapshotId { vdisk: o.0, snapshot: o.1 };
    m.contains_key(key) && o == snapshot_offer(m, key)
}

spec fn same_tables_but_snapshots<D: Disk>(a: &Pool<D>, b: &Pool<D>) -> bool {
    &&& b.store == a.store
    &&& b.wal == a.wal
    &&& b.vdisks == a.vdisks
    &&& b.leases == a.leases
    &&& b.anchor_generation == a.anchor_generation
    &&& b.era == a.era
    &&& b.session_pins == a.session_pins
    &&& b.placement == a.placement
    &&& b.pending_map == a.pending_map
}

spec fn same_tables_but_leases<D: Disk>(a: &Pool<D>, b: &Pool<D>) -> bool {
    &&& b.store == a.store
    &&& b.wal == a.wal
    &&& b.vdisks == a.vdisks
    &&& b.snapshots == a.snapshots
    &&& b.anchor_generation == a.anchor_generation
    &&& b.era == a.era
    &&& b.session_pins == a.session_pins
    &&& b.placement == a.placement
    &&& b.pending_map == a.pending_map
}

spec fn offered_before(s: Seq<VdiskOffer>, i: int, id: u64) -> bool {
    exists|j: int| 0 <= j < i && (#[trigger] s[j]).0 == id
}

spec fn in_first(s: Seq<u64>, i: int, x: u64) -> bool {
    exists|j: int| 0 <= j < i && #[trigger] s[j] == x
}

spec fn key_in_first(s: Seq<SnapshotId>, i: int, x: SnapshotId) -> bool {
    exists|j: int| 0 <= j < i && #[trigger] s[j] == x
}

proof fn lemma_in_first(s: Seq<u64>, i: int, x: u64)
    requires
        0 <= i < s.len(),
    ensures
        in_first(s, i + 1, x) == (in_first(s, i, x) || s[i] == x),
{
    if in_first(s, i, x) {
        let j = choose|j: int| 0 <= j < i && #[trigger] s[j] == x;
        assert(s[j] == x);
    }
    if s[i] == x {
        assert(in_first(s, i + 1, x));
    }
    if in_first(s, i + 1, x) {
        let j = choose|j: int| 0 <= j < i + 1 && #[trigger] s[j] == x;
        if j < i {
            assert(in_first(s, i, x));
        }
    }
}

proof fn lemma_key_in_first(s: Seq<SnapshotId>, i: int, x: SnapshotId)
    requires
        0 <= i < s.len(),
    ensures
        key_in_first(s, i + 1, x) == (key_in_first(s, i, x) || s[i] == x),
{
    if key_in_first(s, i, x) {
        let j = choose|j: int| 0 <= j < i && #[trigger] s[j] == x;
        assert(s[j] == x);
    }
    if s[i] == x {
        assert(key_in_first(s, i + 1, x));
    }
    if key_in_first(s, i + 1, x) {
        let j = choose|j: int| 0 <= j < i + 1 && #[trigger] s[j] == x;
        if j < i {
            assert(key_in_first(s, i, x));
        }
    }
}

proof fn lemma_fault_stays<D: Disk>(pool: &Pool<D>, vdisks: Seq<VdiskOffer>, snapshots: Seq<SnapshotOffer>, n: nat, m: nat)
    requires
        n <= m,
        adopt_fault(pool, vdisks, snapshots, n) is Some,
    ensures
        adopt_fault(pool, vdisks, snapshots, m) == adopt_fault(pool, vdisks, snapshots, n),
    decreases m - n,
{
    if n < m {
        lemma_fault_stays(pool, vdisks, snapshots, n, (m - 1) as nat);
    }
}

/// What adopting an offer comes to.
pub open spec fn sync_adopted<D: Disk>(before: &Pool<D>, after: &Pool<D>, era: u64, vdisks: Seq<VdiskOffer>, snapshots: Seq<SnapshotOffer>, leases: Seq<(u64, Lease)>, scope: AdoptScope, r: Result<()>) -> bool {
    &&& after.inv()
    &&& match adopt_fault(before, vdisks, snapshots, (vdisks.len() + snapshots.len()) as nat) {
        Some(e) => r == Err::<(), FsError>(e) && super::snapshot::unchanged(before, after),
        None => exists|mid: Pool<D>| #[trigger] adopted(before, &mid, era, vdisks, snapshots, leases, scope) && checkpointed(&mid, after, r),
    }
}

/// What keeping only these vdisks comes to.
pub open spec fn vdisks_retained<D: Disk>(before: &Pool<D>, after: &Pool<D>, kept: Set<u64>, r: Result<()>) -> bool {
    &&& after.inv()
    &&& ({
        exists|mid: Pool<D>| #[trigger] retained(before, &mid, kept) && if before.vdisk_map().dom().subset_of(kept) {
            r is Ok && same_ground(&mid, after) && retained(before, after, kept)
        } else {
            checkpointed(&mid, after, r)
        }
    })
}

/// Two sequences in one strict order with the same elements are the same.
proof fn lemma_one_order<T>(a: Seq<T>, b: Seq<T>, before: spec_fn(T, T) -> bool)
    requires
        forall|x: T, y: T| #[trigger] before(x, y) ==> !before(y, x),
        forall|i: int, j: int| 0 <= i < j < a.len() ==> before(#[trigger] a[i], #[trigger] a[j]),
        forall|i: int, j: int| 0 <= i < j < b.len() ==> before(#[trigger] b[i], #[trigger] b[j]),
        forall|x: T| a.contains(x) <==> b.contains(x),
    ensures
        a == b,
    decreases a.len(),
{
    if a.len() == 0 {
        if b.len() > 0 {
            assert(b.contains(b[0]));
            assert(a.contains(b[0]));
        }
        assert(a =~= b);
    } else {
        assert(a.contains(a[0]));
        assert(b.contains(a[0]));
        let j = choose|j: int| 0 <= j < b.len() && b[j] == a[0];
        assert(b.contains(b[0]));
        assert(a.contains(b[0]));
        let i = choose|i: int| 0 <= i < a.len() && a[i] == b[0];
        if i > 0 && j > 0 {
            assert(before(a[0], a[i]));
            assert(before(b[0], b[j]));
        }
        assert(a[0] == b[0]);
        let (x, y) = (a.drop_first(), b.drop_first());
        assert forall|t: T| x.contains(t) <==> y.contains(t) by {
            if x.contains(t) {
                let k = choose|k: int| 0 <= k < x.len() && x[k] == t;
                assert(a[k + 1] == t && before(a[0], a[k + 1]));
                assert(a.contains(t));
                let m = choose|m: int| 0 <= m < b.len() && b[m] == t;
                if m == 0 {
                    assert(before(t, t));
                }
                assert(y[m - 1] == t);
            }
            if y.contains(t) {
                let k = choose|k: int| 0 <= k < y.len() && y[k] == t;
                assert(b[k + 1] == t && before(b[0], b[k + 1]));
                assert(b.contains(t));
                let m = choose|m: int| 0 <= m < a.len() && a[m] == t;
                if m == 0 {
                    assert(before(t, t));
                }
                assert(x[m - 1] == t);
            }
        }
        assert forall|p: int, q: int| 0 <= p < q < x.len() implies before(#[trigger] x[p], #[trigger] x[q]) by {
            assert(before(a[p + 1], a[q + 1]));
        }
        assert forall|p: int, q: int| 0 <= p < q < y.len() implies before(#[trigger] y[p], #[trigger] y[q]) by {
            assert(before(b[p + 1], b[q + 1]));
        }
        lemma_one_order(x, y, before);
        assert(a =~= seq![a[0]] + x);
        assert(b =~= seq![b[0]] + y);
    }
}

proof fn lemma_offered_vdisks(s: Seq<VdiskOffer>)
    requires
        forall|i: int, j: int| 0 <= i < j < s.len() ==> (#[trigger] s[i]).0 < (#[trigger] s[j]).0,
    ensures
        forall|i: int| 0 <= i < s.len() ==> offered_vdisks(Map::empty(), s).contains_pair((#[trigger] s[i]).0, offered_view(s[i])),
        forall|id: u64| #[trigger] offered_vdisks(Map::empty(), s).contains_key(id) ==> exists|i: int| 0 <= i < s.len() && (#[trigger] s[i]).0 == id,
    decreases s.len(),
{
    if s.len() > 0 {
        let rest = s.drop_last();
        assert forall|i: int, j: int| 0 <= i < j < rest.len() implies (#[trigger] rest[i]).0 < (#[trigger] rest[j]).0 by {
            assert(s[i].0 < s[j].0);
        }
        lemma_offered_vdisks(rest);
        let all = offered_vdisks(Map::empty(), s);
        assert forall|i: int| 0 <= i < s.len() implies all.contains_pair((#[trigger] s[i]).0, offered_view(s[i])) by {
            if i < s.len() - 1 {
                assert(rest[i] == s[i]);
                assert(s[i].0 < s[s.len() - 1].0);
            }
        }
        assert forall|id: u64| #[trigger] all.contains_key(id) implies exists|i: int| 0 <= i < s.len() && (#[trigger] s[i]).0 == id by {
            if id == s.last().0 {
                assert(s[s.len() - 1].0 == id);
            } else {
                assert(offered_vdisks(Map::empty(), rest).contains_key(id));
                let i = choose|i: int| 0 <= i < rest.len() && (#[trigger] rest[i]).0 == id;
                assert(s[i].0 == id);
            }
        }
    }
}

proof fn lemma_offered_snapshots(s: Seq<SnapshotOffer>)
    requires
        forall|i: int, j: int| 0 <= i < j < s.len() ==> offer_key(#[trigger] s[i]).lt(offer_key(#[trigger] s[j])),
    ensures
        forall|i: int| 0 <= i < s.len() ==> offered_snapshots(Map::empty(), s).contains_pair(
            offer_key(#[trigger] s[i]),
            SnapshotState { size_bytes: s[i].2, root: s[i].3 },
        ),
        forall|key: SnapshotId| #[trigger] offered_snapshots(Map::empty(), s).contains_key(key) ==> exists|i: int| 0 <= i < s.len() && offer_key(#[trigger] s[i]) == key,
    decreases s.len(),
{
    if s.len() > 0 {
        let rest = s.drop_last();
        assert forall|i: int, j: int| 0 <= i < j < rest.len() implies offer_key(#[trigger] rest[i]).lt(offer_key(#[trigger] rest[j])) by {
            assert(offer_key(s[i]).lt(offer_key(s[j])));
        }
        lemma_offered_snapshots(rest);
        let all = offered_snapshots(Map::empty(), s);
        assert forall|i: int| 0 <= i < s.len() implies all.contains_pair(offer_key(#[trigger] s[i]), SnapshotState { size_bytes: s[i].2, root: s[i].3 }) by {
            if i < s.len() - 1 {
                assert(rest[i] == s[i]);
                assert(offer_key(s[i]).lt(offer_key(s[s.len() - 1])));
            }
        }
        assert forall|key: SnapshotId| #[trigger] all.contains_key(key) implies exists|i: int| 0 <= i < s.len() && offer_key(#[trigger] s[i]) == key by {
            if key == offer_key(s.last()) {
                assert(offer_key(s[s.len() - 1]) == key);
            } else {
                assert(offered_snapshots(Map::empty(), rest).contains_key(key));
                let i = choose|i: int| 0 <= i < rest.len() && offer_key(#[trigger] rest[i]) == key;
                assert(offer_key(s[i]) == key);
            }
        }
    }
}

/// A pool that has adopted a whole offer offers the same in turn: the era,
/// the vdisks and the snapshots come back as they were offered.
pub proof fn law_a_whole_adoption_offers_what_it_took<D: Disk>(
    before: &Pool<D>,
    mid: &Pool<D>,
    after: &Pool<D>,
    era: u64,
    vdisks: Seq<VdiskOffer>,
    snapshots: Seq<SnapshotOffer>,
    leases: Seq<(u64, Lease)>,
    r: Result<()>,
    offered: Seq<VdiskOffer>,
    pinned: Seq<SnapshotOffer>,
)
    requires
        adopted(before, mid, era, vdisks, snapshots, leases, AdoptScope::Whole),
        checkpointed(mid, after, r),
        r is Ok,
        forall|i: int, j: int| 0 <= i < j < vdisks.len() ==> (#[trigger] vdisks[i]).0 < (#[trigger] vdisks[j]).0,
        forall|i: int, j: int| 0 <= i < j < snapshots.len() ==> offer_key(#[trigger] snapshots[i]).lt(offer_key(#[trigger] snapshots[j])),
        offered_whole(after, offered, pinned),
    ensures
        after.era_now() == era,
        offered == vdisks,
        pinned == snapshots,
{
    lemma_offered_vdisks(vdisks);
    lemma_offered_snapshots(snapshots);
    let m = mid.vdisk_map();
    assert forall|id: u64| #[trigger] m.contains_key(id) implies after.vdisk_map().contains_key(id) && after.vdisk_map()[id] == m[id] by {
        let i = choose|i: int| 0 <= i < vdisks.len() && (#[trigger] vdisks[i]).0 == id;
        assert(m.contains_pair(vdisks[i].0, offered_view(vdisks[i])));
        assert(after.vdisk_map().dom().contains(id));
    }
    assert forall|o: VdiskOffer| offered.contains(o) <==> vdisks.contains(o) by {
        if offered.contains(o) {
            let k = choose|k: int| 0 <= k < offered.len() && offered[k] == o;
            assert(after.vdisk_map().contains_key(offered[k].0));
            assert(m.dom().contains(o.0));
            assert(m.contains_key(o.0));
            let i = choose|i: int| 0 <= i < vdisks.len() && (#[trigger] vdisks[i]).0 == o.0;
            assert(m.contains_pair(vdisks[i].0, offered_view(vdisks[i])));
            assert(vdisks[i] == o);
        }
        if vdisks.contains(o) {
            let i = choose|i: int| 0 <= i < vdisks.len() && vdisks[i] == o;
            assert(m.contains_pair(vdisks[i].0, offered_view(vdisks[i])));
            assert(m.contains_key(o.0));
            assert(vdisk_offer(after.vdisk_map(), o.0) == o);
        }
    }
    lemma_one_order(offered, vdisks, |x: VdiskOffer, y: VdiskOffer| x.0 < y.0);
    let n = mid.snapshot_map();
    assert forall|o: SnapshotOffer| pinned.contains(o) <==> snapshots.contains(o) by {
        if pinned.contains(o) {
            let k = choose|k: int| 0 <= k < pinned.len() && pinned[k] == o;
            assert(snapshot_offered(after.snapshot_map(), pinned[k]));
            assert(n.contains_key(offer_key(o)));
            let i = choose|i: int| 0 <= i < snapshots.len() && offer_key(#[trigger] snapshots[i]) == offer_key(o);
            assert(n.contains_pair(offer_key(snapshots[i]), SnapshotState { size_bytes: snapshots[i].2, root: snapshots[i].3 }));
            assert(snapshots[i] == o);
        }
        if snapshots.contains(o) {
            let i = choose|i: int| 0 <= i < snapshots.len() && snapshots[i] == o;
            assert(n.contains_pair(offer_key(snapshots[i]), SnapshotState { size_bytes: snapshots[i].2, root: snapshots[i].3 }));
            assert(n.contains_key(offer_key(o)));
            assert(snapshot_offer(after.snapshot_map(), offer_key(o)) == o);
        }
    }
    lemma_one_order(pinned, snapshots, |x: SnapshotOffer, y: SnapshotOffer| offer_key(x).lt(offer_key(y)));
}

/// Some offered vdisk lives on a tier this set lacks.
pub open spec fn foreign<D: Disk>(pool: &Pool<D>, vdisks: Seq<VdiskOffer>, n: int) -> bool {
    exists|i: int| 0 <= i < n && i < vdisks.len() && !tier_exists(pool.stock().members(), (#[trigger] vdisks[i]).2)
}

/// Some offered root is one the store does not hold.
pub open spec fn rootless<D: Disk>(pool: &Pool<D>, vdisks: Seq<VdiskOffer>, snapshots: Seq<SnapshotOffer>, n: int) -> bool {
    ||| exists|i: int| 0 <= i < n && i < vdisks.len() && ((#[trigger] vdisks[i]).3 matches Some(root) && !pool.holds(0).contains(root))
    ||| exists|i: int| 0 <= i < n - vdisks.len() && i < snapshots.len() && ((#[trigger] snapshots[i]).3 matches Some(root) && !pool.holds(0).contains(root))
}

/// An offer is refused exactly where a vdisk of it is on a foreign tier or a
/// root of it is missing, and by the error that says which.
pub proof fn law_an_offer_is_refused_for_what_it_names<D: Disk>(pool: &Pool<D>, vdisks: Seq<VdiskOffer>, snapshots: Seq<SnapshotOffer>, n: nat)
    requires
        n <= vdisks.len() + snapshots.len(),
    ensures
        adopt_fault(pool, vdisks, snapshots, n) is Some <==> foreign(pool, vdisks, n as int) || rootless(pool, vdisks, snapshots, n as int),
        adopt_fault(pool, vdisks, snapshots, n) matches Some(e) ==> {
            &&& e is NoSuchTier || e is Corrupt
            &&& e is NoSuchTier ==> foreign(pool, vdisks, n as int)
            &&& e is Corrupt ==> rootless(pool, vdisks, snapshots, n as int)
        },
    decreases n,
{
    if n > 0 {
        law_an_offer_is_refused_for_what_it_names(pool, vdisks, snapshots, (n - 1) as nat);
        let members = pool.stock().members();
        if adopt_fault(pool, vdisks, snapshots, (n - 1) as nat) is None {
            if n <= vdisks.len() {
                let o = vdisks[n - 1];
                if foreign(pool, vdisks, n as int) {
                    let i = choose|i: int| 0 <= i < n && i < vdisks.len() && !tier_exists(members, (#[trigger] vdisks[i]).2);
                    assert(i == n - 1);
                }
            } else {
                let o = snapshots[n - 1 - vdisks.len()];
                if foreign(pool, vdisks, n as int) {
                    let i = choose|i: int| 0 <= i < n && i < vdisks.len() && !tier_exists(members, (#[trigger] vdisks[i]).2);
                    assert(!tier_exists(members, vdisks[i].2));
                    assert(foreign(pool, vdisks, n - 1));
                }
            }
        }
    }
}

/// A pool that has adopted a whole offer lists the leases that came with it.
pub proof fn law_a_whole_adoption_takes_the_leases<D: Disk>(
    before: &Pool<D>,
    mid: &Pool<D>,
    after: &Pool<D>,
    era: u64,
    vdisks: Seq<VdiskOffer>,
    snapshots: Seq<SnapshotOffer>,
    leases: Seq<(u64, Lease)>,
    r: Result<()>,
    held: Seq<(u64, Lease)>,
)
    requires
        adopted(before, mid, era, vdisks, snapshots, leases, AdoptScope::Whole),
        checkpointed(mid, after, r),
        forall|i: int, j: int| 0 <= i < j < leases.len() ==> (#[trigger] leases[i]).0 < (#[trigger] leases[j]).0,
        forall|i: int, j: int| 0 <= i < j < held.len() ==> (#[trigger] held[i]).0 < (#[trigger] held[j]).0,
        forall|i: int| 0 <= i < held.len() ==> after.lease_map().contains_pair((#[trigger] held[i]).0, held[i].1),
        forall|id: u64| #[trigger] after.lease_map().contains_key(id) ==> held.contains((id, after.lease_map()[id])),
    ensures
        held == leases,
{
    lemma_offered_leases(leases);
    let m = after.lease_map();
    assert forall|o: (u64, Lease)| held.contains(o) <==> leases.contains(o) by {
        if held.contains(o) {
            let k = choose|k: int| 0 <= k < held.len() && held[k] == o;
            assert(m.contains_pair(held[k].0, held[k].1));
            assert(m.contains_key(o.0));
            let i = choose|i: int| 0 <= i < leases.len() && (#[trigger] leases[i]).0 == o.0;
            assert(m.contains_pair(leases[i].0, leases[i].1));
            assert(leases[i] == o);
        }
        if leases.contains(o) {
            let i = choose|i: int| 0 <= i < leases.len() && leases[i] == o;
            assert(m.contains_pair(leases[i].0, leases[i].1));
            assert(m.contains_key(o.0));
        }
    }
    lemma_one_order(held, leases, |x: (u64, Lease), y: (u64, Lease)| x.0 < y.0);
}

proof fn lemma_offered_leases(s: Seq<(u64, Lease)>)
    requires
        forall|i: int, j: int| 0 <= i < j < s.len() ==> (#[trigger] s[i]).0 < (#[trigger] s[j]).0,
    ensures
        forall|i: int| 0 <= i < s.len() ==> offered_leases(Map::empty(), s).contains_pair((#[trigger] s[i]).0, s[i].1),
        forall|id: u64| #[trigger] offered_leases(Map::empty(), s).contains_key(id) ==> exists|i: int| 0 <= i < s.len() && (#[trigger] s[i]).0 == id,
    decreases s.len(),
{
    if s.len() > 0 {
        let rest = s.drop_last();
        assert forall|i: int, j: int| 0 <= i < j < rest.len() implies (#[trigger] rest[i]).0 < (#[trigger] rest[j]).0 by {
            assert(s[i].0 < s[j].0);
        }
        lemma_offered_leases(rest);
        let all = offered_leases(Map::empty(), s);
        assert forall|i: int| 0 <= i < s.len() implies all.contains_pair((#[trigger] s[i]).0, s[i].1) by {
            if i < s.len() - 1 {
                assert(rest[i] == s[i]);
                assert(s[i].0 < s[s.len() - 1].0);
            }
        }
        assert forall|id: u64| #[trigger] all.contains_key(id) implies exists|i: int| 0 <= i < s.len() && (#[trigger] s[i]).0 == id by {
            if id == s.last().0 {
                assert(s[s.len() - 1].0 == id);
            } else {
                assert(offered_leases(Map::empty(), rest).contains_key(id));
                let i = choose|i: int| 0 <= i < rest.len() && (#[trigger] rest[i]).0 == id;
                assert(s[i].0 == id);
            }
        }
    }
}

/// What an offer does not name, laying it over a table leaves alone.
pub proof fn lemma_unnamed(
    vdisk: u64,
    tables: Map<u64, VdiskView>,
    vdisks: Seq<VdiskOffer>,
    pins: Map<SnapshotId, SnapshotState>,
    snapshots: Seq<SnapshotOffer>,
    grants: Map<u64, Lease>,
    leases: Seq<(u64, Lease)>,
)
    requires
        !offers(vdisks, vdisk),
        forall|i: int| 0 <= i < snapshots.len() ==> (#[trigger] snapshots[i]).0 != vdisk,
        forall|i: int| 0 <= i < leases.len() ==> (#[trigger] leases[i]).0 != vdisk,
    ensures
        offered_vdisks(tables, vdisks).contains_key(vdisk) == tables.contains_key(vdisk),
        tables.contains_key(vdisk) ==> offered_vdisks(tables, vdisks)[vdisk] == tables[vdisk],
        forall|s: u64|
            #![trigger offered_snapshots(pins, snapshots).contains_key(SnapshotId { vdisk, snapshot: s })]
            offered_snapshots(pins, snapshots).contains_key(SnapshotId { vdisk, snapshot: s }) == pins.contains_key(SnapshotId { vdisk, snapshot: s }) && (
            pins.contains_key(SnapshotId { vdisk, snapshot: s }) ==> offered_snapshots(pins, snapshots)[SnapshotId { vdisk, snapshot: s }] == pins[SnapshotId {
                vdisk,
                snapshot: s,
            }]),
        offered_leases(grants, leases).contains_key(vdisk) == grants.contains_key(vdisk),
        grants.contains_key(vdisk) ==> offered_leases(grants, leases)[vdisk] == grants[vdisk],
    decreases vdisks.len() + snapshots.len() + leases.len(),
{
    if vdisks.len() > 0 {
        let rest = vdisks.drop_last();
        assert(vdisks[vdisks.len() - 1].0 != vdisk);
        assert(!offers(rest, vdisk)) by {
            if offers(rest, vdisk) {
                let i = choose|i: int| 0 <= i < rest.len() && (#[trigger] rest[i]).0 == vdisk;
                assert(vdisks[i].0 == vdisk);
            }
        }
        lemma_unnamed(vdisk, tables, rest, pins, snapshots, grants, leases);
    } else if snapshots.len() > 0 {
        let rest = snapshots.drop_last();
        assert(snapshots[snapshots.len() - 1].0 != vdisk);
        assert forall|i: int| 0 <= i < rest.len() implies (#[trigger] rest[i]).0 != vdisk by {
            assert(snapshots[i].0 != vdisk);
        }
        lemma_unnamed(vdisk, tables, vdisks, pins, rest, grants, leases);
        assert forall|s: u64|
            #![trigger offered_snapshots(pins, snapshots).contains_key(SnapshotId { vdisk, snapshot: s })]
            offered_snapshots(pins, snapshots).contains_key(SnapshotId { vdisk, snapshot: s }) == pins.contains_key(SnapshotId { vdisk, snapshot: s }) && (
            pins.contains_key(SnapshotId { vdisk, snapshot: s }) ==> offered_snapshots(pins, snapshots)[SnapshotId { vdisk, snapshot: s }] == pins[SnapshotId {
                vdisk,
                snapshot: s,
            }]) by {
            assert(offered_snapshots(pins, rest).contains_key(SnapshotId { vdisk, snapshot: s }) == pins.contains_key(SnapshotId { vdisk, snapshot: s }));
        }
    } else if leases.len() > 0 {
        let rest = leases.drop_last();
        assert(leases[leases.len() - 1].0 != vdisk);
        assert forall|i: int| 0 <= i < rest.len() implies (#[trigger] rest[i]).0 != vdisk by {
            assert(leases[i].0 != vdisk);
        }
        lemma_unnamed(vdisk, tables, vdisks, pins, snapshots, grants, rest);
    }
}

} // verus!
