//! Snapshots, rollbacks and clones; eras; and the slice map's changes. Each
//! is a change of the tables followed by a checkpoint, durable on return.

use super::checkpoint::{checkpointed, settled_vdisk};
use super::vdisk::fits;
use super::{capacity, mapped, tree_depth, views_of, Placement, Pool, SnapshotState, VdiskState, VdiskView};
use crate::disk::Disk;
use crate::error::{FsError, Result};
use crate::hash::BlockHash;
use crate::map::{recorded, tree_get};
use crate::slice::reassign::{moves_of, orphans, pairs_of, reassigned_homes, share_a_home};
use crate::slice::{lists, lists_homes, map_fault, Homes, NodeId, SliceMap, SliceMove, SLICES};
use crate::table::{SnapshotId, SortedMap};
use vstd::prelude::*;

verus! {

/// The same store, ring and anchor, whatever the tables say.
pub open spec fn same_ground<D: Disk>(a: &Pool<D>, b: &Pool<D>) -> bool {
    &&& b.inv()
    &&& b.stock() == a.stock()
    &&& b.ring() == a.ring()
    &&& b.generation() == a.generation()
    &&& b.pin_map() == a.pin_map()
}

/// `b` is `a` with other snapshots.
pub open spec fn with_snapshots<D: Disk>(a: &Pool<D>, b: &Pool<D>, snapshots: Map<SnapshotId, SnapshotState>) -> bool {
    &&& same_ground(a, b)
    &&& b.vdisk_map() == a.vdisk_map()
    &&& b.lease_map() == a.lease_map()
    &&& b.era_now() == a.era_now()
    &&& b.seat() == a.seat()
    &&& b.pending() == a.pending()
    &&& b.snapshot_map() == snapshots
}

/// `b` is `a` with other vdisks.
pub open spec fn with_vdisks<D: Disk>(a: &Pool<D>, b: &Pool<D>, vdisks: Map<u64, VdiskView>) -> bool {
    &&& same_ground(a, b)
    &&& b.snapshot_map() == a.snapshot_map()
    &&& b.lease_map() == a.lease_map()
    &&& b.era_now() == a.era_now()
    &&& b.seat() == a.seat()
    &&& b.pending() == a.pending()
    &&& b.vdisk_map() == vdisks
}

/// `b` is `a` in another era.
pub open spec fn with_era<D: Disk>(a: &Pool<D>, b: &Pool<D>, era: u64) -> bool {
    &&& same_ground(a, b)
    &&& b.vdisk_map() == a.vdisk_map()
    &&& b.snapshot_map() == a.snapshot_map()
    &&& b.lease_map() == a.lease_map()
    &&& b.seat() == a.seat()
    &&& b.pending() == a.pending()
    &&& b.era_now() == era
}

/// `b` is `a` with another committed map and nothing pending.
pub open spec fn with_map<D: Disk>(a: &Pool<D>, b: &Pool<D>, node: NodeId, map: SliceMap) -> bool {
    &&& same_ground(a, b)
    &&& b.vdisk_map() == a.vdisk_map()
    &&& b.snapshot_map() == a.snapshot_map()
    &&& b.lease_map() == a.lease_map()
    &&& b.era_now() == a.era_now()
    &&& b.pending() is None
    &&& b.seat() == Some((node, map))
}

/// Nothing has changed.
pub open spec fn unchanged<D: Disk>(a: &Pool<D>, b: &Pool<D>) -> bool {
    with_vdisks(a, b, a.vdisk_map())
}

impl<D: Disk> Pool<D> {
    /// Pin the vdisk's current content as a snapshot. Everything pending
    /// settles first, and the pin is durable when the call returns.
    pub fn snapshot_vdisk(&mut self, vdisk: u64, snapshot: u64) -> (r: Result<()>)
        requires
            old(self).inv(),
        ensures
            snapshotted(old(self), final(self), vdisk, snapshot, r),
    {
        proof {
            self.lemma_domains();
        }
        if !self.vdisks.contains(&vdisk) {
            return Err(FsError::UnknownVdisk(vdisk));
        }
        let key = SnapshotId { vdisk, snapshot };
        if self.snapshots.contains(&key) {
            return Err(FsError::SnapshotExists { vdisk, snapshot });
        }
        let count: usize = self.snapshots.len();
        let vdisks: usize = self.vdisks.len();
        if count == usize::MAX || !self.manifest_fits(vdisks, count + 1) {
            return Err(FsError::ManifestFull);
        }
        self.checkpoint()?;
        let ghost first = *self;
        let (size_bytes, root) = match self.vdisks.get_ref(&vdisk) {
            Some(state) => (state.size_bytes, state.root),
            None => {
                assert(first.vdisk_map().dom().contains(vdisk));
                assert(false);
                return Err(FsError::UnknownVdisk(vdisk));
            },
        };
        self.snapshots.insert(key, SnapshotState { size_bytes, root });
        let ghost mid = *self;
        proof {
            assert(checkpointed(old(self), &first, Ok::<(), FsError>(())));
            assert(first.vdisk_map()[vdisk].size_bytes == size_bytes && first.vdisk_map()[vdisk].root == root);
            assert(with_snapshots(&first, &mid, first.snapshot_map().insert(key, SnapshotState { size_bytes, root })));
        }
        let r = self.checkpoint();
        assert(checkpointed(&mid, self, r));
        r
    }

    /// Unpin a snapshot. Durable on return.
    pub fn delete_snapshot(&mut self, vdisk: u64, snapshot: u64) -> (r: Result<()>)
        requires
            old(self).inv(),
        ensures
            snapshot_deleted(old(self), final(self), vdisk, snapshot, r),
    {
        let key = SnapshotId { vdisk, snapshot };
        if !self.snapshots.contains(&key) {
            return Err(FsError::UnknownSnapshot { vdisk, snapshot });
        }
        let _ = self.snapshots.remove(&key);
        let ghost mid = *self;
        assert(with_snapshots(old(self), &mid, old(self).snapshot_map().remove(key)));
        self.checkpoint()
    }

    /// Return a vdisk to a snapshot's content, durably, discarding whatever
    /// was written since.
    pub fn rollback_vdisk(&mut self, vdisk: u64, snapshot: u64) -> (r: Result<()>)
        requires
            old(self).inv(),
        ensures
            rolled_back(old(self), final(self), vdisk, snapshot, r),
    {
        let key = SnapshotId { vdisk, snapshot };
        let snap = match self.snapshots.get(&key) {
            Some(snap) => snap,
            None => {
                return Err(FsError::UnknownSnapshot { vdisk, snapshot });
            },
        };
        let tier: u8 = match self.vdisks.get_ref(&vdisk) {
            Some(state) => state.tier,
            None => {
                return Err(FsError::UnknownVdisk(vdisk));
            },
        };
        let ghost before = self.vdisks@;
        self.vdisks.insert(
            vdisk,
            VdiskState { size_bytes: snap.size_bytes, tier, root: snap.root, dirty: SortedMap::new() },
        );
        let ghost mid = *self;
        proof {
            self.lemma_new_vdisk(before, vdisk);
            let view = VdiskView { size_bytes: snap.size_bytes, tier, root: snap.root, dirty: Map::empty() };
            assert(views_of(self.vdisks@) =~= views_of(before).insert(vdisk, view));
            assert(with_vdisks(old(self), &mid, old(self).vdisk_map().insert(vdisk, view)));
        }
        self.checkpoint()
    }

    /// A writable clone: a new vdisk whose starting content is a snapshot,
    /// on the source's tier.
    pub fn clone_vdisk(&mut self, new_id: u64, vdisk: u64, snapshot: u64) -> (r: Result<()>)
        requires
            old(self).inv(),
        ensures
            cloned(old(self), final(self), new_id, vdisk, snapshot, r),
    {
        proof {
            self.lemma_domains();
        }
        if self.vdisks.contains(&new_id) {
            return Err(FsError::VdiskExists(new_id));
        }
        let snap = match self.snapshots.get(&SnapshotId { vdisk, snapshot }) {
            Some(snap) => snap,
            None => {
                return Err(FsError::UnknownSnapshot { vdisk, snapshot });
            },
        };
        let count: usize = self.vdisks.len();
        if count == usize::MAX || !self.manifest_fits(count + 1, self.snapshots.len()) {
            return Err(FsError::ManifestFull);
        }
        let tier: u8 = match self.vdisks.get_ref(&vdisk) {
            Some(state) => state.tier,
            None => {
                return Err(FsError::UnknownVdisk(vdisk));
            },
        };
        let ghost before = self.vdisks@;
        self.vdisks.insert(
            new_id,
            VdiskState { size_bytes: snap.size_bytes, tier, root: snap.root, dirty: SortedMap::new() },
        );
        let ghost mid = *self;
        proof {
            self.lemma_new_vdisk(before, new_id);
            let view = VdiskView { size_bytes: snap.size_bytes, tier, root: snap.root, dirty: Map::empty() };
            assert(views_of(self.vdisks@) =~= views_of(before).insert(new_id, view));
            assert(with_vdisks(old(self), &mid, old(self).vdisk_map().insert(new_id, view)));
        }
        self.checkpoint()
    }

    /// This node is continuing without a member: the state that follows
    /// belongs to a new generation, anchored before any of it exists. The
    /// target must move the era forward.
    pub fn bump_era_to(&mut self, target: u64) -> (r: Result<()>)
        requires
            old(self).inv(),
        ensures
            final(self).inv(),
            era_bumped(old(self), final(self), target, r),
    {
        if target <= self.era {
            return Err(FsError::Corrupt("an era bump must clear the era it replaces"));
        }
        self.era = target;
        let ghost mid = *self;
        assert(with_era(old(self), &mid, target));
        self.checkpoint()
    }

    /// The next era.
    pub fn bump_era(&mut self) -> (r: Result<()>)
        requires
            old(self).inv(),
        ensures
            final(self).inv(),
            if old(self).era_now() == u64::MAX {
                r is Err && unchanged(old(self), final(self))
            } else {
                exists|mid: Pool<D>| #[trigger] with_era(old(self), &mid, (old(self).era_now() + 1) as u64) && checkpointed(&mid, final(self), r)
            },
    {
        if self.era == u64::MAX {
            return Err(FsError::Corrupt("an era bump must clear the era it replaces"));
        }
        let target: u64 = self.era + 1;
        self.bump_era_to(target)
    }

    /// Where a write's payload belongs right now: the committed homes, plus,
    /// while a reassignment is in flight, the pending ones.
    pub fn write_homes_of(&self, hash: &BlockHash) -> (r: Option<Vec<NodeId>>)
        requires
            self.inv(),
        ensures
            match self.seat() {
                None => r is None,
                Some((node, map)) => r is Some && r->Some_0@ == write_homes(
                    map.home_pair(*hash),
                    match self.pending() {
                        Some(next) => Some(next.home_pair(*hash)),
                        None => None,
                    },
                ),
            },
    {
        match &self.placement {
            None => None,
            Some(placement) => {
                let homes = placement.map.homes_of(hash);
                let mut out: Vec<NodeId> = Vec::new();
                out.push(homes[0]);
                out.push(homes[1]);
                assert(out@ =~= seq![homes@[0], homes@[1]]);
                if let Some(next) = &self.pending_map {
                    let more = next.homes_of(hash);
                    if more[0] != homes[0] && more[0] != homes[1] {
                        out.push(more[0]);
                    }
                    let ghost mid = out@;
                    let mut seen = false;
                    let mut i: usize = 0;
                    while i < out.len()
                        invariant
                            i <= out@.len(),
                            seen <==> exists|k: int| 0 <= k < i && #[trigger] out@[k] == more@[1],
                        decreases out@.len() - i,
                    {
                        if out[i] == more[1] {
                            seen = true;
                        }
                        i += 1;
                    }
                    assert(mid =~= seq![homes@[0], homes@[1]] + if more@[0] != homes@[0] && more@[0] != homes@[1] { seq![more@[0]] } else { Seq::empty() });
                    assert(seen == mid.contains(more@[1]));
                    if !seen {
                        out.push(more[1]);
                    }
                }
                Some(out)
            },
        }
    }

    /// Hand the pool its seat after open.
    pub fn set_placement(&mut self, node: NodeId, map: SliceMap)
        requires
            old(self).inv(),
            map.covers(),
        ensures
            same_ground(old(self), final(self)),
            final(self).vdisk_map() == old(self).vdisk_map(),
            final(self).snapshot_map() == old(self).snapshot_map(),
            final(self).lease_map() == old(self).lease_map(),
            final(self).era_now() == old(self).era_now(),
            final(self).pending() == old(self).pending(),
            final(self).seat() == Some((node, map)),
    {
        self.placement = Some(Placement { node, map });
    }

    /// Open a reassignment toward `members` at `version`: the pending map is
    /// computed from the committed one, storage widens to both, and the
    /// moves come back for the caller to run. One that would orphan a slice
    /// is refused before anything widens.
    pub fn prepare_reassign(&mut self, version: u64, members: &Vec<NodeId>) -> (r: Result<Vec<SliceMove>>)
        requires
            old(self).inv(),
        ensures
            reassign_prepared(old(self), final(self), version, members@, r),
    {
        let placement = match &self.placement {
            Some(placement) => placement,
            None => {
                return Err(FsError::Placement("an unplaced pool has nothing to reassign"));
            },
        };
        if let Some(pending) = &self.pending_map {
            if pending.version() > version {
                return Err(FsError::Placement("a reassignment is already pending at a newer version"));
            }
        }
        let reassignment = match placement.map.reassigned(version, members) {
            Ok(reassignment) => reassignment,
            Err(e) => {
                return Err(e);
            },
        };
        if reassignment.orphaned.len() != 0 {
            return Err(
                FsError::Placement(
                    "the change would orphan slices whose homes are all leaving; refused rather than papered over with homes that hold nothing",
                ),
            );
        }
        self.pending_map = Some(reassignment.map);
        Ok(reassignment.moves)
    }

    /// The pending map becomes the committed one, anchored.
    pub fn commit_reassign(&mut self) -> (r: Result<()>)
        requires
            old(self).inv(),
        ensures
            final(self).inv(),
            reassign_committed(old(self), final(self), r),
    {
        if self.pending_map.is_none() {
            return Err(FsError::Placement("no reassignment is pending to commit"));
        }
        let mut next: Option<SliceMap> = None;
        core::mem::swap(&mut next, &mut self.pending_map);
        let mut seat: Option<Placement> = None;
        core::mem::swap(&mut seat, &mut self.placement);
        match (next, seat) {
            (Some(map), Some(placement)) => {
                self.placement = Some(Placement { node: placement.node, map });
                let ghost mid = *self;
                proof {
                    assert(old(self).pending() == Some(map));
                    assert(old(self).seat() == Some((placement.node, placement.map)));
                    assert(with_map(old(self), &mid, placement.node, map));
                }
                let r = self.checkpoint();
                assert(checkpointed(&mid, self, r));
                assert(map_committed(old(self), self, placement.node, map, r));
                r
            },
            _ => Err(FsError::Placement("an unplaced pool has nothing to commit")),
        }
    }

    /// Adopt a newer committed map whole, from a member that lived through
    /// reassignments this one slept through.
    pub fn adopt_map(&mut self, map: SliceMap) -> (r: Result<()>)
        requires
            old(self).inv(),
            map.covers(),
        ensures
            map_adopted(old(self), final(self), map, r),
    {
        let node: NodeId = match &self.placement {
            Some(placement) => {
                if map.version() <= placement.map.version() {
                    return Err(FsError::Placement("a map adoption must move the version forward"));
                }
                placement.node
            },
            None => {
                return Err(FsError::Placement("an unplaced pool cannot adopt a map"));
            },
        };
        self.placement = Some(Placement { node, map });
        self.pending_map = None;
        let ghost mid = *self;
        assert(with_map(old(self), &mid, node, map));
        let r = self.checkpoint();
        assert(checkpointed(&mid, self, r));
        assert(map_committed(old(self), self, node, map, r));
        r
    }
}

/// What moving to a later era comes to.
pub open spec fn era_bumped<D: Disk>(before: &Pool<D>, after: &Pool<D>, target: u64, r: Result<()>) -> bool {
    if target <= before.era_now() {
        r == Err::<(), FsError>(FsError::Corrupt("an era bump must clear the era it replaces")) && unchanged(before, after)
    } else {
        exists|mid: Pool<D>| #[trigger] with_era(before, &mid, target) && checkpointed(&mid, after, r)
    }
}

/// What committing a reassignment comes to.
pub open spec fn reassign_committed<D: Disk>(before: &Pool<D>, after: &Pool<D>, r: Result<()>) -> bool {
    match (before.pending(), before.seat()) {
        (Some(next), Some((node, map))) => map_committed(before, after, node, next, r),
        (None, _) => r == Err::<(), FsError>(FsError::Placement("no reassignment is pending to commit")) && unchanged(before, after),
        (Some(_), None) => r == Err::<(), FsError>(FsError::Placement("an unplaced pool has nothing to commit")),
    }
}

/// A map is committed, and a checkpoint anchors it.
pub open spec fn map_committed<D: Disk>(before: &Pool<D>, after: &Pool<D>, node: NodeId, map: SliceMap, r: Result<()>) -> bool {
    exists|mid: Pool<D>| #[trigger] with_map(before, &mid, node, map) && checkpointed(&mid, after, r)
}

/// What planning a reassignment of a map comes to.
pub open spec fn planned(current: SliceMap, version: u64, members: Seq<NodeId>, pending: Option<SliceMap>, r: Result<Vec<SliceMove>>) -> bool {
    &&& version <= current.at_version() ==> r == Err::<Vec<SliceMove>, FsError>(
        FsError::Placement("a reassignment must carry a higher version than the map it replaces"),
    )
    &&& forall|list: Seq<NodeId>| #[trigger]
        lists(list, members) && version > current.at_version() ==> if list.len() < 2 {
            r == Err::<Vec<SliceMove>, FsError>(FsError::Placement("a pool needs at least two members"))
        } else {
            match r {
                Ok(moves) => {
                    &&& pairs_of(pending->Some_0.table()) == reassigned_homes(current.table(), list)
                    &&& moves@ == moves_of(current.table(), reassigned_homes(current.table(), list), list, SLICES as nat)
                    &&& orphans(current.table(), list, SLICES as nat).len() == 0
                    &&& forall|s: int| 0 <= s < SLICES ==> share_a_home(current.table()[s], #[trigger] pending->Some_0.table()[s])
                },
                Err(e) => {
                    ||| orphans(current.table(), list, SLICES as nat).len() > 0 && e == FsError::Placement(
                        "the change would orphan slices whose homes are all leaving; refused rather than papered over with homes that hold nothing",
                    )
                    ||| exists|slices: Seq<Homes>, named: Seq<NodeId>| #[trigger]
                        pairs_of(slices) == reassigned_homes(current.table(), list) && #[trigger] lists_homes(named, slices) && map_fault(slices, named)
                            == Some(e)
                },
            }
        }
}

/// Committed homes first, then the pending ones not among them.
pub open spec fn write_homes(homes: Homes, next: Option<Homes>) -> Seq<NodeId> {
    let base = seq![homes@[0], homes@[1]];
    match next {
        None => base,
        Some(more) => {
            let mid = if base.contains(more@[0]) {
                base
            } else {
                base.push(more@[0])
            };
            if mid.contains(more@[1]) {
                mid
            } else {
                mid.push(more@[1])
            }
        },
    }
}

/// Why a snapshot is not taken, if it is not.
pub open spec fn pin_fault<D: Disk>(pool: &Pool<D>, vdisk: u64, snapshot: u64) -> Option<FsError> {
    if !pool.vdisk_map().contains_key(vdisk) {
        Some(FsError::UnknownVdisk(vdisk))
    } else if pool.snapshot_map().contains_key(SnapshotId { vdisk, snapshot }) {
        Some(FsError::SnapshotExists { vdisk, snapshot })
    } else if !fits(
        pool.unit(),
        pool.seat() is Some,
        pool.vdisk_map().dom().len() as int,
        pool.snapshot_map().dom().len() as int + 1,
    ) {
        Some(FsError::ManifestFull)
    } else {
        None
    }
}

/// Why a clone is not made, if it is not.
pub open spec fn clone_fault<D: Disk>(pool: &Pool<D>, new_id: u64, vdisk: u64, snapshot: u64) -> Option<FsError> {
    if pool.vdisk_map().contains_key(new_id) {
        Some(FsError::VdiskExists(new_id))
    } else if !pool.snapshot_map().contains_key(SnapshotId { vdisk, snapshot }) {
        Some(FsError::UnknownSnapshot { vdisk, snapshot })
    } else if !fits(
        pool.unit(),
        pool.seat() is Some,
        pool.vdisk_map().dom().len() as int + 1,
        pool.snapshot_map().dom().len() as int,
    ) {
        Some(FsError::ManifestFull)
    } else if !pool.vdisk_map().contains_key(vdisk) {
        Some(FsError::UnknownVdisk(vdisk))
    } else {
        None
    }
}

/// A snapshot taken of a settled vdisk holds what the vdisk held: each index
/// leads through the pinned root where it led before the checkpoint that
/// settled it.
pub proof fn law_snapshot_pins_the_content<D: Disk>(before: &Pool<D>, first: &Pool<D>, vdisk: u64, k: u64)
    requires
        checkpointed(before, first, Ok(())),
        first.faithful(0),
        before.vdisk_map().contains_key(vdisk),
        k < capacity(before.unit(), before.vdisk_map()[vdisk].size_bytes),
        mapped(before.shelf(0), before.unit(), before.vdisk_map()[vdisk], k) is Some,
    ensures
        ({
            let was = mapped(before.shelf(0), before.unit(), before.vdisk_map()[vdisk], k);
            let v = first.vdisk_map()[vdisk];
            let is = tree_get(first.shelf(0), before.unit(), v.root, tree_depth(before.unit(), v.size_bytes), k);
            is == was || is == Some(recorded(was->Some_0))
        }),
{
    assert(first.vdisk_map().dom().contains(vdisk));
    assert(settled_vdisk(before.shelf(0), first.shelf(0), before.unit(), before.vdisk_map()[vdisk], first.vdisk_map()[vdisk]));
    let was = mapped(before.shelf(0), before.unit(), before.vdisk_map()[vdisk], k);
}

/// Eras only rise.
pub proof fn law_eras_rise<D: Disk>(before: &Pool<D>, after: &Pool<D>, target: u64, r: Result<()>)
    requires
        era_bumped(before, after, target, r),
    ensures
        after.era_now() >= before.era_now(),
        target > before.era_now() ==> after.era_now() == target,
        target <= before.era_now() ==> r is Err && after.era_now() == before.era_now(),
        after.lease_map() == before.lease_map(),
        after.snapshot_map() == before.snapshot_map(),
        after.vdisk_map().dom() == before.vdisk_map().dom(),
        r is Ok ==> after.stock().durable(),
{
}

/// What taking a snapshot comes to.
pub open spec fn snapshotted<D: Disk>(before: &Pool<D>, after: &Pool<D>, vdisk: u64, snapshot: u64, r: Result<()>) -> bool {
    &&& after.inv()
    &&& match pin_fault(before, vdisk, snapshot) {
        Some(e) => r == Err::<(), FsError>(e) && unchanged(before, after),
        None => (r is Err && checkpointed(before, after, r)) || exists|first: Pool<D>, mid: Pool<D>| #[trigger]
            checkpointed(before, &first, Ok(())) && #[trigger] with_snapshots(
                &first,
                &mid,
                first.snapshot_map().insert(
                    SnapshotId { vdisk, snapshot },
                    SnapshotState {
                        size_bytes: first.vdisk_map()[vdisk].size_bytes,
                        root: first.vdisk_map()[vdisk].root,
                    },
                ),
            ) && checkpointed(&mid, after, r),
    }
}

/// What deleting a snapshot comes to.
pub open spec fn snapshot_deleted<D: Disk>(before: &Pool<D>, after: &Pool<D>, vdisk: u64, snapshot: u64, r: Result<()>) -> bool {
    &&& after.inv()
    &&& if !before.snapshot_map().contains_key(SnapshotId { vdisk, snapshot }) {
        r == Err::<(), FsError>(FsError::UnknownSnapshot { vdisk, snapshot }) && unchanged(before, after)
    } else {
        exists|mid: Pool<D>| #[trigger] with_snapshots(before, &mid, before.snapshot_map().remove(SnapshotId { vdisk, snapshot }))
            && checkpointed(&mid, after, r)
    }
}

/// What rolling a vdisk back comes to.
pub open spec fn rolled_back<D: Disk>(before: &Pool<D>, after: &Pool<D>, vdisk: u64, snapshot: u64, r: Result<()>) -> bool {
    &&& after.inv()
    &&& ({
        let key = SnapshotId { vdisk, snapshot };
        let snap = before.snapshot_map()[key];
        if !before.snapshot_map().contains_key(key) {
            r == Err::<(), FsError>(FsError::UnknownSnapshot { vdisk, snapshot }) && unchanged(before, after)
        } else if !before.vdisk_map().contains_key(vdisk) {
            r == Err::<(), FsError>(FsError::UnknownVdisk(vdisk)) && unchanged(before, after)
        } else {
            exists|mid: Pool<D>| #[trigger] with_vdisks(
                before,
                &mid,
                before.vdisk_map().insert(
                    vdisk,
                    VdiskView {
                        size_bytes: snap.size_bytes,
                        tier: before.vdisk_map()[vdisk].tier,
                        root: snap.root,
                        dirty: Map::empty(),
                    },
                ),
            ) && checkpointed(&mid, after, r)
        }
    })
}

/// What cloning a snapshot comes to.
pub open spec fn cloned<D: Disk>(before: &Pool<D>, after: &Pool<D>, new_id: u64, vdisk: u64, snapshot: u64, r: Result<()>) -> bool {
    &&& after.inv()
    &&& ({
        let snap = before.snapshot_map()[SnapshotId { vdisk, snapshot }];
        match clone_fault(before, new_id, vdisk, snapshot) {
            Some(e) => r == Err::<(), FsError>(e) && unchanged(before, after),
            None => exists|mid: Pool<D>| #[trigger] with_vdisks(
                before,
                &mid,
                before.vdisk_map().insert(
                    new_id,
                    VdiskView {
                        size_bytes: snap.size_bytes,
                        tier: before.vdisk_map()[vdisk].tier,
                        root: snap.root,
                        dirty: Map::empty(),
                    },
                ),
            ) && checkpointed(&mid, after, r),
        }
    })
}

/// What opening a reassignment comes to.
pub open spec fn reassign_prepared<D: Disk>(before: &Pool<D>, after: &Pool<D>, version: u64, members: Seq<NodeId>, r: Result<Vec<SliceMove>>) -> bool {
    &&& same_ground(before, after)
    &&& after.vdisk_map() == before.vdisk_map()
    &&& after.snapshot_map() == before.snapshot_map()
    &&& after.lease_map() == before.lease_map()
    &&& after.era_now() == before.era_now()
    &&& after.seat() == before.seat()
    &&& r is Err ==> after.pending() == before.pending()
    &&& before.seat() is None ==> r == Err::<Vec<SliceMove>, FsError>(FsError::Placement("an unplaced pool has nothing to reassign"))
    &&& before.seat() is Some && (before.pending() matches Some(p) && p.at_version() > version) ==> r == Err::<Vec<SliceMove>, FsError>(
        FsError::Placement("a reassignment is already pending at a newer version"),
    )
    &&& r matches Ok(moves) ==> after.pending() is Some && after.pending()->Some_0.at_version() == version
        && after.pending()->Some_0.sound()
    &&& before.seat() is Some && !(before.pending() matches Some(p) && p.at_version() > version) ==> planned(
        before.seat()->Some_0.1,
        version,
        members,
        after.pending(),
        r,
    )
}

/// What adopting a map comes to.
pub open spec fn map_adopted<D: Disk>(before: &Pool<D>, after: &Pool<D>, map: SliceMap, r: Result<()>) -> bool {
    &&& after.inv()
    &&& match before.seat() {
        None => r == Err::<(), FsError>(FsError::Placement("an unplaced pool cannot adopt a map")) && unchanged(before, after),
        Some((node, current)) => if map.at_version() <= current.at_version() {
            r == Err::<(), FsError>(FsError::Placement("a map adoption must move the version forward")) && unchanged(before, after)
        } else {
            map_committed(before, after, node, map, r)
        },
    }
}

} // verus!
