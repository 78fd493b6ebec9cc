//! Checkpoints: fold every dirty map into its tree, write the manifest,
//! anchor the result, and retire the WAL's history.
//!
//! The order cannot lie: tree nodes and the manifest are flushed before the
//! anchor that names them is written, and the ring's history is retired only
//! once that anchor is durable.

use super::manifest::{encode_manifest, manifest_bytes, Manifest, ManifestView};
use super::vdisk::lemma_set_like;
use super::{
    capacity, dirty_in_range, lemma_grew_twice, lemma_put_grew, lemma_same_grew, mapped, stock_grew, stock_same, tree_depth, views_of, Lease,
    Pool, SnapshotState, VdiskHead, VdiskState, VdiskView,
};
use crate::brick_set::care::set_frame;
use crate::brick::write::payload_fault;
use crate::brick_set::ops::{holds_same, tier_exists, tier_room};
use crate::brick_set::{entry_of_brick, tier_blocks, tier_claims, tier_held, BrickSet};
use crate::codec::{padded, splice, zeros};
use crate::disk::Disk;
use crate::error::{FsError, Result};
use crate::format::{anchor_bytes, anchor_slot, Anchor, SECTOR_SIZE};
use crate::hash::{address_of, BlockHash};
use crate::map::{arity, cramped, fold, fold_refused, lemma_tree_grows, path_ok, progressed, reach, recorded, tree_get};
use crate::store::{grew, keeps_promises, BlockRead, BlockWrite};
use crate::table::{SnapshotId, SortKey, SortedMap};
use crate::wal::Wal;
use vstd::prelude::*;

pub mod listing;

verus! {

/// `b` leads every index where `a` led it. An index mapped to the all-zeros
/// address may have become unmapped.
pub open spec fn settled_vdisk(m: Map<BlockHash, Seq<u8>>, n: Map<BlockHash, Seq<u8>>, bs: u32, a: VdiskView, b: VdiskView) -> bool {
    &&& b.size_bytes == a.size_bytes
    &&& b.tier == a.tier
    &&& forall|k: u64|
        k < capacity(bs, a.size_bytes) && (#[trigger] mapped(m, bs, a, k)) is Some ==> mapped(n, bs, b, k) == mapped(m, bs, a, k)
            || mapped(n, bs, b, k) == Some(recorded(mapped(m, bs, a, k)->Some_0))
}

/// The same vdisks, of the same shape.
pub open spec fn same_vdisks(a: Map<u64, VdiskView>, b: Map<u64, VdiskView>) -> bool {
    &&& b.dom() == a.dom()
    &&& forall|id: u64| #[trigger] a.contains_key(id) ==> b[id].size_bytes == a[id].size_bytes && b[id].tier == a[id].tier
}

/// A vdisk with nothing to fold is left alone.
pub open spec fn clean_kept(before: Map<u64, VdiskView>, after: Map<u64, VdiskView>) -> bool {
    forall|id: u64| #[trigger] before.contains_key(id) && before[id].dirty == Map::<u64, Option<BlockHash>>::empty() ==> after[id] == before[id]
}

/// Every vdisk reads as it did, wherever tier 0 keeps its promises.
pub open spec fn contents_kept<D: Disk>(before: &Pool<D>, after: &Pool<D>) -> bool {
    &&& same_vdisks(before.vdisk_map(), after.vdisk_map())
    &&& clean_kept(before.vdisk_map(), after.vdisk_map())
    &&& after.faithful(0) ==> forall|id: u64| #[trigger]
        before.vdisk_map().contains_key(id) ==> settled_vdisk(
            before.shelf(0),
            after.shelf(0),
            before.unit(),
            before.vdisk_map()[id],
            after.vdisk_map()[id],
        )
}

/// No vdisk has a mutation that is not in its tree.
pub open spec fn all_folded(m: Map<u64, VdiskView>) -> bool {
    forall|id: u64| #[trigger] m.contains_key(id) ==> m[id].dirty == Map::<u64, Option<BlockHash>>::empty()
}

/// A store that keeps its promises kept those it had made before.
pub proof fn lemma_faithful_before<D: Disk>(a: &BrickSet<D>, b: &BrickSet<D>, tier: u8)
    requires
        stock_grew(a, b),
        keeps_promises(tier_blocks(b.members(), tier), tier_claims(b.members(), tier)),
    ensures
        keeps_promises(tier_blocks(a.members(), tier), tier_claims(a.members(), tier)),
{
    assert(grew(tier_held(a.members(), tier), tier_blocks(a.members(), tier), tier_held(b.members(), tier), tier_blocks(b.members(), tier)));
    assert(tier_claims(a.members(), tier).subset_of(tier_claims(b.members(), tier)));
    assert forall|h: BlockHash, p: Seq<u8>| #[trigger] tier_claims(a.members(), tier).contains((h, p)) implies tier_blocks(a.members(), tier).contains_key(h)
        && tier_blocks(a.members(), tier)[h] == p && !crate::store::is_zero(h) by {
        assert(tier_claims(b.members(), tier).contains((h, p)));
        assert(tier_held(a.members(), tier).contains(h));
        assert(tier_blocks(b.members(), tier).contains_key(h));
    }
}

/// What a fold leaves of a store.
pub proof fn lemma_folded_stock<D: Disk>(a: &BrickSet<D>, b: &BrickSet<D>)
    requires
        a.inv(),
        progressed(a, b, 0),
    ensures
        stock_grew(a, b),
        b.wal_area() == a.wal_area(),
        a.intact() ==> b.intact(),
{
    a.lemma_set();
    b.lemma_set();
    let (fa, fb) = (set_frame(a), set_frame(b));
    assert(fa.bricks.len() == fb.bricks.len());
    assert forall|i: int| 0 <= i < a.members().len() implies (#[trigger] b.members()[i]).superblock() == a.members()[i].superblock() && b.members()[i].aux() == a.members()[i].aux() by {
        assert(fa.bricks[i] == fb.bricks[i]);
    }
    assert(b.members()[a.holder_at()].superblock() == a.members()[a.holder_at()].superblock());
    assert forall|t: u8| grew(#[trigger] tier_held(a.members(), t), tier_blocks(a.members(), t), tier_held(b.members(), t), tier_blocks(b.members(), t)) by {
        if t != 0 {
            assert(a.holds(t) == b.holds(t));
            assert(a.shelf(t) == b.shelf(t));
            lemma_blocks_are_held(a, t);
        } else {
            assert(grew(a.holds(0), a.shelf(0), b.holds(0), b.shelf(0)));
        }
    }
    assert forall|t: u8| (#[trigger] tier_claims(a.members(), t)).subset_of(tier_claims(b.members(), t)) by {
        if t != 0 {
            assert(a.promised(t) == b.promised(t));
        } else {
            assert(a.promised(0).subset_of(b.promised(0)));
        }
    }
}

proof fn lemma_blocks_are_held<D: Disk>(a: &BrickSet<D>, t: u8)
    ensures
        forall|h: BlockHash| #[trigger] tier_blocks(a.members(), t).contains_key(h) ==> tier_held(a.members(), t).contains(h),
{
}

/// A vdisk that reads the same still does in a store that has grown.
proof fn lemma_settled_grows(m: Map<BlockHash, Seq<u8>>, n: Map<BlockHash, Seq<u8>>, o: Map<BlockHash, Seq<u8>>, bs: u32, a: VdiskView, b: VdiskView)
    requires
        settled_vdisk(m, n, bs, a, b),
        crate::map::extends(n, o),
    ensures
        settled_vdisk(m, o, bs, a, b),
{
    assert forall|k: u64| k < capacity(bs, a.size_bytes) && (#[trigger] mapped(m, bs, a, k)) is Some implies mapped(o, bs, b, k) == mapped(m, bs, a, k)
        || mapped(o, bs, b, k) == Some(recorded(mapped(m, bs, a, k)->Some_0)) by {
        assert(mapped(n, bs, b, k) is Some);
        if !b.dirty.contains_key(k) {
            if let Some(root) = b.root {
                lemma_tree_grows(n, o, bs, root, tree_depth(bs, b.size_bytes), k);
            }
        }
    }
}

/// A store was left with no room on tier 0 for a block of `len` bytes.
pub open spec fn out_of_room<D: Disk>(after: &BrickSet<D>, len: nat) -> bool {
    0 < len <= after.unit_size() && !tier_room(after.members(), 0, len)
}

/// A node that a vdisk's mutations go through cannot be produced.
pub open spec fn path_broken<D: Disk>(pool: &Pool<D>, v: VdiskView) -> bool {
    !path_ok(pool.shelf(0), pool.unit(), v.root, (tree_depth(pool.unit(), v.size_bytes) - 1) as nat, v.dirty)
}

/// Why the trees and the manifest of a pool on reliable disks could not be
/// written.
pub open spec fn fold_blocked<D: Disk>(before: &Pool<D>, after: &Pool<D>, e: FsError) -> bool {
    ||| e is Corrupt && exists|id: u64| #[trigger] before.vdisk_map().contains_key(id) && path_broken(after, before.vdisk_map()[id])
    ||| e == FsError::Full && exists|len: nat| #[trigger] out_of_room(&after.stock(), len)
    ||| payload_fault(manifest_bytes(after.manifest_view()).len(), after.unit()) == Some(e)
    ||| e == FsError::NoSuchTier(0) && !tier_exists(after.stock().members(), 0)
}

/// Why a checkpoint on reliable disks fails.
pub open spec fn checkpoint_blocked<D: Disk>(before: &Pool<D>, after: &Pool<D>, e: FsError) -> bool {
    ||| fold_blocked(before, after, e)
    ||| before.generation() == u64::MAX && e == FsError::Corrupt("anchor generations have run out")
}

/// What a manifest would say of these tables.
pub open spec fn heads_of(s: Seq<(u64, VdiskState)>) -> Seq<(u64, VdiskHead)> {
    Seq::new(s.len(), |i: int| (s[i].0, VdiskHead { size_bytes: s[i].1.size_bytes, tier: s[i].1.tier, root: s[i].1.root }))
}

/// The anchor of a checkpoint.
pub open spec fn anchor_names<D: Disk>(a: Anchor, pool: &Pool<D>, offset: u64, seq: u64, epoch: u64, manifest: Seq<u8>) -> bool {
    &&& a.generation == pool.generation()
    &&& a.wal_replay_offset == offset
    &&& a.wal_replay_seq == seq
    &&& a.wal_epoch == epoch
    &&& a.era == pool.era_now()
    &&& a.manifest_hash@ == manifest
    &&& a.roster@.len() == pool.stock().members().len()
    &&& forall|i: int| 0 <= i < a.roster@.len() ==> #[trigger] a.roster@[i] == entry_of_brick(pool.stock().members()[i])
}

/// The area after an anchor has been written into its slot.
pub open spec fn anchored(before: Seq<u8>, after: Seq<u8>, a: Anchor) -> bool {
    after == splice(before, anchor_slot(a.generation) as int, padded(anchor_bytes(a), SECTOR_SIZE as nat))
}

/// The order a checkpoint keeps: everything that was stored is on stable
/// storage before the anchor that names it is written, and the anchor is
/// before anything relies on it. Whatever instant a crash picks, an anchor
/// leads only to what is there.
pub open spec fn flushed_twice<D: Disk>(before: &BrickSet<D>, mid: &BrickSet<D>, after: &BrickSet<D>) -> bool {
    &&& stock_grew(before, mid)
    &&& mid.wal_area() == before.wal_area()
    &&& mid.durable()
    &&& stock_same(mid, after)
    &&& after.durable()
}

/// An open two-phase checkpoint: everything the commit needs, captured when
/// the buffered half ran. Between the two the caller makes what was written
/// durable; a ticket whose barrier failed must be dropped.
#[derive(Debug, Clone, Copy)]
pub struct CheckpointTicket {
    pub(super) manifest_hash: [u8; 32],
    pub(super) cursor: u64,
    pub(super) seq: u64,
    pub(super) epoch: u64,
    pub(super) era: u64,
    pub(super) generation: u64,
}

impl CheckpointTicket {
    /// Where replay would begin, and under which seq and epoch.
    pub closed spec fn replay(&self) -> (u64, u64, u64) {
        (self.cursor, self.seq, self.epoch)
    }

    /// The era and the anchor generation it was opened in.
    pub closed spec fn opened_in(&self) -> (u64, u64) {
        (self.era, self.generation)
    }

    /// The manifest it would anchor.
    pub closed spec fn names(&self) -> Seq<u8> {
        self.manifest_hash@
    }
}

impl<D: Disk> Pool<D> {
    /// What a manifest of this pool says.
    pub closed spec fn manifest_view(&self) -> ManifestView {
        ManifestView {
            vdisks: heads_of(self.vdisks.listing()),
            snapshots: self.snapshots.listing(),
            leases: self.leases.listing(),
            map: match self.placement {
                Some(p) => Some((p.map.at_version(), p.map.table())),
                None => None,
            },
        }
    }

    /// The same tables make the same manifest.
    pub(super) proof fn lemma_manifest_same(&self, other: &Self)
        requires
            self.vdisks == other.vdisks,
            self.snapshots == other.snapshots,
            self.leases == other.leases,
            self.placement == other.placement,
        ensures
            self.manifest_view() == other.manifest_view(),
    {
    }

    /// Whether there is nothing a manifest would have to say.
    pub open spec fn blank(&self) -> bool {
        self.vdisk_map().dom().len() == 0 && self.snapshot_map().dom().len() == 0 && self.seat() is None
    }

    /// The address a checkpoint anchors: all zeros for a blank pool.
    pub open spec fn manifest_address(&self) -> Seq<u8> {
        if self.blank() {
            zeros(32)
        } else {
            address_of(manifest_bytes(self.manifest_view())).0@
        }
    }

    /// What this pool's manifest says.
    pub(super) fn manifest(&self) -> (m: Manifest)
        requires
            self.inv(),
        ensures
            m@ == self.manifest_view(),
    {
        let mut vdisks: Vec<(u64, VdiskHead)> = Vec::new();
        let n: usize = self.vdisks.len();
        let ghost s = self.vdisks.listing();
        let mut i: usize = 0;
        while i < n
            invariant
                self.vdisks.wf(),
                s == self.vdisks.listing(),
                i <= n == s.len(),
                vdisks@ == heads_of(s).subrange(0, i as int),
            decreases n - i,
        {
            let id: u64 = self.vdisks.key_at(i);
            let state = self.vdisks.value_at(i);
            vdisks.push((id, VdiskHead { size_bytes: state.size_bytes, tier: state.tier, root: state.root }));
            i += 1;
            assert(vdisks@ =~= heads_of(s).subrange(0, i as int));
        }
        assert(vdisks@ =~= heads_of(s));
        let mut snapshots: Vec<(SnapshotId, SnapshotState)> = Vec::new();
        let n: usize = self.snapshots.len();
        let mut i: usize = 0;
        while i < n
            invariant
                self.snapshots.wf(),
                i <= n == self.snapshots.listing().len(),
                snapshots@ == self.snapshots.listing().subrange(0, i as int),
            decreases n - i,
        {
            snapshots.push(self.snapshots.entry_at(i));
            i += 1;
            assert(snapshots@ =~= self.snapshots.listing().subrange(0, i as int));
        }
        assert(snapshots@ =~= self.snapshots.listing());
        let leases = self.lease_list();
        let map = match &self.placement {
            Some(p) => Some(p.map.copied()),
            None => None,
        };
        Manifest { vdisks, snapshots, leases, map }
    }

    fn lease_list(&self) -> (leases: Vec<(u64, Lease)>)
        requires
            self.inv(),
        ensures
            leases@ == self.leases.listing(),
    {
        let mut leases: Vec<(u64, Lease)> = Vec::new();
        let n: usize = self.leases.len();
        let mut i: usize = 0;
        while i < n
            invariant
                self.leases.wf(),
                i <= n == self.leases.listing().len(),
                leases@ == self.leases.listing().subrange(0, i as int),
            decreases n - i,
        {
            leases.push(self.leases.entry_at(i));
            i += 1;
            assert(leases@ =~= self.leases.listing().subrange(0, i as int));
        }
        assert(leases@ =~= self.leases.listing());
        leases
    }

    /// Fold one vdisk's mutations into its tree.
    fn fold_vdisk(&mut self, id: u64) -> (r: Result<()>)
        requires
            old(self).inv(),
            old(self).vdisks@.contains_key(id),
        ensures
            final(self).inv(),
            final(self).wal == old(self).wal,
            final(self).snapshots == old(self).snapshots,
            final(self).leases == old(self).leases,
            final(self).anchor_generation == old(self).anchor_generation,
            final(self).era == old(self).era,
            final(self).session_pins == old(self).session_pins,
            final(self).placement == old(self).placement,
            final(self).pending_map == old(self).pending_map,
            stock_grew(&old(self).store, &final(self).store),
            final(self).store.wal_area() == old(self).store.wal_area(),
            old(self).store.intact() ==> final(self).store.intact(),
            final(self).vdisks@.dom() == old(self).vdisks@.dom(),
            forall|x: u64| x != id && #[trigger] old(self).vdisks@.contains_key(x) ==> final(self).vdisks@[x] == old(self).vdisks@[x],
            r is Err ==> final(self).vdisks == old(self).vdisks,
            r is Ok ==> final(self).vdisks@[id].dirty@ == Map::<u64, Option<BlockHash>>::empty(),
            final(self).faithful(0) ==> settled_vdisk(
                old(self).shelf(0),
                final(self).shelf(0),
                old(self).unit(),
                old(self).vdisk_map()[id],
                final(self).vdisk_map()[id],
            ),
            old(self).vdisks@[id].size_bytes == final(self).vdisks@[id].size_bytes,
            old(self).vdisks@[id].tier == final(self).vdisks@[id].tier,
            r is Err && old(self).reliable() ==> fold_refused(
                &old(self).store,
                &final(self).store,
                0,
                old(self).vdisk_map()[id].root,
                (tree_depth(old(self).unit(), old(self).vdisk_map()[id].size_bytes) - 1) as nat,
                old(self).vdisk_map()[id].dirty,
                r->Err_0,
            ),
    {
        proof {
            self.lemma_still();
        }
        let ghost before = *self;
        let ghost bs = self.store.unit_size();
        let ghost v = self.vdisks@[id]@;
        let (depth, root) = match self.vdisks.get_ref(&id) {
            Some(state) => (self.depth_for_size(state.size_bytes), state.root),
            None => {
                return Ok(());
            },
        };
        let outcome: Result<Option<BlockHash>> = match self.vdisks.get_ref(&id) {
            Some(state) => {
                proof {
                    assert(dirty_in_range(bs, views_of(before.vdisks@)));
                    assert forall|k: u64| #[trigger] state.dirty@.contains_key(k) implies k < reach(arity(bs), depth as nat) by {
                        assert(views_of(before.vdisks@).contains_key(id));
                        assert(views_of(before.vdisks@)[id].dirty.contains_key(k));
                    }
                }
                fold(&mut self.store, 0, root, depth, &state.dirty)
            },
            None => Ok(root),
        };
        proof {
            lemma_folded_stock(&before.store, &self.store);
            assert(grew(tier_held(before.store.members(), 0), tier_blocks(before.store.members(), 0), tier_held(self.store.members(), 0), tier_blocks(self.store.members(), 0)));
        }
        match outcome {
            Ok(new_root) => {
                if let Some(mut state) = self.vdisks.take(&id) {
                    state.root = new_root;
                    state.dirty = SortedMap::new();
                    self.vdisks.insert(id, state);
                    proof {
                        let after = self.vdisks@;
                        assert(after.dom() =~= before.vdisks@.dom());
                        let others = before.vdisks@.remove(id);
                        assert forall|x: u64, k: u64| #[trigger] views_of(others).contains_key(x) && #[trigger] views_of(others)[x].dirty.contains_key(k) implies k < capacity(bs, views_of(others)[x].size_bytes) by {
                            assert(views_of(before.vdisks@).contains_key(x));
                            assert(views_of(before.vdisks@)[x].dirty.contains_key(k));
                        }
                        self.lemma_new_vdisk(others, id);
                        let (m, n) = (before.shelf(0), self.shelf(0));
                        let w = after[id]@;
                        if self.faithful(0) {
                            assert forall|k: u64| k < capacity(bs, v.size_bytes) && (#[trigger] mapped(m, bs, v, k)) is Some implies mapped(n, bs, w, k) == mapped(m, bs, v, k)
                                || mapped(n, bs, w, k) == Some(recorded(mapped(m, bs, v, k)->Some_0)) by {
                                assert(tree_get(n, bs, new_root, depth as nat, k) == if v.dirty.contains_key(k) {
                                    Some(recorded(v.dirty[k]))
                                } else {
                                    tree_get(n, bs, root, depth as nat, k)
                                });
                                if !v.dirty.contains_key(k) {
                                    if let Some(h) = root {
                                        lemma_tree_grows(m, n, bs, h, depth as nat, k);
                                    }
                                }
                            }
                        }
                    }
                }
                Ok(())
            },
            Err(e) => {
                proof {
                    let (m, n) = (before.shelf(0), self.shelf(0));
                    lemma_same_vdisk_settles(m, n, bs, v);
                    assert(forall|x: u64| #[trigger] self.vdisks@.contains_key(x) ==> self.vdisks@[x].dirty.wf());
                }
                Err(e)
            },
        }
    }

    /// The buffered half of a checkpoint: fold every dirty map into its tree
    /// and write the manifest.
    fn fold_and_manifest(&mut self) -> (r: Result<[u8; 32]>)
        requires
            old(self).inv(),
        ensures
            final(self).inv(),
            final(self).same_rest(old(self)),
            final(self).ring() == old(self).ring(),
            stock_grew(&old(self).stock(), &final(self).stock()),
            final(self).stock().wal_area() == old(self).stock().wal_area(),
            old(self).stock().intact() ==> final(self).stock().intact(),
            contents_kept(old(self), final(self)),
            r matches Ok(hash) ==> {
                &&& all_folded(final(self).vdisk_map())
                &&& hash@ == final(self).manifest_address()
                &&& !final(self).blank() ==> final(self).promised(0).contains((address_of(manifest_bytes(final(self).manifest_view())), manifest_bytes(final(self).manifest_view())))
            },
            r is Err && old(self).reliable() ==> fold_blocked(old(self), final(self), r->Err_0),
    {
        proof {
            self.lemma_still();
            self.lemma_domains();
        }
        let ids = self.vdisks.keys();
        let mut i: usize = 0;
        let ghost bs = self.unit();
        proof {
            assert forall|id: u64| #[trigger] old(self).vdisk_map().contains_key(id) implies settled_vdisk(old(self).shelf(0), self.shelf(0), bs, old(self).vdisk_map()[id], self.vdisk_map()[id]) by {}
        }
        while i < ids.len()
            invariant
                i <= ids@.len(),
                self.inv(),
                old(self).inv(),
                bs == old(self).unit(),
                self.wal == old(self).wal,
                self.same_rest(old(self)),
                self.placement == old(self).placement,
                stock_grew(&old(self).store, &self.store),
                self.store.wal_area() == old(self).store.wal_area(),
                old(self).store.intact() ==> self.store.intact(),
                self.vdisks@.dom() == old(self).vdisks@.dom(),
                same_vdisks(old(self).vdisk_map(), self.vdisk_map()),
                clean_kept(old(self).vdisk_map(), self.vdisk_map()),
                forall|id: u64| #[trigger] old(self).vdisks@.contains_key(id) <==> ids@.contains(id),
                forall|k: int| 0 <= k < i ==> self.vdisks@[#[trigger] ids@[k]].dirty@ == Map::<u64, Option<BlockHash>>::empty(),
                ids@.no_duplicates(),
                forall|k: int| i <= k < ids@.len() ==> self.vdisks@[#[trigger] ids@[k]] == old(self).vdisks@[ids@[k]],
                self.faithful(0) ==> forall|id: u64| #[trigger] old(self).vdisk_map().contains_key(id) ==> settled_vdisk(
                    old(self).shelf(0),
                    self.shelf(0),
                    bs,
                    old(self).vdisk_map()[id],
                    self.vdisk_map()[id],
                ),
            decreases ids@.len() - i,
        {
            let id: u64 = ids[i];
            let ghost mid = *self;
            assert(ids@.contains(id));
            assert(old(self).vdisks@.contains_key(id));
            assert(self.vdisks@.dom().contains(id));
            let clean = match self.vdisks.get_ref(&id) {
                Some(state) => state.dirty.len() == 0,
                None => true,
            };
            if !clean {
                let outcome = self.fold_vdisk(id);
                proof {
                    lemma_grew_twice(&old(self).store, &mid.store, &self.store);
                    self.lemma_kept_step(old(self), &mid, id);
                    assert(mid.vdisks@[ids@[i as int]] == old(self).vdisks@[ids@[i as int]]);
                    assert(mid.vdisks@[id].dirty@.dom().len() != 0);
                    assert forall|x: u64| #[trigger] old(self).vdisk_map().contains_key(x) && old(self).vdisk_map()[x].dirty == Map::<u64, Option<BlockHash>>::empty() implies self.vdisk_map()[x]
                        == old(self).vdisk_map()[x] by {
                        assert(x != id);
                        assert(mid.vdisks@.dom().contains(x));
                        assert(mid.vdisks@.contains_key(x));
                        assert(mid.vdisk_map()[x] == old(self).vdisk_map()[x]);
                    }
                }
                match outcome {
                    Ok(()) => {},
                    Err(e) => {
                        proof {
                            if old(self).reliable() {
                                let v = old(self).vdisk_map()[id];
                                assert(mid.vdisks@[ids@[i as int]] == old(self).vdisks@[ids@[i as int]]);
                                assert(mid.vdisk_map()[id] == v);
                                assert(old(self).vdisk_map().contains_key(id));
                                if e == FsError::Full {
                                    let len = choose|len: nat| #[trigger] cramped(&self.store, 0, len);
                                    assert(out_of_room(&self.stock(), len));
                                } else if e is Corrupt {
                                    assert(path_broken(self, v));
                                } else {
                                    lemma_same_tiers(&mid.store, &self.store, 0);
                                }
                            }
                        }
                        return Err(e);
                    },
                }
                proof {
                    assert forall|k: int| i + 1 <= k < ids@.len() implies self.vdisks@[#[trigger] ids@[k]] == old(self).vdisks@[ids@[k]] by {
                        assert(ids@[k] != ids@[i as int]);
                        assert(ids@.contains(ids@[k]));
                        assert(old(self).vdisks@.contains_key(ids@[k]));
                        assert(mid.vdisks@.dom().contains(ids@[k]));
                        assert(mid.vdisks@.contains_key(ids@[k]));
                    }
                    assert forall|k: int| 0 <= k < i + 1 implies self.vdisks@[#[trigger] ids@[k]].dirty@ == Map::<u64, Option<BlockHash>>::empty() by {
                        if k < i {
                            assert(ids@[k] != ids@[i as int]);
                            assert(ids@.contains(ids@[k]));
                            assert(mid.vdisks@.dom().contains(ids@[k]));
                            assert(mid.vdisks@.contains_key(ids@[k]));
                        }
                    }
                }
            } else {
                proof {
                    let d = self.vdisks@[id].dirty@;
                    assert(d.dom() =~= Set::<u64>::empty());
                    assert(d =~= Map::<u64, Option<BlockHash>>::empty());
                }
            }
            i += 1;
        }
        proof {
            assert forall|id: u64| #[trigger] self.vdisk_map().contains_key(id) implies self.vdisk_map()[id].dirty == Map::<u64, Option<BlockHash>>::empty() by {
                assert(self.vdisks@.dom().contains(id));
                assert(old(self).vdisks@.contains_key(id));
                assert(ids@.contains(id));
                let k = choose|k: int| 0 <= k < ids@.len() && ids@[k] == id;
                assert(self.vdisks@[ids@[k]].dirty@ == Map::<u64, Option<BlockHash>>::empty());
            }
            self.lemma_domains();
        }
        let empty = self.vdisks.len() == 0 && self.snapshots.len() == 0 && self.placement.is_none();
        if empty {
            let blank = [0u8; 32];
            assert(blank@ =~= zeros(32));
            return Ok(blank);
        }
        let manifest = self.manifest();
        let bytes = encode_manifest(&manifest);
        let ghost mid = *self;
        let put = self.store.put(0, bytes.as_slice());
        proof {
            if put is Ok {
                assert(self.store.stored(&mid.store, 0, put->Ok_0, bytes@));
            }
            lemma_put_grew(&mid.store, &self.store, 0);
            lemma_grew_twice(&old(self).store, &mid.store, &self.store);
            self.lemma_kept_grown(old(self), &mid);
            self.lemma_domains();
        }
        match put {
            Ok(hash) => Ok(hash.0),
            Err(e) => {
                proof {
                    if old(self).reliable() {
                        if e == FsError::Full && !tier_room(mid.store.members(), 0, bytes@.len()) && payload_fault(bytes@.len(), mid.unit()) is None {
                            assert(out_of_room(&self.stock(), bytes@.len()));
                        }
                        lemma_same_tiers(&mid.store, &self.store, 0);
                    }
                }
                Err(e)
            },
        }
    }

    /// One more vdisk folded, the rest as they were.
    proof fn lemma_kept_step(&self, start: &Self, mid: &Self, id: u64)
        requires
            start.inv(),
            mid.inv(),
            self.inv(),
            stock_grew(&start.store, &mid.store),
            stock_grew(&mid.store, &self.store),
            start.vdisks@.contains_key(id),
            mid.vdisks@.dom() == start.vdisks@.dom(),
            self.vdisks@.dom() == mid.vdisks@.dom(),
            forall|x: u64| x != id && #[trigger] mid.vdisks@.contains_key(x) ==> self.vdisks@[x] == mid.vdisks@[x],
            mid.vdisks@[id].size_bytes == self.vdisks@[id].size_bytes,
            mid.vdisks@[id].tier == self.vdisks@[id].tier,
            same_vdisks(start.vdisk_map(), mid.vdisk_map()),
            mid.faithful(0) ==> forall|x: u64| #[trigger] start.vdisk_map().contains_key(x) ==> settled_vdisk(
                start.shelf(0),
                mid.shelf(0),
                start.unit(),
                start.vdisk_map()[x],
                mid.vdisk_map()[x],
            ),
            self.faithful(0) ==> settled_vdisk(mid.shelf(0), self.shelf(0), mid.unit(), mid.vdisk_map()[id], self.vdisk_map()[id]),
        ensures
            same_vdisks(start.vdisk_map(), self.vdisk_map()),
            self.faithful(0) ==> forall|x: u64| #[trigger] start.vdisk_map().contains_key(x) ==> settled_vdisk(
                start.shelf(0),
                self.shelf(0),
                start.unit(),
                start.vdisk_map()[x],
                self.vdisk_map()[x],
            ),
    {
        assert(self.vdisk_map().dom() =~= start.vdisk_map().dom());
        assert forall|x: u64| #[trigger] start.vdisk_map().contains_key(x) implies self.vdisk_map()[x].size_bytes == start.vdisk_map()[x].size_bytes && self.vdisk_map()[x].tier == start.vdisk_map()[x].tier by {
            assert(mid.vdisks@.dom().contains(x));
            assert(mid.vdisks@.contains_key(x));
        }
        assert(grew(tier_held(mid.store.members(), 0), tier_blocks(mid.store.members(), 0), tier_held(self.store.members(), 0), tier_blocks(self.store.members(), 0)));
        if self.faithful(0) {
            lemma_faithful_before(&mid.store, &self.store, 0);
            assert forall|x: u64| #[trigger] start.vdisk_map().contains_key(x) implies settled_vdisk(
                start.shelf(0),
                self.shelf(0),
                start.unit(),
                start.vdisk_map()[x],
                self.vdisk_map()[x],
            ) by {
                assert(mid.vdisks@.dom().contains(x));
                assert(mid.vdisks@.contains_key(x));
                if x != id {
                    lemma_settled_grows(start.shelf(0), mid.shelf(0), self.shelf(0), start.unit(), start.vdisk_map()[x], mid.vdisk_map()[x]);
                } else {
                    lemma_settled_twice(start.shelf(0), mid.shelf(0), self.shelf(0), start.unit(), start.vdisk_map()[x], mid.vdisk_map()[x], self.vdisk_map()[x]);
                }
            }
        }
    }

    /// A store that has grown under the same vdisks.
    pub(super) proof fn lemma_kept_grown(&self, start: &Self, mid: &Self)
        requires
            stock_grew(&mid.store, &self.store),
            self.vdisks@ == mid.vdisks@,
            contents_kept(start, mid),
        ensures
            contents_kept(start, self),
    {
        assert(grew(tier_held(mid.store.members(), 0), tier_blocks(mid.store.members(), 0), tier_held(self.store.members(), 0), tier_blocks(self.store.members(), 0)));
        if self.faithful(0) {
            lemma_faithful_before(&mid.store, &self.store, 0);
            assert forall|x: u64| #[trigger] start.vdisk_map().contains_key(x) implies settled_vdisk(
                start.shelf(0),
                self.shelf(0),
                start.unit(),
                start.vdisk_map()[x],
                self.vdisk_map()[x],
            ) by {
                lemma_settled_grows(start.shelf(0), mid.shelf(0), self.shelf(0), start.unit(), start.vdisk_map()[x], mid.vdisk_map()[x]);
            }
        }
    }

    /// Write the anchor that names `manifest_hash` and a replay position,
    /// and make it durable.
    fn write_anchor(&mut self, manifest_hash: [u8; 32], offset: u64, seq: u64, epoch: u64) -> (r: Result<()>)
        requires
            old(self).inv(),
        ensures
            final(self).inv(),
            final(self).wal == old(self).wal,
            final(self).vdisks == old(self).vdisks,
            final(self).snapshots == old(self).snapshots,
            final(self).leases == old(self).leases,
            final(self).era == old(self).era,
            final(self).session_pins == old(self).session_pins,
            final(self).placement == old(self).placement,
            final(self).pending_map == old(self).pending_map,
            stock_same(&old(self).store, &final(self).store),
            old(self).anchor_generation == u64::MAX ==> r == Err::<(), FsError>(FsError::Corrupt("anchor generations have run out")),
            r is Ok ==> final(self).anchor_generation == old(self).anchor_generation + 1,
            r is Err ==> final(self).anchor_generation == old(self).anchor_generation || final(self).anchor_generation == old(self).anchor_generation + 1,
            r is Ok ==> exists|a: Anchor| #[trigger] anchor_names(a, final(self), offset, seq, epoch, manifest_hash@) && anchored(
                old(self).store.wal_area(),
                final(self).store.wal_area(),
                a,
            ),
            r is Ok ==> final(self).store.durable(),
            old(self).store.reliable() && old(self).anchor_generation < u64::MAX ==> r is Ok,
    {
        proof {
            self.lemma_still();
        }
        if self.anchor_generation == u64::MAX {
            return Err(FsError::Corrupt("anchor generations have run out"));
        }
        self.anchor_generation = self.anchor_generation + 1;
        let roster = self.store.roster();
        let anchor = Anchor {
            generation: self.anchor_generation,
            wal_replay_offset: offset,
            wal_replay_seq: seq,
            wal_epoch: epoch,
            era: self.era,
            manifest_hash,
            roster,
        };
        let ghost a = self.store;
        proof {
            a.lemma_set();
        }
        let written = self.store.wal_brick_mut().write_anchor(&anchor);
        let ghost b = self.store;
        proof {
            let at = a.holder_at();
            assert(b.members() == a.members().update(at, b.members()[at]));
            assert forall|i: int| 0 <= i < a.members().len() implies holds_same(a.members()[i], #[trigger] b.members()[i]) by {}
            lemma_set_like(&a, &b);
            if a.reliable() {
                assert(a.members()[at].reliable());
            }
        }
        match written {
            Ok(()) => {},
            Err(e) => {
                return Err(e);
            },
        }
        let flushed = self.store.flush();
        proof {
            lemma_put_grew(&b, &self.store, 0);
            lemma_same_twice(&a, &b, &self.store);
            self.store.lemma_set();
            assert forall|i: int| 0 <= i < anchor.roster@.len() implies #[trigger] anchor.roster@[i] == entry_of_brick(self.store.members()[i]) by {
                assert(self.store.members()[i].superblock() == a.members()[i].superblock());
            }
            assert(anchor_names(anchor, self, offset, seq, epoch, manifest_hash@));
        }
        flushed
    }

    /// Fold every dirty map into its tree, anchor the result, and retire the
    /// WAL's history.
    pub fn checkpoint(&mut self) -> (r: Result<()>)
        requires
            old(self).inv(),
        ensures
            checkpointed(old(self), final(self), r),
    {
        let hash = self.fold_and_manifest()?;
        let ghost mid = *self;
        let flushed = self.store.flush();
        proof {
            lemma_put_grew(&mid.store, &self.store, 0);
            lemma_same_grew(&mid.store, &self.store);
            lemma_grew_twice(&old(self).store, &mid.store, &self.store);
            self.lemma_kept_grown(old(self), &mid);
            assert(self.vdisk_map() == mid.vdisk_map());
            assert(self.promised(0) == mid.promised(0));
        }
        match flushed {
            Ok(()) => {},
            Err(e) => {
                return Err(e);
            },
        }
        let (offset, seq) = self.wal.position();
        let epoch: u64 = self.wal.epoch();
        let ghost mid2 = *self;
        let written = self.write_anchor(hash, offset, seq, epoch);
        proof {
            lemma_same_grew(&mid2.store, &self.store);
            lemma_grew_twice(&old(self).store, &mid2.store, &self.store);
            self.lemma_kept_grown(old(self), &mid2);
            assert(self.promised(0) == mid2.promised(0));
        }
        match written {
            Ok(()) => {},
            Err(e) => {
                return Err(e);
            },
        }
        self.wal.retire_to_cursor();
        proof {
            let a = choose|a: Anchor| #[trigger] anchor_names(a, &Pool { wal: mid2.wal, ..*self }, offset, seq, epoch, hash@) && anchored(mid2.store.wal_area(), self.store.wal_area(), a);
            assert(anchor_names(a, self, offset, seq, epoch, self.manifest_address()));
            assert(flushed_twice(&old(self).stock(), &mid2.store, &self.stock()));
        }
        Ok(())
    }

    /// Open a two-phase checkpoint: the buffered half runs now. Once the
    /// caller has made everything written durable, it offers the ticket to
    /// [`Pool::checkpoint_commit`]. An abandoned ticket costs nothing but
    /// the work.
    pub fn checkpoint_begin(&mut self) -> (r: Result<CheckpointTicket>)
        requires
            old(self).inv(),
        ensures
            ticket_opened(old(self), final(self), r),
    {
        let manifest_hash = self.fold_and_manifest()?;
        let (cursor, seq) = self.wal.position();
        Ok(
            CheckpointTicket {
                manifest_hash,
                cursor,
                seq,
                epoch: self.wal.epoch(),
                era: self.era,
                generation: self.anchor_generation,
            },
        )
    }

    /// Close a two-phase checkpoint: anchor the ticket's manifest and WAL
    /// position. `Ok(false)`, and nothing written, when an era, an epoch or
    /// another checkpoint crossed between the phases.
    pub fn checkpoint_commit(&mut self, ticket: CheckpointTicket) -> (r: Result<bool>)
        requires
            old(self).inv(),
        ensures
            ticket_closed(old(self), final(self), ticket, r),
    {
        proof {
            self.lemma_still();
        }
        if ticket.era != self.era || ticket.epoch != self.wal.epoch || ticket.generation != self.anchor_generation || ticket.cursor < self.wal.start
            || ticket.cursor - self.wal.start > self.wal.size {
            return Ok(false);
        }
        let ghost before = *self;
        match self.write_anchor(ticket.manifest_hash, ticket.cursor, ticket.seq, ticket.epoch) {
            Ok(()) => {},
            Err(e) => {
                return Err(e);
            },
        }
        let ghost mid = *self;
        self.wal.retire_to(ticket.cursor);
        proof {
            let a = choose|a: Anchor| #[trigger] anchor_names(a, &mid, ticket.cursor, ticket.seq, ticket.epoch, ticket.manifest_hash@) && anchored(before.store.wal_area(), mid.store.wal_area(), a);
            assert(anchor_names(a, self, ticket.cursor, ticket.seq, ticket.epoch, ticket.manifest_hash@));
            assert(anchor_names(a, self, ticket.replay().0, ticket.replay().1, ticket.replay().2, ticket.names()));
            assert(anchored(old(self).stock().wal_area(), self.stock().wal_area(), a));
        }
        Ok(true)
    }
}

/// What opening a two-phase checkpoint comes to.
pub open spec fn ticket_opened<D: Disk>(before: &Pool<D>, after: &Pool<D>, r: Result<CheckpointTicket>) -> bool {
    &&& after.inv()
    &&& after.same_rest(before)
    &&& after.ring() == before.ring()
    &&& stock_grew(&before.stock(), &after.stock())
    &&& after.stock().wal_area() == before.stock().wal_area()
    &&& before.stock().intact() ==> after.stock().intact()
    &&& contents_kept(before, after)
    &&& r matches Ok(ticket) ==> {
        &&& all_folded(after.vdisk_map())
        &&& ticket.names() == after.manifest_address()
        &&& ticket.replay() == (after.ring().cursor, after.ring().next_seq, after.ring().epoch)
        &&& ticket.opened_in() == (after.era_now(), after.generation())
        &&& !after.blank() ==> after.promised(0).contains((address_of(manifest_bytes(after.manifest_view())), manifest_bytes(after.manifest_view())))
    }
    &&& r is Err && before.reliable() ==> fold_blocked(before, after, r->Err_0)
}

/// What closing a two-phase checkpoint comes to.
pub open spec fn ticket_closed<D: Disk>(before: &Pool<D>, after: &Pool<D>, ticket: CheckpointTicket, r: Result<bool>) -> bool {
    &&& after.inv()
    &&& stock_same(&before.stock(), &after.stock())
    &&& after.vdisk_map() == before.vdisk_map()
    &&& after.snapshot_map() == before.snapshot_map()
    &&& after.lease_map() == before.lease_map()
    &&& after.era_now() == before.era_now()
    &&& after.seat() == before.seat()
    &&& after.pending() == before.pending()
    &&& after.pin_map() == before.pin_map()
    &&& ({
        let current = ticket.opened_in() == (before.era_now(), before.generation()) && ticket.replay().2 == before.ring().epoch
            && before.ring().start <= ticket.replay().0 <= before.ring().start + before.ring().size;
        &&& !current ==> r == Ok::<bool, FsError>(false) && *after == *before
        &&& current ==> r != Ok::<bool, FsError>(false)
        &&& current && before.reliable() && before.generation() < u64::MAX ==> r is Ok
    })
    &&& r is Err ==> after.ring() == before.ring()
    &&& r == Ok::<bool, FsError>(true) ==> {
        &&& after.ring() == (Wal { replay_start: ticket.replay().0, ..before.ring() })
        &&& after.stock().durable()
        &&& after.generation() == before.generation() + 1
        &&& exists|a: Anchor| #[trigger] anchor_names(a, after, ticket.replay().0, ticket.replay().1, ticket.replay().2, ticket.names())
            && anchored(before.stock().wal_area(), after.stock().wal_area(), a)
    }
}

/// An uncrossed ticket commits: with disks that do not fail, a checkpoint
/// that was opened and is closed at once is anchored, all of it on stable
/// storage, and replay starts where the ring stood when it was opened. One
/// that an era, an epoch or another checkpoint has crossed writes nothing.
pub proof fn law_a_ticket_commits_uncrossed<D: Disk>(
    a: &Pool<D>,
    b: &Pool<D>,
    c: &Pool<D>,
    d: &Pool<D>,
    ticket: CheckpointTicket,
    opened: Result<CheckpointTicket>,
    closed: Result<bool>,
)
    requires
        ticket_opened(a, b, opened),
        opened == Ok::<CheckpointTicket, FsError>(ticket),
        ticket_closed(c, d, ticket, closed),
    ensures
        c.era_now() != b.era_now() || c.generation() != b.generation() || c.ring().epoch != b.ring().epoch ==> closed == Ok::<bool, FsError>(false) && *d == *c,
        closed == Ok::<bool, FsError>(true) ==> {
            &&& d.stock().durable()
            &&& d.ring().replay_start == b.ring().cursor
            &&& d.generation() == c.generation() + 1
            &&& c.era_now() == b.era_now()
        },
        *c == *b && b.reliable() && b.generation() < u64::MAX && b.ring().start <= b.ring().cursor <= b.ring().start + b.ring().size ==> closed == Ok::<bool, FsError>(true),
        d.vdisk_map() == c.vdisk_map(),
        d.lease_map() == c.lease_map(),
        d.snapshot_map() == c.snapshot_map(),
        b.vdisk_map().dom() == a.vdisk_map().dom(),
        forall|v: u64| #[trigger] b.vdisk_map().contains_key(v) ==> b.vdisk_map()[v].dirty.dom().is_empty(),
{
    assert forall|v: u64| #[trigger] b.vdisk_map().contains_key(v) implies b.vdisk_map()[v].dirty.dom().is_empty() by {
        assert(b.vdisk_map()[v].dirty.dom() =~= Set::empty());
    }
    if let Ok(kept) = closed {
        if !kept {
            assert(closed == Ok::<bool, FsError>(false));
        } else {
            assert(closed == Ok::<bool, FsError>(true));
        }
    }
}

/// What a checkpoint comes to. On any outcome every vdisk reads as it did;
/// on success nothing is left dirty, the anchor names it all, and the ring's
/// history is retired.
pub open spec fn checkpointed<D: Disk>(before: &Pool<D>, after: &Pool<D>, r: Result<()>) -> bool {
    &&& after.inv()
    &&& contents_kept(before, after)
    &&& stock_grew(&before.stock(), &after.stock())
    &&& before.stock().intact() ==> after.stock().intact()
    &&& after.snapshot_map() == before.snapshot_map()
    &&& after.lease_map() == before.lease_map()
    &&& after.era_now() == before.era_now()
    &&& after.seat() == before.seat()
    &&& after.pending() == before.pending()
    &&& after.pin_map() == before.pin_map()
    &&& r is Err ==> after.ring() == before.ring()
    &&& r is Err && before.reliable() ==> checkpoint_blocked(before, after, r->Err_0)
    &&& r is Ok ==> {
        &&& all_folded(after.vdisk_map())
        &&& after.ring() == (Wal { replay_start: before.ring().cursor, ..before.ring() })
        &&& after.generation() == before.generation() + 1
        &&& exists|mid: BrickSet<D>| #[trigger] flushed_twice(&before.stock(), &mid, &after.stock())
        &&& !after.blank() ==> after.promised(0).contains((address_of(manifest_bytes(after.manifest_view())), manifest_bytes(after.manifest_view())))
        &&& exists|a: Anchor| #[trigger]
            anchor_names(a, after, before.ring().cursor, before.ring().next_seq, before.ring().epoch, after.manifest_address())
                && anchored(before.stock().wal_area(), after.stock().wal_area(), a)
    }
}

/// A store that grew carries the tiers it carried.
proof fn lemma_same_tiers<D: Disk>(a: &BrickSet<D>, b: &BrickSet<D>, t: u8)
    requires
        stock_grew(a, b),
    ensures
        tier_exists(b.members(), t) ==> tier_exists(a.members(), t),
{
    if tier_exists(b.members(), t) {
        let i = choose|i: int| 0 <= i < b.members().len() && (#[trigger] b.members()[i]).superblock().tier == t;
        assert(b.members()[i].superblock() == a.members()[i].superblock());
        assert(a.members()[i].superblock().tier == t);
    }
}

proof fn lemma_same_vdisk_settles(m: Map<BlockHash, Seq<u8>>, n: Map<BlockHash, Seq<u8>>, bs: u32, v: VdiskView)
    requires
        crate::map::extends(m, n),
    ensures
        settled_vdisk(m, n, bs, v, v),
{
    assert forall|k: u64| k < capacity(bs, v.size_bytes) && (#[trigger] mapped(m, bs, v, k)) is Some implies mapped(n, bs, v, k) == mapped(m, bs, v, k) by {
        if !v.dirty.contains_key(k) {
            if let Some(root) = v.root {
                lemma_tree_grows(m, n, bs, root, tree_depth(bs, v.size_bytes), k);
            }
        }
    }
}

proof fn lemma_settled_twice(
    m: Map<BlockHash, Seq<u8>>,
    n: Map<BlockHash, Seq<u8>>,
    o: Map<BlockHash, Seq<u8>>,
    bs: u32,
    a: VdiskView,
    b: VdiskView,
    c: VdiskView,
)
    requires
        settled_vdisk(m, n, bs, a, b),
        settled_vdisk(n, o, bs, b, c),
    ensures
        settled_vdisk(m, o, bs, a, c),
{
    assert forall|k: u64| k < capacity(bs, a.size_bytes) && (#[trigger] mapped(m, bs, a, k)) is Some implies mapped(o, bs, c, k) == mapped(m, bs, a, k)
        || mapped(o, bs, c, k) == Some(recorded(mapped(m, bs, a, k)->Some_0)) by {
        assert(mapped(n, bs, b, k) is Some);
    }
}

pub(crate) proof fn lemma_same_twice<D: Disk>(a: &BrickSet<D>, b: &BrickSet<D>, c: &BrickSet<D>)
    requires
        stock_same(a, b),
        stock_same(b, c),
    ensures
        stock_same(a, c),
{
    assert forall|i: int| 0 <= i < a.members().len() implies (#[trigger] c.members()[i]).superblock() == a.members()[i].superblock() by {
        assert(b.members()[i].superblock() == a.members()[i].superblock());
    }
    assert forall|t: u8| #[trigger] tier_held(c.members(), t) == tier_held(a.members(), t) by {
        assert(tier_held(b.members(), t) == tier_held(a.members(), t));
    }
    assert forall|t: u8| #[trigger] tier_blocks(c.members(), t) == tier_blocks(a.members(), t) by {
        assert(tier_blocks(b.members(), t) == tier_blocks(a.members(), t));
    }
    assert forall|t: u8| #[trigger] tier_claims(c.members(), t) == tier_claims(a.members(), t) by {
        assert(tier_claims(b.members(), t) == tier_claims(a.members(), t));
    }
}

} // verus!
