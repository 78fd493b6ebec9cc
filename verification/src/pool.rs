//! The pool: vdisks over a brick set, held together by the WAL, the map
//! trees, and the anchor.
//!
//! ```text
//!   write_block:  payload into the store        (content-addressed data)
//!                 mutation into the WAL         (the entry that survives)
//!                 dirty map in memory           (cheap until checkpoint)
//!   flush:        one barrier; data and WAL entry become durable together
//!   checkpoint:   dirty maps fold into trees, manifest written, flush;
//!                 anchor written, flush; the WAL's history retires
//!   open:         bricks recover, the anchor names the manifest and the WAL
//!                 position, replay rebuilds the dirty maps
//! ```

use crate::brick::{Brick, BrickStats};
use crate::brick_set::ops::tier_exists;
use crate::brick_set::{lemma_roomed_twice, roomed, tier_blocks, tier_claims, tier_held, BrickSet};
use crate::disk::Disk;
use crate::error::{FsError, Result};
use crate::hash::BlockHash;
use crate::map::{arity, depth_of, is_depth, lemma_depth_sized, reach, sized, tree_get};
use crate::slice::{is_home, NodeId, SliceMap};
use crate::store::{grew, keeps_promises};
use crate::table::{SnapshotId, SortKey, SortedMap, TierHash};
use crate::wal::Wal;
use vstd::prelude::*;

pub mod adoption;
pub mod bounds;
pub mod calls;
pub mod checkpoint;
pub mod clean;
pub mod collect;
pub mod entry;
pub mod fresh;
pub mod garbage;
pub mod holders;
pub mod lease;
pub mod manifest;
pub mod open;
pub mod outlive;
pub mod placing;
pub mod recover;
pub mod scrub;
pub mod snapshot;
pub mod sync;
pub mod vdisk;

verus! {

/// Who may write to a vdisk, and whether that is being handed on.
#[derive(Debug, Clone, Copy, PartialEq, Eq)]
pub struct Lease {
    pub holder: NodeId,
    /// Set while a migration window is open: the guest is running on
    /// `holder` and starting on this node, both have the disk open, and
    /// exactly one of them may write.
    pub handing_to: Option<NodeId>,
    /// The era this lease was granted in.
    pub era: u64,
}

/// One pinned moment of one vdisk.
#[derive(Debug, Clone, Copy)]
pub struct SnapshotState {
    pub size_bytes: u64,
    pub root: Option<BlockHash>,
}

/// A vdisk as the manifest records it.
#[derive(Debug, Clone, Copy)]
pub struct VdiskHead {
    pub size_bytes: u64,
    pub tier: u8,
    pub root: Option<BlockHash>,
}


/// One vdisk: what the manifest records of it, and the mutations since the
/// last checkpoint. `Some` maps an index, `None` is a trim.
#[derive(Debug)]
pub struct VdiskState {
    pub size_bytes: u64,
    /// The device class this vdisk's data lives on. Map nodes stay on tier 0
    /// whatever this says.
    pub tier: u8,
    /// The checkpointed tree, if any writes have ever been checkpointed.
    pub root: Option<BlockHash>,
    pub dirty: SortedMap<u64, Option<BlockHash>>,
}

/// A vdisk as the contracts see it.
pub struct VdiskView {
    pub size_bytes: u64,
    pub tier: u8,
    pub root: Option<BlockHash>,
    pub dirty: Map<u64, Option<BlockHash>>,
}

impl VdiskState {
    pub open spec fn view(&self) -> VdiskView {
        VdiskView { size_bytes: self.size_bytes, tier: self.tier, root: self.root, dirty: self.dirty@ }
    }
}

/// How many blocks a vdisk of `size` bytes has.
pub open spec fn capacity(bs: u32, size: u64) -> u64 {
    (size as int / bs as int + if size as int % bs as int != 0 {
        1int
    } else {
        0int
    }) as u64
}

/// How deep its tree is.
pub open spec fn tree_depth(bs: u32, size: u64) -> nat {
    depth_of(capacity(bs, size), arity(bs))
}

/// What an index maps to: the mutation since the last checkpoint, else what
/// the tree says. The outer `None` is a tree that cannot be read.
pub open spec fn mapped(m: Map<BlockHash, Seq<u8>>, bs: u32, v: VdiskView, k: u64) -> Option<Option<BlockHash>> {
    if v.dirty.contains_key(k) {
        Some(v.dirty[k])
    } else {
        tree_get(m, bs, v.root, tree_depth(bs, v.size_bytes), k)
    }
}

/// This node's seat in the slice map: who it is, and therefore which data
/// blocks its bricks are homes for. Map nodes and manifests are exempt.
#[derive(Debug)]
pub struct Placement {
    pub node: NodeId,
    pub map: SliceMap,
}

/// One peer session's claims against collection.
#[derive(Debug)]
pub struct SessionPins {
    /// Offer roots as address, depth, and the tier of the data.
    pub offer: Vec<(BlockHash, u32, u8)>,
    /// Blocks delivered ahead of their op.
    pub inflight: SortedMap<TierHash, ()>,
}

pub struct Pool<D: Disk> {
    store: BrickSet<D>,
    wal: Wal,
    vdisks: SortedMap<u64, VdiskState>,
    snapshots: SortedMap<SnapshotId, SnapshotState>,
    leases: SortedMap<u64, Lease>,
    anchor_generation: u64,
    /// The data generation.
    era: u64,
    /// What each peer session holds live beyond the manifest.
    session_pins: SortedMap<u64, SessionPins>,
    /// Which member this pool is, and which slices it homes. `None` is
    /// "hold everything".
    placement: Option<Placement>,
    /// A reassignment in flight: the map the pool is moving to.
    pending_map: Option<SliceMap>,
}

/// A store that holds at least what another did, unchanged.
pub open spec fn stock_grew<D: Disk>(a: &BrickSet<D>, b: &BrickSet<D>) -> bool {
    &&& b.inv()
    &&& b.unit_size() == a.unit_size()
    &&& b.reliable() == a.reliable()
    &&& b.holder_at() == a.holder_at()
    &&& b.wal_super() == a.wal_super()
    &&& b.members().len() == a.members().len()
    &&& forall|i: int| 0 <= i < a.members().len() ==> (#[trigger] b.members()[i]).superblock() == a.members()[i].superblock()
    &&& roomed(a.members(), b.members())
    &&& forall|t: u8| grew(#[trigger] tier_held(a.members(), t), tier_blocks(a.members(), t), tier_held(b.members(), t), tier_blocks(b.members(), t))
    &&& forall|t: u8| (#[trigger] tier_claims(a.members(), t)).subset_of(tier_claims(b.members(), t))
}

/// A store that holds exactly what another did.
pub open spec fn stock_same<D: Disk>(a: &BrickSet<D>, b: &BrickSet<D>) -> bool {
    &&& b.inv()
    &&& b.unit_size() == a.unit_size()
    &&& b.reliable() == a.reliable()
    &&& b.holder_at() == a.holder_at()
    &&& b.wal_super() == a.wal_super()
    &&& b.members().len() == a.members().len()
    &&& forall|i: int| 0 <= i < a.members().len() ==> (#[trigger] b.members()[i]).superblock() == a.members()[i].superblock()
    &&& roomed(a.members(), b.members())
    &&& a.intact() ==> b.intact()
    &&& forall|t: u8| #[trigger] tier_held(b.members(), t) == tier_held(a.members(), t)
    &&& forall|t: u8| #[trigger] tier_blocks(b.members(), t) == tier_blocks(a.members(), t)
    &&& forall|t: u8| #[trigger] tier_claims(b.members(), t) == tier_claims(a.members(), t)
}

pub proof fn lemma_same_grew<D: Disk>(a: &BrickSet<D>, b: &BrickSet<D>)
    requires
        stock_same(a, b),
    ensures
        stock_grew(a, b),
{
    assert forall|t: u8| grew(#[trigger] tier_held(a.members(), t), tier_blocks(a.members(), t), tier_held(b.members(), t), tier_blocks(b.members(), t)) by {
        assert(tier_held(b.members(), t) == tier_held(a.members(), t));
        assert(tier_blocks(b.members(), t) == tier_blocks(a.members(), t));
    }
    assert forall|t: u8| (#[trigger] tier_claims(a.members(), t)).subset_of(tier_claims(b.members(), t)) by {
        assert(tier_claims(b.members(), t) == tier_claims(a.members(), t));
    }
}

/// A store holds what it holds.
pub proof fn lemma_stock_self<D: Disk>(a: &BrickSet<D>)
    requires
        a.inv(),
    ensures
        stock_same(a, a),
        stock_grew(a, a),
{
    lemma_same_grew(a, a);
}

pub proof fn lemma_grew_twice<D: Disk>(a: &BrickSet<D>, b: &BrickSet<D>, c: &BrickSet<D>)
    requires
        stock_grew(a, b),
        stock_grew(b, c),
    ensures
        stock_grew(a, c),
{
    lemma_roomed_twice(a.members(), b.members(), c.members());
    assert forall|i: int| 0 <= i < a.members().len() implies (#[trigger] c.members()[i]).superblock() == a.members()[i].superblock() by {
        assert(b.members()[i].superblock() == a.members()[i].superblock());
    }
    assert forall|t: u8| grew(#[trigger] tier_held(a.members(), t), tier_blocks(a.members(), t), tier_held(c.members(), t), tier_blocks(c.members(), t)) by {
        assert(grew(tier_held(a.members(), t), tier_blocks(a.members(), t), tier_held(b.members(), t), tier_blocks(b.members(), t)));
        assert(grew(tier_held(b.members(), t), tier_blocks(b.members(), t), tier_held(c.members(), t), tier_blocks(c.members(), t)));
    }
    assert forall|t: u8| (#[trigger] tier_claims(a.members(), t)).subset_of(tier_claims(c.members(), t)) by {
        assert(tier_claims(a.members(), t).subset_of(tier_claims(b.members(), t)));
        assert(tier_claims(b.members(), t).subset_of(tier_claims(c.members(), t)));
    }
}

/// A successful put makes the stock grow.
pub proof fn lemma_put_grew<D: Disk>(a: &BrickSet<D>, b: &BrickSet<D>, tier: u8)
    requires
        a.inv(),
        b.same_set(a),
        b.reliable() == a.reliable(),
        b.others_alone(a, tier),
        roomed(a.members(), b.members()),
        b.same_stock(a) || exists|h: BlockHash, p: Seq<u8>| b.stored(a, tier, h, p),
    ensures
        stock_grew(a, b),
        b.same_stock(a) ==> stock_same(a, b),
        b.wal_area() == a.wal_area(),
        b.members()[b.holder_at()].calm(&a.members()[a.holder_at()]),
{
    a.lemma_set();
    b.lemma_set();
    assert forall|i: int| 0 <= i < a.members().len() implies (#[trigger] b.members()[i]).superblock() == a.members()[i].superblock() by {
        assert(b.members()[i].same_shape(&a.members()[i]));
    }
    assert(b.members()[0].same_shape(&a.members()[0]));
    assert(a.members()[0].superblock().block_size == a.unit_size());
    assert(b.members()[0].superblock().block_size == b.unit_size());
    assert(b.members()[a.holder_at()].same_shape(&a.members()[a.holder_at()]));
    assert forall|t: u8| grew(#[trigger] tier_held(a.members(), t), tier_blocks(a.members(), t), tier_held(b.members(), t), tier_blocks(b.members(), t))
        && tier_claims(a.members(), t).subset_of(tier_claims(b.members(), t)) by {
        assert forall|h: BlockHash| #[trigger] tier_blocks(a.members(), t).contains_key(h) implies tier_held(a.members(), t).contains(h) by {}
        if b.same_stock(a) {
            assert(tier_held(b.members(), t) == tier_held(a.members(), t));
            assert(tier_blocks(b.members(), t) == tier_blocks(a.members(), t));
            assert(tier_claims(b.members(), t) == tier_claims(a.members(), t));
        } else if t != tier {
            assert(tier_held(b.members(), t) == tier_held(a.members(), t));
            assert(tier_blocks(b.members(), t) == tier_blocks(a.members(), t));
            assert(tier_claims(b.members(), t) == tier_claims(a.members(), t));
        } else {
            let (h, p) = choose|h: BlockHash, p: Seq<u8>| b.stored(a, tier, h, p);
            assert(b.stored(a, tier, h, p));
        }
    }
    assert forall|t: u8| (#[trigger] tier_claims(a.members(), t)).subset_of(tier_claims(b.members(), t)) by {
        assert(grew(tier_held(a.members(), t), tier_blocks(a.members(), t), tier_held(b.members(), t), tier_blocks(b.members(), t)));
    }
}

impl<D: Disk> Pool<D> {
    pub closed spec fn stock(&self) -> BrickSet<D> {
        self.store
    }

    pub closed spec fn ring(&self) -> Wal {
        self.wal
    }

    /// Every vdisk by id.
    pub closed spec fn vdisk_map(&self) -> Map<u64, VdiskView> {
        views_of(self.vdisks@)
    }

    pub closed spec fn snapshot_map(&self) -> Map<SnapshotId, SnapshotState> {
        self.snapshots@
    }

    pub closed spec fn lease_map(&self) -> Map<u64, Lease> {
        self.leases@
    }

    pub closed spec fn era_now(&self) -> u64 {
        self.era
    }

    pub closed spec fn generation(&self) -> u64 {
        self.anchor_generation
    }

    /// Which member this pool is and the committed map's homes, if it is
    /// placed.
    pub closed spec fn seat(&self) -> Option<(NodeId, SliceMap)> {
        match self.placement {
            Some(p) => Some((p.node, p.map)),
            None => None,
        }
    }

    /// The map a reassignment is moving to.
    pub closed spec fn pending(&self) -> Option<SliceMap> {
        self.pending_map
    }

    /// What sessions hold live, by peer.
    pub closed spec fn pin_map(&self) -> Map<u64, SessionPins> {
        self.session_pins@
    }

    /// Most payload bytes of one block.
    pub open spec fn unit(&self) -> u32 {
        self.stock().unit_size()
    }

    /// The blocks a tier can produce.
    pub open spec fn shelf(&self, tier: u8) -> Map<BlockHash, Seq<u8>> {
        tier_blocks(self.stock().members(), tier)
    }

    /// The addresses a tier knows.
    pub open spec fn holds(&self, tier: u8) -> Set<BlockHash> {
        tier_held(self.stock().members(), tier)
    }

    /// The addresses handed out in a tier.
    pub open spec fn promised(&self, tier: u8) -> Set<(BlockHash, Seq<u8>)> {
        tier_claims(self.stock().members(), tier)
    }

    /// Every disk fails on nothing but a range out of bounds.
    pub open spec fn reliable(&self) -> bool {
        self.stock().reliable()
    }

    /// Everything promised on a tier reads back.
    pub open spec fn faithful(&self, tier: u8) -> bool {
        keeps_promises(self.shelf(tier), self.promised(tier))
    }

    /// The in-memory state is in order.
    pub closed spec fn inv(&self) -> bool {
        &&& self.store.inv()
        &&& arity(self.store.unit_size()) >= 2
        &&& self.wal.wf()
        &&& self.wal.start == self.store.wal_super().wal_start
        &&& self.wal.size == self.store.wal_super().wal_size
        &&& self.vdisks.wf()
        &&& self.snapshots.wf()
        &&& self.leases.wf()
        &&& self.session_pins.wf()
        &&& forall|p: u64| #[trigger] self.session_pins@.contains_key(p) ==> self.session_pins@[p].inflight.wf()
        &&& forall|id: u64| #[trigger] self.vdisks@.contains_key(id) ==> self.vdisks@[id].dirty.wf()
        &&& dirty_in_range(self.store.unit_size(), views_of(self.vdisks@))
        &&& self.placement matches Some(p) ==> p.map.covers()
        &&& self.pending_map matches Some(m) ==> m.covers()
    }

    /// What a pool in order says of its parts.
    pub proof fn lemma_pool(&self)
        requires
            self.inv(),
        ensures
            self.stock().inv(),
            arity(self.unit()) >= 2,
            self.ring().wf(),
            dirty_in_range(self.unit(), self.vdisk_map()),
            self.seat() matches Some((node, map)) ==> map.covers(),
            self.pending() matches Some(map) ==> map.covers(),
    {
    }

    /// Whether this member's bricks are homes of a data block under the
    /// committed map.
    pub open spec fn serves(&self, hash: BlockHash) -> bool {
        match self.seat() {
            Some((node, map)) => is_home(map.home_pair(hash), node),
            None => true,
        }
    }

    /// The same, or under the map a reassignment is moving to.
    pub open spec fn keeps(&self, hash: BlockHash) -> bool {
        match self.seat() {
            Some((node, map)) => is_home(map.home_pair(hash), node) || (self.pending() matches Some(next) && is_home(
                next.home_pair(hash),
                node,
            )),
            None => true,
        }
    }

    /// Everything but the store, the ring and the vdisks is as in `before`.
    pub open spec fn same_rest(&self, before: &Self) -> bool {
        &&& self.snapshot_map() == before.snapshot_map()
        &&& self.lease_map() == before.lease_map()
        &&& self.era_now() == before.era_now()
        &&& self.generation() == before.generation()
        &&& self.seat() == before.seat()
        &&& self.pending() == before.pending()
        &&& self.pin_map() == before.pin_map()
    }

    pub(crate) fn holds_data(&self, hash: &BlockHash) -> (r: bool)
        requires
            self.inv(),
        ensures
            r == self.keeps(*hash),
    {
        match &self.placement {
            Some(placement) => placement.map.holds(placement.node, hash) || match &self.pending_map {
                Some(next) => next.holds(placement.node, hash),
                None => false,
            },
            None => true,
        }
    }

    pub(crate) fn serves_data(&self, hash: &BlockHash) -> (r: bool)
        requires
            self.inv(),
        ensures
            r == self.serves(*hash),
    {
        match &self.placement {
            Some(placement) => placement.map.holds(placement.node, hash),
            None => true,
        }
    }

    pub(crate) fn capacity_for(&self, size_bytes: u64) -> (r: u64)
        requires
            self.inv(),
        ensures
            r == capacity(self.unit(), size_bytes),
            r <= u64::MAX / (self.unit() as u64) + 1,
            self.unit() > 0,
    {
        let bs: u64 = self.store.block_size() as u64;
        proof {
            lemma_capacity(bs as u32, size_bytes);
        }
        let whole: u64 = size_bytes / bs;
        if size_bytes % bs != 0 {
            whole + 1
        } else {
            whole
        }
    }

    pub(crate) fn depth_for_size(&self, size_bytes: u64) -> (r: u32)
        requires
            self.inv(),
        ensures
            r == tree_depth(self.unit(), size_bytes),
            r >= 1,
            sized(self.unit(), r as nat),
            capacity(self.unit(), size_bytes) <= reach(arity(self.unit()), r as nat),
    {
        let capacity: u64 = self.capacity_for(size_bytes);
        let bs: u32 = self.store.block_size();
        let depth: u32 = crate::map::depth_for(capacity, crate::map::entries_per_node(bs));
        proof {
            assert(is_depth(capacity, arity(bs), depth as nat));
            lemma_depth_sized(capacity, bs, depth as nat);
        }
        depth
    }

    /// The pool's block size.
    pub fn block_size(&self) -> (r: u32)
        requires
            self.inv(),
        ensures
            r == self.unit(),
    {
        self.store.block_size()
    }

    /// The pool identity these bricks were formatted into.
    pub fn pool_uuid(&self) -> (r: [u8; 16])
        requires
            self.inv(),
        ensures
            r == self.stock().members()[0].superblock().pool_uuid,
    {
        self.store.pool_uuid()
    }

    /// The tiers this node's set carries, ascending.
    pub fn tiers(&self) -> (r: Vec<u8>)
        requires
            self.inv(),
        ensures
            forall|i: int, j: int| 0 <= i < j < r@.len() ==> #[trigger] r@[i] < #[trigger] r@[j],
            forall|t: u8| #[trigger] r@.contains(t) <==> tier_exists(self.stock().members(), t),
    {
        self.store.tiers()
    }

    /// The store's space in bytes, per tier and per brick.
    pub fn space_report(&self) -> (r: crate::brick_set::care::SpaceReport)
        requires
            self.inv(),
        ensures
            forall|i: int, j: int| 0 <= i < j < r.tiers@.len() ==> (#[trigger] r.tiers@[i]).tier < (#[trigger] r.tiers@[j]).tier,
            forall|k: int| 0 <= k < r.tiers@.len() ==> crate::brick_set::care::tier_told(#[trigger] r.tiers@[k], self.stock().members(), self.stock().members().len()),
            forall|t: u8| #[trigger] tier_exists(self.stock().members(), t) ==> crate::brick_set::care::tells(r.tiers@, t),
    {
        self.store.space_report()
    }

    /// How the store's space stands, summed across bricks.
    pub fn space(&self) -> (r: BrickStats)
        requires
            self.inv(),
        ensures
            r == crate::brick_set::care::stats_sum(self.stock().members(), self.stock().members().len()),
    {
        self.store.stats()
    }

    /// The data generation this pool's state belongs to.
    pub fn era(&self) -> (r: u64)
        ensures
            r == self.era_now(),
    {
        self.era
    }

    /// This node's seat and map, if placement has arrived.
    pub fn placement(&self) -> (r: Option<(NodeId, &SliceMap)>)
        ensures
            match r {
                Some((node, map)) => self.seat() == Some((node, *map)),
                None => self.seat() is None,
            },
    {
        match &self.placement {
            Some(placement) => Some((placement.node, &placement.map)),
            None => None,
        }
    }

    /// The map a reassignment is moving to, while one is in flight.
    pub fn pending_map(&self) -> (r: Option<&SliceMap>)
        ensures
            match r {
                Some(map) => self.pending() == Some(*map),
                None => self.pending() is None,
            },
    {
        match &self.pending_map {
            Some(map) => Some(map),
            None => None,
        }
    }

    /// One vdisk's size in bytes.
    pub fn vdisk_size(&self, id: u64) -> (r: Result<u64>)
        requires
            self.inv(),
        ensures
            r == if self.vdisk_map().contains_key(id) {
                Ok::<u64, FsError>(self.vdisk_map()[id].size_bytes)
            } else {
                Err(FsError::UnknownVdisk(id))
            },
    {
        match self.vdisks.get_ref(&id) {
            Some(state) => Ok(state.size_bytes),
            None => Err(FsError::UnknownVdisk(id)),
        }
    }

    /// The tier one vdisk's data lives on.
    pub fn vdisk_tier(&self, id: u64) -> (r: Result<u8>)
        requires
            self.inv(),
        ensures
            r == if self.vdisk_map().contains_key(id) {
                Ok::<u8, FsError>(self.vdisk_map()[id].tier)
            } else {
                Err(FsError::UnknownVdisk(id))
            },
    {
        match self.vdisks.get_ref(&id) {
            Some(state) => Ok(state.tier),
            None => Err(FsError::UnknownVdisk(id)),
        }
    }

    /// Every vdisk's id and size in bytes, sorted.
    pub fn vdisks(&self) -> (r: Vec<(u64, u64)>)
        requires
            self.inv(),
        ensures
            forall|i: int, j: int| 0 <= i < j < r@.len() ==> (#[trigger] r@[i]).0 < (#[trigger] r@[j]).0,
            forall|i: int| 0 <= i < r@.len() ==> self.vdisk_map().contains_key((#[trigger] r@[i]).0) && r@[i].1 == self.vdisk_map()[r@[i].0].size_bytes,
            forall|id: u64| #[trigger] self.vdisk_map().contains_key(id) ==> r@.contains((id, self.vdisk_map()[id].size_bytes)),
    {
        let n: usize = self.vdisks.len();
        let ghost s = self.vdisks.listing();
        proof {
            self.vdisks.lemma_listing();
        }
        let mut r: Vec<(u64, u64)> = Vec::new();
        let mut i: usize = 0;
        while i < n
            invariant
                self.vdisks.wf(),
                s == self.vdisks.listing(),
                i <= n == s.len(),
                r@.len() == i,
                forall|k: int| 0 <= k < i ==> #[trigger] r@[k] == (s[k].0, s[k].1.size_bytes),
            decreases n - i,
        {
            let id: u64 = self.vdisks.key_at(i);
            let size: u64 = self.vdisks.value_at(i).size_bytes;
            r.push((id, size));
            i += 1;
        }
        proof {
            assert forall|i: int, j: int| 0 <= i < j < r@.len() implies (#[trigger] r@[i]).0 < (#[trigger] r@[j]).0 by {
                assert(s[i].0.lt(s[j].0));
            }
            assert forall|k: int| 0 <= k < r@.len() implies self.vdisk_map().contains_key((#[trigger] r@[k]).0) && r@[k].1 == self.vdisk_map()[r@[k].0].size_bytes by {
                assert(self.vdisks@.contains_pair(s[k].0, s[k].1));
            }
            assert forall|id: u64| #[trigger] self.vdisk_map().contains_key(id) implies r@.contains((id, self.vdisk_map()[id].size_bytes)) by {
                assert(self.vdisks@.contains_key(id));
                let k = choose|k: int| #[trigger] crate::table::entry_for(s, id, k);
                assert(self.vdisks@.contains_pair(s[k].0, s[k].1));
                assert(r@[k] == (id, self.vdisk_map()[id].size_bytes));
            }
        }
        r
    }

    /// Every snapshot as vdisk, snapshot and size in bytes, sorted.
    pub fn snapshots(&self) -> (r: Vec<(u64, u64, u64)>)
        requires
            self.inv(),
        ensures
            forall|i: int, j: int| 0 <= i < j < r@.len() ==> (#[trigger] r@[i]).0 < (#[trigger] r@[j]).0 || (r@[i].0 == r@[j].0 && r@[i].1 < r@[j].1),
            forall|i: int| 0 <= i < r@.len() ==> self.snapshot_map().contains_key(SnapshotId { vdisk: (#[trigger] r@[i]).0, snapshot: r@[i].1 }) && r@[i].2 == self.snapshot_map()[SnapshotId { vdisk: r@[i].0, snapshot: r@[i].1 }].size_bytes,
            forall|key: SnapshotId| #[trigger] self.snapshot_map().contains_key(key) ==> r@.contains((key.vdisk, key.snapshot, self.snapshot_map()[key].size_bytes)),
    {
        let n: usize = self.snapshots.len();
        let ghost s = self.snapshots.listing();
        proof {
            self.snapshots.lemma_listing();
        }
        let mut r: Vec<(u64, u64, u64)> = Vec::new();
        let mut i: usize = 0;
        while i < n
            invariant
                self.snapshots.wf(),
                s == self.snapshots.listing(),
                i <= n == s.len(),
                r@.len() == i,
                forall|k: int| 0 <= k < i ==> #[trigger] r@[k] == (s[k].0.vdisk, s[k].0.snapshot, s[k].1.size_bytes),
            decreases n - i,
        {
            let (key, state) = self.snapshots.entry_at(i);
            r.push((key.vdisk, key.snapshot, state.size_bytes));
            i += 1;
        }
        proof {
            assert forall|i: int, j: int| 0 <= i < j < r@.len() implies (#[trigger] r@[i]).0 < (#[trigger] r@[j]).0 || (r@[i].0 == r@[j].0 && r@[i].1 < r@[j].1) by {
                assert(s[i].0.lt(s[j].0));
            }
            assert forall|k: int| 0 <= k < r@.len() implies self.snapshot_map().contains_key(SnapshotId { vdisk: (#[trigger] r@[k]).0, snapshot: r@[k].1 }) && r@[k].2 == self.snapshot_map()[SnapshotId { vdisk: r@[k].0, snapshot: r@[k].1 }].size_bytes by {
                assert(self.snapshots@.contains_pair(s[k].0, s[k].1));
                assert(s[k].0 == SnapshotId { vdisk: r@[k].0, snapshot: r@[k].1 });
            }
            assert forall|key: SnapshotId| #[trigger] self.snapshot_map().contains_key(key) implies r@.contains((key.vdisk, key.snapshot, self.snapshot_map()[key].size_bytes)) by {
                let k = choose|k: int| #[trigger] crate::table::entry_for(s, key, k);
                assert(self.snapshots@.contains_pair(s[k].0, s[k].1));
                assert(r@[k] == (key.vdisk, key.snapshot, self.snapshot_map()[key].size_bytes));
            }
        }
        r
    }

    /// Take a single-brick pool apart.
    pub fn into_brick(self) -> (r: Brick<D>)
        requires
            self.inv(),
            self.stock().members().len() == 1,
        ensures
            r == self.stock().members()[0],
            r.inv(),
    {
        let mut bricks = self.store.into_bricks();
        bricks.remove(0)
    }

    /// Take the whole set apart.
    pub fn into_bricks(self) -> (r: Vec<Brick<D>>)
        requires
            self.inv(),
        ensures
            r@ == self.stock().members(),
            forall|i: int| 0 <= i < r@.len() ==> (#[trigger] r@[i]).inv(),
    {
        self.store.into_bricks()
    }
}

/// The vdisks of a table as the contracts see them.
pub open spec fn views_of(m: Map<u64, VdiskState>) -> Map<u64, VdiskView> {
    Map::new(|id: u64| m.contains_key(id), |id: u64| m[id]@)
}

/// Every mutation lies within its vdisk.
pub open spec fn dirty_in_range(bs: u32, m: Map<u64, VdiskView>) -> bool {
    forall|id: u64, k: u64| #[trigger] m.contains_key(id) && #[trigger] m[id].dirty.contains_key(k) ==> k < capacity(bs, m[id].size_bytes)
}

pub(crate) proof fn lemma_capacity(bs: u32, size: u64)
    requires
        arity(bs) >= 2,
    ensures
        bs > 0,
        size as int / bs as int <= u64::MAX as int / bs as int,
        capacity(bs, size) <= u64::MAX / (bs as u64) + 1,
        size as int / bs as int + 1 <= u64::MAX,
{
    vstd::arithmetic::div_mod::lemma_div_is_ordered(size as int, u64::MAX as int, bs as int);
    assert(u64::MAX as int / bs as int + 1 <= u64::MAX) by (nonlinear_arith)
        requires bs >= 64;
}

} // verus!
