//! Scrubbing: every stored block against its address, and every map
//! reference against the store.

use super::collect::tree_walks;
use super::{tree_depth, Pool};
use crate::brick_set::care::{readable_sum, rotten};
use crate::brick_set::chunk::{chunk_found, ScrubCursor};
use crate::disk::Disk;
use crate::error::{FsError, Result};
use crate::hash::BlockHash;
use crate::map::{walk, walk_items, MapItem};
use crate::table::{ascending, BlockRef, SnapshotId, SortKey, SortedMap};
use vstd::prelude::*;

verus! {

/// What a scrub found. Empty vectors are the healthy answer.
#[derive(Debug, Clone, PartialEq, Eq)]
pub struct ScrubReport {
    pub blocks_verified: u64,
    /// Stored blocks whose bytes fail their content address.
    pub corrupt: Vec<BlockHash>,
    /// Vdisk and index of every mapping to a block the store does not know.
    pub missing: Vec<(u64, u64)>,
}

/// A block this member should serve and does not know.
pub open spec fn absent<D: Disk>(pool: &Pool<D>, tier: u8, h: BlockHash) -> bool {
    pool.serves(h) && !pool.holds(tier).contains(h)
}

/// A tree maps an index to an absent block.
pub open spec fn tree_misses<D: Disk>(pool: &Pool<D>, root: Option<BlockHash>, size: u64, tier: u8, index: u64) -> bool {
    root matches Some(r) && exists|h: BlockHash| #[trigger]
        walk_items(pool.shelf(0), pool.unit(), r, (tree_depth(pool.unit(), size) - 1) as nat, 0).contains(
            MapItem::Block { index, hash: h },
        ) && absent(pool, tier, h)
}

/// A vdisk maps an index to an absent block, by a mutation or, where none
/// supersedes it, by its tree.
pub open spec fn vdisk_misses<D: Disk>(pool: &Pool<D>, id: u64, index: u64) -> bool {
    let v = pool.vdisk_map()[id];
    if v.dirty.contains_key(index) {
        v.dirty[index] matches Some(h) && absent(pool, v.tier, h)
    } else {
        tree_misses(pool, v.root, v.size_bytes, v.tier, index)
    }
}

/// Some snapshot of the vdisk maps an index to an absent block.
pub open spec fn snapshot_misses<D: Disk>(pool: &Pool<D>, key: SnapshotId, index: u64) -> bool {
    let snap = pool.snapshot_map()[key];
    tree_misses(pool, snap.root, snap.size_bytes, pool.vdisk_map()[key.vdisk].tier, index)
}

/// Everything a scrub's reference pass reports.
pub open spec fn misses<D: Disk>(pool: &Pool<D>, x: BlockRef) -> bool {
    ||| pool.vdisk_map().contains_key(x.vdisk) && vdisk_misses(pool, x.vdisk, x.index)
    ||| exists|key: SnapshotId| #[trigger] pool.snapshot_map().contains_key(key) && key.vdisk == x.vdisk && snapshot_misses(pool, key, x.index)
}

/// Every tree can be walked, and every snapshot has its vdisk.
pub open spec fn all_walk<D: Disk>(pool: &Pool<D>) -> bool {
    &&& forall|id: u64| #[trigger] pool.vdisk_map().contains_key(id) ==> tree_walks(pool, pool.vdisk_map()[id].root, pool.vdisk_map()[id].size_bytes)
    &&& forall|key: SnapshotId| #[trigger] pool.snapshot_map().contains_key(key) ==> pool.vdisk_map().contains_key(key.vdisk) && tree_walks(
        pool,
        pool.snapshot_map()[key].root,
        pool.snapshot_map()[key].size_bytes,
    )
}

/// A list of references is what a reference pass finds.
pub open spec fn reports<D: Disk>(pool: &Pool<D>, missing: Seq<(u64, u64)>) -> bool {
    &&& forall|i: int, j: int|
        0 <= i < j < missing.len() ==> (#[trigger] missing[i]).0 < (#[trigger] missing[j]).0 || (missing[i].0 == missing[j].0 && missing[i].1 < missing[j].1)
    &&& forall|v: u64, k: u64| #[trigger] missing.contains((v, k)) <==> misses(pool, BlockRef { vdisk: v, index: k })
}

/// What a scrub comes to. It succeeds only where every tree can be walked.
pub open spec fn scrubbed<D: Disk>(pool: &Pool<D>, r: Result<ScrubReport>) -> bool {
    &&& pool.reliable() ==> (r is Ok <==> all_walk(pool))
    &&& r matches Ok(report) ==> {
        &&& all_walk(pool)
        &&& reports(pool, report.missing@)
        &&& ascending(report.corrupt@)
        &&& pool.reliable() ==> forall|h: BlockHash| #[trigger] report.corrupt@.contains(h) <==> rotten(pool.stock().members(), h)
        &&& pool.reliable() ==> report.blocks_verified == readable_sum(pool.stock().members(), pool.stock().members().len())
    }
}

impl<D: Disk> Pool<D> {
    /// Verify everything. A missing map node is an error rather than a
    /// report line: with the tree's shape gone, there is no honest way to
    /// say which blocks are missing.
    pub fn scrub(&self) -> (r: Result<ScrubReport>)
        requires
            self.inv(),
        ensures
            scrubbed(self, r),
    {
        let (verified, corrupt) = self.store.scrub()?;
        self.scrub_references(verified, corrupt)
    }

    /// One bounded slice of the store pass: the caller drives the cursor and
    /// owns the pacing.
    pub fn scrub_chunk(&self, cursor: Option<ScrubCursor>, budget: usize) -> (r: Result<(u64, Vec<BlockHash>, Option<ScrubCursor>)>)
        requires
            self.inv(),
        ensures
            self.reliable() ==> r is Ok,
            r matches Ok(found) ==> chunk_found(self.stock().members(), cursor, budget, found.0, found.1@, found.2),
    {
        self.store.scrub_chunk(cursor, budget)
    }

    /// How many records the store pass covers right now.
    pub fn scrub_total(&self) -> (r: u64)
        requires
            self.inv(),
        ensures
            r == crate::brick_set::care::stats_sum(self.stock().members(), self.stock().members().len()).blocks,
    {
        self.store.stats().blocks
    }

    /// The reference half of a scrub. `verified` and `corrupt` are the store
    /// pass's tallies, carried into the report unchanged.
    pub fn scrub_references(&self, blocks_verified: u64, corrupt: Vec<BlockHash>) -> (r: Result<ScrubReport>)
        requires
            self.inv(),
        ensures
            self.reliable() ==> (r is Ok <==> all_walk(self)),
            r is Ok ==> all_walk(self),
            r matches Ok(report) ==> report.blocks_verified == blocks_verified && report.corrupt@ == corrupt@ && reports(self, report.missing@),
    {
        let mut found: SortedMap<BlockRef, ()> = SortedMap::new();
        self.miss_vdisks(&mut found)?;
        self.miss_snapshots(&mut found)?;
        let keys = found.keys();
        let mut missing: Vec<(u64, u64)> = Vec::new();
        let mut i: usize = 0;
        while i < keys.len()
            invariant
                i <= keys@.len(),
                missing@.len() == i,
                forall|k: int| 0 <= k < i ==> #[trigger] missing@[k] == (keys@[k].vdisk, keys@[k].index),
            decreases keys@.len() - i,
        {
            missing.push((keys[i].vdisk, keys[i].index));
            i += 1;
        }
        proof {
            assert forall|i: int, j: int| 0 <= i < j < missing@.len() implies (#[trigger] missing@[i]).0 < (#[trigger] missing@[j]).0 || (missing@[i].0 == missing@[j].0 && missing@[i].1 < missing@[j].1) by {
                assert(keys@[i].lt(keys@[j]));
            }
            assert forall|v: u64, k: u64| #[trigger] missing@.contains((v, k)) <==> misses(self, BlockRef { vdisk: v, index: k }) by {
                let x = BlockRef { vdisk: v, index: k };
                if missing@.contains((v, k)) {
                    let j = choose|j: int| 0 <= j < missing@.len() && missing@[j] == (v, k);
                    assert(keys@[j] == x);
                    assert(keys@.contains(x));
                    assert(found@.contains_key(x));
                }
                if misses(self, x) {
                    assert(found@.contains_key(x));
                    let j = choose|j: int| 0 <= j < keys@.len() && keys@[j] == x;
                    assert(missing@[j] == (v, k));
                }
            }
        }
        Ok(ScrubReport { blocks_verified, corrupt, missing })
    }

    /// Collect the indexes a tree maps to absent blocks, skipping those
    /// `over` supersedes.
    fn miss_tree(&self, found: &mut SortedMap<BlockRef, ()>, vdisk: u64, root: Option<BlockHash>, size: u64, tier: u8, over: &SortedMap<u64, Option<BlockHash>>) -> (r: Result<()>)
        requires
            self.inv(),
            old(found).wf(),
            over.wf(),
        ensures
            final(found).wf(),
            self.reliable() ==> (r is Ok <==> tree_walks(self, root, size)),
            r is Ok ==> tree_walks(self, root, size),
            r is Ok ==> forall|x: BlockRef| #[trigger] final(found)@.contains_key(x) <==> old(found)@.contains_key(x) || (x.vdisk == vdisk && !over@.contains_key(x.index)
                && tree_misses(self, root, size, tier, x.index)),
    {
        let root = match root {
            Some(root) => root,
            None => {
                return Ok(());
            },
        };
        let depth: u32 = self.depth_for_size(size);
        let items = walk(&self.store, 0, &root, depth)?;
        let ghost before = found@;
        let mut i: usize = 0;
        while i < items.len()
            invariant
                self.inv(),
                found.wf(),
                over.wf(),
                i <= items@.len(),
                forall|x: BlockRef| #[trigger] found@.contains_key(x) <==> before.contains_key(x) || (x.vdisk == vdisk && !over@.contains_key(x.index)
                    && items_miss(self, items@, i as int, tier, x.index)),
            decreases items@.len() - i,
        {
            let ghost mid = found@;
            if let MapItem::Block { index, hash } = items[i] {
                if !over.contains(&index) && self.serves_data(&hash) && !self.store.contains(tier, &hash) {
                    found.insert(BlockRef { vdisk, index }, ());
                }
            }
            proof {
                assert forall|x: BlockRef| #[trigger] found@.contains_key(x) <==> before.contains_key(x) || (x.vdisk == vdisk && !over@.contains_key(x.index)
                    && items_miss(self, items@, i + 1, tier, x.index)) by {
                    assert(mid.contains_key(x) <==> before.contains_key(x) || (x.vdisk == vdisk && !over@.contains_key(x.index) && items_miss(self, items@, i as int, tier, x.index)));
                    if items_miss(self, items@, i as int, tier, x.index) {
                        let j = choose|j: int| 0 <= j < i && item_misses(self, #[trigger] items@[j], tier, x.index);
                        assert(item_misses(self, items@[j], tier, x.index));
                    }
                    if item_misses(self, items@[i as int], tier, x.index) {
                        assert(items_miss(self, items@, i + 1, tier, x.index));
                    }
                    if items_miss(self, items@, i + 1, tier, x.index) && !item_misses(self, items@[i as int], tier, x.index) {
                        let j = choose|j: int| 0 <= j < i + 1 && item_misses(self, #[trigger] items@[j], tier, x.index);
                        assert(j < i);
                        assert(items_miss(self, items@, i as int, tier, x.index));
                    }
                }
            }
            i += 1;
        }
        proof {
            assert forall|k: u64| items_miss(self, items@, i as int, tier, k) == tree_misses(self, Some(root), size, tier, k) by {
                let all = walk_items(self.shelf(0), self.unit(), root, (tree_depth(self.unit(), size) - 1) as nat, 0);
                assert(items@ == all);
                if items_miss(self, items@, i as int, tier, k) {
                    let j = choose|j: int| 0 <= j < i && item_misses(self, #[trigger] items@[j], tier, k);
                    let h = items@[j]->hash;
                    assert(items@[j] == MapItem::Block { index: k, hash: h });
                    assert(all.contains(MapItem::Block { index: k, hash: h }));
                }
                if tree_misses(self, Some(root), size, tier, k) {
                    let h = choose|h: BlockHash| #[trigger] all.contains(MapItem::Block { index: k, hash: h }) && absent(self, tier, h);
                    let j = choose|j: int| 0 <= j < all.len() && all[j] == (MapItem::Block { index: k, hash: h });
                    assert(item_misses(self, items@[j], tier, k));
                }
            }
        }
        Ok(())
    }

    /// Collect the mutations of a vdisk that map to absent blocks.
    fn miss_dirty(&self, found: &mut SortedMap<BlockRef, ()>, vdisk: u64, tier: u8, dirty: &SortedMap<u64, Option<BlockHash>>)
        requires
            self.inv(),
            old(found).wf(),
            dirty.wf(),
        ensures
            final(found).wf(),
            forall|x: BlockRef| #[trigger] final(found)@.contains_key(x) <==> old(found)@.contains_key(x) || (x.vdisk == vdisk && dirty@.contains_key(x.index)
                && dirty@[x.index] is Some && absent(self, tier, dirty@[x.index]->Some_0)),
    {
        let keys = dirty.keys();
        let ghost before = found@;
        let mut i: usize = 0;
        while i < keys.len()
            invariant
                self.inv(),
                found.wf(),
                dirty.wf(),
                i <= keys@.len(),
                keys@.no_duplicates(),
                forall|k: u64| #[trigger] dirty@.contains_key(k) <==> keys@.contains(k),
                forall|x: BlockRef| #[trigger] found@.contains_key(x) <==> before.contains_key(x) || (x.vdisk == vdisk && listed_first(keys@, i as int, x.index)
                    && dirty@[x.index] is Some && absent(self, tier, dirty@[x.index]->Some_0)),
            decreases keys@.len() - i,
        {
            let index: u64 = keys[i];
            let ghost mid = found@;
            assert(keys@.contains(index));
            if let Some(Some(hash)) = dirty.get(&index) {
                if self.serves_data(&hash) && !self.store.contains(tier, &hash) {
                    found.insert(BlockRef { vdisk, index }, ());
                }
            }
            proof {
                assert forall|x: BlockRef| #[trigger] found@.contains_key(x) <==> before.contains_key(x) || (x.vdisk == vdisk && listed_first(keys@, i + 1, x.index)
                    && dirty@[x.index] is Some && absent(self, tier, dirty@[x.index]->Some_0)) by {
                    if listed_first(keys@, i as int, x.index) {
                        let j = choose|j: int| 0 <= j < i && #[trigger] keys@[j] == x.index;
                        assert(keys@[j] == x.index);
                    }
                    if x.index == index {
                        assert(keys@[i as int] == x.index);
                        assert(listed_first(keys@, i + 1, x.index));
                    } else if listed_first(keys@, i + 1, x.index) {
                        let j = choose|j: int| 0 <= j < i + 1 && #[trigger] keys@[j] == x.index;
                        assert(j < i);
                        assert(listed_first(keys@, i as int, x.index));
                    }
                    assert(mid.contains_key(x) <==> before.contains_key(x) || (x.vdisk == vdisk && listed_first(keys@, i as int, x.index)
                        && dirty@[x.index] is Some && absent(self, tier, dirty@[x.index]->Some_0)));
                }
            }
            i += 1;
        }
        proof {
            assert forall|k: u64| listed_first(keys@, i as int, k) == dirty@.contains_key(k) by {
                if listed_first(keys@, i as int, k) {
                    let j = choose|j: int| 0 <= j < i && #[trigger] keys@[j] == k;
                    assert(keys@.contains(k));
                }
                if dirty@.contains_key(k) {
                    let j = choose|j: int| 0 <= j < keys@.len() && keys@[j] == k;
                    assert(keys@[j] == k);
                }
            }
        }
    }

    fn miss_vdisks(&self, found: &mut SortedMap<BlockRef, ()>) -> (r: Result<()>)
        requires
            self.inv(),
            old(found).wf(),
            old(found)@ == Map::<BlockRef, ()>::empty(),
        ensures
            final(found).wf(),
            self.reliable() && r is Err ==> !all_walk(self),
            r is Ok ==> forall|id: u64| #[trigger] self.vdisk_map().contains_key(id) ==> tree_walks(self, self.vdisk_map()[id].root, self.vdisk_map()[id].size_bytes),
            r is Ok ==> forall|x: BlockRef| #[trigger] final(found)@.contains_key(x) <==> self.vdisk_map().contains_key(x.vdisk) && vdisk_misses(self, x.vdisk, x.index),
    {
        let ids = self.vdisks.keys();
        let mut i: usize = 0;
        while i < ids.len()
            invariant
                self.inv(),
                found.wf(),
                i <= ids@.len(),
                forall|id: u64| #[trigger] self.vdisks@.contains_key(id) <==> ids@.contains(id),
                forall|x: BlockRef| #[trigger] found@.contains_key(x) <==> listed_first(ids@, i as int, x.vdisk) && vdisk_misses(self, x.vdisk, x.index),
                forall|j: int| 0 <= j < i ==> tree_walks(self, self.vdisk_map()[#[trigger] ids@[j]].root, self.vdisk_map()[ids@[j]].size_bytes),
            decreases ids@.len() - i,
        {
            let id: u64 = ids[i];
            assert(ids@.contains(id));
            assert(self.vdisks@.contains_key(id));
            let ghost mid = found@;
            let ghost v = self.vdisk_map()[id];
            if let Some(state) = self.vdisks.get_ref(&id) {
                self.miss_dirty(found, id, state.tier, &state.dirty);
                let outcome = self.miss_tree(found, id, state.root, state.size_bytes, state.tier, &state.dirty);
                match outcome {
                    Ok(()) => {},
                    Err(e) => {
                        assert(self.vdisk_map().contains_key(id));
                        return Err(e);
                    },
                }
            }
            proof {
                assert forall|x: BlockRef| #[trigger] found@.contains_key(x) <==> listed_first(ids@, i + 1, x.vdisk) && vdisk_misses(self, x.vdisk, x.index) by {
                    assert(mid.contains_key(x) <==> listed_first(ids@, i as int, x.vdisk) && vdisk_misses(self, x.vdisk, x.index));
                    if listed_first(ids@, i as int, x.vdisk) {
                        let j = choose|j: int| 0 <= j < i && #[trigger] ids@[j] == x.vdisk;
                        assert(ids@[j] == x.vdisk);
                    }
                    if x.vdisk == id {
                        assert(ids@[i as int] == x.vdisk);
                        assert(listed_first(ids@, i + 1, x.vdisk));
                    } else if listed_first(ids@, i + 1, x.vdisk) {
                        let j = choose|j: int| 0 <= j < i + 1 && #[trigger] ids@[j] == x.vdisk;
                        assert(j < i);
                        assert(listed_first(ids@, i as int, x.vdisk));
                    }
                }
            }
            i += 1;
        }
        proof {
            assert forall|id: u64| listed_first(ids@, i as int, id) == self.vdisk_map().contains_key(id) by {
                if listed_first(ids@, i as int, id) {
                    let j = choose|j: int| 0 <= j < i && #[trigger] ids@[j] == id;
                    assert(ids@.contains(id));
                    assert(self.vdisks@.contains_key(id));
                }
                if self.vdisk_map().contains_key(id) {
                    assert(self.vdisks@.contains_key(id));
                    let j = choose|j: int| 0 <= j < ids@.len() && ids@[j] == id;
                    assert(ids@[j] == id);
                }
            }
            assert forall|id: u64| #[trigger] self.vdisk_map().contains_key(id) implies tree_walks(self, self.vdisk_map()[id].root, self.vdisk_map()[id].size_bytes) by {
                assert(listed_first(ids@, i as int, id));
                let j = choose|j: int| 0 <= j < i && #[trigger] ids@[j] == id;
                assert(tree_walks(self, self.vdisk_map()[ids@[j]].root, self.vdisk_map()[ids@[j]].size_bytes));
            }
        }
        Ok(())
    }

    fn miss_snapshots(&self, found: &mut SortedMap<BlockRef, ()>) -> (r: Result<()>)
        requires
            self.inv(),
            old(found).wf(),
            forall|x: BlockRef| #[trigger] old(found)@.contains_key(x) <==> self.vdisk_map().contains_key(x.vdisk) && vdisk_misses(self, x.vdisk, x.index),
            forall|id: u64| #[trigger] self.vdisk_map().contains_key(id) ==> tree_walks(self, self.vdisk_map()[id].root, self.vdisk_map()[id].size_bytes),
        ensures
            final(found).wf(),
            self.reliable() ==> (r is Ok <==> all_walk(self)),
            r is Ok ==> all_walk(self),
            r is Ok ==> forall|x: BlockRef| #[trigger] final(found)@.contains_key(x) <==> misses(self, x),
    {
        let keys = self.snapshots.keys();
        let ghost before = found@;
        let over: SortedMap<u64, Option<BlockHash>> = SortedMap::new();
        let mut i: usize = 0;
        while i < keys.len()
            invariant
                self.inv(),
                found.wf(),
                over.wf(),
                over@ == Map::<u64, Option<BlockHash>>::empty(),
                i <= keys@.len(),
                forall|key: SnapshotId| #[trigger] self.snapshots@.contains_key(key) <==> keys@.contains(key),
                forall|x: BlockRef| #[trigger] found@.contains_key(x) <==> before.contains_key(x) || keys_miss(self, keys@, i as int, x),
                forall|j: int| 0 <= j < i ==> self.vdisk_map().contains_key((#[trigger] keys@[j]).vdisk) && tree_walks(self, self.snapshot_map()[keys@[j]].root, self.snapshot_map()[keys@[j]].size_bytes),
            decreases keys@.len() - i,
        {
            let key = keys[i];
            assert(keys@.contains(key));
            assert(self.snapshot_map().contains_key(key));
            let ghost mid = found@;
            let tier: u8 = match self.vdisks.get_ref(&key.vdisk) {
                Some(state) => state.tier,
                None => {
                    assert(!all_walk(self));
                    return Err(FsError::Corrupt("a snapshot outlives its vdisk"));
                },
            };
            if let Some(snap) = self.snapshots.get(&key) {
                let outcome = self.miss_tree(found, key.vdisk, snap.root, snap.size_bytes, tier, &over);
                match outcome {
                    Ok(()) => {},
                    Err(e) => {
                        return Err(e);
                    },
                }
            }
            proof {
                assert forall|x: BlockRef| #[trigger] found@.contains_key(x) <==> before.contains_key(x) || keys_miss(self, keys@, i + 1, x) by {
                    assert(mid.contains_key(x) <==> before.contains_key(x) || keys_miss(self, keys@, i as int, x));
                    if keys_miss(self, keys@, i as int, x) {
                        let j = choose|j: int| 0 <= j < i && key_misses(self, #[trigger] keys@[j], x);
                        assert(key_misses(self, keys@[j], x));
                    }
                    if key_misses(self, keys@[i as int], x) {
                        assert(keys_miss(self, keys@, i + 1, x));
                    }
                    if keys_miss(self, keys@, i + 1, x) && !key_misses(self, keys@[i as int], x) {
                        let j = choose|j: int| 0 <= j < i + 1 && key_misses(self, #[trigger] keys@[j], x);
                        assert(j < i);
                        assert(keys_miss(self, keys@, i as int, x));
                    }
                }
            }
            i += 1;
        }
        proof {
            assert forall|x: BlockRef| #[trigger] found@.contains_key(x) <==> misses(self, x) by {
                if keys_miss(self, keys@, i as int, x) {
                    let j = choose|j: int| 0 <= j < i && key_misses(self, #[trigger] keys@[j], x);
                    assert(keys@.contains(keys@[j]));
                    assert(self.snapshot_map().contains_key(keys@[j]));
                }
                if exists|key: SnapshotId| #[trigger] self.snapshot_map().contains_key(key) && key.vdisk == x.vdisk && snapshot_misses(self, key, x.index) {
                    let key = choose|key: SnapshotId| #[trigger] self.snapshot_map().contains_key(key) && key.vdisk == x.vdisk && snapshot_misses(self, key, x.index);
                    assert(self.snapshots@.contains_key(key));
                    let j = choose|j: int| 0 <= j < keys@.len() && keys@[j] == key;
                    assert(key_misses(self, keys@[j], x));
                }
            }
            assert forall|key: SnapshotId| #[trigger] self.snapshot_map().contains_key(key) implies self.vdisk_map().contains_key(key.vdisk) && tree_walks(self, self.snapshot_map()[key].root, self.snapshot_map()[key].size_bytes) by {
                assert(self.snapshots@.contains_key(key));
                let j = choose|j: int| 0 <= j < keys@.len() && keys@[j] == key;
                assert(self.vdisk_map().contains_key(keys@[j].vdisk));
            }
        }
        Ok(())
    }
}

spec fn item_misses<D: Disk>(pool: &Pool<D>, item: MapItem, tier: u8, k: u64) -> bool {
    match item {
        MapItem::Node(_) => false,
        MapItem::Block { index, hash } => index == k && absent(pool, tier, hash),
    }
}

spec fn items_miss<D: Disk>(pool: &Pool<D>, items: Seq<MapItem>, i: int, tier: u8, k: u64) -> bool {
    exists|j: int| 0 <= j < i && item_misses(pool, #[trigger] items[j], tier, k)
}

spec fn listed_first(s: Seq<u64>, i: int, x: u64) -> bool {
    exists|j: int| 0 <= j < i && #[trigger] s[j] == x
}

spec fn key_misses<D: Disk>(pool: &Pool<D>, key: SnapshotId, x: BlockRef) -> bool {
    key.vdisk == x.vdisk && snapshot_misses(pool, key, x.index)
}

spec fn keys_miss<D: Disk>(pool: &Pool<D>, keys: Seq<SnapshotId>, i: int, x: BlockRef) -> bool {
    exists|j: int| 0 <= j < i && key_misses(pool, #[trigger] keys[j], x)
}

} // verus!
