//! Collecting garbage: checkpoint, mark everything reachable, sweep the
//! rest.

use super::checkpoint::checkpointed;
use super::manifest::{encode_manifest, manifest_bytes};
use super::vdisk::{history_kept, lemma_calm_keeps};
use super::{mapped, stock_same, tree_depth, Pool, SessionPins};
use crate::brick::GcStats;
use crate::brick_set::care::{brick_figures, live_on, nothing_live_lost, summed};
use crate::brick_set::{tier_blocks, tier_held, BrickSet};
use crate::disk::Disk;
use crate::error::{FsError, Result};
use crate::hash::{address_of, hash_block, BlockHash};
use crate::map::{child_list, children, law_walk_marks_enough, lemma_tree_grows, sized, tree_at, tree_get, walk, walk_items, walk_ok, MapItem};
use crate::table::{SnapshotId, SortedMap, TierHash};
use vstd::prelude::*;

verus! {

/// An item of a walk marks a block of a tier: a node on tier 0, a data block
/// on its vdisk's tier while this member homes it.
pub open spec fn item_marks<D: Disk>(pool: &Pool<D>, item: MapItem, tier: u8, x: TierHash) -> bool {
    match item {
        MapItem::Node(h) => x.tier == 0 && x.hash == h,
        MapItem::Block { index, hash } => x.tier == tier && x.hash == hash && pool.keeps(hash),
    }
}

/// A tree's walk marks a block.
pub open spec fn tree_marks<D: Disk>(pool: &Pool<D>, root: Option<BlockHash>, size: u64, tier: u8, x: TierHash) -> bool {
    root matches Some(r) && exists|item: MapItem| #[trigger]
        walk_items(pool.shelf(0), pool.unit(), r, (tree_depth(pool.unit(), size) - 1) as nat, 0).contains(item) && item_marks(
            pool,
            item,
            tier,
            x,
        )
}

/// A tree can be walked.
pub open spec fn tree_walks<D: Disk>(pool: &Pool<D>, root: Option<BlockHash>, size: u64) -> bool {
    root matches Some(r) ==> walk_ok(pool.shelf(0), pool.unit(), r, (tree_depth(pool.unit(), size) - 1) as nat)
}

/// A pinned root reaches a block through blocks the store holds.
pub open spec fn pin_reaches<D: Disk>(pool: &Pool<D>, hash: BlockHash, kind: nat, tier: u8, x: TierHash) -> bool
    decreases kind,
{
    let here = TierHash {
        tier: if kind > 0 {
            0u8
        } else {
            tier
        },
        hash,
    };
    pool.holds(here.tier).contains(hash) && (x == here || (kind > 0 && exists|i: int|
        0 <= i < child_list(pool.shelf(0)[hash], pool.shelf(0)[hash].len() / 32).len() && pin_reaches(
            pool,
            #[trigger] child_list(pool.shelf(0)[hash], pool.shelf(0)[hash].len() / 32)[i],
            (kind - 1) as nat,
            tier,
            x,
        )))
}

/// One session's pins hold a block.
pub open spec fn session_marks<D: Disk>(pool: &Pool<D>, pins: SessionPins, x: TierHash) -> bool {
    ||| pins.inflight@.contains_key(x) && pool.holds(x.tier).contains(x.hash)
    ||| exists|i: int|
        0 <= i < pins.offer@.len() && pin_reaches(pool, (#[trigger] pins.offer@[i]).0, pins.offer@[i].1 as nat, pins.offer@[i].2, x)
}

/// Some session's pins hold a block.
pub open spec fn pins_mark<D: Disk>(pool: &Pool<D>, x: TierHash) -> bool {
    exists|peer: u64| #[trigger] pool.pin_map().contains_key(peer) && session_marks(pool, pool.pin_map()[peer], x)
}

/// Some vdisk's tree marks a block.
pub open spec fn vdisks_mark<D: Disk>(pool: &Pool<D>, x: TierHash) -> bool {
    exists|id: u64| #[trigger]
        pool.vdisk_map().contains_key(id) && tree_marks(
            pool,
            pool.vdisk_map()[id].root,
            pool.vdisk_map()[id].size_bytes,
            pool.vdisk_map()[id].tier,
            x,
        )
}

/// Some snapshot's tree marks a block.
pub open spec fn snapshots_mark<D: Disk>(pool: &Pool<D>, x: TierHash) -> bool {
    exists|key: SnapshotId| #[trigger]
        pool.snapshot_map().contains_key(key) && tree_marks(
            pool,
            pool.snapshot_map()[key].root,
            pool.snapshot_map()[key].size_bytes,
            pool.vdisk_map()[key.vdisk].tier,
            x,
        )
}

/// The manifest itself.
pub open spec fn manifest_marks<D: Disk>(pool: &Pool<D>, x: TierHash) -> bool {
    !pool.blank() && x.tier == 0 && x.hash == address_of(manifest_bytes(pool.manifest_view()))
}

/// Everything a collection keeps.
pub open spec fn live_in<D: Disk>(pool: &Pool<D>, x: TierHash) -> bool {
    manifest_marks(pool, x) || vdisks_mark(pool, x) || snapshots_mark(pool, x) || pins_mark(pool, x)
}

/// Every node the store knows can be produced.
pub open spec fn nodes_readable<D: Disk>(pool: &Pool<D>) -> bool {
    forall|h: BlockHash| #[trigger] pool.holds(0).contains(h) ==> pool.shelf(0).contains_key(h)
}

/// Every vdisk's tree can be walked.
pub open spec fn vdisks_walk<D: Disk>(pool: &Pool<D>) -> bool {
    forall|id: u64| #[trigger] pool.vdisk_map().contains_key(id) ==> tree_walks(pool, pool.vdisk_map()[id].root, pool.vdisk_map()[id].size_bytes)
}

/// Every snapshot's tree can be walked, and its vdisk is there.
pub open spec fn snapshots_walk<D: Disk>(pool: &Pool<D>) -> bool {
    forall|key: SnapshotId| #[trigger]
        pool.snapshot_map().contains_key(key) ==> pool.vdisk_map().contains_key(key.vdisk) && tree_walks(
            pool,
            pool.snapshot_map()[key].root,
            pool.snapshot_map()[key].size_bytes,
        )
}

/// Everything a collection has to walk can be walked.
pub open spec fn markable<D: Disk>(pool: &Pool<D>) -> bool {
    nodes_readable(pool) && vdisks_walk(pool) && snapshots_walk(pool)
}

/// The same bricks, one by one, by what their superblocks say.
pub open spec fn same_bricks_by_name<D: Disk>(a: &BrickSet<D>, b: &BrickSet<D>) -> bool {
    &&& b.members().len() == a.members().len()
    &&& b.holder_at() == a.holder_at()
    &&& forall|i: int| 0 <= i < a.members().len() ==> (#[trigger] b.members()[i]).superblock() == a.members()[i].superblock()
}

/// `b` is `a` with garbage swept from the store: every tree leads where it
/// led, and every block that is live reads back as it did.
pub open spec fn swept_safely<D: Disk>(a: &Pool<D>, b: &Pool<D>) -> bool {
    &&& b.inv()
    &&& b.vdisk_map() == a.vdisk_map()
    &&& b.snapshot_map() == a.snapshot_map()
    &&& b.lease_map() == a.lease_map()
    &&& b.era_now() == a.era_now()
    &&& b.generation() == a.generation()
    &&& b.seat() == a.seat()
    &&& b.pending() == a.pending()
    &&& b.pin_map() == a.pin_map()
    &&& b.ring() == a.ring()
    &&& b.unit() == a.unit()
    &&& b.reliable() == a.reliable()
    &&& b.stock().wal_area() == a.stock().wal_area()
    &&& history_kept(a, b)
    &&& same_bricks_by_name(&a.stock(), &b.stock())
    &&& a.stock().intact() ==> b.stock().intact()
    &&& forall|x: TierHash| #[trigger] live_in(a, x) ==> b.holds(x.tier).contains(x.hash) == a.holds(x.tier).contains(x.hash)
        && b.shelf(x.tier).contains_key(x.hash) == a.shelf(x.tier).contains_key(x.hash) && (a.shelf(x.tier).contains_key(x.hash)
        ==> b.shelf(x.tier)[x.hash] == a.shelf(x.tier)[x.hash])
    &&& forall|id: u64, k: u64| #[trigger] a.vdisk_map().contains_key(id) ==> #[trigger] mapped(b.shelf(0), b.unit(), b.vdisk_map()[id], k) == mapped(a.shelf(0), a.unit(), a.vdisk_map()[id], k)
    &&& forall|key: SnapshotId, k: u64| #[trigger] a.snapshot_map().contains_key(key) ==> #[trigger] snapshot_at(b, key, k) == snapshot_at(a, key, k)
}

/// Where an index of a snapshot leads.
pub open spec fn snapshot_at<D: Disk>(pool: &Pool<D>, key: SnapshotId, k: u64) -> Option<Option<BlockHash>> {
    let snap = pool.snapshot_map()[key];
    tree_get(pool.shelf(0), pool.unit(), snap.root, tree_depth(pool.unit(), snap.size_bytes), k)
}


impl<D: Disk> Pool<D> {
    /// Mark everything a tree reaches.
    fn mark_tree(&self, live: &mut SortedMap<TierHash, ()>, root: Option<BlockHash>, size: u64, tier: u8) -> (r: Result<()>)
        requires
            self.inv(),
            old(live).wf(),
        ensures
            final(live).wf(),
            r is Ok ==> tree_walks(self, root, size) && forall|x: TierHash| #[trigger] final(live)@.contains_key(x) <==> old(live)@.contains_key(x)
                || tree_marks(self, root, size, tier, x),
            self.reliable() ==> (r is Ok <==> tree_walks(self, root, size)),
    {
        let root = match root {
            Some(root) => root,
            None => {
                return Ok(());
            },
        };
        let depth: u32 = self.depth_for_size(size);
        let items = walk(&self.store, 0, &root, depth)?;
        let ghost before = live@;
        let mut i: usize = 0;
        while i < items.len()
            invariant
                self.inv(),
                live.wf(),
                i <= items@.len(),
                forall|x: TierHash| #[trigger] live@.contains_key(x) <==> before.contains_key(x) || items_mark(self, items@, i as int, tier, x),
            decreases items@.len() - i,
        {
            let ghost mid = live@;
            match items[i] {
                MapItem::Node(hash) => {
                    live.insert(TierHash { tier: 0, hash }, ());
                },
                MapItem::Block { index, hash } => {
                    if self.holds_data(&hash) {
                        live.insert(TierHash { tier, hash }, ());
                    }
                },
            }
            proof {
                assert forall|x: TierHash| #[trigger] live@.contains_key(x) <==> before.contains_key(x) || items_mark(self, items@, i + 1, tier, x) by {
                    assert(mid.contains_key(x) <==> before.contains_key(x) || items_mark(self, items@, i as int, tier, x));
                    if items_mark(self, items@, i as int, tier, x) {
                        let j = choose|j: int| 0 <= j < i && item_marks(self, #[trigger] items@[j], tier, x);
                        assert(item_marks(self, items@[j], tier, x));
                    }
                    if item_marks(self, items@[i as int], tier, x) {
                        assert(items_mark(self, items@, i + 1, tier, x));
                    }
                    if items_mark(self, items@, i + 1, tier, x) && !item_marks(self, items@[i as int], tier, x) {
                        let j = choose|j: int| 0 <= j < i + 1 && item_marks(self, #[trigger] items@[j], tier, x);
                        assert(j < i);
                        assert(items_mark(self, items@, i as int, tier, x));
                    }
                }
            }
            i += 1;
        }
        proof {
            assert forall|x: TierHash| items_mark(self, items@, i as int, tier, x) == tree_marks(self, Some(root), size, tier, x) by {
                let all = walk_items(self.shelf(0), self.unit(), root, (tree_depth(self.unit(), size) - 1) as nat, 0);
                assert(items@ == all);
                if items_mark(self, items@, i as int, tier, x) {
                    let j = choose|j: int| 0 <= j < i && item_marks(self, #[trigger] items@[j], tier, x);
                    assert(all.contains(items@[j]));
                }
                if tree_marks(self, Some(root), size, tier, x) {
                    let item = choose|item: MapItem| #[trigger] all.contains(item) && item_marks(self, item, tier, x);
                    let j = choose|j: int| 0 <= j < all.len() && all[j] == item;
                    assert(item_marks(self, items@[j], tier, x));
                }
            }
        }
        Ok(())
    }

    /// Mark everything a pinned root reaches through blocks the store holds.
    fn mark_from(&self, live: &mut SortedMap<TierHash, ()>, hash: BlockHash, kind: u32, tier: u8) -> (r: Result<()>)
        requires
            self.inv(),
            old(live).wf(),
        ensures
            final(live).wf(),
            r is Ok ==> forall|x: TierHash| #[trigger] final(live)@.contains_key(x) <==> old(live)@.contains_key(x) || pin_reaches(self, hash, kind as nat, tier, x),
            self.reliable() && nodes_readable(self) ==> r is Ok,
        decreases kind,
    {
        let store_tier: u8 = if kind > 0 {
            0
        } else {
            tier
        };
        if !self.store.contains(store_tier, &hash) {
            return Ok(());
        }
        live.insert(TierHash { tier: store_tier, hash }, ());
        if kind == 0 {
            return Ok(());
        }
        let payload = match self.store.get(0, &hash) {
            Ok(Some(payload)) => payload,
            Ok(None) => {
                return Err(FsError::Corrupt("a pinned map node vanished mid-mark"));
            },
            Err(e) => {
                assert(self.holds(0).contains(hash));
                return Err(e);
            },
        };
        let kids = children(&payload);
        let ghost here = TierHash { tier: 0u8, hash };
        let ghost before = old(live)@;
        let mut i: usize = 0;
        while i < kids.len()
            invariant
                self.inv(),
                live.wf(),
                kind > 0,
                i <= kids@.len(),
                forall|x: TierHash| #[trigger] live@.contains_key(x) <==> before.contains_key(x) || x == here || kids_reach(self, kids@, i as int, (kind - 1) as nat, tier, x),
            decreases kids@.len() - i,
        {
            let ghost mid = live@;
            self.mark_from(live, kids[i], kind - 1, tier)?;
            proof {
                assert forall|x: TierHash| #[trigger] live@.contains_key(x) <==> before.contains_key(x) || x == here || kids_reach(self, kids@, i + 1, (kind - 1) as nat, tier, x) by {
                    assert(mid.contains_key(x) <==> before.contains_key(x) || x == here || kids_reach(self, kids@, i as int, (kind - 1) as nat, tier, x));
                    if kids_reach(self, kids@, i as int, (kind - 1) as nat, tier, x) {
                        let j = choose|j: int| 0 <= j < i && pin_reaches(self, #[trigger] kids@[j], (kind - 1) as nat, tier, x);
                        assert(pin_reaches(self, kids@[j], (kind - 1) as nat, tier, x));
                    }
                    if pin_reaches(self, kids@[i as int], (kind - 1) as nat, tier, x) {
                        assert(kids_reach(self, kids@, i + 1, (kind - 1) as nat, tier, x));
                    }
                    if kids_reach(self, kids@, i + 1, (kind - 1) as nat, tier, x) && !pin_reaches(self, kids@[i as int], (kind - 1) as nat, tier, x) {
                        let j = choose|j: int| 0 <= j < i + 1 && pin_reaches(self, #[trigger] kids@[j], (kind - 1) as nat, tier, x);
                        assert(j < i);
                        assert(kids_reach(self, kids@, i as int, (kind - 1) as nat, tier, x));
                    }
                }
            }
            i += 1;
        }
        proof {
            let list = child_list(self.shelf(0)[hash], self.shelf(0)[hash].len() / 32);
            assert(kids@ == list);
            assert(self.holds(0).contains(hash));
            assert forall|x: TierHash| pin_reaches(self, hash, kind as nat, tier, x) <==> x == here || kids_reach(self, kids@, i as int, (kind - 1) as nat, tier, x) by {
                if kids_reach(self, kids@, i as int, (kind - 1) as nat, tier, x) {
                    let j = choose|j: int| 0 <= j < i && pin_reaches(self, #[trigger] kids@[j], (kind - 1) as nat, tier, x);
                    assert(pin_reaches(self, list[j], (kind - 1) as nat, tier, x));
                    assert(pin_reaches(self, hash, kind as nat, tier, x));
                }
                if pin_reaches(self, hash, kind as nat, tier, x) && x != here {
                    let j = choose|j: int| 0 <= j < list.len() && pin_reaches(self, #[trigger] list[j], (kind - 1) as nat, tier, x);
                    assert(0 <= j < list.len() && pin_reaches(self, list[j], (kind - 1) as nat, tier, x));
                    assert(pin_reaches(self, kids@[j], (kind - 1) as nat, tier, x));
                    assert(kids_reach(self, kids@, i as int, (kind - 1) as nat, tier, x));
                }
            }
        }
        Ok(())
    }

    /// Mark everything every session's pins hold.
    fn mark_pinned(&self, live: &mut SortedMap<TierHash, ()>) -> (r: Result<()>)
        requires
            self.inv(),
            old(live).wf(),
        ensures
            final(live).wf(),
            r is Ok ==> forall|x: TierHash| #[trigger] final(live)@.contains_key(x) <==> old(live)@.contains_key(x) || pins_mark(self, x),
            self.reliable() && nodes_readable(self) ==> r is Ok,
    {
        let n: usize = self.session_pins.len();
        let ghost s = self.session_pins.listing();
        let ghost before = live@;
        proof {
            self.session_pins.lemma_listing();
        }
        let mut i: usize = 0;
        while i < n
            invariant
                self.inv(),
                live.wf(),
                s == self.session_pins.listing(),
                i <= n == s.len(),
                forall|k: int| 0 <= k < s.len() ==> self.session_pins@.contains_pair((#[trigger] s[k]).0, s[k].1),
                forall|x: TierHash| #[trigger] live@.contains_key(x) <==> before.contains_key(x) || sessions_mark(self, s, i as int, x),
            decreases n - i,
        {
            let peer: u64 = self.session_pins.key_at(i);
            let pins = self.session_pins.value_at(i);
            let ghost mid = live@;
            assert(self.session_pins@.contains_key(s[i as int].0));
            assert(pins.inflight.wf());
            self.mark_session(live, pins)?;
            proof {
                assert forall|x: TierHash| #[trigger] live@.contains_key(x) <==> before.contains_key(x) || sessions_mark(self, s, i + 1, x) by {
                    assert(mid.contains_key(x) <==> before.contains_key(x) || sessions_mark(self, s, i as int, x));
                    if sessions_mark(self, s, i as int, x) {
                        let j = choose|j: int| 0 <= j < i && session_marks(self, (#[trigger] s[j]).1, x);
                        assert(session_marks(self, s[j].1, x));
                    }
                    if session_marks(self, s[i as int].1, x) {
                        assert(sessions_mark(self, s, i + 1, x));
                    }
                    if sessions_mark(self, s, i + 1, x) && !session_marks(self, s[i as int].1, x) {
                        let j = choose|j: int| 0 <= j < i + 1 && session_marks(self, (#[trigger] s[j]).1, x);
                        assert(j < i);
                        assert(sessions_mark(self, s, i as int, x));
                    }
                }
            }
            i += 1;
        }
        proof {
            assert forall|x: TierHash| sessions_mark(self, s, i as int, x) == pins_mark(self, x) by {
                if sessions_mark(self, s, i as int, x) {
                    let j = choose|j: int| 0 <= j < i && session_marks(self, (#[trigger] s[j]).1, x);
                    assert(self.session_pins@.contains_pair(s[j].0, s[j].1));
                    assert(self.pin_map().contains_key(s[j].0));
                }
                if pins_mark(self, x) {
                    let peer = choose|peer: u64| #[trigger] self.pin_map().contains_key(peer) && session_marks(self, self.pin_map()[peer], x);
                    let k = choose|k: int| #[trigger] crate::table::entry_for(s, peer, k);
                    assert(self.session_pins@.contains_pair(s[k].0, s[k].1));
                    assert(session_marks(self, s[k].1, x));
                }
            }
        }
        Ok(())
    }

    fn mark_session(&self, live: &mut SortedMap<TierHash, ()>, pins: &SessionPins) -> (r: Result<()>)
        requires
            self.inv(),
            old(live).wf(),
            pins.inflight.wf(),
        ensures
            final(live).wf(),
            r is Ok ==> forall|x: TierHash| #[trigger] final(live)@.contains_key(x) <==> old(live)@.contains_key(x) || session_marks(self, *pins, x),
            self.reliable() && nodes_readable(self) ==> r is Ok,
    {
        let ghost before = live@;
        let n: usize = pins.inflight.len();
        let ghost s = pins.inflight.listing();
        proof {
            pins.inflight.lemma_listing();
        }
        let mut i: usize = 0;
        while i < n
            invariant
                self.inv(),
                live.wf(),
                pins.inflight.wf(),
                s == pins.inflight.listing(),
                i <= n == s.len(),
                forall|x: TierHash| #[trigger] live@.contains_key(x) <==> before.contains_key(x) || (named_before(s, i as int, x) && self.holds(x.tier).contains(x.hash)),
            decreases n - i,
        {
            let key = pins.inflight.key_at(i);
            let ghost mid = live@;
            if self.store.contains(key.tier, &key.hash) {
                live.insert(key, ());
            }
            proof {
                assert forall|x: TierHash| #[trigger] live@.contains_key(x) <==> before.contains_key(x) || (named_before(s, i + 1, x) && self.holds(x.tier).contains(x.hash)) by {
                    assert(s[i as int].0 == key);
                    assert(mid.contains_key(x) <==> before.contains_key(x) || (named_before(s, i as int, x) && self.holds(x.tier).contains(x.hash)));
                    if named_before(s, i as int, x) {
                        let j = choose|j: int| 0 <= j < i && (#[trigger] s[j]).0 == x;
                        assert(s[j].0 == x);
                    }
                    if x == key {
                        assert(named_before(s, i + 1, x));
                    }
                    if named_before(s, i + 1, x) && x != key {
                        let j = choose|j: int| 0 <= j < i + 1 && (#[trigger] s[j]).0 == x;
                        assert(j < i);
                        assert(named_before(s, i as int, x));
                    }
                }
            }
            i += 1;
        }
        let ghost between = live@;
        let mut k: usize = 0;
        while k < pins.offer.len()
            invariant
                self.inv(),
                live.wf(),
                k <= pins.offer@.len(),
                forall|x: TierHash| #[trigger] live@.contains_key(x) <==> between.contains_key(x) || offers_reach(self, pins.offer@, k as int, x),
            decreases pins.offer@.len() - k,
        {
            let (hash, depth, tier) = pins.offer[k];
            let ghost mid = live@;
            self.mark_from(live, hash, depth, tier)?;
            proof {
                let o = pins.offer@;
                assert forall|x: TierHash| #[trigger] live@.contains_key(x) <==> between.contains_key(x) || offers_reach(self, o, k + 1, x) by {
                    assert(mid.contains_key(x) <==> between.contains_key(x) || offers_reach(self, o, k as int, x));
                    if offers_reach(self, o, k as int, x) {
                        let j = choose|j: int| 0 <= j < k && pin_reaches(self, (#[trigger] o[j]).0, o[j].1 as nat, o[j].2, x);
                        assert(pin_reaches(self, o[j].0, o[j].1 as nat, o[j].2, x));
                    }
                    if pin_reaches(self, o[k as int].0, o[k as int].1 as nat, o[k as int].2, x) {
                        assert(offers_reach(self, o, k + 1, x));
                    }
                    if offers_reach(self, o, k + 1, x) && !pin_reaches(self, o[k as int].0, o[k as int].1 as nat, o[k as int].2, x) {
                        let j = choose|j: int| 0 <= j < k + 1 && pin_reaches(self, (#[trigger] o[j]).0, o[j].1 as nat, o[j].2, x);
                        assert(j < k);
                        assert(offers_reach(self, o, k as int, x));
                    }
                }
            }
            k += 1;
        }
        proof {
            assert forall|x: TierHash| #[trigger] live@.contains_key(x) <==> before.contains_key(x) || session_marks(self, *pins, x) by {
                if named_before(s, n as int, x) {
                    let j = choose|j: int| 0 <= j < n && (#[trigger] s[j]).0 == x;
                    assert(pins.inflight@.contains_pair(s[j].0, s[j].1));
                }
                if pins.inflight@.contains_key(x) {
                    let j = choose|j: int| #[trigger] crate::table::entry_for(s, x, j);
                    assert(s[j].0 == x);
                    assert(named_before(s, n as int, x));
                }
                let o = pins.offer@;
                if offers_reach(self, o, k as int, x) {
                    let j = choose|j: int| 0 <= j < k && pin_reaches(self, (#[trigger] o[j]).0, o[j].1 as nat, o[j].2, x);
                    assert(pin_reaches(self, o[j].0, o[j].1 as nat, o[j].2, x));
                }
                if session_marks(self, *pins, x) && !(pins.inflight@.contains_key(x) && self.holds(x.tier).contains(x.hash)) {
                    let j = choose|j: int| 0 <= j < o.len() && pin_reaches(self, (#[trigger] o[j]).0, o[j].1 as nat, o[j].2, x);
                    assert(pin_reaches(self, o[j].0, o[j].1 as nat, o[j].2, x));
                    assert(offers_reach(self, o, k as int, x));
                }
            }
        }
        Ok(())
    }

    /// Mark everything every vdisk reaches.
    fn mark_vdisks(&self, live: &mut SortedMap<TierHash, ()>) -> (r: Result<()>)
        requires
            self.inv(),
            old(live).wf(),
        ensures
            final(live).wf(),
            r is Ok ==> forall|x: TierHash| #[trigger] final(live)@.contains_key(x) <==> old(live)@.contains_key(x) || vdisks_mark(self, x),
            r is Ok ==> forall|id: u64| #[trigger] self.vdisk_map().contains_key(id) ==> tree_walks(self, self.vdisk_map()[id].root, self.vdisk_map()[id].size_bytes),
            self.reliable() && vdisks_walk(self) ==> r is Ok,
    {
        let ids = self.vdisks.keys();
        let ghost before = live@;
        let mut i: usize = 0;
        while i < ids.len()
            invariant
                self.inv(),
                live.wf(),
                i <= ids@.len(),
                forall|id: u64| #[trigger] self.vdisks@.contains_key(id) <==> ids@.contains(id),
                forall|x: TierHash| #[trigger] live@.contains_key(x) <==> before.contains_key(x) || ids_mark(self, ids@, i as int, x),
                forall|j: int| 0 <= j < i ==> tree_walks(self, self.vdisk_map()[#[trigger] ids@[j]].root, self.vdisk_map()[ids@[j]].size_bytes),
            decreases ids@.len() - i,
        {
            let id: u64 = ids[i];
            assert(ids@.contains(id));
            assert(self.vdisk_map().contains_key(id));
            let ghost mid = live@;
            if let Some(state) = self.vdisks.get_ref(&id) {
                self.mark_tree(live, state.root, state.size_bytes, state.tier)?;
            }
            proof {
                let v = self.vdisk_map()[id];
                assert forall|x: TierHash| #[trigger] live@.contains_key(x) <==> before.contains_key(x) || ids_mark(self, ids@, i + 1, x) by {
                    assert(mid.contains_key(x) <==> before.contains_key(x) || ids_mark(self, ids@, i as int, x));
                    if ids_mark(self, ids@, i as int, x) {
                        let j = choose|j: int| 0 <= j < i && id_marks(self, #[trigger] ids@[j], x);
                        assert(id_marks(self, ids@[j], x));
                    }
                    if id_marks(self, ids@[i as int], x) {
                        assert(ids_mark(self, ids@, i + 1, x));
                    }
                    if ids_mark(self, ids@, i + 1, x) && !id_marks(self, ids@[i as int], x) {
                        let j = choose|j: int| 0 <= j < i + 1 && id_marks(self, #[trigger] ids@[j], x);
                        assert(j < i);
                        assert(ids_mark(self, ids@, i as int, x));
                    }
                }
            }
            i += 1;
        }
        proof {
            assert forall|x: TierHash| ids_mark(self, ids@, i as int, x) == vdisks_mark(self, x) by {
                if ids_mark(self, ids@, i as int, x) {
                    let j = choose|j: int| 0 <= j < i && id_marks(self, #[trigger] ids@[j], x);
                    assert(ids@.contains(ids@[j]));
                    assert(self.vdisk_map().contains_key(ids@[j]));
                }
                if vdisks_mark(self, x) {
                    let id = choose|id: u64| #[trigger] self.vdisk_map().contains_key(id) && id_marks(self, id, x);
                    assert(self.vdisks@.contains_key(id));
                    let j = choose|j: int| 0 <= j < ids@.len() && ids@[j] == id;
                    assert(id_marks(self, ids@[j], x));
                }
            }
            assert forall|id: u64| #[trigger] self.vdisk_map().contains_key(id) implies tree_walks(self, self.vdisk_map()[id].root, self.vdisk_map()[id].size_bytes) by {
                assert(self.vdisks@.contains_key(id));
                let j = choose|j: int| 0 <= j < ids@.len() && ids@[j] == id;
                assert(tree_walks(self, self.vdisk_map()[ids@[j]].root, self.vdisk_map()[ids@[j]].size_bytes));
            }
        }
        Ok(())
    }

    /// Mark everything every snapshot reaches.
    fn mark_snapshots(&self, live: &mut SortedMap<TierHash, ()>) -> (r: Result<()>)
        requires
            self.inv(),
            old(live).wf(),
        ensures
            final(live).wf(),
            r is Ok ==> forall|x: TierHash| #[trigger] final(live)@.contains_key(x) <==> old(live)@.contains_key(x) || snapshots_mark(self, x),
            r is Ok ==> forall|key: SnapshotId| #[trigger] self.snapshot_map().contains_key(key) ==> tree_walks(self, self.snapshot_map()[key].root, self.snapshot_map()[key].size_bytes),
            self.reliable() && snapshots_walk(self) ==> r is Ok,
    {
        let keys = self.snapshots.keys();
        let ghost before = live@;
        let mut i: usize = 0;
        while i < keys.len()
            invariant
                self.inv(),
                live.wf(),
                i <= keys@.len(),
                forall|key: SnapshotId| #[trigger] self.snapshots@.contains_key(key) <==> keys@.contains(key),
                forall|x: TierHash| #[trigger] live@.contains_key(x) <==> before.contains_key(x) || keys_mark(self, keys@, i as int, x),
                forall|j: int| 0 <= j < i ==> tree_walks(self, self.snapshot_map()[#[trigger] keys@[j]].root, self.snapshot_map()[keys@[j]].size_bytes),
            decreases keys@.len() - i,
        {
            let key = keys[i];
            assert(keys@.contains(key));
            assert(self.snapshot_map().contains_key(key));
            let ghost mid = live@;
            let tier: u8 = match self.vdisks.get_ref(&key.vdisk) {
                Some(state) => state.tier,
                None => {
                    return Err(FsError::Corrupt("a snapshot outlives its vdisk"));
                },
            };
            if let Some(snap) = self.snapshots.get(&key) {
                self.mark_tree(live, snap.root, snap.size_bytes, tier)?;
            }
            proof {
                assert forall|x: TierHash| #[trigger] live@.contains_key(x) <==> before.contains_key(x) || keys_mark(self, keys@, i + 1, x) by {
                    assert(mid.contains_key(x) <==> before.contains_key(x) || keys_mark(self, keys@, i as int, x));
                    if keys_mark(self, keys@, i as int, x) {
                        let j = choose|j: int| 0 <= j < i && key_marks(self, #[trigger] keys@[j], x);
                        assert(key_marks(self, keys@[j], x));
                    }
                    if key_marks(self, keys@[i as int], x) {
                        assert(keys_mark(self, keys@, i + 1, x));
                    }
                    if keys_mark(self, keys@, i + 1, x) && !key_marks(self, keys@[i as int], x) {
                        let j = choose|j: int| 0 <= j < i + 1 && key_marks(self, #[trigger] keys@[j], x);
                        assert(j < i);
                        assert(keys_mark(self, keys@, i as int, x));
                    }
                }
            }
            i += 1;
        }
        proof {
            assert forall|x: TierHash| keys_mark(self, keys@, i as int, x) == snapshots_mark(self, x) by {
                if keys_mark(self, keys@, i as int, x) {
                    let j = choose|j: int| 0 <= j < i && key_marks(self, #[trigger] keys@[j], x);
                    assert(keys@.contains(keys@[j]));
                    assert(self.snapshot_map().contains_key(keys@[j]));
                }
                if snapshots_mark(self, x) {
                    let key = choose|key: SnapshotId| #[trigger] self.snapshot_map().contains_key(key) && key_marks(self, key, x);
                    assert(self.snapshots@.contains_key(key));
                    let j = choose|j: int| 0 <= j < keys@.len() && keys@[j] == key;
                    assert(key_marks(self, keys@[j], x));
                }
            }
            assert forall|key: SnapshotId| #[trigger] self.snapshot_map().contains_key(key) implies tree_walks(self, self.snapshot_map()[key].root, self.snapshot_map()[key].size_bytes) by {
                assert(self.snapshots@.contains_key(key));
                let j = choose|j: int| 0 <= j < keys@.len() && keys@[j] == key;
                assert(tree_walks(self, self.snapshot_map()[keys@[j]].root, self.snapshot_map()[keys@[j]].size_bytes));
            }
        }
        Ok(())
    }
}

impl<D: Disk> Pool<D> {
    /// Mark everything live.
    fn mark(&self) -> (r: Result<SortedMap<TierHash, ()>>)
        requires
            self.inv(),
        ensures
            r matches Ok(live) ==> {
                &&& live.wf()
                &&& forall|x: TierHash| #[trigger] live@.contains_key(x) <==> live_in(self, x)
                &&& forall|id: u64| #[trigger] self.vdisk_map().contains_key(id) ==> tree_walks(self, self.vdisk_map()[id].root, self.vdisk_map()[id].size_bytes)
                &&& forall|key: SnapshotId| #[trigger] self.snapshot_map().contains_key(key) ==> tree_walks(self, self.snapshot_map()[key].root, self.snapshot_map()[key].size_bytes)
            },
            self.reliable() && markable(self) ==> r is Ok,
    {
        let mut live: SortedMap<TierHash, ()> = SortedMap::new();
        proof {
            self.lemma_domains();
        }
        if !(self.vdisks.len() == 0 && self.snapshots.len() == 0 && self.placement.is_none()) {
            let manifest = self.manifest();
            let bytes = encode_manifest(&manifest);
            live.insert(TierHash { tier: 0, hash: hash_block(bytes.as_slice()) }, ());
        }
        assert forall|x: TierHash| #[trigger] live@.contains_key(x) <==> manifest_marks(self, x) by {}
        self.mark_vdisks(&mut live)?;
        self.mark_snapshots(&mut live)?;
        self.mark_pinned(&mut live)?;
        Ok(live)
    }

    /// Checkpoint, mark, sweep.
    fn collect_within_reserve(&mut self) -> (r: Result<GcStats>)
        requires
            old(self).inv(),
        ensures
            final(self).inv(),
            collected(old(self), final(self), r),
    {
        match self.checkpoint() {
            Ok(()) => {},
            Err(e) => {
                assert(checkpointed(old(self), self, Err::<(), FsError>(e)));
                return Err(e);
            },
        }
        let ghost mid = *self;
        proof {
            assert(checkpointed(old(self), &mid, Ok::<(), FsError>(())));
            self.lemma_unswept();
            assert(mid.stock().durable());
            assert forall|i: int| 0 <= i < mid.stock().members().len() && mid.stock().members()[i].intact() implies (#[trigger] mid.stock().members()[i]).at_rest()
                && mid.stock().members()[i].secures(live_on(mid.stock().members(), live_set(&mid), i)) by {
                let brick = mid.stock().members()[i];
                mid.stock().lemma_set();
                assert(brick.durable());
                assert(brick.at_rest());
                brick.law_a_flush_secures_what_is_held();
                brick.law_less_is_secured_too(brick.held(), live_on(mid.stock().members(), live_set(&mid), i));
            }
        }
        let live = match self.mark() {
            Ok(live) => live,
            Err(e) => {
                let failed: Result<GcStats> = Err(e);
                assert(swept_out(&mid, self, failed));
                return failed;
            },
        };
        let r = self.store.retain_and_reclaim(&live);
        proof {
            assert(live@.dom() =~= live_set(&mid));
            lemma_swept_pool(&mid, self, live@.dom());
            if r is Ok {
                assert forall|t: u8, h: BlockHash| #[trigger] self.holds(t).contains(h) implies live_in(&mid, TierHash { tier: t, hash: h }) by {
                    assert(live@.contains_key(TierHash { tier: t, hash: h }));
                }
            }
            assert(live_secured(&mid, self));
            assert(swept_out(&mid, self, r));
        }
        r
    }

    /// An untouched pool is swept safely.
    proof fn lemma_unswept(&self)
        requires
            self.inv(),
        ensures
            swept_safely(self, self),
    {
    }

    /// Collect garbage: checkpoint, mark everything reachable from the
    /// anchored state and from every session's pins, and sweep the rest. A
    /// collection writes before it frees, so it spends the reserve, which is
    /// closed again however this ends.
    pub fn collect_garbage(&mut self) -> (outcome: Result<GcStats>)
        requires
            old(self).inv(),
        ensures
            final(self).inv(),
            garbage_collected(old(self), final(self), outcome),
    {
        self.store.open_reserve();
        let ghost opened = *self;
        let outcome = self.collect_within_reserve();
        let ghost done = *self;
        self.store.close_reserve();
        proof {
            lemma_reserve_same(&old(self).store, &opened.store, true);
            lemma_reserve_same(&done.store, &self.store, false);
            lemma_calm_keeps(old(self), &opened);
            lemma_calm_keeps(&done, self);
            opened.lemma_manifest_same(old(self));
            self.lemma_manifest_same(&done);
            assert(same_but_reserve(old(self), &opened));
            assert(collected(&opened, &done, outcome));
            assert(same_but_reserve(&done, self));
        }
        outcome
    }
}

proof fn lemma_reserve_same<D: Disk>(a: &BrickSet<D>, b: &BrickSet<D>, open: bool)
    requires
        a.inv(),
        b.reserve_set(a, open),
    ensures
        stock_same(a, b),
        b.wal_area() == a.wal_area(),
        b.members()[b.holder_at()].calm(&a.members()[a.holder_at()]),
{
    a.lemma_set();
    assert(b.members()[b.holder_at()].same_disk(&a.members()[a.holder_at()]));
    assert forall|i: int| 0 <= i < a.members().len() implies (#[trigger] b.members()[i]).superblock() == a.members()[i].superblock() by {}
}

/// The same pool but for the use of its bricks' reserves.
pub open spec fn same_but_reserve<D: Disk>(a: &Pool<D>, b: &Pool<D>) -> bool {
    &&& b.inv()
    &&& history_kept(a, b)
    &&& a.stock().durable() ==> b.stock().durable()
    &&& stock_same(&a.stock(), &b.stock())
    &&& forall|i: int| 0 <= i < b.stock().members().len() ==> (#[trigger] b.stock().members()[i]).same_room(&a.stock().members()[i])
    &&& b.stock().wal_area() == a.stock().wal_area()
    &&& b.vdisk_map() == a.vdisk_map()
    &&& b.ring() == a.ring()
    &&& b.same_rest(a)
    &&& b.manifest_view() == a.manifest_view()
}

/// Everything live, by tier.
pub open spec fn live_set<D: Disk>(pool: &Pool<D>) -> Set<TierHash> {
    Set::new(|x: TierHash| live_in(pool, x))
}

/// Every brick that was intact secures what is live on it: a crash right
/// here leaves an open with all of that.
pub open spec fn live_secured<D: Disk>(mid: &Pool<D>, after: &Pool<D>) -> bool {
    forall|i: int| 0 <= i < mid.stock().members().len() && mid.stock().members()[i].intact() ==> (#[trigger] after.stock().members()[i]).secures(
        live_on(mid.stock().members(), live_set(mid), i),
    )
}

/// What a sweep reports: the figures of its bricks, added up.
pub open spec fn sweep_reported<D: Disk>(mid: &Pool<D>, after: &Pool<D>, stats: GcStats) -> bool {
    exists|each: Seq<GcStats>| #[trigger]
        brick_figures(mid.stock().members(), after.stock().members(), live_set(mid), each) && stats == summed(each)
}

/// Every tree of the pool can be walked.
pub open spec fn trees_walk<D: Disk>(pool: &Pool<D>) -> bool {
    &&& vdisks_walk(pool)
    &&& forall|key: SnapshotId| #[trigger] pool.snapshot_map().contains_key(key) ==> tree_walks(pool, pool.snapshot_map()[key].root, pool.snapshot_map()[key].size_bytes)
}

/// What a sweep after a checkpoint comes to. Nothing is swept unless
/// everything was marked.
pub open spec fn swept_out<D: Disk>(mid: &Pool<D>, after: &Pool<D>, r: Result<GcStats>) -> bool {
    &&& swept_safely(mid, after)
    &&& trees_walk(mid) || r is Err && *after == *mid
    &&& live_secured(mid, after)
    &&& r is Ok ==> forall|t: u8, h: BlockHash| #[trigger] after.holds(t).contains(h) ==> live_in(mid, TierHash { tier: t, hash: h })
    &&& r matches Ok(stats) ==> sweep_reported(mid, after, stats)
    &&& mid.reliable() && mid.stock().intact() && markable(mid) ==> r is Ok
}

/// What a collection comes to: a checkpoint, then a safe sweep of what it
/// left; on success nothing is held but what is live.
pub open spec fn collected<D: Disk>(before: &Pool<D>, after: &Pool<D>, r: Result<GcStats>) -> bool {
    ||| r is Err && checkpointed(before, after, Err::<(), FsError>(r->Err_0))
    ||| exists|mid: Pool<D>| #[trigger] checkpointed(before, &mid, Ok::<(), FsError>(())) && swept_out(&mid, after, r)
}

/// What collecting garbage comes to: a collection that may use every brick's
/// reserve, which is kept back again however it ends.
pub open spec fn garbage_collected<D: Disk>(before: &Pool<D>, after: &Pool<D>, r: Result<GcStats>) -> bool {
    &&& exists|opened: Pool<D>, done: Pool<D>| #[trigger] same_but_reserve(before, &opened) && #[trigger] collected(&opened, &done, r)
        && same_but_reserve(&done, after)
    &&& forall|i: int| 0 <= i < after.stock().members().len() ==> !(#[trigger] after.stock().members()[i]).reserve_is_open()
}

/// A sweep that loses nothing live leaves every tree leading where it led.
proof fn lemma_swept_pool<D: Disk>(a: &Pool<D>, b: &Pool<D>, live: Set<TierHash>)
    requires
        a.inv(),
        b.store.same_set(&a.store),
        b.store.reliable() == a.store.reliable(),
        a.store.intact() ==> b.store.intact(),
        nothing_live_lost(a.store.members(), b.store.members(), live),
        forall|x: TierHash| #[trigger] live.contains(x) <==> live_in(a, x),
        forall|id: u64| #[trigger] a.vdisk_map().contains_key(id) ==> tree_walks(a, a.vdisk_map()[id].root, a.vdisk_map()[id].size_bytes),
        forall|key: SnapshotId| #[trigger] a.snapshot_map().contains_key(key) ==> tree_walks(a, a.snapshot_map()[key].root, a.snapshot_map()[key].size_bytes),
        b.wal == a.wal,
        b.vdisks == a.vdisks,
        b.snapshots == a.snapshots,
        b.leases == a.leases,
        b.anchor_generation == a.anchor_generation,
        b.era == a.era,
        b.session_pins == a.session_pins,
        b.placement == a.placement,
        b.pending_map == a.pending_map,
    ensures
        swept_safely(a, b),
{
    a.store.lemma_set();
    b.store.lemma_set();
    let (m, n) = (a.shelf(0), b.shelf(0));
    let bs = a.unit();
    assert(b.store.members()[0].same_shape(&a.store.members()[0]));
    assert(a.store.members()[0].superblock().block_size == a.store.unit_size());
    assert(b.store.members()[0].superblock().block_size == b.store.unit_size());
    assert(b.store.members()[a.store.holder_at()].same_shape(&a.store.members()[a.store.holder_at()]));
    lemma_calm_keeps(a, b);
    assert(same_bricks_by_name(&a.store, &b.store)) by {
        assert forall|i: int| 0 <= i < a.store.members().len() implies (#[trigger] b.store.members()[i]).superblock() == a.store.members()[i].superblock() by {
            assert(b.store.members()[i].same_shape(&a.store.members()[i]));
        }
    }
    let live0 = Set::new(|h: BlockHash| live.contains(TierHash { tier: 0, hash: h }));
    assert(crate::map::extends(m.restrict(live0), n)) by {
        assert forall|h: BlockHash| #[trigger] m.restrict(live0).contains_key(h) implies n.contains_key(h) && n[h] == m.restrict(live0)[h] by {
            assert(live.contains(TierHash { tier: 0, hash: h }));
            assert(tier_blocks(b.store.members(), 0).contains_key(h) == tier_blocks(a.store.members(), 0).contains_key(h));
        }
    }
    assert forall|x: TierHash| #[trigger] live_in(a, x) implies b.holds(x.tier).contains(x.hash) == a.holds(x.tier).contains(x.hash)
        && b.shelf(x.tier).contains_key(x.hash) == a.shelf(x.tier).contains_key(x.hash) && (a.shelf(x.tier).contains_key(x.hash)
        ==> b.shelf(x.tier)[x.hash] == a.shelf(x.tier)[x.hash]) by {
        assert(live.contains(x));
        assert(x == TierHash { tier: x.tier, hash: x.hash });
        if tier_held(a.store.members(), x.tier).contains(x.hash) {
            assert(tier_held(b.store.members(), x.tier).contains(x.hash));
        }
        if tier_held(b.store.members(), x.tier).contains(x.hash) {
            assert(tier_held(a.store.members(), x.tier).contains(x.hash));
        }
        assert(tier_blocks(b.store.members(), x.tier).contains_key(x.hash) == tier_blocks(a.store.members(), x.tier).contains_key(x.hash));
    }
    assert forall|id: u64, k: u64| #[trigger] a.vdisk_map().contains_key(id) implies #[trigger] mapped(n, b.unit(), b.vdisk_map()[id], k) == mapped(m, bs, a.vdisk_map()[id], k) by {
        let v = a.vdisk_map()[id];
        if !v.dirty.contains_key(k) {
            if let Some(root) = v.root {
                assert forall|h: BlockHash| #[trigger] walk_items(m, bs, root, (tree_depth(bs, v.size_bytes) - 1) as nat, 0).contains(MapItem::Node(h)) implies live0.contains(h) by {
                    let x = TierHash { tier: 0, hash: h };
                    assert(item_marks(a, MapItem::Node(h), v.tier, x));
                    assert(tree_marks(a, v.root, v.size_bytes, v.tier, x));
                    assert(vdisks_mark(a, x));
                    assert(live_in(a, x));
                    assert(live.contains(x));
                }
                lemma_tree_survives(a, m, n, live0, bs, root, v.size_bytes, k);
            }
        }
    }
    assert forall|key: SnapshotId, k: u64| #[trigger] a.snapshot_map().contains_key(key) implies #[trigger] snapshot_at(b, key, k) == snapshot_at(a, key, k) by {
        let snap = a.snapshot_map()[key];
        if let Some(root) = snap.root {
            let tier = a.vdisk_map()[key.vdisk].tier;
            assert forall|h: BlockHash| #[trigger] walk_items(m, bs, root, (tree_depth(bs, snap.size_bytes) - 1) as nat, 0).contains(MapItem::Node(h)) implies live0.contains(h) by {
                let x = TierHash { tier: 0, hash: h };
                assert(item_marks(a, MapItem::Node(h), tier, x));
                assert(tree_marks(a, snap.root, snap.size_bytes, tier, x));
                assert(snapshots_mark(a, x));
                assert(live_in(a, x));
                assert(live.contains(x));
            }
            lemma_tree_survives(a, m, n, live0, bs, root, snap.size_bytes, k);
        }
    }
}

pub proof fn lemma_tree_survives<D: Disk>(
    pool: &Pool<D>,
    m: Map<BlockHash, Seq<u8>>,
    n: Map<BlockHash, Seq<u8>>,
    live: Set<BlockHash>,
    bs: u32,
    root: BlockHash,
    size: u64,
    k: u64,
)
    requires
        pool.inv(),
        bs == pool.unit(),
        m == pool.shelf(0),
        tree_walks(pool, Some(root), size),
        crate::map::extends(m.restrict(live), n),
        forall|h: BlockHash| #[trigger] walk_items(m, bs, root, (tree_depth(bs, size) - 1) as nat, 0).contains(MapItem::Node(h)) ==> live.contains(h),
    ensures
        tree_at(n, bs, root, tree_depth(bs, size), k) == tree_at(m, bs, root, tree_depth(bs, size), k),
{
    lemma_depth_positive(pool, size);
    let level = (tree_depth(bs, size) - 1) as nat;
    assert((level + 1) as nat == tree_depth(bs, size));
    law_walk_marks_enough(m, live, bs, root, level, 0, k);
    lemma_tree_grows(m.restrict(live), n, bs, root, level + 1, k);
}

/// A vdisk's tree has at least one level, and its reach fits a word.
pub(super) proof fn lemma_depth_positive<D: Disk>(pool: &Pool<D>, size: u64)
    requires
        pool.inv(),
    ensures
        tree_depth(pool.unit(), size) >= 1,
        sized(pool.unit(), tree_depth(pool.unit(), size)),
        super::capacity(pool.unit(), size) <= crate::map::reach(crate::map::arity(pool.unit()), tree_depth(pool.unit(), size)),
{
    super::lemma_capacity(pool.unit(), size);
    crate::map::lemma_depth_exists(super::capacity(pool.unit(), size), crate::map::arity(pool.unit()));
    crate::map::lemma_depth_sized(super::capacity(pool.unit(), size), pool.unit(), tree_depth(pool.unit(), size));
}

/// A collection keeps every data block that a vdisk's checkpointed tree
/// leads to and this member homes.
pub proof fn law_collection_spares_what_reads_need<D: Disk>(pool: &Pool<D>, id: u64, k: u64, h: BlockHash)
    requires
        pool.inv(),
        pool.vdisk_map().contains_key(id),
        tree_walks(pool, pool.vdisk_map()[id].root, pool.vdisk_map()[id].size_bytes),
        k < super::capacity(pool.unit(), pool.vdisk_map()[id].size_bytes),
        tree_get(pool.shelf(0), pool.unit(), pool.vdisk_map()[id].root, tree_depth(pool.unit(), pool.vdisk_map()[id].size_bytes), k) == Some(Some(h)),
        pool.keeps(h),
    ensures
        live_in(pool, TierHash { tier: pool.vdisk_map()[id].tier, hash: h }),
{
    let v = pool.vdisk_map()[id];
    let bs = pool.unit();
    lemma_depth_positive(pool, v.size_bytes);
    let level = (tree_depth(bs, v.size_bytes) - 1) as nat;
    let root = v.root->Some_0;
    let r = crate::map::reach(crate::map::arity(bs), (level + 1) as nat);
    crate::map::lemma_reach_positive(crate::map::arity(bs), (level + 1) as nat);
    vstd::arithmetic::div_mod::lemma_basic_div(k as int, r);
    assert((0 + 1) * r == r && 0 * r == 0) by (nonlinear_arith);
    crate::map::law_walk_visits_every_mapping(pool.shelf(0), bs, root, level, 0, k, h);
    let item = MapItem::Block { index: k, hash: h };
    let x = TierHash { tier: v.tier, hash: h };
    assert(walk_items(pool.shelf(0), bs, root, level, 0).contains(item));
    assert(item_marks(pool, item, v.tier, x));
    assert(tree_marks(pool, v.root, v.size_bytes, v.tier, x));
    assert(vdisks_mark(pool, x));
}

/// The same for a snapshot: pinned history is exactly as live as the
/// present.
pub proof fn law_collection_spares_snapshots<D: Disk>(pool: &Pool<D>, key: SnapshotId, k: u64, h: BlockHash)
    requires
        pool.inv(),
        pool.snapshot_map().contains_key(key),
        tree_walks(pool, pool.snapshot_map()[key].root, pool.snapshot_map()[key].size_bytes),
        k < super::capacity(pool.unit(), pool.snapshot_map()[key].size_bytes),
        snapshot_at(pool, key, k) == Some(Some(h)),
        pool.keeps(h),
    ensures
        live_in(pool, TierHash { tier: pool.vdisk_map()[key.vdisk].tier, hash: h }),
{
    let snap = pool.snapshot_map()[key];
    let tier = pool.vdisk_map()[key.vdisk].tier;
    let bs = pool.unit();
    lemma_depth_positive(pool, snap.size_bytes);
    let level = (tree_depth(bs, snap.size_bytes) - 1) as nat;
    let root = snap.root->Some_0;
    let r = crate::map::reach(crate::map::arity(bs), (level + 1) as nat);
    crate::map::lemma_reach_positive(crate::map::arity(bs), (level + 1) as nat);
    vstd::arithmetic::div_mod::lemma_basic_div(k as int, r);
    assert((0 + 1) * r == r && 0 * r == 0) by (nonlinear_arith);
    crate::map::law_walk_visits_every_mapping(pool.shelf(0), bs, root, level, 0, k, h);
    let item = MapItem::Block { index: k, hash: h };
    let x = TierHash { tier, hash: h };
    assert(walk_items(pool.shelf(0), bs, root, level, 0).contains(item));
    assert(item_marks(pool, item, tier, x));
    assert(tree_marks(pool, snap.root, snap.size_bytes, tier, x));
    assert(snapshots_mark(pool, x));
}

spec fn items_mark<D: Disk>(pool: &Pool<D>, items: Seq<MapItem>, i: int, tier: u8, x: TierHash) -> bool {
    exists|j: int| 0 <= j < i && item_marks(pool, #[trigger] items[j], tier, x)
}

spec fn kids_reach<D: Disk>(pool: &Pool<D>, kids: Seq<BlockHash>, i: int, kind: nat, tier: u8, x: TierHash) -> bool {
    exists|j: int| 0 <= j < i && pin_reaches(pool, #[trigger] kids[j], kind, tier, x)
}

spec fn sessions_mark<D: Disk>(pool: &Pool<D>, s: Seq<(u64, SessionPins)>, i: int, x: TierHash) -> bool {
    exists|j: int| 0 <= j < i && session_marks(pool, (#[trigger] s[j]).1, x)
}

spec fn offers_reach<D: Disk>(pool: &Pool<D>, o: Seq<(BlockHash, u32, u8)>, i: int, x: TierHash) -> bool {
    exists|j: int| 0 <= j < i && pin_reaches(pool, (#[trigger] o[j]).0, o[j].1 as nat, o[j].2, x)
}

spec fn named_before(s: Seq<(TierHash, ())>, i: int, x: TierHash) -> bool {
    exists|j: int| 0 <= j < i && (#[trigger] s[j]).0 == x
}

spec fn id_marks<D: Disk>(pool: &Pool<D>, id: u64, x: TierHash) -> bool {
    tree_marks(pool, pool.vdisk_map()[id].root, pool.vdisk_map()[id].size_bytes, pool.vdisk_map()[id].tier, x)
}

spec fn ids_mark<D: Disk>(pool: &Pool<D>, ids: Seq<u64>, i: int, x: TierHash) -> bool {
    exists|j: int| 0 <= j < i && id_marks(pool, #[trigger] ids[j], x)
}

spec fn key_marks<D: Disk>(pool: &Pool<D>, key: SnapshotId, x: TierHash) -> bool {
    tree_marks(pool, pool.snapshot_map()[key].root, pool.snapshot_map()[key].size_bytes, pool.vdisk_map()[key.vdisk].tier, x)
}

spec fn keys_mark<D: Disk>(pool: &Pool<D>, keys: Seq<SnapshotId>, i: int, x: TierHash) -> bool {
    exists|j: int| 0 <= j < i && key_marks(pool, #[trigger] keys[j], x)
}

} // verus!
