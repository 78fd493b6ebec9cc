//! What a scrub's report says of the mappings and of the blocks.

use super::collect::{lemma_depth_positive, tree_walks};
use super::scrub::{misses, reports, scrubbed, tree_misses, vdisk_misses, snapshot_misses, absent, ScrubReport};
use super::vdisk::{block_read, snapshot_read};
use super::{capacity, mapped, tree_depth, Pool};
use crate::brick_set::care::rotten;
use crate::disk::Disk;
use crate::error::Result;
use crate::hash::BlockHash;
use crate::map::{arity, entry_of, law_walk_visits_every_mapping, lemma_reach_positive, reach, slot_of, tree_at, tree_get, walk_items, walk_ok, MapItem};
use crate::table::{BlockRef, SnapshotId};
use vstd::prelude::*;

verus! {

/// An index that trees of a vdisk of this size reach.
pub open spec fn reached<D: Disk>(pool: &Pool<D>, size: u64, k: u64) -> bool {
    k < reach(arity(pool.unit()), tree_depth(pool.unit(), size))
}

/// Where a snapshot leads an index.
pub open spec fn pinned_at<D: Disk>(pool: &Pool<D>, v: u64, s: u64, k: u64) -> Option<Option<BlockHash>> {
    let snap = pool.snapshot_map()[SnapshotId { vdisk: v, snapshot: s }];
    tree_get(pool.shelf(0), pool.unit(), snap.root, tree_depth(pool.unit(), snap.size_bytes), k)
}

/// Where a vdisk leads an index.
pub open spec fn led_to<D: Disk>(pool: &Pool<D>, v: u64, k: u64) -> Option<Option<BlockHash>> {
    mapped(pool.shelf(0), pool.unit(), pool.vdisk_map()[v], k)
}

proof fn lemma_tree_misses<D: Disk>(pool: &Pool<D>, root: Option<BlockHash>, size: u64, tier: u8, k: u64)
    requires
        pool.inv(),
        tree_walks(pool, root, size),
    ensures
        tree_misses(pool, root, size, tier, k) <==> reached(pool, size, k) && (tree_get(pool.shelf(0), pool.unit(), root, tree_depth(pool.unit(), size), k) matches Some(
            Some(h),
        ) && pool.serves(h) && !pool.holds(tier).contains(h)),
{
    lemma_depth_positive(pool, size);
    if let Some(r) = root {
        let level = (tree_depth(pool.unit(), size) - 1) as nat;
        let items = walk_items(pool.shelf(0), pool.unit(), r, level, 0);
        let span = reach(arity(pool.unit()), (level + 1) as nat);
        lemma_reach_positive(arity(pool.unit()), (level + 1) as nat);
        assert((level + 1) as nat == tree_depth(pool.unit(), size));
        assert(0 * span == 0) by (nonlinear_arith);
        assert((0 + 1) * span == span) by (nonlinear_arith);
        assert(k as int / span == 0 <==> k < span) by (nonlinear_arith)
            requires
                span >= 1,
                k >= 0,
        ;
        if tree_misses(pool, root, size, tier, k) {
            let h = choose|h: BlockHash| #[trigger] items.contains(MapItem::Block { index: k, hash: h }) && absent(pool, tier, h);
            law_walk_visits_every_mapping(pool.shelf(0), pool.unit(), r, level, 0, k, h);
        }
        if let Some(Some(h)) = tree_get(pool.shelf(0), pool.unit(), root, tree_depth(pool.unit(), size), k) {
            law_walk_visits_every_mapping(pool.shelf(0), pool.unit(), r, level, 0, k, h);
            if k < span && pool.serves(h) && !pool.holds(tier).contains(h) {
                assert(items.contains(MapItem::Block { index: k, hash: h }));
                assert(absent(pool, tier, h));
            }
        }
    }
}

proof fn lemma_within_reach<D: Disk>(pool: &Pool<D>, size: u64, k: u64)
    requires
        pool.inv(),
        k < capacity(pool.unit(), size),
    ensures
        reached(pool, size, k),
{
    lemma_depth_positive(pool, size);
}

proof fn lemma_walks_lead(m: Map<BlockHash, Seq<u8>>, bs: u32, hash: BlockHash, level: nat, k: u64)
    requires
        arity(bs) >= 1,
        walk_ok(m, bs, hash, level),
    ensures
        tree_at(m, bs, hash, level + 1, k) is Some,
    decreases level,
{
    let slot = slot_of(bs, level, k);
    lemma_reach_positive(arity(bs), level);
    vstd::arithmetic::div_mod::lemma_mod_bound(k as int / reach(arity(bs), level), arity(bs));
    assert(((level + 1) - 1) as nat == level);
    if let Some(child) = entry_of(m[hash], slot) {
        if level > 0 {
            assert(walk_ok(m, bs, child, (level - 1) as nat));
            lemma_walks_lead(m, bs, child, (level - 1) as nat, k);
            assert(((level - 1) as nat + 1) as nat == level);
        } else {
            assert(tree_at(m, bs, child, 0, k) == Some(Some(child)));
        }
    }
}

/// Where a snapshot leads an index to a block that this member serves and
/// its vdisk's tier does not hold, the index is reported missing.
pub proof fn law_a_scrub_reports_what_a_snapshot_lost<D: Disk>(pool: &Pool<D>, r: Result<ScrubReport>, v: u64, s: u64, k: u64, h: BlockHash)
    requires
        pool.inv(),
        scrubbed(pool, r),
        r is Ok,
        pool.snapshot_map().contains_key(SnapshotId { vdisk: v, snapshot: s }),
        k < capacity(pool.unit(), pool.snapshot_map()[SnapshotId { vdisk: v, snapshot: s }].size_bytes),
        pinned_at(pool, v, s, k) == Some(Some(h)),
        pool.serves(h),
    ensures
        pool.vdisk_map().contains_key(v),
        pool.holds(pool.vdisk_map()[v].tier).contains(h) || r->Ok_0.missing@.contains((v, k)),
{
    let key = SnapshotId { vdisk: v, snapshot: s };
    let snap = pool.snapshot_map()[key];
    assert(pool.snapshot_map().contains_key(key));
    let tier = pool.vdisk_map()[v].tier;
    lemma_within_reach(pool, snap.size_bytes, k);
    lemma_tree_misses(pool, snap.root, snap.size_bytes, tier, k);
    if !pool.holds(tier).contains(h) {
        assert(snapshot_misses(pool, key, k));
        assert(misses(pool, BlockRef { vdisk: v, index: k }));
    }
}

/// Where a vdisk leads an index to a block that this member serves and its
/// tier does not hold, the index is reported missing.
pub proof fn law_a_scrub_reports_what_a_vdisk_lost<D: Disk>(pool: &Pool<D>, r: Result<ScrubReport>, v: u64, k: u64, h: BlockHash)
    requires
        pool.inv(),
        scrubbed(pool, r),
        r is Ok,
        pool.vdisk_map().contains_key(v),
        k < capacity(pool.unit(), pool.vdisk_map()[v].size_bytes),
        led_to(pool, v, k) == Some(Some(h)),
        pool.serves(h),
    ensures
        pool.holds(pool.vdisk_map()[v].tier).contains(h) || r->Ok_0.missing@.contains((v, k)),
{
    let d = pool.vdisk_map()[v];
    lemma_within_reach(pool, d.size_bytes, k);
    lemma_tree_misses(pool, d.root, d.size_bytes, d.tier, k);
    if !pool.holds(d.tier).contains(h) {
        assert(vdisk_misses(pool, v, k));
        assert(misses(pool, BlockRef { vdisk: v, index: k }));
    }
}

/// An index that is reported missing is one that its vdisk, or a snapshot of
/// it, leads to a block that this member serves and the tier does not hold.
pub proof fn law_a_scrub_reports_nothing_else<D: Disk>(pool: &Pool<D>, r: Result<ScrubReport>, v: u64, k: u64)
    requires
        pool.inv(),
        scrubbed(pool, r),
        r is Ok,
        r->Ok_0.missing@.contains((v, k)),
    ensures
        pool.vdisk_map().contains_key(v),
        (led_to(pool, v, k) matches Some(Some(h)) && pool.serves(h) && !pool.holds(pool.vdisk_map()[v].tier).contains(h)) || exists|s: u64| #[trigger]
            pool.snapshot_map().contains_key(SnapshotId { vdisk: v, snapshot: s }) && (pinned_at(pool, v, s, k) matches Some(Some(h)) && pool.serves(h) && !pool.holds(
                pool.vdisk_map()[v].tier,
            ).contains(h)),
{
    let x = BlockRef { vdisk: v, index: k };
    assert(misses(pool, x));
    if pool.vdisk_map().contains_key(v) && vdisk_misses(pool, v, k) {
        let d = pool.vdisk_map()[v];
        lemma_tree_misses(pool, d.root, d.size_bytes, d.tier, k);
    } else {
        let key = choose|key: SnapshotId| #[trigger] pool.snapshot_map().contains_key(key) && key.vdisk == v && snapshot_misses(pool, key, k);
        let snap = pool.snapshot_map()[key];
        lemma_tree_misses(pool, snap.root, snap.size_bytes, pool.vdisk_map()[v].tier, k);
        assert(key == SnapshotId { vdisk: v, snapshot: key.snapshot });
        assert(pool.snapshot_map().contains_key(SnapshotId { vdisk: v, snapshot: key.snapshot }));
    }
}

/// A scrub that reports nothing missing leaves nothing a snapshot or a vdisk
/// leads to, and this member serves, out of the store.
pub proof fn law_a_clean_scrub_misses_nothing<D: Disk>(pool: &Pool<D>, r: Result<ScrubReport>)
    requires
        pool.inv(),
        scrubbed(pool, r),
        r is Ok,
        r->Ok_0.missing@.len() == 0,
    ensures
        forall|v: u64, s: u64, k: u64|
            pool.snapshot_map().contains_key(SnapshotId { vdisk: v, snapshot: s }) && k < capacity(
                pool.unit(),
                pool.snapshot_map()[SnapshotId { vdisk: v, snapshot: s }].size_bytes,
            ) ==> (#[trigger] pinned_at(pool, v, s, k) matches Some(Some(h)) ==> pool.serves(h) ==> pool.holds(pool.vdisk_map()[v].tier).contains(h)),
        forall|v: u64, k: u64|
            pool.vdisk_map().contains_key(v) && k < capacity(pool.unit(), pool.vdisk_map()[v].size_bytes) ==> (#[trigger] led_to(pool, v, k) matches Some(Some(h)) ==> pool.serves(h) ==> pool.holds(pool.vdisk_map()[v].tier).contains(h)),
{
    assert forall|v: u64, s: u64, k: u64|
        pool.snapshot_map().contains_key(SnapshotId { vdisk: v, snapshot: s }) && k < capacity(
            pool.unit(),
            pool.snapshot_map()[SnapshotId { vdisk: v, snapshot: s }].size_bytes,
        ) implies (#[trigger] pinned_at(pool, v, s, k) matches Some(Some(h)) ==> pool.serves(h) ==> pool.holds(pool.vdisk_map()[v].tier).contains(h)) by {
        if let Some(Some(h)) = pinned_at(pool, v, s, k) {
            if pool.serves(h) {
                law_a_scrub_reports_what_a_snapshot_lost(pool, r, v, s, k, h);
            }
        }
    }
    assert forall|v: u64, k: u64| pool.vdisk_map().contains_key(v) && k < capacity(pool.unit(), pool.vdisk_map()[v].size_bytes) implies (#[trigger] led_to(
        pool,
        v,
        k,
    ) matches Some(Some(h)) ==> pool.serves(h) ==> pool.holds(pool.vdisk_map()[v].tier).contains(h)) by {
        if let Some(Some(h)) = led_to(pool, v, k) {
            if pool.serves(h) {
                law_a_scrub_reports_what_a_vdisk_lost(pool, r, v, k, h);
            }
        }
    }
}

/// On disks that do not fail, a scrub that reports no corrupt block finds
/// every block that a brick holds, in that brick; and one it reports is held
/// by a brick that cannot produce it.
pub proof fn law_a_scrub_finds_what_cannot_be_read<D: Disk>(pool: &Pool<D>, r: Result<ScrubReport>, h: BlockHash)
    requires
        scrubbed(pool, r),
        r is Ok,
        pool.reliable(),
    ensures
        r->Ok_0.corrupt@.contains(h) <==> exists|i: int|
            0 <= i < pool.stock().members().len() && (#[trigger] pool.stock().members()[i]).held().contains(h) && !pool.stock().members()[i].blocks().contains_key(h),
{
    if exists|i: int|
        0 <= i < pool.stock().members().len() && (#[trigger] pool.stock().members()[i]).held().contains(h) && !pool.stock().members()[i].blocks().contains_key(h) {
        assert(rotten(pool.stock().members(), h));
    }
}

/// A pool without a placement whose scrub is clean reads everywhere, through
/// its vdisks and through its snapshots.
pub proof fn law_a_clean_scrub_reads_everywhere<D: Disk>(
    pool: &Pool<D>,
    r: Result<ScrubReport>,
    v: u64,
    s: u64,
    k: u64,
    got: Result<Option<Vec<u8>>>,
    snap_got: Result<Option<Vec<u8>>>,
)
    requires
        pool.inv(),
        pool.reliable(),
        pool.seat() is None,
        scrubbed(pool, r),
        r is Ok,
        r->Ok_0.missing@.len() == 0,
        r->Ok_0.corrupt@.len() == 0,
        block_read(pool, v, k, got),
        snapshot_read(pool, v, s, k, snap_got),
    ensures
        pool.vdisk_map().contains_key(v) && k < capacity(pool.unit(), pool.vdisk_map()[v].size_bytes) ==> got is Ok,
        pool.snapshot_map().contains_key(SnapshotId { vdisk: v, snapshot: s }) && k < capacity(
            pool.unit(),
            pool.snapshot_map()[SnapshotId { vdisk: v, snapshot: s }].size_bytes,
        ) ==> snap_got is Ok,
{
    pool.lemma_pool();
    law_a_clean_scrub_misses_nothing(pool, r);
    if pool.vdisk_map().contains_key(v) && k < capacity(pool.unit(), pool.vdisk_map()[v].size_bytes) {
        let d = pool.vdisk_map()[v];
        lemma_tree_leads(pool, d.root, d.size_bytes, k);
        if let Some(Some(h)) = led_to(pool, v, k) {
            lemma_held_is_read(pool, r, d.tier, h);
        }
    }
    let key = SnapshotId { vdisk: v, snapshot: s };
    if pool.snapshot_map().contains_key(key) && k < capacity(pool.unit(), pool.snapshot_map()[key].size_bytes) {
        let snap = pool.snapshot_map()[key];
        lemma_tree_leads(pool, snap.root, snap.size_bytes, k);
        if let Some(Some(h)) = pinned_at(pool, v, s, k) {
            lemma_held_is_read(pool, r, pool.vdisk_map()[v].tier, h);
        }
    }
}

proof fn lemma_tree_leads<D: Disk>(pool: &Pool<D>, root: Option<BlockHash>, size: u64, k: u64)
    requires
        pool.inv(),
        tree_walks(pool, root, size),
    ensures
        tree_get(pool.shelf(0), pool.unit(), root, tree_depth(pool.unit(), size), k) is Some,
{
    lemma_depth_positive(pool, size);
    if let Some(h) = root {
        let level = (tree_depth(pool.unit(), size) - 1) as nat;
        lemma_walks_lead(pool.shelf(0), pool.unit(), h, level, k);
        assert((level + 1) as nat == tree_depth(pool.unit(), size));
    }
}

proof fn lemma_held_is_read<D: Disk>(pool: &Pool<D>, r: Result<ScrubReport>, tier: u8, h: BlockHash)
    requires
        pool.reliable(),
        scrubbed(pool, r),
        r is Ok,
        r->Ok_0.corrupt@.len() == 0,
        pool.holds(tier).contains(h),
        pool.inv(),
    ensures
        pool.shelf(tier).contains_key(h),
{
    law_a_scrub_finds_what_cannot_be_read(pool, r, h);
    pool.lemma_pool();
    crate::brick_set::lemma_route(pool.stock().members(), tier, h, 0);
    let i = crate::brick_set::route(pool.stock().members(), tier, h)->Some_0;
    assert(pool.stock().members()[i].held().contains(h));
}

} // verus!
