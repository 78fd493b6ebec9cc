//! What a run of calls leaves alone.

use super::{block_here, lemma_checkpoint_keeps, lemma_mutation_keeps, lemma_sound_before, pool_sound};
use crate::brick::GcStats;
use crate::disk::Disk;
use crate::error::Result;
use crate::hash::BlockHash;
use crate::map::lemma_tree_grows;
use crate::pool::checkpoint::{all_folded, checkpointed};
use crate::pool::collect::{law_collection_spares_what_reads_need, live_in, snapshot_at, swept_out, swept_safely};
use crate::pool::entry::WalEntry;
use crate::pool::recover::{carried_out, written};
use crate::pool::snapshot::{clone_fault, cloned, pin_fault, rolled_back, snapshot_deleted, snapshotted, unchanged, with_snapshots, with_vdisks};
use crate::pool::vdisk::snapshot_fault;
use crate::pool::{lemma_same_grew, mapped, stock_grew, tree_depth, Pool, SnapshotState, VdiskView};
use crate::store::grew;
use crate::table::{SnapshotId, TierHash};
use vstd::prelude::*;

verus! {

/// The operation does not speak of this block.
pub open spec fn spares(e: WalEntry, vdisk: u64, index: u64) -> bool {
    match e {
        WalEntry::CreateVdisk { id, .. } => id != vdisk,
        WalEntry::MapWrite { vdisk: v, index: k, .. } => v != vdisk || k != index,
        WalEntry::TrimBlock { vdisk: v, index: k } => v != vdisk || k != index,
        WalEntry::DeleteVdisk { id } => id != vdisk,
        WalEntry::SetLease { .. } => true,
    }
}

/// The store has only grown, and a vdisk's line is as it was.
pub open spec fn left_alone<D: Disk>(a: &Pool<D>, b: &Pool<D>, vdisk: u64) -> bool {
    stock_grew(&a.stock(), &b.stock()) && b.vdisk_map().contains_key(vdisk) && b.vdisk_map()[vdisk] == a.vdisk_map()[vdisk]
}

/// The sweep of a collection that lost nothing this block needs: one that
/// counts it as live, or any in an unplaced pool as a checkpoint leaves it.
pub open spec fn swept_past<D: Disk>(a: &Pool<D>, b: &Pool<D>, vdisk: u64, index: u64) -> bool {
    ||| swept_safely(a, b) && (mapped(a.shelf(0), a.unit(), a.vdisk_map()[vdisk], index) matches Some(Some(h)) ==> live_in(
        a,
        TierHash { tier: a.vdisk_map()[vdisk].tier, hash: h },
    ))
    ||| a.inv() && a.seat() is None && all_folded(a.vdisk_map()) && exists|r: Result<GcStats>| #[trigger] swept_out(a, b, r)
}

/// A call on a snapshot that is none on this vdisk's contents: taking or
/// deleting one of any vdisk, cloning one, or rolling another vdisk back.
pub open spec fn snapshot_call<D: Disk>(a: &Pool<D>, b: &Pool<D>, vdisk: u64) -> bool {
    ||| exists|v: u64, s: u64, r: Result<()>| #[trigger] snapshotted(a, b, v, s, r)
    ||| exists|v: u64, s: u64, r: Result<()>| #[trigger] snapshot_deleted(a, b, v, s, r)
    ||| exists|id: u64, v: u64, s: u64, r: Result<()>| #[trigger] cloned(a, b, id, v, s, r)
    ||| exists|v: u64, s: u64, r: Result<()>| #[trigger] rolled_back(a, b, v, s, r) && v != vdisk
}

/// A call that could not have meant this block: an operation on something
/// else, one that left its vdisk alone, a checkpoint, a call on snapshots,
/// or the sweep of a collection.
pub open spec fn quiet_step<D: Disk>(a: &Pool<D>, b: &Pool<D>, vdisk: u64, index: u64) -> bool {
    ||| exists|e: WalEntry, r: Result<()>| #[trigger] carried_out(a, b, e, r) && spares(e, vdisk, index)
    ||| left_alone(a, b, vdisk)
    ||| exists|c: Result<()>| #[trigger] checkpointed(a, b, c)
    ||| snapshot_call(a, b, vdisk)
    ||| swept_past(a, b, vdisk, index)
}

/// The `i`-th call of a run could not have meant this block.
pub open spec fn quiet_at<D: Disk>(steps: Seq<Pool<D>>, i: int, vdisk: u64, index: u64) -> bool {
    quiet_step(&steps[i], &steps[i + 1], vdisk, index)
}

proof fn lemma_left_alone<D: Disk>(a: &Pool<D>, b: &Pool<D>, vdisk: u64, index: u64)
    requires
        left_alone(a, b, vdisk),
        block_here(a, vdisk, index) is Some,
    ensures
        block_here(b, vdisk, index) == block_here(a, vdisk, index),
{
    let d = a.vdisk_map()[vdisk];
    assert(grew(a.holds(0), a.shelf(0), b.holds(0), b.shelf(0)));
    assert(grew(a.holds(d.tier), a.shelf(d.tier), b.holds(d.tier), b.shelf(d.tier)));
    if !d.dirty.contains_key(index) {
        if let Some(root) = d.root {
            lemma_tree_grows(a.shelf(0), b.shelf(0), a.unit(), root, tree_depth(a.unit(), d.size_bytes), index);
        }
    }
}

/// A step that changed no line of this vdisk and no byte of the store, then
/// a checkpoint.
proof fn lemma_then_checkpoint<D: Disk>(a: &Pool<D>, mid: &Pool<D>, b: &Pool<D>, c: Result<()>, vdisk: u64, index: u64)
    requires
        mid.stock() == a.stock(),
        mid.vdisk_map().contains_key(vdisk) && mid.vdisk_map()[vdisk] == a.vdisk_map()[vdisk],
        checkpointed(mid, b, c),
        pool_sound(b),
        block_here(a, vdisk, index) is Some,
    ensures
        block_here(b, vdisk, index) == block_here(a, vdisk, index),
{
    assert(block_here(mid, vdisk, index) == block_here(a, vdisk, index));
    lemma_checkpoint_keeps(mid, b, c);
}

pub proof fn lemma_snapshot_call<D: Disk>(a: &Pool<D>, b: &Pool<D>, vdisk: u64, index: u64)
    requires
        snapshot_call(a, b, vdisk),
        pool_sound(b),
        block_here(a, vdisk, index) is Some,
    ensures
        block_here(b, vdisk, index) == block_here(a, vdisk, index),
{
    if exists|v: u64, s: u64, r: Result<()>| #[trigger] snapshotted(a, b, v, s, r) {
        let (v, s, r) = choose|v: u64, s: u64, r: Result<()>| #[trigger] snapshotted(a, b, v, s, r);
        if pin_fault(a, v, s) is Some {
            assert(unchanged(a, b));
        } else if r is Err && checkpointed(a, b, r) {
            lemma_checkpoint_keeps(a, b, r);
        } else {
            let (first, mid) = choose|first: Pool<D>, mid: Pool<D>| #[trigger] checkpointed(a, &first, Ok(())) && #[trigger] with_snapshots(
                &first,
                &mid,
                first.snapshot_map().insert(
                    SnapshotId { vdisk: v, snapshot: s },
                    SnapshotState { size_bytes: first.vdisk_map()[v].size_bytes, root: first.vdisk_map()[v].root },
                ),
            ) && checkpointed(&mid, b, r);
            lemma_sound_before(&first, b);
            lemma_checkpoint_keeps(a, &first, Ok(()));
            lemma_then_checkpoint(&first, &mid, b, r, vdisk, index);
        }
    } else if exists|v: u64, s: u64, r: Result<()>| #[trigger] snapshot_deleted(a, b, v, s, r) {
        let (v, s, r) = choose|v: u64, s: u64, r: Result<()>| #[trigger] snapshot_deleted(a, b, v, s, r);
        if a.snapshot_map().contains_key(SnapshotId { vdisk: v, snapshot: s }) {
            let mid = choose|mid: Pool<D>| #[trigger] with_snapshots(a, &mid, a.snapshot_map().remove(SnapshotId { vdisk: v, snapshot: s })) && checkpointed(
                &mid,
                b,
                r,
            );
            lemma_then_checkpoint(a, &mid, b, r, vdisk, index);
        }
    } else if exists|id: u64, v: u64, s: u64, r: Result<()>| #[trigger] cloned(a, b, id, v, s, r) {
        let (id, v, s, r) = choose|id: u64, v: u64, s: u64, r: Result<()>| #[trigger] cloned(a, b, id, v, s, r);
        if clone_fault(a, id, v, s) is None {
            let snap = a.snapshot_map()[SnapshotId { vdisk: v, snapshot: s }];
            let mid = choose|mid: Pool<D>| #[trigger] with_vdisks(
                a,
                &mid,
                a.vdisk_map().insert(id, VdiskView { size_bytes: snap.size_bytes, tier: a.vdisk_map()[v].tier, root: snap.root, dirty: Map::empty() }),
            ) && checkpointed(&mid, b, r);
            assert(id != vdisk);
            lemma_then_checkpoint(a, &mid, b, r, vdisk, index);
        }
    } else {
        let (v, s, r) = choose|v: u64, s: u64, r: Result<()>| #[trigger] rolled_back(a, b, v, s, r) && v != vdisk;
        let key = SnapshotId { vdisk: v, snapshot: s };
        if a.snapshot_map().contains_key(key) && a.vdisk_map().contains_key(v) {
            let snap = a.snapshot_map()[key];
            let mid = choose|mid: Pool<D>| #[trigger] with_vdisks(
                a,
                &mid,
                a.vdisk_map().insert(v, VdiskView { size_bytes: snap.size_bytes, tier: a.vdisk_map()[v].tier, root: snap.root, dirty: Map::empty() }),
            ) && checkpointed(&mid, b, r);
            lemma_then_checkpoint(a, &mid, b, r, vdisk, index);
        }
    }
}

proof fn lemma_swept_past<D: Disk>(a: &Pool<D>, b: &Pool<D>, vdisk: u64, index: u64)
    requires
        swept_past(a, b, vdisk, index),
        block_here(a, vdisk, index) is Some,
    ensures
        block_here(b, vdisk, index) == block_here(a, vdisk, index),
{
    let d = a.vdisk_map()[vdisk];
    assert(a.vdisk_map().contains_key(vdisk));
    assert(mapped(b.shelf(0), b.unit(), b.vdisk_map()[vdisk], index) == mapped(a.shelf(0), a.unit(), d, index));
    if let Some(Some(h)) = mapped(a.shelf(0), a.unit(), d, index) {
        if !live_in(a, TierHash { tier: d.tier, hash: h }) {
            let r = choose|r: Result<GcStats>| #[trigger] swept_out(a, b, r);
            if *b != *a {
                assert(d.dirty == Map::<u64, Option<BlockHash>>::empty());
                law_collection_spares_what_reads_need(a, vdisk, index, h);
            }
        }
    }
}

proof fn lemma_quiet_step<D: Disk>(a: &Pool<D>, b: &Pool<D>, vdisk: u64, index: u64)
    requires
        quiet_step(a, b, vdisk, index),
        pool_sound(b),
        block_here(a, vdisk, index) is Some,
    ensures
        block_here(b, vdisk, index) == block_here(a, vdisk, index),
{
    if exists|e: WalEntry, r: Result<()>| #[trigger] carried_out(a, b, e, r) && spares(e, vdisk, index) {
        let (e, r) = choose|e: WalEntry, r: Result<()>| #[trigger] carried_out(a, b, e, r) && spares(e, vdisk, index);
        match e {
            WalEntry::MapWrite { vdisk: v, index: k, hash } => {
                if !written(a, b, v, k, hash) {
                    lemma_same_grew(&a.stock(), &b.stock());
                }
                lemma_mutation_keeps(a, b, v, k, Some(hash));
            },
            WalEntry::TrimBlock { vdisk: v, index: k } => {
                lemma_same_grew(&a.stock(), &b.stock());
                lemma_mutation_keeps(a, b, v, k, None);
            },
            _ => {
                assert(b.shelf(0) == a.shelf(0));
                assert(b.shelf(a.vdisk_map()[vdisk].tier) == a.shelf(a.vdisk_map()[vdisk].tier));
                assert(b.vdisk_map()[vdisk] == a.vdisk_map()[vdisk]);
            },
        }
    } else if left_alone(a, b, vdisk) {
        lemma_left_alone(a, b, vdisk, index);
    } else if exists|c: Result<()>| #[trigger] checkpointed(a, b, c) {
        let c = choose|c: Result<()>| #[trigger] checkpointed(a, b, c);
        lemma_checkpoint_keeps(a, b, c);
    } else if snapshot_call(a, b, vdisk) {
        lemma_snapshot_call(a, b, vdisk, index);
    } else {
        lemma_swept_past(a, b, vdisk, index);
    }
}

/// A block reads back as it did over any run of calls that do not mean it:
/// writes, trims, creates, deletes and rollbacks of others, leases, stores,
/// flushes, checkpoints, snapshots, clones and collections.
pub proof fn law_a_block_reads_back_over_any_run<D: Disk>(steps: Seq<Pool<D>>, vdisk: u64, index: u64)
    requires
        steps.len() > 0,
        forall|i: int| 0 <= i < steps.len() - 1 ==> #[trigger] quiet_at(steps, i, vdisk, index),
        forall|i: int| 0 <= i < steps.len() ==> pool_sound(&#[trigger] steps[i]),
        block_here(&steps[0], vdisk, index) is Some,
    ensures
        block_here(&steps.last(), vdisk, index) == block_here(&steps[0], vdisk, index),
    decreases steps.len(),
{
    if steps.len() > 1 {
        let rest = steps.drop_last();
        assert forall|i: int| 0 <= i < rest.len() - 1 implies #[trigger] quiet_at(rest, i, vdisk, index) by {
            assert(quiet_at(steps, i, vdisk, index));
        }
        law_a_block_reads_back_over_any_run(rest, vdisk, index);
        let i = steps.len() - 2;
        assert(quiet_at(steps, i, vdisk, index));
        assert(pool_sound(&steps[i + 1]));
        lemma_quiet_step(&steps[i], &steps[i + 1], vdisk, index);
    }
}

/// What a block of a snapshot holds.
pub open spec fn snapshot_here<D: Disk>(pool: &Pool<D>, vdisk: u64, snapshot: u64, index: u64) -> Option<Option<Seq<u8>>> {
    if snapshot_fault(pool, vdisk, snapshot, index) is Some {
        None
    } else {
        let tier = pool.vdisk_map()[vdisk].tier;
        match snapshot_at(pool, SnapshotId { vdisk, snapshot }, index) {
            None => None,
            Some(None) => Some(None),
            Some(Some(h)) => if pool.shelf(tier).contains_key(h) {
                Some(Some(pool.shelf(tier)[h]))
            } else {
                None
            },
        }
    }
}

/// A call that keeps a snapshot: whatever only adds to the store and keeps
/// the snapshot's line and its vdisk's tier, or the sweep of a collection
/// that counts the block as live.
pub open spec fn keeps_snapshot<D: Disk>(a: &Pool<D>, b: &Pool<D>, vdisk: u64, snapshot: u64, index: u64) -> bool {
    let key = SnapshotId { vdisk, snapshot };
    ||| {
        &&& stock_grew(&a.stock(), &b.stock())
        &&& b.snapshot_map().contains_key(key) && b.snapshot_map()[key] == a.snapshot_map()[key]
        &&& b.vdisk_map().contains_key(vdisk) && b.vdisk_map()[vdisk].tier == a.vdisk_map()[vdisk].tier
    }
    ||| swept_safely(a, b) && (snapshot_at(a, key, index) matches Some(Some(h)) ==> live_in(a, TierHash { tier: a.vdisk_map()[vdisk].tier, hash: h }))
}

pub open spec fn kept_at<D: Disk>(steps: Seq<Pool<D>>, i: int, vdisk: u64, snapshot: u64, index: u64) -> bool {
    keeps_snapshot(&steps[i], &steps[i + 1], vdisk, snapshot, index)
}

/// Every acknowledged operation but the deletion of a snapshot's own vdisk,
/// which is refused while the snapshot stands, and every checkpoint keeps a
/// snapshot.
pub proof fn law_operations_keep_snapshots<D: Disk>(a: &Pool<D>, b: &Pool<D>, vdisk: u64, snapshot: u64, index: u64, e: WalEntry, r: Result<()>)
    requires
        carried_out(a, b, e, r) || checkpointed(a, b, r),
        a.snapshot_map().contains_key(SnapshotId { vdisk, snapshot }),
        a.vdisk_map().contains_key(vdisk),
    ensures
        keeps_snapshot(a, b, vdisk, snapshot, index),
{
    let key = SnapshotId { vdisk, snapshot };
    if checkpointed(a, b, r) {
        assert(b.vdisk_map().dom().contains(vdisk));
    } else {
        match e {
            WalEntry::MapWrite { vdisk: v, index: k, hash } => {
                if !written(a, b, v, k, hash) {
                    lemma_same_grew(&a.stock(), &b.stock());
                }
            },
            WalEntry::DeleteVdisk { id } => {
                lemma_same_grew(&a.stock(), &b.stock());
                if id == vdisk {
                    assert(a.snapshot_map().contains_key(key) && key.vdisk == id);
                    assert(crate::pool::vdisk::pinned(a.snapshot_map(), id));
                }
            },
            _ => {
                lemma_same_grew(&a.stock(), &b.stock());
            },
        }
    }
}

/// A snapshot's block reads back as it did over any run of calls that keep
/// the snapshot.
pub proof fn law_a_snapshot_reads_back_over_any_run<D: Disk>(steps: Seq<Pool<D>>, vdisk: u64, snapshot: u64, index: u64)
    requires
        steps.len() > 0,
        forall|i: int| 0 <= i < steps.len() - 1 ==> #[trigger] kept_at(steps, i, vdisk, snapshot, index),
        snapshot_here(&steps[0], vdisk, snapshot, index) is Some,
    ensures
        snapshot_here(&steps.last(), vdisk, snapshot, index) == snapshot_here(&steps[0], vdisk, snapshot, index),
    decreases steps.len(),
{
    if steps.len() > 1 {
        let rest = steps.drop_last();
        assert forall|i: int| 0 <= i < rest.len() - 1 implies #[trigger] kept_at(rest, i, vdisk, snapshot, index) by {
            assert(kept_at(steps, i, vdisk, snapshot, index));
        }
        law_a_snapshot_reads_back_over_any_run(rest, vdisk, snapshot, index);
        let i = steps.len() - 2;
        assert(kept_at(steps, i, vdisk, snapshot, index));
        let (a, b) = (&steps[i], &steps[i + 1]);
        let key = SnapshotId { vdisk, snapshot };
        if !(swept_safely(a, b) && (snapshot_at(a, key, index) matches Some(Some(h)) ==> live_in(
            a,
            TierHash { tier: a.vdisk_map()[vdisk].tier, hash: h },
        ))) {
            let snap = a.snapshot_map()[key];
            let tier = a.vdisk_map()[vdisk].tier;
            assert(grew(a.holds(0), a.shelf(0), b.holds(0), b.shelf(0)));
            assert(grew(a.holds(tier), a.shelf(tier), b.holds(tier), b.shelf(tier)));
            if let Some(root) = snap.root {
                lemma_tree_grows(a.shelf(0), b.shelf(0), a.unit(), root, tree_depth(a.unit(), snap.size_bytes), index);
            }
        } else {
            assert(a.snapshot_map().contains_key(key));
            assert(snapshot_at(b, key, index) == snapshot_at(a, key, index));
        }
    }
}

} // verus!
