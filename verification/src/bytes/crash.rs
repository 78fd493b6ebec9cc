//! What reads give back after a collection, and after a crash.

use super::run::snapshot_here;
use super::{block_here, contents_same, lemma_checkpoint_keeps, pool_sound, same_sizes};
use crate::brick::GcStats;
use crate::disk::Disk;
use crate::error::{FsError, Result};
use crate::format::Anchor;
use crate::hash::BlockHash;
use crate::map::{extends, lemma_tree_grows, walk_items, MapItem};
use crate::pool::calls::{clear_tail, law_a_clear_tail_ends_the_scan, law_any_run_is_recoverable, lawful_at, recovered};
use crate::pool::checkpoint::{all_folded, checkpointed};
use crate::pool::collect::{
    collected, garbage_collected, item_marks, law_collection_spares_snapshots, law_collection_spares_what_reads_need, lemma_tree_survives, live_in,
    manifest_marks, same_but_reserve, snapshot_at, snapshots_mark, swept_out, tree_marks, trees_walk, vdisks_mark,
};
use crate::pool::manifest::ManifestView;
use crate::pool::open::opened_as;
use crate::pool::outlive::{law_a_collection_outlives_any_crash, safe_run};
use crate::pool::recover::{agree, bricks_came_back, found_frames, law_a_flushed_pool_survives_a_crash, recoverable};
use crate::pool::{mapped, tree_depth, Pool};
use crate::store::grew;
use crate::table::{SnapshotId, TierHash};
use crate::wal::FrameView;
use vstd::prelude::*;

verus! {

/// Every block of every snapshot still reads as it did.
pub open spec fn snapshots_same<D: Disk>(a: &Pool<D>, b: &Pool<D>) -> bool {
    forall|v: u64, s: u64, k: u64| (#[trigger] snapshot_here(a, v, s, k)) is Some ==> snapshot_here(b, v, s, k) == snapshot_here(a, v, s, k)
}

/// A collection that got past its checkpoint, which left `mid`.
pub open spec fn collected_through<D: Disk>(before: &Pool<D>, mid: &Pool<D>, after: &Pool<D>, r: Result<GcStats>) -> bool {
    exists|opened: Pool<D>, done: Pool<D>|
        #![trigger same_but_reserve(before, &opened), same_but_reserve(&done, after)]
        same_but_reserve(before, &opened) && checkpointed(&opened, mid, Ok::<(), FsError>(())) && swept_out(mid, &done, r) && same_but_reserve(&done, after)
}

/// A collection that succeeds gets past its checkpoint.
pub proof fn law_a_collection_gets_past_its_checkpoint<D: Disk>(before: &Pool<D>, after: &Pool<D>, r: Result<GcStats>)
    requires
        garbage_collected(before, after, r),
        r is Ok,
    ensures
        exists|mid: Pool<D>| #[trigger] collected_through(before, &mid, after, r),
{
    let (opened, done) = choose|opened: Pool<D>, done: Pool<D>| #[trigger] same_but_reserve(before, &opened) && #[trigger] collected(&opened, &done, r)
        && same_but_reserve(&done, after);
    let mid = choose|mid: Pool<D>| #[trigger] checkpointed(&opened, &mid, Ok::<(), FsError>(())) && swept_out(&mid, &done, r);
    assert(collected_through(before, &mid, after, r));
}

/// Where a store has only grown, snapshots whose lines and tiers stay read
/// as they did.
proof fn lemma_snapshots_kept<D: Disk>(a: &Pool<D>, b: &Pool<D>)
    requires
        forall|t: u8| extends(#[trigger] a.shelf(t), b.shelf(t)),
        b.unit() == a.unit(),
        b.snapshot_map() == a.snapshot_map(),
        forall|v: u64| #[trigger] a.vdisk_map().contains_key(v) ==> b.vdisk_map().contains_key(v) && b.vdisk_map()[v].tier == a.vdisk_map()[v].tier,
    ensures
        snapshots_same(a, b),
{
    assert forall|v: u64, s: u64, k: u64| (#[trigger] snapshot_here(a, v, s, k)) is Some implies snapshot_here(b, v, s, k) == snapshot_here(a, v, s, k) by {
        let snap = a.snapshot_map()[SnapshotId { vdisk: v, snapshot: s }];
        assert(a.vdisk_map().contains_key(v));
        let tier = a.vdisk_map()[v].tier;
        assert(extends(a.shelf(0), b.shelf(0)) && extends(a.shelf(tier), b.shelf(tier)));
        if let Some(root) = snap.root {
            lemma_tree_grows(a.shelf(0), b.shelf(0), a.unit(), root, tree_depth(a.unit(), snap.size_bytes), k);
        }
    }
}

/// Where a store has only grown, vdisks whose lines stay read as they did.
proof fn lemma_contents_kept<D: Disk>(a: &Pool<D>, b: &Pool<D>)
    requires
        forall|t: u8| extends(#[trigger] a.shelf(t), b.shelf(t)),
        b.unit() == a.unit(),
        b.vdisk_map() == a.vdisk_map(),
    ensures
        contents_same(a, b),
{
    assert forall|v: u64, k: u64| (#[trigger] block_here(a, v, k)) is Some implies block_here(b, v, k) == block_here(a, v, k) by {
        let d = a.vdisk_map()[v];
        assert(extends(a.shelf(0), b.shelf(0)) && extends(a.shelf(d.tier), b.shelf(d.tier)));
        if !d.dirty.contains_key(k) {
            if let Some(root) = d.root {
                lemma_tree_grows(a.shelf(0), b.shelf(0), a.unit(), root, tree_depth(a.unit(), d.size_bytes), k);
            }
        }
    }
}

/// Where a store keeps every live block, an unplaced pool that was
/// checkpointed reads as it did.
proof fn lemma_live_is_enough<D: Disk>(a: &Pool<D>, b: &Pool<D>)
    requires
        a.inv(),
        a.seat() is None,
        all_folded(a.vdisk_map()),
        trees_walk(a),
        b.unit() == a.unit(),
        b.vdisk_map() == a.vdisk_map(),
        b.snapshot_map() == a.snapshot_map(),
        forall|x: TierHash| #[trigger] live_in(a, x) && a.shelf(x.tier).contains_key(x.hash) ==> b.shelf(x.tier).contains_key(x.hash) && b.shelf(x.tier)[x.hash]
            == a.shelf(x.tier)[x.hash],
    ensures
        contents_same(a, b),
        snapshots_same(a, b),
{
    let (m, n) = (a.shelf(0), b.shelf(0));
    let bs = a.unit();
    let live = Set::new(|h: BlockHash| live_in(a, TierHash { tier: 0, hash: h }));
    assert(extends(m.restrict(live), n)) by {
        assert forall|h: BlockHash| #[trigger] m.restrict(live).contains_key(h) implies n.contains_key(h) && n[h] == m.restrict(live)[h] by {
            assert(live_in(a, TierHash { tier: 0, hash: h }));
        }
    }
    assert forall|v: u64, k: u64| (#[trigger] block_here(a, v, k)) is Some implies block_here(b, v, k) == block_here(a, v, k) by {
        let d = a.vdisk_map()[v];
        assert(a.vdisk_map().contains_key(v));
        if let Some(root) = d.root {
            assert forall|h: BlockHash| #[trigger] walk_items(m, bs, root, (tree_depth(bs, d.size_bytes) - 1) as nat, 0).contains(MapItem::Node(h)) implies live.contains(h) by {
                let x = TierHash { tier: 0, hash: h };
                assert(item_marks(a, MapItem::Node(h), d.tier, x));
                assert(tree_marks(a, d.root, d.size_bytes, d.tier, x));
                assert(vdisks_mark(a, x));
            }
            lemma_tree_survives(a, m, n, live, bs, root, d.size_bytes, k);
        }
        if let Some(Some(h)) = mapped(m, bs, d, k) {
            law_collection_spares_what_reads_need(a, v, k, h);
        }
    }
    assert forall|v: u64, s: u64, k: u64| (#[trigger] snapshot_here(a, v, s, k)) is Some implies snapshot_here(b, v, s, k) == snapshot_here(a, v, s, k) by {
        let key = SnapshotId { vdisk: v, snapshot: s };
        let snap = a.snapshot_map()[key];
        let tier = a.vdisk_map()[v].tier;
        assert(a.snapshot_map().contains_key(key));
        if let Some(root) = snap.root {
            assert forall|h: BlockHash| #[trigger] walk_items(m, bs, root, (tree_depth(bs, snap.size_bytes) - 1) as nat, 0).contains(MapItem::Node(h)) implies live.contains(h) by {
                let x = TierHash { tier: 0, hash: h };
                assert(item_marks(a, MapItem::Node(h), tier, x));
                assert(tree_marks(a, snap.root, snap.size_bytes, tier, x));
                assert(snapshots_mark(a, x));
            }
            lemma_tree_survives(a, m, n, live, bs, root, snap.size_bytes, k);
        }
        if let Some(Some(h)) = snapshot_at(a, key, k) {
            law_collection_spares_snapshots(a, key, k, h);
        }
    }
}

/// A collection of an unplaced pool changes no table and no read, of a vdisk
/// or of a snapshot, and leaves nothing that is not live. No address stands
/// for two payloads.
pub proof fn law_a_collection_changes_no_read<D: Disk>(before: &Pool<D>, mid: &Pool<D>, after: &Pool<D>, r: Result<GcStats>)
    requires
        collected_through(before, mid, after, r),
        before.seat() is None,
        pool_sound(mid),
    ensures
        same_sizes(before, after),
        after.snapshot_map() == before.snapshot_map(),
        after.lease_map() == before.lease_map(),
        after.era_now() == before.era_now(),
        contents_same(before, after),
        snapshots_same(before, after),
        r is Ok ==> forall|t: u8, h: BlockHash| #[trigger] after.holds(t).contains(h) ==> live_in(mid, TierHash { tier: t, hash: h }),
{
    let (opened, done) = choose|opened: Pool<D>, done: Pool<D>|
        #![trigger same_but_reserve(before, &opened), same_but_reserve(&done, after)]
        same_but_reserve(before, &opened) && checkpointed(&opened, mid, Ok::<(), FsError>(())) && swept_out(mid, &done, r) && same_but_reserve(&done, after);
    assert forall|t: u8| #[trigger] before.shelf(t) == opened.shelf(t) by {}
    assert forall|t: u8| #[trigger] after.shelf(t) == done.shelf(t) by {}
    if r is Ok {
        assert forall|t: u8, h: BlockHash| #[trigger] after.holds(t).contains(h) implies live_in(mid, TierHash { tier: t, hash: h }) by {
            assert(done.holds(t) == after.holds(t));
            assert(done.holds(t).contains(h));
        }
    }
    lemma_checkpoint_keeps(&opened, mid, Ok(()));
    assert forall|t: u8| extends(#[trigger] opened.shelf(t), mid.shelf(t)) by {
        assert(grew(opened.holds(t), opened.shelf(t), mid.holds(t), mid.shelf(t)));
    }
    assert forall|v: u64| #[trigger] opened.vdisk_map().contains_key(v) implies mid.vdisk_map().contains_key(v) && mid.vdisk_map()[v].tier
        == opened.vdisk_map()[v].tier by {
        assert(mid.vdisk_map().dom().contains(v));
    }
    lemma_snapshots_kept(&opened, mid);
    if trees_walk(mid) {
        assert forall|x: TierHash| #[trigger] live_in(mid, x) && mid.shelf(x.tier).contains_key(x.hash) implies done.shelf(x.tier).contains_key(x.hash)
            && done.shelf(x.tier)[x.hash] == mid.shelf(x.tier)[x.hash] by {}
        lemma_live_is_enough(mid, &done);
    }
    assert forall|v: u64, k: u64| (#[trigger] block_here(before, v, k)) is Some implies block_here(after, v, k) == block_here(before, v, k) by {
        assert(block_here(&opened, v, k) == block_here(before, v, k)) by {
            assert(opened.shelf(0) == before.shelf(0));
            assert(opened.shelf(before.vdisk_map()[v].tier) == before.shelf(before.vdisk_map()[v].tier));
        }
        assert(block_here(mid, v, k) == block_here(&opened, v, k));
        assert(block_here(&done, v, k) == block_here(mid, v, k));
        assert(block_here(after, v, k) == block_here(&done, v, k)) by {
            assert(after.shelf(0) == done.shelf(0));
            assert(after.shelf(done.vdisk_map()[v].tier) == done.shelf(done.vdisk_map()[v].tier));
        }
    }
    assert forall|v: u64, s: u64, k: u64| (#[trigger] snapshot_here(before, v, s, k)) is Some implies snapshot_here(after, v, s, k) == snapshot_here(before, v, s, k) by {
        assert(snapshot_here(&opened, v, s, k) == snapshot_here(before, v, s, k)) by {
            assert(opened.shelf(0) == before.shelf(0));
            assert(opened.shelf(before.vdisk_map()[v].tier) == before.shelf(before.vdisk_map()[v].tier));
        }
        assert(snapshot_here(mid, v, s, k) == snapshot_here(&opened, v, s, k));
        assert(snapshot_here(&done, v, s, k) == snapshot_here(mid, v, s, k));
        assert(snapshot_here(after, v, s, k) == snapshot_here(&done, v, s, k)) by {
            assert(after.shelf(0) == done.shelf(0));
            assert(after.shelf(done.vdisk_map()[v].tier) == done.shelf(done.vdisk_map()[v].tier));
        }
    }
}

/// A crash right after a flush changes no read: every block that could be
/// read of a vdisk or of a snapshot reads back as it did. The ring's bytes
/// end where its history ends, and no two payloads share an address.
pub proof fn law_a_flushed_pool_reads_the_same_after_a_crash<D: Disk>(
    pool: &Pool<D>,
    a: Anchor,
    m: Option<ManifestView>,
    log: Seq<FrameView>,
    reopened: &Pool<D>,
    found: Anchor,
    n: Option<ManifestView>,
)
    requires
        pool.inv(),
        pool.stock().durable(),
        pool.stock().intact(),
        recoverable(pool, a, m, log),
        found_frames(pool, a) == log,
        reopened.inv(),
        bricks_came_back(&pool.stock(), &reopened.stock()),
        opened_as(&reopened.stock(), found, n, reopened),
        reopened.seat() == pool.seat(),
        forall|t: u8| #[trigger] agree(pool.shelf(t), reopened.shelf(t)),
    ensures
        same_sizes(pool, reopened),
        reopened.snapshot_map() == pool.snapshot_map(),
        reopened.lease_map() == pool.lease_map(),
        reopened.era_now() == pool.era_now(),
        contents_same(pool, reopened),
        snapshots_same(pool, reopened),
{
    law_a_flushed_pool_survives_a_crash(pool, a, m, log, reopened, found, n);
    lemma_contents_kept(pool, reopened);
    lemma_snapshots_kept(pool, reopened);
}

/// The durability promise, over any run of calls: a pool that was opened or
/// created, any number of creates, writes, trims, deletes, lease changes,
/// snapshots, clones, rollbacks, checkpoints and collections, then a flush, a
/// crash and an open. Everything is as it was: the vdisks, the snapshots, the leases, the
/// era, and every block that could be read. Nothing on the disk passes for a
/// frame that was never appended, and no two payloads share an address.
pub proof fn law_everything_acknowledged_survives_a_crash<D: Disk>(
    states: Seq<Pool<D>>,
    reopened: &Pool<D>,
    found: Anchor,
    n: Option<ManifestView>,
)
    requires
        states.len() > 0,
        recovered(&states[0]),
        forall|k: int| 0 <= k < states.len() - 1 ==> #[trigger] lawful_at(states, k),
        states.last().inv(),
        states.last().stock().durable(),
        states.last().stock().intact(),
        clear_tail(&states.last()),
        reopened.inv(),
        bricks_came_back(&states.last().stock(), &reopened.stock()),
        opened_as(&reopened.stock(), found, n, reopened),
        reopened.seat() == states.last().seat(),
        forall|t: u8| #[trigger] agree(states.last().shelf(t), reopened.shelf(t)),
    ensures
        same_sizes(&states.last(), reopened),
        reopened.snapshot_map() == states.last().snapshot_map(),
        reopened.lease_map() == states.last().lease_map(),
        reopened.era_now() == states.last().era_now(),
        contents_same(&states.last(), reopened),
        snapshots_same(&states.last(), reopened),
{
    let pool = &states.last();
    law_any_run_is_recoverable(states);
    let (a, m, log) = choose|a: Anchor, m: Option<ManifestView>, log: Seq<FrameView>| #[trigger] recoverable(pool, a, m, log);
    law_a_clear_tail_ends_the_scan(pool, a, m, log);
    law_a_flushed_pool_reads_the_same_after_a_crash(pool, a, m, log, reopened, found, n);
}

/// A crash right after a collection of an unplaced pool changes no read,
/// where nothing in the ring passes for a frame that was never appended and
/// no two payloads share an address.
pub proof fn law_a_collected_pool_reads_the_same_after_a_crash<D: Disk>(
    mid: &Pool<D>,
    done: &Pool<D>,
    a: Anchor,
    m: Option<ManifestView>,
    r: Result<GcStats>,
    reopened: &Pool<D>,
    found: Anchor,
    n: Option<ManifestView>,
)
    requires
        mid.inv(),
        mid.seat() is None,
        all_folded(mid.vdisk_map()),
        mid.stock().durable(),
        mid.stock().intact(),
        recoverable(mid, a, m, Seq::empty()),
        m is Some ==> manifest_marks(mid, TierHash { tier: 0, hash: BlockHash(a.manifest_hash) }),
        r is Ok,
        swept_out(mid, done, r),
        reopened.inv(),
        bricks_came_back(&done.stock(), &reopened.stock()),
        opened_as(&reopened.stock(), found, n, reopened),
        found_frames(reopened, found).len() == 0,
        forall|t: u8| #[trigger] agree(mid.shelf(t), reopened.shelf(t)),
    ensures
        same_sizes(mid, reopened),
        reopened.snapshot_map() == mid.snapshot_map(),
        reopened.lease_map() == mid.lease_map(),
        reopened.era_now() == mid.era_now(),
        contents_same(mid, reopened),
        snapshots_same(mid, reopened),
{
    let states = seq![*done];
    assert(safe_run(states));
    law_a_collection_outlives_any_crash(mid, states, a, m, r, reopened, found, n);
    lemma_live_is_enough(mid, reopened);
}

} // verus!
