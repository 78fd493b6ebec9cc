//! Any run of calls leaves the pool recoverable.

use super::checkpoint::{anchor_names, anchored, checkpointed};
use super::collect::{live_in, manifest_marks, same_but_reserve, swept_out};
use super::entry::{entry_bytes, WalEntry};
use super::lease::only_leases;
use super::manifest::{encodable, manifest_bytes, ManifestView};
use super::open::{opened_as, opened_whole, seated_by};
use super::outlive::safe_step;
use super::recover::{
    carried_out, checkpoint_manifest, found_frames, frame_of, law_a_checkpoint_is_recoverable, law_an_acknowledged_operation_is_recoverable,
    law_an_opened_pool_is_recoverable, law_stood_still_is_recoverable, lemma_new_anchor_is_best, recoverable, replayed_frames, unmistaken,
};
use super::snapshot::{clone_fault, cloned, pin_fault, rolled_back, same_ground, snapshot_deleted, snapshotted, with_era, with_snapshots, with_vdisks};
use super::vdisk::{block_stored, block_wrote, created, deleted, flushed, mapped_to, trimmed};
use super::{lemma_same_grew, stock_grew, Lease, Pool, SnapshotState, VdiskView};
use crate::brick::{best_anchor, GcStats};
use crate::codec::lemma_array_view_injective;
use crate::disk::Disk;
use crate::error::Result;
use crate::format::Anchor;
use crate::hash::{address_of, BlockHash};
use crate::slice::{NodeId, SliceMap};
use crate::table::{SnapshotId, TierHash};
use crate::wal::{frame_at, frame_size, law_a_crash_keeps_exactly_the_flushed_history, FrameView};
use vstd::prelude::*;

verus! {

/// Some anchor, manifest and history give back everything the pool has.
pub open spec fn recovered<D: Disk>(pool: &Pool<D>) -> bool {
    exists|a: Anchor, m: Option<ManifestView>, log: Seq<FrameView>| #[trigger] recoverable(pool, a, m, log)
}

/// Nothing on the disk passes for the frame that comes next, neither behind
/// the last one nor at the start of the ring.
pub open spec fn clear_tail<D: Disk>(pool: &Pool<D>) -> bool {
    let (area, ring) = (pool.stock().wal_area(), pool.ring());
    &&& !frame_at(area, ring.cursor as int, ring.start + ring.size, ring.next_seq, 0)
    &&& !frame_at(area, ring.start as int, ring.start + ring.size, ring.next_seq, 0)
}

/// The tables are as they were, and nothing that was there is endangered: a
/// flush, a store, or an operation that was refused.
pub open spec fn stood_still<D: Disk>(a: &Pool<D>, b: &Pool<D>) -> bool {
    &&& safe_step(a, b)
    &&& b.ring() == a.ring()
    &&& b.vdisk_map() == a.vdisk_map()
    &&& b.lease_map() == a.lease_map()
    &&& b.snapshot_map() == a.snapshot_map()
    &&& b.era_now() == a.era_now()
    &&& b.generation() == a.generation()
    &&& b.seat() == a.seat()
    &&& b.pending() == a.pending()
}

/// The tables were changed in memory, if at all, and a checkpoint made that
/// durable.
pub open spec fn resettled<D: Disk>(a: &Pool<D>, b: &Pool<D>) -> bool {
    exists|mid: Pool<D>, c: Result<()>| #[trigger] same_ground(a, &mid) && #[trigger] checkpointed(&mid, b, c) && c is Ok
}

/// A call that ends in a checkpoint, perhaps after another.
pub open spec fn settles<D: Disk>(a: &Pool<D>, b: &Pool<D>) -> bool {
    ||| resettled(a, b)
    ||| exists|first: Pool<D>, c: Result<()>| #[trigger] checkpointed(a, &first, c) && c is Ok && resettled(&first, b)
}

/// A manifest of this pool loses nothing: it encodes, the store keeps its
/// promises, and no lease is left of a pool without vdisks.
pub open spec fn lossless<D: Disk>(pool: &Pool<D>) -> bool {
    &&& encodable(pool.manifest_view())
    &&& pool.faithful(0)
    &&& pool.blank() ==> pool.lease_map() == Map::<u64, Lease>::empty()
}

/// A checkpoint and the sweep of a collection behind it.
pub open spec fn collects<D: Disk>(a: &Pool<D>, b: &Pool<D>) -> bool {
    exists|mid: Pool<D>, r: Result<GcStats>| #[trigger] swept_out(&mid, b, r) && settles(a, &mid) && lossless(&mid)
}

/// A call that leaves the pool recoverable: an acknowledged operation, one
/// that stood still, one that settles, or one that collects.
pub open spec fn lawful_call<D: Disk>(a: &Pool<D>, b: &Pool<D>) -> bool {
    ||| clear_tail(a) && exists|e: WalEntry, r: Result<()>| #[trigger] carried_out(a, b, e, r)
    ||| stood_still(a, b)
    ||| settles(a, b) && lossless(b)
    ||| collects(a, b)
}

/// The `k`-th call of a run is lawful, on a pool in order.
pub open spec fn lawful_at<D: Disk>(states: Seq<Pool<D>>, k: int) -> bool {
    states[k].inv() && lawful_call(&states[k], &states[k + 1])
}

/// An open leaves the pool recoverable, and so does a create on bricks that
/// were just laid out.
pub proof fn law_an_opened_pool_is_recovered<D: Disk>(pool: &Pool<D>, given: Option<(NodeId, SliceMap)>)
    requires
        pool.inv(),
        opened_whole(pool, given),
    ensures
        recovered(pool),
{
    let (a, m) = choose|a: Anchor, m: Option<ManifestView>| #[trigger] opened_as(&pool.stock(), a, m, pool) && seated_by(pool.seat(), given, m);
    law_an_opened_pool_is_recoverable(pool, a, m);
    assert(recoverable(pool, a, m, replayed_frames(pool, a, m)));
}

/// A flush stands still.
pub proof fn law_a_flush_stands_still<D: Disk>(a: &Pool<D>, b: &Pool<D>, r: Result<()>)
    requires
        flushed(a, b, r),
    ensures
        stood_still(a, b),
{
    lemma_same_grew(&a.stock(), &b.stock());
}

/// Storing a block stands still.
pub proof fn law_a_store_stands_still<D: Disk>(a: &Pool<D>, b: &Pool<D>, tier: u8, payload: Seq<u8>, r: Result<BlockHash>)
    requires
        block_stored(a, b, tier, payload, r),
    ensures
        stood_still(a, b),
{
}

/// A collection stands still but for a checkpoint and a sweep.
pub proof fn law_a_collection_is_lawful<D: Disk>(a: &Pool<D>, opened: &Pool<D>, mid: &Pool<D>, done: &Pool<D>, b: &Pool<D>, c: Result<()>, r: Result<GcStats>)
    requires
        a.inv(),
        same_but_reserve(a, opened),
        checkpointed(opened, mid, c),
        c is Ok,
        lossless(mid),
        swept_out(mid, done, r),
        same_but_reserve(done, b),
    ensures
        lawful_call(a, opened),
        lawful_call(opened, done),
        lawful_call(done, b),
{
    lemma_same_grew(&a.stock(), &opened.stock());
    lemma_same_grew(&done.stock(), &b.stock());
    assert(stood_still(a, opened) && stood_still(done, b));
    law_a_checkpoint_settles(opened, mid, c);
    assert(collects(opened, done));
}

/// An operation was refused.
pub open spec fn refused<D: Disk>(a: &Pool<D>, b: &Pool<D>) -> bool {
    ||| exists|id: u64, size: u64, tier: u8, r: Result<()>| #[trigger] created(a, b, id, size, tier, r) && r is Err
    ||| exists|id: u64, r: Result<()>| #[trigger] deleted(a, b, id, r) && r is Err
    ||| exists|v: u64, i: u64, payload: Seq<u8>, r: Result<()>| #[trigger] block_wrote(a, b, v, i, payload, r) && r is Err
    ||| exists|v: u64, i: u64, h: BlockHash, r: Result<()>| #[trigger] mapped_to(a, b, v, i, h, r) && r is Err
    ||| exists|v: u64, i: u64, r: Result<()>| #[trigger] trimmed(a, b, v, i, r) && r is Err
    ||| exists|r: Result<()>| #[trigger] only_leases(a, b, r) && r is Err
}

/// An operation that is refused stands still.
pub proof fn law_a_refusal_stands_still<D: Disk>(a: &Pool<D>, b: &Pool<D>)
    requires
        refused(a, b),
    ensures
        stood_still(a, b),
{
    if !stock_grew(&a.stock(), &b.stock()) {
        lemma_same_grew(&a.stock(), &b.stock());
    }
}

/// Taking a snapshot settles.
pub proof fn law_a_snapshot_settles<D: Disk>(a: &Pool<D>, b: &Pool<D>, vdisk: u64, snapshot: u64, r: Result<()>)
    requires
        snapshotted(a, b, vdisk, snapshot, r),
        r is Ok,
    ensures
        settles(a, b),
{
    assert(pin_fault(a, vdisk, snapshot) is None);
    let (first, mid) = choose|first: Pool<D>, mid: Pool<D>| #[trigger] checkpointed(a, &first, Ok(())) && #[trigger] with_snapshots(
        &first,
        &mid,
        first.snapshot_map().insert(
            SnapshotId { vdisk, snapshot },
            SnapshotState { size_bytes: first.vdisk_map()[vdisk].size_bytes, root: first.vdisk_map()[vdisk].root },
        ),
    ) && checkpointed(&mid, b, r);
    assert(same_ground(&first, &mid));
}

/// So does deleting one.
pub proof fn law_deleting_a_snapshot_settles<D: Disk>(a: &Pool<D>, b: &Pool<D>, vdisk: u64, snapshot: u64, r: Result<()>)
    requires
        snapshot_deleted(a, b, vdisk, snapshot, r),
        r is Ok,
    ensures
        settles(a, b),
{
    let mid = choose|mid: Pool<D>| #[trigger] with_snapshots(a, &mid, a.snapshot_map().remove(SnapshotId { vdisk, snapshot })) && checkpointed(&mid, b, r);
    assert(same_ground(a, &mid));
}

/// So does rolling a vdisk back.
pub proof fn law_a_rollback_settles<D: Disk>(a: &Pool<D>, b: &Pool<D>, vdisk: u64, snapshot: u64, r: Result<()>)
    requires
        rolled_back(a, b, vdisk, snapshot, r),
        r is Ok,
    ensures
        settles(a, b),
{
    let snap = a.snapshot_map()[SnapshotId { vdisk, snapshot }];
    let view = VdiskView { size_bytes: snap.size_bytes, tier: a.vdisk_map()[vdisk].tier, root: snap.root, dirty: Map::empty() };
    let mid = choose|mid: Pool<D>| #[trigger] with_vdisks(a, &mid, a.vdisk_map().insert(vdisk, view)) && checkpointed(&mid, b, r);
    assert(same_ground(a, &mid));
}

/// So does cloning a snapshot.
pub proof fn law_a_clone_settles<D: Disk>(a: &Pool<D>, b: &Pool<D>, new_id: u64, vdisk: u64, snapshot: u64, r: Result<()>)
    requires
        cloned(a, b, new_id, vdisk, snapshot, r),
        r is Ok,
    ensures
        settles(a, b),
{
    assert(clone_fault(a, new_id, vdisk, snapshot) is None);
    let snap = a.snapshot_map()[SnapshotId { vdisk, snapshot }];
    let view = VdiskView { size_bytes: snap.size_bytes, tier: a.vdisk_map()[vdisk].tier, root: snap.root, dirty: Map::empty() };
    let mid = choose|mid: Pool<D>| #[trigger] with_vdisks(a, &mid, a.vdisk_map().insert(new_id, view)) && checkpointed(&mid, b, r);
    assert(same_ground(a, &mid));
}

/// So does an era bump.
pub proof fn law_an_era_bump_settles<D: Disk>(a: &Pool<D>, mid: &Pool<D>, b: &Pool<D>, era: u64, r: Result<()>)
    requires
        with_era(a, mid, era),
        checkpointed(mid, b, r),
        r is Ok,
    ensures
        settles(a, b),
{
    assert(same_ground(a, mid));
}

/// And so does a checkpoint by itself.
pub proof fn law_a_checkpoint_settles<D: Disk>(a: &Pool<D>, b: &Pool<D>, r: Result<()>)
    requires
        a.inv(),
        checkpointed(a, b, r),
        r is Ok,
    ensures
        settles(a, b),
{
    assert(same_ground(a, a));
}

/// The anchor on the disk names the pool's own manifest, and the history is
/// empty.
spec fn holds_its_manifest<D: Disk>(pool: &Pool<D>) -> bool {
    exists|a: Anchor| #[trigger] recoverable(pool, a, checkpoint_manifest(pool), Seq::empty()) && (!pool.blank() ==> a.manifest_hash@
        == address_of(manifest_bytes(pool.manifest_view())).0@)
}

/// The best anchor on the disk is of the pool's own generation.
spec fn anchored_now<D: Disk>(pool: &Pool<D>) -> bool {
    exists|a: Anchor| #[trigger] best_anchor(pool.stock().wal_area(), Some(a)) && a.generation == pool.generation()
}

proof fn lemma_checkpoint_anchors<D: Disk>(before: &Pool<D>, after: &Pool<D>, c: Result<()>)
    requires
        before.inv(),
        anchored_now(before),
        checkpointed(before, after, c),
        c is Ok,
    ensures
        anchored_now(after),
        lossless(after) ==> holds_its_manifest(after),
{
    let a = choose|a: Anchor| #[trigger] best_anchor(before.stock().wal_area(), Some(a)) && a.generation == before.generation();
    let next = choose|next: Anchor| #[trigger]
        anchor_names(next, after, before.ring().cursor, before.ring().next_seq, before.ring().epoch, after.manifest_address()) && anchored(
            before.stock().wal_area(),
            after.stock().wal_area(),
            next,
        );
    before.stock().lemma_set();
    before.stock().members()[before.stock().holder_at()].lemma_model();
    after.stock().lemma_set();
    lemma_new_anchor_is_best(before.stock().wal_area(), after.stock().wal_area(), a, next);
    assert(best_anchor(after.stock().wal_area(), Some(next)) && next.generation == after.generation());
    if lossless(after) {
        law_a_checkpoint_is_recoverable(before, after, a, next, c);
        assert(recoverable(after, next, checkpoint_manifest(after), Seq::empty()));
    }
}

proof fn lemma_resettled<D: Disk>(a: &Pool<D>, b: &Pool<D>)
    requires
        anchored_now(a),
        resettled(a, b),
        lossless(b),
    ensures
        holds_its_manifest(b),
{
    let (mid, c) = choose|mid: Pool<D>, c: Result<()>| #[trigger] same_ground(a, &mid) && #[trigger] checkpointed(&mid, b, c) && c is Ok;
    let x = choose|x: Anchor| #[trigger] best_anchor(a.stock().wal_area(), Some(x)) && x.generation == a.generation();
    assert(best_anchor(mid.stock().wal_area(), Some(x)) && x.generation == mid.generation());
    lemma_checkpoint_anchors(&mid, b, c);
}

/// A lawful call leaves a recoverable pool recoverable.
pub proof fn law_a_lawful_call_keeps_the_pool_recoverable<D: Disk>(a: &Pool<D>, b: &Pool<D>)
    requires
        a.inv(),
        recovered(a),
        lawful_call(a, b),
    ensures
        recovered(b),
{
    let (x, m, log) = choose|x: Anchor, m: Option<ManifestView>, log: Seq<FrameView>| #[trigger] recoverable(a, x, m, log);
    if clear_tail(a) && exists|e: WalEntry, r: Result<()>| #[trigger] carried_out(a, b, e, r) {
        let (e, r) = choose|e: WalEntry, r: Result<()>| #[trigger] carried_out(a, b, e, r);
        assert(unmistaken(a, x, log, frame_size(entry_bytes(e).len()) as int));
        law_an_acknowledged_operation_is_recoverable(a, b, x, m, log, e, r);
        assert(recoverable(b, x, m, log.push(frame_of(a, b, e))));
    } else if stood_still(a, b) {
        law_stood_still_is_recoverable(a, b, x, m, log);
        assert(recoverable(b, x, m, log));
    } else if settles(a, b) && lossless(b) {
        lemma_settles(a, b);
        let y = choose|y: Anchor| #[trigger] recoverable(b, y, checkpoint_manifest(b), Seq::empty());
        assert(recoverable(b, y, checkpoint_manifest(b), Seq::empty()));
    } else {
        let (mid, r) = choose|mid: Pool<D>, r: Result<GcStats>| #[trigger] swept_out(&mid, b, r) && settles(a, &mid) && lossless(&mid);
        lemma_settles(a, &mid);
        lemma_swept_is_recovered(&mid, b, r);
    }
}

proof fn lemma_settles<D: Disk>(a: &Pool<D>, b: &Pool<D>)
    requires
        a.inv(),
        recovered(a),
        settles(a, b),
        lossless(b),
    ensures
        holds_its_manifest(b),
{
    let (x, m, log) = choose|x: Anchor, m: Option<ManifestView>, log: Seq<FrameView>| #[trigger] recoverable(a, x, m, log);
    assert(best_anchor(a.stock().wal_area(), Some(x)) && x.generation == a.generation());
    if resettled(a, b) {
        lemma_resettled(a, b);
    } else {
        let (first, c) = choose|first: Pool<D>, c: Result<()>| #[trigger] checkpointed(a, &first, c) && c is Ok && resettled(&first, b);
        lemma_checkpoint_anchors(a, &first, c);
        lemma_resettled(&first, b);
    }
}

/// A sweep keeps the manifest that the anchor names.
proof fn lemma_swept_is_recovered<D: Disk>(mid: &Pool<D>, b: &Pool<D>, r: Result<GcStats>)
    requires
        holds_its_manifest(mid),
        swept_out(mid, b, r),
    ensures
        recovered(b),
{
    let a = choose|a: Anchor| #[trigger] recoverable(mid, a, checkpoint_manifest(mid), Seq::empty()) && (!mid.blank() ==> a.manifest_hash@ == address_of(
        manifest_bytes(mid.manifest_view()),
    ).0@);
    let m = checkpoint_manifest(mid);
    if !mid.blank() {
        let h = address_of(manifest_bytes(mid.manifest_view()));
        lemma_array_view_injective(a.manifest_hash, h.0);
        assert(BlockHash(a.manifest_hash) == h);
        assert(manifest_marks(mid, TierHash { tier: 0, hash: h }));
        assert(live_in(mid, TierHash { tier: 0, hash: h }));
    }
    assert(recoverable(b, a, m, Seq::empty()));
}

/// Any run of lawful calls leaves a recoverable pool recoverable.
pub proof fn law_any_run_is_recoverable<D: Disk>(states: Seq<Pool<D>>)
    requires
        states.len() > 0,
        recovered(&states[0]),
        forall|k: int| 0 <= k < states.len() - 1 ==> #[trigger] lawful_at(states, k),
    ensures
        recovered(&states.last()),
    decreases states.len(),
{
    if states.len() > 1 {
        let rest = states.drop_last();
        assert forall|k: int| 0 <= k < rest.len() - 1 implies #[trigger] lawful_at(rest, k) by {
            assert(lawful_at(states, k));
        }
        law_any_run_is_recoverable(rest);
        let k = states.len() - 2;
        assert(lawful_at(states, k));
        law_a_lawful_call_keeps_the_pool_recoverable(&states[k], &states[k + 1]);
    }
}

/// Where nothing passes for the next frame, a scan finds the history and
/// nothing else.
pub proof fn law_a_clear_tail_ends_the_scan<D: Disk>(pool: &Pool<D>, a: Anchor, m: Option<ManifestView>, log: Seq<FrameView>)
    requires
        pool.inv(),
        clear_tail(pool),
        recoverable(pool, a, m, log),
    ensures
        found_frames(pool, a) == log,
{
    pool.lemma_pool();
    pool.stock().lemma_set();
    pool.stock().members()[pool.stock().holder_at()].lemma_model();
    let area = pool.stock().wal_area();
    law_a_crash_keeps_exactly_the_flushed_history(pool.ring(), area, a.wal_replay_seq, a.wal_epoch, log, area);
}

} // verus!
