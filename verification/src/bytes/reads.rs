//! What a read gives once a call has been made.
//!
//! Each law takes a call by its contract and the reads before and after it by
//! theirs, and says how the reads relate. The disks do not fail, and no
//! address stands for two payloads.

use super::rollback::law_a_rollback_reads_as_its_snapshot;
use super::run::{snapshot_here, snapshot_call};
use super::{
    block_here, contents_same, lemma_checkpoint_keeps, lemma_growth_keeps, lemma_mutation_keeps, lemma_sound_before, payload_view, pool_sound,
};
use crate::disk::Disk;
use crate::error::{FsError, Result};
use crate::hash::{address_of, BlockHash};
use crate::map::lemma_tree_grows;
use crate::pool::checkpoint::checkpointed;
use crate::pool::snapshot::{clone_fault, cloned, pin_fault, rolled_back, snapshot_deleted, snapshotted, with_snapshots, with_vdisks};
use crate::pool::vdisk::{block_read, block_stored, block_wrote, created, deleted, flushed, mapped_to, pinned, snapshot_read, trimmed};
use crate::pool::{lemma_same_grew, stock_grew, tree_depth, Pool, SnapshotState, VdiskView};
use crate::store::grew;
use crate::table::SnapshotId;
use vstd::prelude::*;

verus! {

/// A read that succeeded gives the same again.
pub open spec fn reads_alike(was: Result<Option<Vec<u8>>>, is: Result<Option<Vec<u8>>>) -> bool {
    was is Ok ==> is is Ok && payload_view(is->Ok_0) == payload_view(was->Ok_0)
}

/// The blocks a vdisk of so many bytes has: the last may be short.
pub open spec fn within(unit: u32, size: u64, k: u64) -> bool {
    k * unit < size
}

/// A read gives what stands at the index.
pub proof fn lemma_read<D: Disk>(pool: &Pool<D>, v: u64, k: u64, r: Result<Option<Vec<u8>>>)
    requires
        pool.reliable(),
        block_read(pool, v, k, r),
    ensures
        r is Ok <==> block_here(pool, v, k) is Some,
        r is Ok ==> block_here(pool, v, k) == Some(payload_view(r->Ok_0)),
{
}

/// A read of a snapshot gives what stands there.
pub proof fn lemma_read_snapshot<D: Disk>(pool: &Pool<D>, v: u64, s: u64, k: u64, r: Result<Option<Vec<u8>>>)
    requires
        pool.reliable(),
        snapshot_read(pool, v, s, k, r),
    ensures
        r is Ok <==> snapshot_here(pool, v, s, k) is Some,
        r is Ok ==> snapshot_here(pool, v, s, k) == Some(payload_view(r->Ok_0)),
{
}

/// An index is within a vdisk exactly where it is below the count of its
/// blocks.
pub proof fn lemma_within(unit: u32, size: u64, k: u64)
    requires
        crate::map::arity(unit) >= 2,
    ensures
        within(unit, size, k) <==> k < crate::pool::capacity(unit, size),
{
    crate::pool::lemma_capacity(unit, size);
    let (s, u) = (size as int, unit as int);
    vstd::arithmetic::div_mod::lemma_fundamental_div_mod(s, u);
    let q = s / u;
    assert(k * u < s <==> k < q || (k == q && s % u != 0)) by (nonlinear_arith)
        requires
            u > 0,
            s == u * q + s % u,
            0 <= s % u < u,
            k >= 0,
    ;
}

/// Where a store has only grown and a snapshot's line and tier stay, it reads
/// as it did.
proof fn lemma_snapshot_stays<D: Disk>(a: &Pool<D>, b: &Pool<D>, v: u64, s: u64, k: u64)
    requires
        stock_grew(&a.stock(), &b.stock()),
        b.snapshot_map().contains_key(SnapshotId { vdisk: v, snapshot: s }),
        b.snapshot_map()[SnapshotId { vdisk: v, snapshot: s }] == a.snapshot_map()[SnapshotId { vdisk: v, snapshot: s }],
        b.vdisk_map().contains_key(v),
        b.vdisk_map()[v].tier == a.vdisk_map()[v].tier,
        snapshot_here(a, v, s, k) is Some,
    ensures
        snapshot_here(b, v, s, k) == snapshot_here(a, v, s, k),
{
    let line = a.snapshot_map()[SnapshotId { vdisk: v, snapshot: s }];
    let tier = a.vdisk_map()[v].tier;
    assert(grew(a.holds(0), a.shelf(0), b.holds(0), b.shelf(0)));
    assert(grew(a.holds(tier), a.shelf(tier), b.holds(tier), b.shelf(tier)));
    if let Some(root) = line.root {
        lemma_tree_grows(a.shelf(0), b.shelf(0), a.unit(), root, tree_depth(a.unit(), line.size_bytes), k);
    }
}

/// A flush leaves every block that could be read as it was.
pub proof fn lemma_flush_keeps<D: Disk>(a: &Pool<D>, b: &Pool<D>, w: Result<()>)
    requires
        flushed(a, b, w),
    ensures
        contents_same(a, b),
        b.unit() == a.unit(),
        pool_sound(b) ==> pool_sound(a),
{
    lemma_same_grew(&a.stock(), &b.stock());
    lemma_growth_keeps(a, b);
    if pool_sound(b) {
        lemma_sound_before(a, b);
    }
}

/// A block that was written reads back as it was written.
pub proof fn law_a_written_block_reads_back<D: Disk>(
    before: &Pool<D>,
    after: &Pool<D>,
    v: u64,
    k: u64,
    payload: Seq<u8>,
    w: Result<()>,
    r: Result<Option<Vec<u8>>>,
)
    requires
        block_wrote(before, after, v, k, payload, w),
        w is Ok,
        after.reliable(),
        pool_sound(after),
        block_read(after, v, k, r),
    ensures
        r is Ok,
        r->Ok_0 is Some,
        r->Ok_0->Some_0@ == payload,
{
    lemma_read(after, v, k, r);
    let tier = before.vdisk_map()[v].tier;
    assert(after.faithful(tier));
    assert(after.promised(tier).contains((address_of(payload), payload)));
}

/// A write, made or refused, changes no other read, of a vdisk or of a
/// snapshot, and a refused one changes none at all.
pub proof fn law_a_write_changes_no_other_read<D: Disk>(
    before: &Pool<D>,
    after: &Pool<D>,
    v: u64,
    k: u64,
    payload: Seq<u8>,
    w: Result<()>,
    x: u64,
    s: u64,
    j: u64,
    was: Result<Option<Vec<u8>>>,
    is: Result<Option<Vec<u8>>>,
    snap_was: Result<Option<Vec<u8>>>,
    snap_is: Result<Option<Vec<u8>>>,
)
    requires
        block_wrote(before, after, v, k, payload, w),
        x != v || j != k || w is Err,
        before.reliable(),
        block_read(before, x, j, was),
        block_read(after, x, j, is),
        snapshot_read(before, x, s, j, snap_was),
        snapshot_read(after, x, s, j, snap_is),
    ensures
        reads_alike(was, is),
        reads_alike(snap_was, snap_is),
{
    lemma_read(before, x, j, was);
    lemma_read(after, x, j, is);
    lemma_read_snapshot(before, x, s, j, snap_was);
    lemma_read_snapshot(after, x, s, j, snap_is);
    if w is Ok {
        lemma_mutation_keeps(before, after, v, k, Some(address_of(payload)));
    } else {
        lemma_growth_keeps(before, after);
    }
    if snap_was is Ok {
        lemma_snapshot_stays(before, after, x, s, j);
    }
}

/// An index that was led to a stored block reads as that block.
pub proof fn law_a_mapped_block_reads_back<D: Disk>(
    before: &Pool<D>,
    after: &Pool<D>,
    v: u64,
    k: u64,
    hash: BlockHash,
    w: Result<()>,
    r: Result<Option<Vec<u8>>>,
)
    requires
        mapped_to(before, after, v, k, hash, w),
        w is Ok,
        after.reliable(),
        before.shelf(before.vdisk_map()[v].tier).contains_key(hash),
        block_read(after, v, k, r),
    ensures
        r is Ok,
        r->Ok_0 is Some,
        r->Ok_0->Some_0@ == before.shelf(before.vdisk_map()[v].tier)[hash],
{
    lemma_read(after, v, k, r);
    let tier = before.vdisk_map()[v].tier;
    assert(after.shelf(tier) == before.shelf(tier));
}

/// A trimmed block reads as never written.
pub proof fn law_a_trimmed_block_reads_as_nothing<D: Disk>(before: &Pool<D>, after: &Pool<D>, v: u64, k: u64, w: Result<()>, r: Result<Option<Vec<u8>>>)
    requires
        trimmed(before, after, v, k, w),
        w is Ok,
        after.reliable(),
        block_read(after, v, k, r),
    ensures
        r == Ok::<Option<Vec<u8>>, FsError>(None),
{
}

/// A trim or a mapping, made or refused, changes no other read, and a
/// refused one changes none at all.
pub proof fn law_a_trim_changes_no_other_read<D: Disk>(
    before: &Pool<D>,
    after: &Pool<D>,
    v: u64,
    k: u64,
    hash: BlockHash,
    w: Result<()>,
    x: u64,
    s: u64,
    j: u64,
    was: Result<Option<Vec<u8>>>,
    is: Result<Option<Vec<u8>>>,
    snap_was: Result<Option<Vec<u8>>>,
    snap_is: Result<Option<Vec<u8>>>,
)
    requires
        trimmed(before, after, v, k, w) || mapped_to(before, after, v, k, hash, w),
        x != v || j != k || w is Err,
        before.reliable(),
        block_read(before, x, j, was),
        block_read(after, x, j, is),
        snapshot_read(before, x, s, j, snap_was),
        snapshot_read(after, x, s, j, snap_is),
    ensures
        reads_alike(was, is),
        reads_alike(snap_was, snap_is),
{
    lemma_read(before, x, j, was);
    lemma_read(after, x, j, is);
    lemma_read_snapshot(before, x, s, j, snap_was);
    lemma_read_snapshot(after, x, s, j, snap_is);
    lemma_same_grew(&before.stock(), &after.stock());
    if w is Ok {
        if trimmed(before, after, v, k, w) {
            lemma_mutation_keeps(before, after, v, k, None);
        } else {
            lemma_mutation_keeps(before, after, v, k, Some(hash));
        }
    } else {
        lemma_growth_keeps(before, after);
    }
    if snap_was is Ok {
        lemma_snapshot_stays(before, after, x, s, j);
    }
}

/// A new vdisk was not there before, has the size and the tier asked for,
/// reads as nothing on every index within its size and on no other, and
/// changes no other read.
pub proof fn law_a_new_vdisk_reads_as_nothing<D: Disk>(
    before: &Pool<D>,
    after: &Pool<D>,
    id: u64,
    size: u64,
    tier: u8,
    w: Result<()>,
    k: u64,
    r: Result<Option<Vec<u8>>>,
    x: u64,
    was: Result<Option<Vec<u8>>>,
    is: Result<Option<Vec<u8>>>,
)
    requires
        before.inv(),
        created(before, after, id, size, tier, w),
        before.reliable(),
        block_read(after, id, k, r),
        block_read(before, x, k, was),
        block_read(after, x, k, is),
    ensures
        w is Ok ==> {
            &&& size > 0
            &&& !before.vdisk_map().contains_key(id)
            &&& after.vdisk_map().contains_key(id)
            &&& after.vdisk_map()[id].size_bytes == size
            &&& after.vdisk_map()[id].tier == tier
            &&& crate::brick_set::ops::tier_exists(after.stock().members(), tier)
            &&& within(after.unit(), size, k) ==> r == Ok::<Option<Vec<u8>>, FsError>(None)
            &&& !within(after.unit(), size, k) ==> r is Err && r->Err_0 is OutOfRange
            &&& after.lease_map() == before.lease_map()
            &&& after.snapshot_map() == before.snapshot_map()
        },
        reads_alike(was, is),
{
    lemma_read(before, x, k, was);
    lemma_read(after, x, k, is);
    lemma_same_grew(&before.stock(), &after.stock());
    before.lemma_pool();
    after.lemma_pool();
    lemma_within(after.unit(), size, k);
    if w is Ok {
        if x != id {
            assert(after.vdisk_map()[x] == before.vdisk_map()[x]);
            assert(after.shelf(0) == before.shelf(0));
            assert(after.shelf(before.vdisk_map()[x].tier) == before.shelf(before.vdisk_map()[x].tier));
        }
        if crate::brick_set::ops::tier_exists(before.stock().members(), tier) {
            let i = choose|i: int| 0 <= i < before.stock().members().len() && (#[trigger] before.stock().members()[i]).superblock().tier == tier;
            assert(after.stock().members()[i].superblock().tier == tier);
        }
    } else {
        lemma_growth_keeps(before, after);
    }
}

/// A deleted vdisk is unknown to every read, and so is its lease; none of its
/// snapshots stood in the way; and no other read changes.
pub proof fn law_a_deleted_vdisk_is_gone<D: Disk>(
    before: &Pool<D>,
    after: &Pool<D>,
    id: u64,
    w: Result<()>,
    k: u64,
    r: Result<Option<Vec<u8>>>,
    x: u64,
    was: Result<Option<Vec<u8>>>,
    is: Result<Option<Vec<u8>>>,
)
    requires
        deleted(before, after, id, w),
        before.reliable(),
        block_read(after, id, k, r),
        block_read(before, x, k, was),
        block_read(after, x, k, is),
    ensures
        w is Ok ==> {
            &&& before.vdisk_map().contains_key(id)
            &&& r == Err::<Option<Vec<u8>>, FsError>(FsError::UnknownVdisk(id))
            &&& !after.lease_map().contains_key(id)
            &&& forall|s: u64| !#[trigger] before.snapshot_map().contains_key(SnapshotId { vdisk: id, snapshot: s })
            &&& forall|v: u64| v != id ==> (#[trigger] after.lease_map().contains_key(v) <==> before.lease_map().contains_key(v)) && (
            before.lease_map().contains_key(v) ==> after.lease_map()[v] == before.lease_map()[v])
        },
        after.snapshot_map() == before.snapshot_map(),
        x != id || w is Err ==> reads_alike(was, is),
{
    lemma_read(before, x, k, was);
    lemma_read(after, x, k, is);
    lemma_same_grew(&before.stock(), &after.stock());
    if w is Ok {
        assert forall|s: u64| !#[trigger] before.snapshot_map().contains_key(SnapshotId { vdisk: id, snapshot: s }) by {
            if before.snapshot_map().contains_key(SnapshotId { vdisk: id, snapshot: s }) {
                assert(pinned(before.snapshot_map(), id));
            }
        }
        if x != id {
            assert(after.shelf(0) == before.shelf(0));
            assert(after.shelf(before.vdisk_map()[x].tier) == before.shelf(before.vdisk_map()[x].tier));
        }
    } else {
        lemma_growth_keeps(before, after);
    }
}

/// A snapshot reads as its vdisk read when it was taken, and taking one
/// changes no read that there was.
pub proof fn law_a_snapshot_reads_as_its_vdisk<D: Disk>(
    before: &Pool<D>,
    after: &Pool<D>,
    v: u64,
    s: u64,
    w: Result<()>,
    k: u64,
    source: Result<Option<Vec<u8>>>,
    copy: Result<Option<Vec<u8>>>,
    x: u64,
    y: u64,
    was: Result<Option<Vec<u8>>>,
    is: Result<Option<Vec<u8>>>,
    snap_was: Result<Option<Vec<u8>>>,
    snap_is: Result<Option<Vec<u8>>>,
)
    requires
        snapshotted(before, after, v, s, w),
        before.reliable(),
        after.reliable(),
        pool_sound(after),
        block_read(before, v, k, source),
        snapshot_read(after, v, s, k, copy),
        block_read(before, x, k, was),
        block_read(after, x, k, is),
        snapshot_read(before, x, y, k, snap_was),
        snapshot_read(after, x, y, k, snap_is),
    ensures
        w is Ok ==> reads_alike(source, copy),
        w is Ok ==> !before.snapshot_map().contains_key(SnapshotId { vdisk: v, snapshot: s }),
        w is Ok ==> after.stock().durable(),
        reads_alike(was, is),
        reads_alike(snap_was, snap_is),
{
    lemma_read(before, v, k, source);
    lemma_read_snapshot(after, v, s, k, copy);
    lemma_read(before, x, k, was);
    lemma_read(after, x, k, is);
    lemma_read_snapshot(before, x, y, k, snap_was);
    lemma_read_snapshot(after, x, y, k, snap_is);
    assert(snapshot_call(before, after, x));
    if was is Ok {
        super::run::lemma_snapshot_call(before, after, x, k);
    }
    if pin_fault(before, v, s) is None {
        let key = SnapshotId { vdisk: v, snapshot: s };
        if w is Err && checkpointed(before, after, w) {
            if snap_was is Ok {
                assert(after.vdisk_map().dom().contains(x));
                lemma_snapshot_stays(before, after, x, y, k);
            }
        } else {
            let (first, mid) = choose|first: Pool<D>, mid: Pool<D>| #[trigger] checkpointed(before, &first, Ok(())) && #[trigger] with_snapshots(
                &first,
                &mid,
                first.snapshot_map().insert(key, SnapshotState { size_bytes: first.vdisk_map()[v].size_bytes, root: first.vdisk_map()[v].root }),
            ) && checkpointed(&mid, after, w);
            lemma_sound_before(&first, after);
            lemma_checkpoint_keeps(before, &first, Ok(()));
            assert(first.vdisk_map().dom().contains(v));
            assert(first.vdisk_map().contains_key(v));
            assert(first.vdisk_map()[v].dirty == Map::<u64, Option<BlockHash>>::empty());
            if source is Ok {
                assert(block_here(&first, v, k) == block_here(before, v, k));
                assert(snapshot_here(&mid, v, s, k) == block_here(&first, v, k));
                assert(after.vdisk_map().dom().contains(v));
                lemma_snapshot_stays(&mid, after, v, s, k);
            }
            if snap_was is Ok {
                assert(first.vdisk_map().dom().contains(x));
                lemma_snapshot_stays(before, &first, x, y, k);
                assert(SnapshotId { vdisk: x, snapshot: y } != key);
                assert(snapshot_here(&mid, x, y, k) == snapshot_here(&first, x, y, k));
                assert(after.vdisk_map().dom().contains(x));
                lemma_snapshot_stays(&mid, after, x, y, k);
            }
        }
    }
}

/// A deleted snapshot is unknown to every read, and no other read changes.
pub proof fn law_a_deleted_snapshot_is_gone<D: Disk>(
    before: &Pool<D>,
    after: &Pool<D>,
    v: u64,
    s: u64,
    w: Result<()>,
    k: u64,
    gone: Result<Option<Vec<u8>>>,
    x: u64,
    y: u64,
    was: Result<Option<Vec<u8>>>,
    is: Result<Option<Vec<u8>>>,
    snap_was: Result<Option<Vec<u8>>>,
    snap_is: Result<Option<Vec<u8>>>,
)
    requires
        snapshot_deleted(before, after, v, s, w),
        before.reliable(),
        after.reliable(),
        pool_sound(after),
        snapshot_read(after, v, s, k, gone),
        block_read(before, x, k, was),
        block_read(after, x, k, is),
        snapshot_read(before, x, y, k, snap_was),
        snapshot_read(after, x, y, k, snap_is),
    ensures
        w is Ok ==> before.snapshot_map().contains_key(SnapshotId { vdisk: v, snapshot: s }),
        w is Ok ==> gone == Err::<Option<Vec<u8>>, FsError>(FsError::UnknownSnapshot { vdisk: v, snapshot: s }),
        reads_alike(was, is),
        x != v || y != s ==> reads_alike(snap_was, snap_is),
{
    lemma_read(before, x, k, was);
    lemma_read(after, x, k, is);
    lemma_read_snapshot(before, x, y, k, snap_was);
    lemma_read_snapshot(after, x, y, k, snap_is);
    assert(snapshot_call(before, after, x));
    if was is Ok {
        super::run::lemma_snapshot_call(before, after, x, k);
    }
    let key = SnapshotId { vdisk: v, snapshot: s };
    if before.snapshot_map().contains_key(key) {
        let mid = choose|mid: Pool<D>| #[trigger] with_snapshots(before, &mid, before.snapshot_map().remove(key)) && checkpointed(&mid, after, w);
        if snap_was is Ok && (x != v || y != s) {
            assert(SnapshotId { vdisk: x, snapshot: y } != key);
            assert(snapshot_here(&mid, x, y, k) == snapshot_here(before, x, y, k));
            assert(after.vdisk_map().dom().contains(x));
            lemma_snapshot_stays(&mid, after, x, y, k);
        }
    }
}

/// A vdisk that was rolled back reads as its snapshot read, has the
/// snapshot's size, and changes no read of another vdisk or of a snapshot.
pub proof fn law_a_rolled_back_vdisk_reads_as_its_snapshot<D: Disk>(
    before: &Pool<D>,
    after: &Pool<D>,
    v: u64,
    s: u64,
    w: Result<()>,
    k: u64,
    pinned_read: Result<Option<Vec<u8>>>,
    present: Result<Option<Vec<u8>>>,
    x: u64,
    y: u64,
    was: Result<Option<Vec<u8>>>,
    is: Result<Option<Vec<u8>>>,
    snap_was: Result<Option<Vec<u8>>>,
    snap_is: Result<Option<Vec<u8>>>,
)
    requires
        rolled_back(before, after, v, s, w),
        w is Ok,
        before.reliable(),
        after.reliable(),
        pool_sound(after),
        snapshot_read(before, v, s, k, pinned_read),
        block_read(after, v, k, present),
        block_read(before, x, k, was),
        block_read(after, x, k, is),
        snapshot_read(before, x, y, k, snap_was),
        snapshot_read(after, x, y, k, snap_is),
    ensures
        reads_alike(pinned_read, present),
        x != v ==> reads_alike(was, is),
        reads_alike(snap_was, snap_is),
        after.vdisk_map()[v].size_bytes == before.snapshot_map()[SnapshotId { vdisk: v, snapshot: s }].size_bytes,
        after.vdisk_map()[v].tier == before.vdisk_map()[v].tier,
        after.stock().durable(),
{
    lemma_read_snapshot(before, v, s, k, pinned_read);
    lemma_read(after, v, k, present);
    lemma_read(before, x, k, was);
    lemma_read(after, x, k, is);
    lemma_read_snapshot(before, x, y, k, snap_was);
    lemma_read_snapshot(after, x, y, k, snap_is);
    law_a_rollback_reads_as_its_snapshot(before, after, v, s, w);
    let snap = before.snapshot_map()[SnapshotId { vdisk: v, snapshot: s }];
    let view = VdiskView { size_bytes: snap.size_bytes, tier: before.vdisk_map()[v].tier, root: snap.root, dirty: Map::empty() };
    let mid = choose|mid: Pool<D>| #[trigger] with_vdisks(before, &mid, before.vdisk_map().insert(v, view)) && checkpointed(&mid, after, w);
    assert(mid.vdisk_map().contains_key(v));
    assert(after.vdisk_map().dom().contains(v));
}

/// A clone reads as the snapshot it was made of read, whatever tier that is
/// on; it was not there before; and no other read changes.
pub proof fn law_a_clone_reads_as_its_snapshot<D: Disk>(
    before: &Pool<D>,
    after: &Pool<D>,
    id: u64,
    v: u64,
    s: u64,
    w: Result<()>,
    k: u64,
    pinned_read: Result<Option<Vec<u8>>>,
    copy: Result<Option<Vec<u8>>>,
    x: u64,
    y: u64,
    was: Result<Option<Vec<u8>>>,
    is: Result<Option<Vec<u8>>>,
    snap_was: Result<Option<Vec<u8>>>,
    snap_is: Result<Option<Vec<u8>>>,
)
    requires
        cloned(before, after, id, v, s, w),
        before.reliable(),
        after.reliable(),
        pool_sound(after),
        snapshot_read(before, v, s, k, pinned_read),
        block_read(after, id, k, copy),
        block_read(before, x, k, was),
        block_read(after, x, k, is),
        snapshot_read(before, x, y, k, snap_was),
        snapshot_read(after, x, y, k, snap_is),
    ensures
        w is Ok ==> {
            &&& reads_alike(pinned_read, copy)
            &&& !before.vdisk_map().contains_key(id)
            &&& after.vdisk_map().contains_key(id)
            &&& after.vdisk_map()[id].size_bytes == before.snapshot_map()[SnapshotId { vdisk: v, snapshot: s }].size_bytes
            &&& after.stock().durable()
        },
        reads_alike(was, is),
        reads_alike(snap_was, snap_is),
{
    lemma_read_snapshot(before, v, s, k, pinned_read);
    lemma_read(after, id, k, copy);
    lemma_read(before, x, k, was);
    lemma_read(after, x, k, is);
    lemma_read_snapshot(before, x, y, k, snap_was);
    lemma_read_snapshot(after, x, y, k, snap_is);
    assert(snapshot_call(before, after, x));
    if was is Ok {
        super::run::lemma_snapshot_call(before, after, x, k);
    }
    if clone_fault(before, id, v, s) is None {
        let snap = before.snapshot_map()[SnapshotId { vdisk: v, snapshot: s }];
        let view = VdiskView { size_bytes: snap.size_bytes, tier: before.vdisk_map()[v].tier, root: snap.root, dirty: Map::empty() };
        let mid = choose|mid: Pool<D>| #[trigger] with_vdisks(before, &mid, before.vdisk_map().insert(id, view)) && checkpointed(&mid, after, w);
        lemma_checkpoint_keeps(&mid, after, w);
        assert(mid.vdisk_map().contains_key(id));
        assert(after.vdisk_map().dom().contains(id));
        if pinned_read is Ok {
            assert(block_here(&mid, id, k) == snapshot_here(before, v, s, k));
        }
        if snap_was is Ok {
            assert(x != id);
            assert(mid.vdisk_map().contains_key(x));
            assert(after.vdisk_map().dom().contains(x));
            lemma_snapshot_stays(&mid, after, x, y, k);
        }
    }
}

/// A checkpoint, a flush or a store of blocks changes no read; a checkpoint
/// or a flush that succeeds leaves everything on stable storage.
pub proof fn law_a_checkpoint_changes_no_read<D: Disk>(
    before: &Pool<D>,
    after: &Pool<D>,
    w: Result<()>,
    x: u64,
    y: u64,
    k: u64,
    was: Result<Option<Vec<u8>>>,
    is: Result<Option<Vec<u8>>>,
    snap_was: Result<Option<Vec<u8>>>,
    snap_is: Result<Option<Vec<u8>>>,
)
    requires
        checkpointed(before, after, w) || flushed(before, after, w),
        before.reliable(),
        after.reliable(),
        pool_sound(after),
        block_read(before, x, k, was),
        block_read(after, x, k, is),
        snapshot_read(before, x, y, k, snap_was),
        snapshot_read(after, x, y, k, snap_is),
    ensures
        w is Ok ==> after.stock().durable(),
        reads_alike(was, is),
        reads_alike(snap_was, snap_is),
        after.lease_map() == before.lease_map(),
        after.era_now() == before.era_now(),
        after.snapshot_map() == before.snapshot_map(),
        after.vdisk_map().dom() == before.vdisk_map().dom(),
{
    lemma_read(before, x, k, was);
    lemma_read(after, x, k, is);
    lemma_read_snapshot(before, x, y, k, snap_was);
    lemma_read_snapshot(after, x, y, k, snap_is);
    if checkpointed(before, after, w) {
        lemma_checkpoint_keeps(before, after, w);
    } else {
        lemma_same_grew(&before.stock(), &after.stock());
        lemma_growth_keeps(before, after);
    }
    if snap_was is Ok {
        assert(after.vdisk_map().dom().contains(x));
        lemma_snapshot_stays(before, after, x, y, k);
    }
}

/// A block that was stored is there, under the address of its bytes, and
/// stays what it was; storing changes no read.
pub proof fn law_a_stored_block_is_there<D: Disk>(
    before: &Pool<D>,
    after: &Pool<D>,
    tier: u8,
    payload: Seq<u8>,
    w: Result<BlockHash>,
    x: u64,
    k: u64,
    was: Result<Option<Vec<u8>>>,
    is: Result<Option<Vec<u8>>>,
)
    requires
        block_stored(before, after, tier, payload, w),
        before.reliable(),
        block_read(before, x, k, was),
        block_read(after, x, k, is),
    ensures
        w matches Ok(h) ==> {
            &&& h == address_of(payload)
            &&& after.holds(tier).contains(h)
            &&& after.faithful(tier) ==> after.shelf(tier).contains_key(h) && after.shelf(tier)[h] == payload
        },
        reads_alike(was, is),
{
    lemma_read(before, x, k, was);
    lemma_read(after, x, k, is);
    lemma_growth_keeps(before, after);
    if let Ok(h) = w {
        assert(after.promised(tier).contains((h, payload)));
    }
}

} // verus!
