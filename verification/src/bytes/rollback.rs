//! What a rollback gives back.

use super::crash::{law_everything_acknowledged_survives_a_crash, snapshots_same};
use super::run::snapshot_here;
use super::{block_here, contents_same, lemma_checkpoint_keeps, pool_sound};
use crate::disk::Disk;
use crate::error::{FsError, Result};
use crate::format::Anchor;
use crate::map::lemma_tree_grows;
use crate::pool::calls::{clear_tail, law_a_rollback_settles, lawful_at, lossless, recovered};
use crate::pool::checkpoint::checkpointed;
use crate::pool::manifest::ManifestView;
use crate::pool::open::opened_as;
use crate::pool::recover::{agree, bricks_came_back};
use crate::pool::snapshot::{rolled_back, with_vdisks};
use crate::pool::{tree_depth, Pool, VdiskView};
use crate::store::grew;
use crate::table::SnapshotId;
use vstd::prelude::*;

verus! {

/// A rollback to a snapshot there is none of is refused and changes nothing.
pub proof fn law_a_refused_rollback_changes_nothing<D: Disk>(before: &Pool<D>, after: &Pool<D>, vdisk: u64, snapshot: u64, r: Result<()>)
    requires
        rolled_back(before, after, vdisk, snapshot, r),
        !before.snapshot_map().contains_key(SnapshotId { vdisk, snapshot }),
    ensures
        r == Err::<(), FsError>(FsError::UnknownSnapshot { vdisk, snapshot }),
        after.vdisk_map() == before.vdisk_map(),
        after.snapshot_map() == before.snapshot_map(),
        contents_same(before, after),
        snapshots_same(before, after),
{
}

/// A rollback makes the present what the snapshot was: the vdisk has the
/// snapshot's size, every block reads as the snapshot's did, whatever was
/// written since, and no other vdisk and no snapshot reads differently. No
/// address stands for two payloads.
pub proof fn law_a_rollback_reads_as_its_snapshot<D: Disk>(before: &Pool<D>, after: &Pool<D>, vdisk: u64, snapshot: u64, r: Result<()>)
    requires
        rolled_back(before, after, vdisk, snapshot, r),
        r is Ok,
        pool_sound(after),
    ensures
        after.vdisk_map()[vdisk].size_bytes == before.snapshot_map()[SnapshotId { vdisk, snapshot }].size_bytes,
        after.snapshot_map() == before.snapshot_map(),
        after.vdisk_map().dom() == before.vdisk_map().dom(),
        after.stock().durable(),
        forall|k: u64| (#[trigger] snapshot_here(before, vdisk, snapshot, k)) is Some ==> block_here(after, vdisk, k) == snapshot_here(before, vdisk, snapshot, k),
        forall|v: u64, k: u64| v != vdisk && (#[trigger] block_here(before, v, k)) is Some ==> block_here(after, v, k) == block_here(before, v, k),
        snapshots_same(before, after),
{
    let key = SnapshotId { vdisk, snapshot };
    let snap = before.snapshot_map()[key];
    let view = VdiskView { size_bytes: snap.size_bytes, tier: before.vdisk_map()[vdisk].tier, root: snap.root, dirty: Map::empty() };
    let mid = choose|mid: Pool<D>| #[trigger] with_vdisks(before, &mid, before.vdisk_map().insert(vdisk, view)) && checkpointed(&mid, after, r);
    lemma_checkpoint_keeps(&mid, after, r);
    assert(mid.vdisk_map().contains_key(vdisk));
    assert(mid.vdisk_map().dom() =~= before.vdisk_map().dom());
    assert forall|k: u64| (#[trigger] snapshot_here(before, vdisk, snapshot, k)) is Some implies block_here(after, vdisk, k) == snapshot_here(
        before,
        vdisk,
        snapshot,
        k,
    ) by {
        assert(block_here(&mid, vdisk, k) == snapshot_here(before, vdisk, snapshot, k));
    }
    assert forall|v: u64, k: u64| v != vdisk && (#[trigger] block_here(before, v, k)) is Some implies block_here(after, v, k) == block_here(before, v, k) by {
        assert(block_here(&mid, v, k) == block_here(before, v, k));
    }
    assert forall|v: u64, s: u64, k: u64| (#[trigger] snapshot_here(before, v, s, k)) is Some implies snapshot_here(after, v, s, k) == snapshot_here(before, v, s, k) by {
        let line = before.snapshot_map()[SnapshotId { vdisk: v, snapshot: s }];
        assert(before.vdisk_map().contains_key(v));
        assert(mid.vdisk_map().contains_key(v));
        assert(after.vdisk_map().dom().contains(v));
        let tier = before.vdisk_map()[v].tier;
        assert(after.vdisk_map()[v].tier == tier);
        assert(grew(mid.holds(0), mid.shelf(0), after.holds(0), after.shelf(0)));
        assert(grew(mid.holds(tier), mid.shelf(tier), after.holds(tier), after.shelf(tier)));
        if let Some(root) = line.root {
            lemma_tree_grows(before.shelf(0), after.shelf(0), before.unit(), root, tree_depth(before.unit(), line.size_bytes), k);
        }
    }
}

/// And it holds after a crash, with no flush of its own. Nothing on the disk
/// passes for a frame that was never appended, and no two payloads share an
/// address.
pub proof fn law_a_rollback_survives_a_crash<D: Disk>(
    before: &Pool<D>,
    after: &Pool<D>,
    vdisk: u64,
    snapshot: u64,
    r: Result<()>,
    reopened: &Pool<D>,
    found: Anchor,
    n: Option<ManifestView>,
)
    requires
        before.inv(),
        recovered(before),
        rolled_back(before, after, vdisk, snapshot, r),
        r is Ok,
        pool_sound(after),
        lossless(after),
        after.stock().intact(),
        clear_tail(after),
        reopened.inv(),
        bricks_came_back(&after.stock(), &reopened.stock()),
        opened_as(&reopened.stock(), found, n, reopened),
        reopened.seat() == after.seat(),
        forall|t: u8| #[trigger] agree(after.shelf(t), reopened.shelf(t)),
    ensures
        forall|k: u64| (#[trigger] snapshot_here(before, vdisk, snapshot, k)) is Some ==> block_here(reopened, vdisk, k) == snapshot_here(
            before,
            vdisk,
            snapshot,
            k,
        ),
        forall|v: u64, k: u64| v != vdisk && (#[trigger] block_here(before, v, k)) is Some ==> block_here(reopened, v, k) == block_here(before, v, k),
        snapshots_same(before, reopened),
{
    law_a_rollback_reads_as_its_snapshot(before, after, vdisk, snapshot, r);
    law_a_rollback_settles(before, after, vdisk, snapshot, r);
    let states = seq![*before, *after];
    assert(lawful_at(states, 0));
    law_everything_acknowledged_survives_a_crash(states, reopened, found, n);
    assert forall|k: u64| (#[trigger] snapshot_here(before, vdisk, snapshot, k)) is Some implies block_here(reopened, vdisk, k) == snapshot_here(
        before,
        vdisk,
        snapshot,
        k,
    ) by {
        assert(block_here(after, vdisk, k) == snapshot_here(before, vdisk, snapshot, k));
    }
    assert forall|v: u64, k: u64| v != vdisk && (#[trigger] block_here(before, v, k)) is Some implies block_here(reopened, v, k) == block_here(before, v, k) by {
        assert(block_here(after, v, k) == block_here(before, v, k));
    }
    assert forall|v: u64, s: u64, k: u64| (#[trigger] snapshot_here(before, v, s, k)) is Some implies snapshot_here(reopened, v, s, k) == snapshot_here(
        before,
        v,
        s,
        k,
    ) by {
        assert(snapshot_here(after, v, s, k) == snapshot_here(before, v, s, k));
    }
}

} // verus!
