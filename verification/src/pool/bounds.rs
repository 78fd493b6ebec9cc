//! What a pool refuses, and that it changes nothing where it does.

use super::manifest::{encodable, lemma_manifest_layout, manifest_bytes, ManifestView};
use super::snapshot::{cloned, rolled_back, snapshot_deleted, snapshotted};
use super::vdisk::{block_read, block_wrote, created, deleted, fits, mapped_to, snapshot_read, trimmed};
use super::{capacity, Pool};
use crate::disk::Disk;
use crate::error::{FsError, Result};
use crate::hash::BlockHash;
use crate::table::SnapshotId;
use vstd::prelude::*;

verus! {

/// An index names a block of a vdisk: some byte of it is within the size.
pub open spec fn block_within(unit: u32, size: u64, index: u64) -> bool {
    (index as int) * (unit as int) < size
}

proof fn lemma_within(unit: u32, size: u64, index: u64)
    requires
        unit > 0,
    ensures
        index < capacity(unit, size) <==> block_within(unit, size, index),
{
    let (s, u, i) = (size as int, unit as int, index as int);
    let q = s / u;
    let rem = s % u;
    assert(s == q * u + rem && 0 <= rem < u && 0 <= q <= s) by (nonlinear_arith)
        requires
            q == s / u,
            rem == s % u,
            u > 0,
            s >= 0,
    ;
    if i < q {
        assert(i * u < s) by (nonlinear_arith)
            requires
                i + 1 <= q,
                s >= q * u,
                u > 0,
        ;
    } else if i > q {
        assert(i * u >= s) by (nonlinear_arith)
            requires
                i >= q + 1,
                s < q * u + u,
                u > 0,
        ;
    }
    if rem != 0 {
        assert(q < s) by (nonlinear_arith)
            requires
                s == q * u + rem,
                rem > 0,
                u > 0,
                q >= 0,
        ;
    }
}

/// A block of a vdisk that is not there, or past the end of one that is, is
/// not written, mapped or trimmed: the call fails, and no table changes.
pub proof fn law_a_block_past_the_end_is_not_changed<D: Disk>(
    before: &Pool<D>,
    after: &Pool<D>,
    vdisk: u64,
    index: u64,
    payload: Seq<u8>,
    hash: BlockHash,
    r: Result<()>,
)
    requires
        before.unit() > 0,
        block_wrote(before, after, vdisk, index, payload, r) || mapped_to(before, after, vdisk, index, hash, r) || trimmed(before, after, vdisk, index, r),
        before.vdisk_map().contains_key(vdisk) ==> !block_within(before.unit(), before.vdisk_map()[vdisk].size_bytes, index),
    ensures
        r is Err,
        before.vdisk_map().contains_key(vdisk) ==> r->Err_0 is OutOfRange,
        !before.vdisk_map().contains_key(vdisk) ==> r->Err_0 == FsError::UnknownVdisk(vdisk),
        after.vdisk_map() == before.vdisk_map() && after.snapshot_map() == before.snapshot_map() && after.lease_map() == before.lease_map(),
        after.ring() == before.ring(),
{
    if before.vdisk_map().contains_key(vdisk) {
        lemma_within(before.unit(), before.vdisk_map()[vdisk].size_bytes, index);
    }
}

/// Nor is it read; and a read within a vdisk is never refused for its range.
/// The same holds of a snapshot, by the size it was taken at.
pub proof fn law_reads_stay_within<D: Disk>(pool: &Pool<D>, vdisk: u64, snapshot: u64, index: u64, r: Result<Option<Vec<u8>>>, q: Result<Option<Vec<u8>>>)
    requires
        pool.unit() > 0,
        block_read(pool, vdisk, index, r),
        snapshot_read(pool, vdisk, snapshot, index, q),
    ensures
        !pool.vdisk_map().contains_key(vdisk) ==> r == Err::<Option<Vec<u8>>, FsError>(FsError::UnknownVdisk(vdisk)),
        pool.vdisk_map().contains_key(vdisk) && !block_within(pool.unit(), pool.vdisk_map()[vdisk].size_bytes, index) ==> r is Err && r->Err_0 is OutOfRange,
        !pool.snapshot_map().contains_key(SnapshotId { vdisk, snapshot }) ==> q == Err::<Option<Vec<u8>>, FsError>(FsError::UnknownSnapshot { vdisk, snapshot }),
        pool.snapshot_map().contains_key(SnapshotId { vdisk, snapshot }) && pool.vdisk_map().contains_key(vdisk) && !block_within(
            pool.unit(),
            pool.snapshot_map()[SnapshotId { vdisk, snapshot }].size_bytes,
            index,
        ) ==> q is Err && q->Err_0 is OutOfRange,
{
    lemma_within(pool.unit(), pool.vdisk_map()[vdisk].size_bytes, index);
    lemma_within(pool.unit(), pool.snapshot_map()[SnapshotId { vdisk, snapshot }].size_bytes, index);
}

/// A vdisk is not made where one has its id, where it would be empty, or on a
/// tier that no brick is of. Nothing changes then.
pub proof fn law_no_vdisk_is_made_over_another<D: Disk>(before: &Pool<D>, after: &Pool<D>, id: u64, size_bytes: u64, tier: u8, r: Result<()>)
    requires
        created(before, after, id, size_bytes, tier, r),
        before.vdisk_map().contains_key(id) || size_bytes == 0 || forall|i: int|
            0 <= i < before.stock().members().len() ==> (#[trigger] before.stock().members()[i]).superblock().tier != tier,
    ensures
        r is Err,
        before.vdisk_map().contains_key(id) ==> r->Err_0 == FsError::VdiskExists(id),
        after.vdisk_map() == before.vdisk_map() && after.snapshot_map() == before.snapshot_map() && after.lease_map() == before.lease_map(),
        after.ring() == before.ring(),
{
}

/// A vdisk is not deleted where it is not there, or has a snapshot. Nothing
/// changes then.
pub proof fn law_a_vdisk_with_a_snapshot_stays<D: Disk>(before: &Pool<D>, after: &Pool<D>, id: u64, snapshot: u64, r: Result<()>)
    requires
        deleted(before, after, id, r),
        !before.vdisk_map().contains_key(id) || before.snapshot_map().contains_key(SnapshotId { vdisk: id, snapshot }),
    ensures
        r is Err,
        r->Err_0 == if before.vdisk_map().contains_key(id) {
            FsError::HasSnapshots(id)
        } else {
            FsError::UnknownVdisk(id)
        },
        after.vdisk_map() == before.vdisk_map() && after.snapshot_map() == before.snapshot_map() && after.lease_map() == before.lease_map(),
        after.ring() == before.ring(),
{
    if before.vdisk_map().contains_key(id) {
        assert(before.snapshot_map().contains_key(SnapshotId { vdisk: id, snapshot }));
    }
}

/// A snapshot is not taken of a vdisk that is not there, nor over another;
/// none is deleted, rolled back to or cloned that is not there; and a clone
/// takes no id that is taken. Nothing changes then.
pub proof fn law_a_snapshot_is_itself<D: Disk>(before: &Pool<D>, after: &Pool<D>, new_id: u64, vdisk: u64, snapshot: u64, r: Result<()>)
    requires
        ({
            let taken = before.snapshot_map().contains_key(SnapshotId { vdisk, snapshot });
            ||| snapshotted(before, after, vdisk, snapshot, r) && (taken || !before.vdisk_map().contains_key(vdisk))
            ||| snapshot_deleted(before, after, vdisk, snapshot, r) && !taken
            ||| rolled_back(before, after, vdisk, snapshot, r) && !taken
            ||| cloned(before, after, new_id, vdisk, snapshot, r) && (!taken || before.vdisk_map().contains_key(new_id))
        }),
    ensures
        r is Err,
        after.vdisk_map() == before.vdisk_map() && after.snapshot_map() == before.snapshot_map() && after.lease_map() == before.lease_map(),
        after.era_now() == before.era_now(),
{
}

/// The room asked for a manifest is what a manifest takes: where there is a
/// lease for every vdisk, the tables fit just where the manifest's bytes are
/// no more than one block; with fewer leases they fit all the more.
pub proof fn law_a_manifest_that_fits_is_one_block(unit: u32, m: ManifestView)
    requires
        encodable(m),
        m.leases.len() <= m.vdisks.len(),
    ensures
        fits(unit, m.map is Some, m.vdisks.len() as int, m.snapshots.len() as int) ==> manifest_bytes(m).len() <= unit,
        m.leases.len() == m.vdisks.len() && manifest_bytes(m).len() <= unit ==> fits(unit, m.map is Some, m.vdisks.len() as int, m.snapshots.len() as int),
{
    lemma_manifest_layout(m);
}

} // verus!
