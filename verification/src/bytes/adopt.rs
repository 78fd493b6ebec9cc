//! What reads give back after an offer was adopted or refused.

use super::crash::snapshots_same;
use super::run::snapshot_here;
use super::{block_here, contents_same, lemma_checkpoint_keeps, pool_sound};
use crate::disk::Disk;
use crate::error::Result;
use crate::map::lemma_tree_grows;
use crate::pool::checkpoint::checkpointed;
use crate::pool::sync::{adopt_fault, adopted, lemma_unnamed, named_ids, offers, sync_adopted, without_vdisks, AdoptScope, SnapshotOffer, VdiskOffer};
use crate::pool::{tree_depth, Lease, Pool};
use crate::store::grew;
use crate::table::SnapshotId;
use vstd::prelude::*;

verus! {

/// A refused adoption changes nothing: no table and no read.
pub proof fn law_a_refused_adoption_changes_nothing<D: Disk>(
    before: &Pool<D>,
    after: &Pool<D>,
    era: u64,
    vdisks: Seq<VdiskOffer>,
    snapshots: Seq<SnapshotOffer>,
    leases: Seq<(u64, Lease)>,
    scope: AdoptScope,
    r: Result<()>,
)
    requires
        sync_adopted(before, after, era, vdisks, snapshots, leases, scope, r),
        adopt_fault(before, vdisks, snapshots, (vdisks.len() + snapshots.len()) as nat) is Some,
    ensures
        r is Err,
        after.vdisk_map() == before.vdisk_map(),
        after.snapshot_map() == before.snapshot_map(),
        after.lease_map() == before.lease_map(),
        after.era_now() == before.era_now(),
        contents_same(before, after),
        snapshots_same(before, after),
{
}

/// Adopting what an offer names spares the rest: a vdisk that it does not
/// name keeps its contents, its snapshots and its lease. No address stands
/// for two payloads.
pub proof fn law_a_named_adoption_spares_the_rest<D: Disk>(
    before: &Pool<D>,
    after: &Pool<D>,
    era: u64,
    vdisks: Seq<VdiskOffer>,
    snapshots: Seq<SnapshotOffer>,
    leases: Seq<(u64, Lease)>,
    r: Result<()>,
    vdisk: u64,
)
    requires
        sync_adopted(before, after, era, vdisks, snapshots, leases, AdoptScope::Named, r),
        !offers(vdisks, vdisk),
        forall|i: int| 0 <= i < snapshots.len() ==> (#[trigger] snapshots[i]).0 != vdisk,
        forall|i: int| 0 <= i < leases.len() ==> (#[trigger] leases[i]).0 != vdisk,
        before.vdisk_map().contains_key(vdisk),
        pool_sound(after),
    ensures
        after.vdisk_map().contains_key(vdisk),
        after.lease_map().contains_key(vdisk) == before.lease_map().contains_key(vdisk),
        before.lease_map().contains_key(vdisk) ==> after.lease_map()[vdisk] == before.lease_map()[vdisk],
        forall|k: u64| (#[trigger] block_here(before, vdisk, k)) is Some ==> block_here(after, vdisk, k) == block_here(before, vdisk, k),
        forall|s: u64|
            #![trigger after.snapshot_map().contains_key(SnapshotId { vdisk, snapshot: s })]
            after.snapshot_map().contains_key(SnapshotId { vdisk, snapshot: s }) == before.snapshot_map().contains_key(SnapshotId { vdisk, snapshot: s }),
        forall|s: u64, k: u64| (#[trigger] snapshot_here(before, vdisk, s, k)) is Some ==> snapshot_here(after, vdisk, s, k) == snapshot_here(before, vdisk, s, k),
{
    if adopt_fault(before, vdisks, snapshots, (vdisks.len() + snapshots.len()) as nat) is None {
        let mid = choose|mid: Pool<D>| #[trigger] adopted(before, &mid, era, vdisks, snapshots, leases, AdoptScope::Named) && checkpointed(&mid, after, r);
        let named = named_ids(vdisks);
        assert(!named.contains(vdisk));
        let pins = without_vdisks(before.snapshot_map(), named);
        lemma_unnamed(vdisk, before.vdisk_map().remove_keys(named), vdisks, pins, snapshots, before.lease_map().remove_keys(named), leases);
        lemma_checkpoint_keeps(&mid, after, r);
        assert(after.vdisk_map().dom().contains(vdisk));
        assert forall|k: u64| (#[trigger] block_here(before, vdisk, k)) is Some implies block_here(after, vdisk, k) == block_here(before, vdisk, k) by {
            assert(block_here(&mid, vdisk, k) == block_here(before, vdisk, k));
        }
        assert forall|s: u64, k: u64| (#[trigger] snapshot_here(before, vdisk, s, k)) is Some implies snapshot_here(after, vdisk, s, k) == snapshot_here(
            before,
            vdisk,
            s,
            k,
        ) by {
            let key = SnapshotId { vdisk, snapshot: s };
            assert(mid.snapshot_map().contains_key(key));
            let snap = before.snapshot_map()[key];
            let tier = before.vdisk_map()[vdisk].tier;
            assert(mid.vdisk_map().contains_key(vdisk));
            assert(grew(mid.holds(0), mid.shelf(0), after.holds(0), after.shelf(0)));
            assert(grew(mid.holds(tier), mid.shelf(tier), after.holds(tier), after.shelf(tier)));
            if let Some(root) = snap.root {
                lemma_tree_grows(mid.shelf(0), after.shelf(0), mid.unit(), root, tree_depth(mid.unit(), snap.size_bytes), k);
            }
        }
    }
}

} // verus!
