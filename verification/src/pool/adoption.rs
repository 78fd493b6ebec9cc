//! What a pool holds once it has adopted an offer, entry by entry.

use super::checkpoint::checkpointed;
use super::sync::{
    adopted, named_ids, offer_key, offered_leases, offered_snapshots, offered_vdisks, offers, retained, sync_adopted, vdisks_retained, without_vdisks, AdoptScope,
    SnapshotOffer, VdiskOffer,
};
use super::{Lease, Pool, SnapshotState, VdiskView};
use crate::disk::Disk;
use crate::error::Result;
use crate::table::SnapshotId;
use vstd::prelude::*;

verus! {

/// No id is offered twice: they ascend.
pub open spec fn vdisks_ascend(s: Seq<VdiskOffer>) -> bool {
    forall|i: int, j: int| 0 <= i < j < s.len() ==> (#[trigger] s[i]).0 < (#[trigger] s[j]).0
}

pub open spec fn leases_ascend(s: Seq<(u64, Lease)>) -> bool {
    forall|i: int, j: int| 0 <= i < j < s.len() ==> (#[trigger] s[i]).0 < (#[trigger] s[j]).0
}

pub open spec fn snapshots_ascend(s: Seq<SnapshotOffer>) -> bool {
    forall|i: int, j: int|
        0 <= i < j < s.len() ==> (#[trigger] s[i]).0 < (#[trigger] s[j]).0 || (s[i].0 == s[j].0 && s[i].1 < s[j].1)
}

proof fn lemma_vdisks_over(base: Map<u64, VdiskView>, s: Seq<VdiskOffer>)
    requires
        vdisks_ascend(s),
    ensures
        forall|i: int|
            0 <= i < s.len() ==> offered_vdisks(base, s).contains_key((#[trigger] s[i]).0) && offered_vdisks(base, s)[s[i].0] == (VdiskView {
                size_bytes: s[i].1,
                tier: s[i].2,
                root: s[i].3,
                dirty: Map::empty(),
            }),
        forall|id: u64|
            (forall|i: int| 0 <= i < s.len() ==> (#[trigger] s[i]).0 != id) ==> (#[trigger] offered_vdisks(base, s).contains_key(id) <==> base.contains_key(id)) && (
            base.contains_key(id) ==> offered_vdisks(base, s)[id] == base[id]),
    decreases s.len(),
{
    if s.len() > 0 {
        let rest = s.drop_last();
        assert forall|i: int, j: int| 0 <= i < j < rest.len() implies (#[trigger] rest[i]).0 < (#[trigger] rest[j]).0 by {
            assert(s[i].0 < s[j].0);
        }
        lemma_vdisks_over(base, rest);
        let all = offered_vdisks(base, s);
        assert forall|i: int| 0 <= i < s.len() implies all.contains_key((#[trigger] s[i]).0) && all[s[i].0] == (VdiskView {
            size_bytes: s[i].1,
            tier: s[i].2,
            root: s[i].3,
            dirty: Map::empty(),
        }) by {
            if i < s.len() - 1 {
                assert(rest[i] == s[i]);
                assert(s[i].0 < s[s.len() - 1].0);
            }
        }
        assert forall|id: u64| (forall|i: int| 0 <= i < s.len() ==> (#[trigger] s[i]).0 != id) implies (#[trigger] all.contains_key(id) <==> base.contains_key(id)) && (
        base.contains_key(id) ==> all[id] == base[id]) by {
            assert forall|i: int| 0 <= i < rest.len() implies (#[trigger] rest[i]).0 != id by {
                assert(s[i].0 != id);
            }
            assert(s[s.len() - 1].0 != id);
            assert(offered_vdisks(base, rest).contains_key(id) <==> base.contains_key(id));
        }
    }
}

proof fn lemma_leases_over(base: Map<u64, Lease>, s: Seq<(u64, Lease)>)
    requires
        leases_ascend(s),
    ensures
        forall|i: int| 0 <= i < s.len() ==> offered_leases(base, s).contains_key((#[trigger] s[i]).0) && offered_leases(base, s)[s[i].0] == s[i].1,
        forall|id: u64|
            (forall|i: int| 0 <= i < s.len() ==> (#[trigger] s[i]).0 != id) ==> (#[trigger] offered_leases(base, s).contains_key(id) <==> base.contains_key(id)) && (
            base.contains_key(id) ==> offered_leases(base, s)[id] == base[id]),
    decreases s.len(),
{
    if s.len() > 0 {
        let rest = s.drop_last();
        assert forall|i: int, j: int| 0 <= i < j < rest.len() implies (#[trigger] rest[i]).0 < (#[trigger] rest[j]).0 by {
            assert(s[i].0 < s[j].0);
        }
        lemma_leases_over(base, rest);
        let all = offered_leases(base, s);
        assert forall|i: int| 0 <= i < s.len() implies all.contains_key((#[trigger] s[i]).0) && all[s[i].0] == s[i].1 by {
            if i < s.len() - 1 {
                assert(rest[i] == s[i]);
                assert(s[i].0 < s[s.len() - 1].0);
            }
        }
        assert forall|id: u64| (forall|i: int| 0 <= i < s.len() ==> (#[trigger] s[i]).0 != id) implies (#[trigger] all.contains_key(id) <==> base.contains_key(id)) && (
        base.contains_key(id) ==> all[id] == base[id]) by {
            assert forall|i: int| 0 <= i < rest.len() implies (#[trigger] rest[i]).0 != id by {
                assert(s[i].0 != id);
            }
            assert(s[s.len() - 1].0 != id);
            assert(offered_leases(base, rest).contains_key(id) <==> base.contains_key(id));
        }
    }
}

proof fn lemma_snapshots_over(base: Map<SnapshotId, SnapshotState>, s: Seq<SnapshotOffer>)
    requires
        snapshots_ascend(s),
    ensures
        forall|i: int|
            0 <= i < s.len() ==> offered_snapshots(base, s).contains_key(offer_key(#[trigger] s[i])) && offered_snapshots(base, s)[offer_key(s[i])] == (SnapshotState {
                size_bytes: s[i].2,
                root: s[i].3,
            }),
        forall|key: SnapshotId|
            (forall|i: int| 0 <= i < s.len() ==> offer_key(#[trigger] s[i]) != key) ==> (#[trigger] offered_snapshots(base, s).contains_key(key) <==> base.contains_key(
                key,
            )) && (base.contains_key(key) ==> offered_snapshots(base, s)[key] == base[key]),
    decreases s.len(),
{
    if s.len() > 0 {
        let rest = s.drop_last();
        assert forall|i: int, j: int| 0 <= i < j < rest.len() implies (#[trigger] rest[i]).0 < (#[trigger] rest[j]).0 || (rest[i].0 == rest[j].0 && rest[i].1 < rest[j].1) by {
            assert(s[i].0 < s[j].0 || (s[i].0 == s[j].0 && s[i].1 < s[j].1));
        }
        lemma_snapshots_over(base, rest);
        let all = offered_snapshots(base, s);
        assert forall|i: int| 0 <= i < s.len() implies all.contains_key(offer_key(#[trigger] s[i])) && all[offer_key(s[i])] == (SnapshotState {
            size_bytes: s[i].2,
            root: s[i].3,
        }) by {
            if i < s.len() - 1 {
                assert(rest[i] == s[i]);
                assert(s[i].0 < s[s.len() - 1].0 || (s[i].0 == s[s.len() - 1].0 && s[i].1 < s[s.len() - 1].1));
            }
        }
        assert forall|key: SnapshotId| (forall|i: int| 0 <= i < s.len() ==> offer_key(#[trigger] s[i]) != key) implies (#[trigger] all.contains_key(key) <==> base.contains_key(
            key,
        )) && (base.contains_key(key) ==> all[key] == base[key]) by {
            assert forall|i: int| 0 <= i < rest.len() implies offer_key(#[trigger] rest[i]) != key by {
                assert(offer_key(s[i]) != key);
            }
            assert(offer_key(s[s.len() - 1]) != key);
            assert(offered_snapshots(base, rest).contains_key(key) <==> base.contains_key(key));
        }
    }
}

/// A pool that adopts a whole offer holds the vdisks, the snapshots and the
/// leases offered, each as it was offered, and none besides.
pub proof fn law_a_whole_adoption_is_the_offer<D: Disk>(
    before: &Pool<D>,
    after: &Pool<D>,
    era: u64,
    vdisks: Seq<VdiskOffer>,
    snapshots: Seq<SnapshotOffer>,
    leases: Seq<(u64, Lease)>,
    r: Result<()>,
)
    requires
        sync_adopted(before, after, era, vdisks, snapshots, leases, AdoptScope::Whole, r),
        r is Ok,
        vdisks_ascend(vdisks),
        snapshots_ascend(snapshots),
        leases_ascend(leases),
    ensures
        after.era_now() == era,
        after.stock().durable(),
        after.seat() == before.seat(),
        forall|i: int|
            0 <= i < vdisks.len() ==> after.vdisk_map().contains_key((#[trigger] vdisks[i]).0) && after.vdisk_map()[vdisks[i].0] == (VdiskView {
                size_bytes: vdisks[i].1,
                tier: vdisks[i].2,
                root: vdisks[i].3,
                dirty: Map::empty(),
            }),
        forall|id: u64| #[trigger] after.vdisk_map().contains_key(id) ==> exists|i: int| 0 <= i < vdisks.len() && (#[trigger] vdisks[i]).0 == id,
        forall|i: int|
            0 <= i < snapshots.len() ==> after.snapshot_map().contains_key(SnapshotId { vdisk: (#[trigger] snapshots[i]).0, snapshot: snapshots[i].1 })
                && after.snapshot_map()[SnapshotId { vdisk: snapshots[i].0, snapshot: snapshots[i].1 }] == (SnapshotState {
                size_bytes: snapshots[i].2,
                root: snapshots[i].3,
            }),
        forall|key: SnapshotId| #[trigger]
            after.snapshot_map().contains_key(key) ==> exists|i: int| 0 <= i < snapshots.len() && (#[trigger] snapshots[i]).0 == key.vdisk && snapshots[i].1 == key.snapshot,
        forall|i: int| 0 <= i < leases.len() ==> after.lease_map().contains_key((#[trigger] leases[i]).0) && after.lease_map()[leases[i].0] == leases[i].1,
        forall|id: u64| #[trigger] after.lease_map().contains_key(id) ==> exists|i: int| 0 <= i < leases.len() && (#[trigger] leases[i]).0 == id,
{
    let mid = choose|mid: Pool<D>| #[trigger] adopted(before, &mid, era, vdisks, snapshots, leases, AdoptScope::Whole) && checkpointed(&mid, after, r);
    lemma_vdisks_over(Map::empty(), vdisks);
    lemma_snapshots_over(Map::empty(), snapshots);
    lemma_leases_over(Map::empty(), leases);
    let m = mid.vdisk_map();
    assert forall|i: int| 0 <= i < vdisks.len() implies after.vdisk_map().contains_key((#[trigger] vdisks[i]).0) && after.vdisk_map()[vdisks[i].0] == (VdiskView {
        size_bytes: vdisks[i].1,
        tier: vdisks[i].2,
        root: vdisks[i].3,
        dirty: Map::empty(),
    }) by {
        assert(m.contains_key(vdisks[i].0));
        assert(after.vdisk_map().dom().contains(vdisks[i].0));
    }
    assert forall|id: u64| #[trigger] after.vdisk_map().contains_key(id) implies exists|i: int| 0 <= i < vdisks.len() && (#[trigger] vdisks[i]).0 == id by {
        assert(m.dom().contains(id));
        if forall|i: int| 0 <= i < vdisks.len() ==> (#[trigger] vdisks[i]).0 != id {
            assert(offered_vdisks(Map::empty(), vdisks).contains_key(id) <==> Map::<u64, VdiskView>::empty().contains_key(id));
        }
    }
    assert forall|i: int| 0 <= i < snapshots.len() implies after.snapshot_map().contains_key(
        SnapshotId { vdisk: (#[trigger] snapshots[i]).0, snapshot: snapshots[i].1 },
    ) && after.snapshot_map()[SnapshotId { vdisk: snapshots[i].0, snapshot: snapshots[i].1 }] == (SnapshotState { size_bytes: snapshots[i].2, root: snapshots[i].3 }) by {
        assert(after.snapshot_map().contains_key(offer_key(snapshots[i])));
    }
    assert forall|key: SnapshotId| #[trigger] after.snapshot_map().contains_key(key) implies exists|i: int|
        0 <= i < snapshots.len() && (#[trigger] snapshots[i]).0 == key.vdisk && snapshots[i].1 == key.snapshot by {
        if forall|i: int| 0 <= i < snapshots.len() ==> offer_key(#[trigger] snapshots[i]) != key {
            assert(offered_snapshots(Map::empty(), snapshots).contains_key(key) <==> Map::<SnapshotId, SnapshotState>::empty().contains_key(key));
        } else {
            let i = choose|i: int| 0 <= i < snapshots.len() && offer_key(#[trigger] snapshots[i]) == key;
            assert(snapshots[i].0 == key.vdisk);
        }
    }
    assert forall|id: u64| #[trigger] after.lease_map().contains_key(id) implies exists|i: int| 0 <= i < leases.len() && (#[trigger] leases[i]).0 == id by {
        if forall|i: int| 0 <= i < leases.len() ==> (#[trigger] leases[i]).0 != id {
            assert(offered_leases(Map::empty(), leases).contains_key(id) <==> Map::<u64, Lease>::empty().contains_key(id));
        }
    }
}

/// A pool that adopts what an offer names takes the vdisks named, with their
/// leases, as they were offered, and leaves every other vdisk its size, its
/// tier and its lease.
pub proof fn law_a_named_adoption_replaces_what_it_names<D: Disk>(
    before: &Pool<D>,
    after: &Pool<D>,
    era: u64,
    vdisks: Seq<VdiskOffer>,
    snapshots: Seq<SnapshotOffer>,
    leases: Seq<(u64, Lease)>,
    r: Result<()>,
)
    requires
        sync_adopted(before, after, era, vdisks, snapshots, leases, AdoptScope::Named, r),
        r is Ok,
        vdisks_ascend(vdisks),
        leases_ascend(leases),
    ensures
        after.era_now() == era,
        after.stock().durable(),
        forall|i: int|
            0 <= i < vdisks.len() ==> after.vdisk_map().contains_key((#[trigger] vdisks[i]).0) && after.vdisk_map()[vdisks[i].0] == (VdiskView {
                size_bytes: vdisks[i].1,
                tier: vdisks[i].2,
                root: vdisks[i].3,
                dirty: Map::empty(),
            }),
        forall|id: u64|
            (forall|i: int| 0 <= i < vdisks.len() ==> (#[trigger] vdisks[i]).0 != id) ==> (#[trigger] after.vdisk_map().contains_key(id) <==> before.vdisk_map().contains_key(
                id,
            )) && (before.vdisk_map().contains_key(id) ==> after.vdisk_map()[id].size_bytes == before.vdisk_map()[id].size_bytes && after.vdisk_map()[id].tier
                == before.vdisk_map()[id].tier),
        forall|i: int| 0 <= i < leases.len() ==> after.lease_map().contains_key((#[trigger] leases[i]).0) && after.lease_map()[leases[i].0] == leases[i].1,
        forall|id: u64|
            (forall|i: int| 0 <= i < leases.len() ==> (#[trigger] leases[i]).0 != id) ==> (#[trigger] after.lease_map().contains_key(id) <==> before.lease_map().contains_key(
                id,
            ) && forall|i: int| 0 <= i < vdisks.len() ==> (#[trigger] vdisks[i]).0 != id) && (after.lease_map().contains_key(id) ==> after.lease_map()[id]
                == before.lease_map()[id]),
{
    let mid = choose|mid: Pool<D>| #[trigger] adopted(before, &mid, era, vdisks, snapshots, leases, AdoptScope::Named) && checkpointed(&mid, after, r);
    let named = named_ids(vdisks);
    let base = before.vdisk_map().remove_keys(named);
    lemma_vdisks_over(base, vdisks);
    lemma_leases_over(before.lease_map().remove_keys(named), leases);
    let m = mid.vdisk_map();
    assert forall|i: int| 0 <= i < vdisks.len() implies after.vdisk_map().contains_key((#[trigger] vdisks[i]).0) && after.vdisk_map()[vdisks[i].0] == (VdiskView {
        size_bytes: vdisks[i].1,
        tier: vdisks[i].2,
        root: vdisks[i].3,
        dirty: Map::empty(),
    }) by {
        assert(m.contains_key(vdisks[i].0));
        assert(after.vdisk_map().dom().contains(vdisks[i].0));
    }
    assert forall|id: u64| (forall|i: int| 0 <= i < vdisks.len() ==> (#[trigger] vdisks[i]).0 != id) implies (#[trigger] after.vdisk_map().contains_key(id)
        <==> before.vdisk_map().contains_key(id)) && (before.vdisk_map().contains_key(id) ==> after.vdisk_map()[id].size_bytes == before.vdisk_map()[id].size_bytes
        && after.vdisk_map()[id].tier == before.vdisk_map()[id].tier) by {
        assert(!offers(vdisks, id));
        assert(!named.contains(id));
        assert(offered_vdisks(base, vdisks).contains_key(id) <==> base.contains_key(id));
        assert(after.vdisk_map().dom().contains(id) <==> m.dom().contains(id));
        if before.vdisk_map().contains_key(id) {
            assert(m.contains_key(id));
        }
    }
    let held = before.lease_map().remove_keys(named);
    assert forall|id: u64| (forall|i: int| 0 <= i < leases.len() ==> (#[trigger] leases[i]).0 != id) implies (#[trigger] after.lease_map().contains_key(id)
        <==> before.lease_map().contains_key(id) && forall|i: int| 0 <= i < vdisks.len() ==> (#[trigger] vdisks[i]).0 != id) && (after.lease_map().contains_key(id)
        ==> after.lease_map()[id] == before.lease_map()[id]) by {
        assert(offered_leases(held, leases).contains_key(id) <==> held.contains_key(id));
        assert(held.contains_key(id) <==> before.lease_map().contains_key(id) && !named.contains(id));
        if !named.contains(id) {
            assert(!offers(vdisks, id));
            assert forall|i: int| 0 <= i < vdisks.len() implies (#[trigger] vdisks[i]).0 != id by {}
        } else {
            assert(offers(vdisks, id));
        }
    }
}

/// A pool that adopts what an offer names has the snapshots offered, as they
/// were offered. The vdisks named have no others, and those of every other
/// vdisk are as they were.
pub proof fn law_a_named_adoption_replaces_the_snapshots<D: Disk>(
    before: &Pool<D>,
    after: &Pool<D>,
    era: u64,
    vdisks: Seq<VdiskOffer>,
    snapshots: Seq<SnapshotOffer>,
    leases: Seq<(u64, Lease)>,
    r: Result<()>,
)
    requires
        sync_adopted(before, after, era, vdisks, snapshots, leases, AdoptScope::Named, r),
        r is Ok,
        snapshots_ascend(snapshots),
    ensures
        forall|i: int|
            0 <= i < snapshots.len() ==> after.snapshot_map().contains_key(SnapshotId { vdisk: (#[trigger] snapshots[i]).0, snapshot: snapshots[i].1 })
                && after.snapshot_map()[SnapshotId { vdisk: snapshots[i].0, snapshot: snapshots[i].1 }] == (SnapshotState {
                size_bytes: snapshots[i].2,
                root: snapshots[i].3,
            }),
        forall|key: SnapshotId|
            (forall|i: int| 0 <= i < snapshots.len() ==> !((#[trigger] snapshots[i]).0 == key.vdisk && snapshots[i].1 == key.snapshot)) ==> (#[trigger]
            after.snapshot_map().contains_key(key) <==> before.snapshot_map().contains_key(key) && forall|i: int|
                0 <= i < vdisks.len() ==> (#[trigger] vdisks[i]).0 != key.vdisk),
        forall|key: SnapshotId|
            (forall|i: int| 0 <= i < snapshots.len() ==> !((#[trigger] snapshots[i]).0 == key.vdisk && snapshots[i].1 == key.snapshot)) && (#[trigger]
            after.snapshot_map().contains_key(key)) ==> after.snapshot_map()[key] == before.snapshot_map()[key],
{
    let mid = choose|mid: Pool<D>| #[trigger] adopted(before, &mid, era, vdisks, snapshots, leases, AdoptScope::Named) && checkpointed(&mid, after, r);
    let named = named_ids(vdisks);
    let base = without_vdisks(before.snapshot_map(), named);
    lemma_snapshots_over(base, snapshots);
    let m = after.snapshot_map();
    assert(m == offered_snapshots(base, snapshots));
    assert forall|i: int| 0 <= i < snapshots.len() implies m.contains_key(SnapshotId { vdisk: (#[trigger] snapshots[i]).0, snapshot: snapshots[i].1 })
        && m[SnapshotId { vdisk: snapshots[i].0, snapshot: snapshots[i].1 }] == (SnapshotState { size_bytes: snapshots[i].2, root: snapshots[i].3 }) by {
        assert(m.contains_key(offer_key(snapshots[i])));
    }
    assert forall|key: SnapshotId|
        (forall|i: int| 0 <= i < snapshots.len() ==> !((#[trigger] snapshots[i]).0 == key.vdisk && snapshots[i].1 == key.snapshot)) implies (#[trigger] m.contains_key(
        key,
    ) <==> before.snapshot_map().contains_key(key) && forall|i: int| 0 <= i < vdisks.len() ==> (#[trigger] vdisks[i]).0 != key.vdisk) && (m.contains_key(key) ==> m[key]
        == before.snapshot_map()[key]) by {
        assert forall|i: int| 0 <= i < snapshots.len() implies offer_key(#[trigger] snapshots[i]) != key by {
            assert(!(snapshots[i].0 == key.vdisk && snapshots[i].1 == key.snapshot));
        }
        assert(m.contains_key(key) <==> base.contains_key(key));
        if named.contains(key.vdisk) {
            assert(offers(vdisks, key.vdisk));
        } else {
            assert(!offers(vdisks, key.vdisk));
            assert forall|i: int| 0 <= i < vdisks.len() implies (#[trigger] vdisks[i]).0 != key.vdisk by {}
        }
    }
}

/// What is kept of a pool's vdisks is kept as it was, with its snapshots and
/// its lease, and everything else is gone.
pub proof fn law_what_is_not_kept_is_gone<D: Disk>(before: &Pool<D>, after: &Pool<D>, kept: Set<u64>, r: Result<()>, id: u64, s: u64)
    requires
        vdisks_retained(before, after, kept, r),
    ensures
        after.vdisk_map().contains_key(id) <==> before.vdisk_map().contains_key(id) && kept.contains(id),
        after.vdisk_map().contains_key(id) ==> after.vdisk_map()[id].size_bytes == before.vdisk_map()[id].size_bytes && after.vdisk_map()[id].tier
            == before.vdisk_map()[id].tier,
        after.lease_map().contains_key(id) <==> before.lease_map().contains_key(id) && kept.contains(id),
        after.lease_map().contains_key(id) ==> after.lease_map()[id] == before.lease_map()[id],
        ({
            let key = SnapshotId { vdisk: id, snapshot: s };
            &&& after.snapshot_map().contains_key(key) <==> before.snapshot_map().contains_key(key) && kept.contains(id)
            &&& after.snapshot_map().contains_key(key) ==> after.snapshot_map()[key] == before.snapshot_map()[key]
        }),
        after.era_now() == before.era_now(),
{
    let mid = choose|mid: Pool<D>| #[trigger] retained(before, &mid, kept) && if before.vdisk_map().dom().subset_of(kept) {
        r is Ok && super::snapshot::same_ground(&mid, after) && retained(before, after, kept)
    } else {
        checkpointed(&mid, after, r)
    };
    assert(mid.vdisk_map().contains_key(id) <==> before.vdisk_map().contains_key(id) && kept.contains(id));
    assert(mid.vdisk_map().dom().contains(id) <==> mid.vdisk_map().contains_key(id));
    assert(after.vdisk_map().dom().contains(id) <==> after.vdisk_map().contains_key(id));
}

/// Where everything was on stable storage, dropping what is not kept leaves
/// it so.
pub proof fn law_what_is_kept_is_durable<D: Disk>(before: &Pool<D>, after: &Pool<D>, kept: Set<u64>, r: Result<()>)
    requires
        vdisks_retained(before, after, kept, r),
        r is Ok,
        before.stock().durable(),
    ensures
        after.stock().durable(),
{
}

} // verus!
