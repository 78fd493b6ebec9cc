//! What a node holds once it has adopted a peer's offer.

use super::adopt::{adopted_and_replayed, any_pulling, closed_out, flushes_failed, holder_in, speaks_for, spoken_leases, spoken_snapshots, spoken_vdisks};
use super::handle::heard;
use super::promise::lemma_same_ids;
use super::pull::no_pull;
use super::wire::{EffectView, MessageView, OfferView};
use super::{lemma_slot_at, lemma_slot_range, slot_of, NodeView, ReplNode, ReplState, SessionView};
use crate::disk::Disk;
use crate::error::Result;
use crate::pool::adoption::{
    law_a_named_adoption_replaces_the_snapshots, law_a_named_adoption_replaces_what_it_names, law_a_whole_adoption_is_the_offer, law_what_is_kept_is_durable,
    law_what_is_not_kept_is_gone, leases_ascend, snapshots_ascend, vdisks_ascend,
};
use crate::pool::sync::{sync_adopted, vdisks_retained, AdoptScope, SnapshotOffer, VdiskOffer};
use crate::pool::{Lease, Pool, SnapshotState, VdiskView};
use crate::slice::NodeId;
use crate::table::SnapshotId;
use vstd::prelude::*;

verus! {

/// A node without a placement that is told to adopt, and had nothing held
/// back for it, ends with what was offered: the vdisks, the snapshots and the
/// leases, each as offered and none besides, in the offer's era. All of it is
/// on stable storage before the source is told, by the last thing this node
/// says; the two are in step, and the flushes that waited have failed.
pub proof fn law_an_adoption_takes_the_offer_whole<D: Disk>(before: &ReplNode<D>, after: &ReplNode<D>, from: NodeId, final_rseq: u64, r: Result<()>)
    requires
        heard(before, after, from, MessageView::SyncAdopt { final_rseq }, r),
        r is Ok,
        before.engine().seat() is None,
        before@.of(from).backlog.len() == 0,
        before@.of(from).pull.manifest matches Some(offer) ==> vdisks_ascend(offer.vdisks) && snapshots_ascend(offer.snapshots) && leases_ascend(offer.leases),
    ensures
        before@.knows(from),
        before@.of(from).pulls(),
        before@.of(from).pull.complete(),
        before@.of(from).pull.manifest is Some,
        before@.of(from).applied_rseq == final_rseq,
        ({
            let offer = before@.of(from).pull.manifest->Some_0;
            let pool = after.engine();
            &&& pool.era_now() == offer.era
            &&& pool.stock().durable()
            &&& forall|i: int|
                0 <= i < offer.vdisks.len() ==> pool.vdisk_map().contains_key((#[trigger] offer.vdisks[i]).0) && pool.vdisk_map()[offer.vdisks[i].0] == (VdiskView {
                    size_bytes: offer.vdisks[i].1,
                    tier: offer.vdisks[i].2,
                    root: offer.vdisks[i].3,
                    dirty: Map::empty(),
                })
            &&& forall|id: u64| #[trigger] pool.vdisk_map().contains_key(id) ==> exists|i: int| 0 <= i < offer.vdisks.len() && (#[trigger] offer.vdisks[i]).0 == id
            &&& forall|i: int|
                0 <= i < offer.snapshots.len() ==> pool.snapshot_map().contains_key(
                    SnapshotId { vdisk: (#[trigger] offer.snapshots[i]).0, snapshot: offer.snapshots[i].1 },
                ) && pool.snapshot_map()[SnapshotId { vdisk: offer.snapshots[i].0, snapshot: offer.snapshots[i].1 }] == (SnapshotState {
                    size_bytes: offer.snapshots[i].2,
                    root: offer.snapshots[i].3,
                })
            &&& forall|key: SnapshotId| #[trigger]
                pool.snapshot_map().contains_key(key) ==> exists|i: int|
                    0 <= i < offer.snapshots.len() && (#[trigger] offer.snapshots[i]).0 == key.vdisk && offer.snapshots[i].1 == key.snapshot
            &&& forall|i: int| 0 <= i < offer.leases.len() ==> pool.lease_map().contains_key((#[trigger] offer.leases[i]).0) && pool.lease_map()[offer.leases[i].0]
                == offer.leases[i].1
            &&& forall|id: u64| #[trigger] pool.lease_map().contains_key(id) ==> exists|i: int| 0 <= i < offer.leases.len() && (#[trigger] offer.leases[i]).0 == id
            &&& after@.queue.last() == EffectView::Send(from, MessageView::SyncDone { era: offer.era })
        }),
        after@.of(from).state == ReplState::Synced,
        after@.of(from).pull.manifest is None,
        after@.parked.len() == 0,
        forall|k: int| 0 <= k < before@.parked.len() ==> after@.queue.contains(EffectView::FlushFailed((#[trigger] before@.parked[k]).ticket)),
{
    let v = before@;
    let s = v.of(from);
    let offer = s.pull.manifest->Some_0;
    let (mid, taken, steps, live, c, d) = choose|mid: Pool<D>, taken: ReplNode<D>, steps: Seq<ReplNode<D>>, live: ReplNode<D>, c: Result<()>, d: Result<()>| #[trigger]
        adopted_and_replayed(before, &mid, &taken, steps, &live, after, from, final_rseq, c, d, r);
    assert(c is Ok);
    assert(d is Ok);
    assert(steps.len() == 1);
    assert(live == taken);
    law_a_whole_adoption_is_the_offer(&before.engine(), &mid, offer.era, offer.vdisks, offer.snapshots, offer.leases, c);
    let (flat, f) = choose|flat: Pool<D>, f: Result<()>| #[trigger] closed_out(&live, &flat, after, from, offer.era, f, r);
    lemma_slot_range(v.peers, from);
    let next = SessionView { pull: no_pull(), state: ReplState::Synced, backlog: Seq::empty(), ..s };
    lemma_same_ids(v.peers, slot_of(v.peers, from), next, from);
    assert(live@ == v.with(from, next));
    assert(live@.of(from) == next);
    assert(after@.peers == live@.peers);
    assert forall|k: int| 0 <= k < v.parked.len() implies after@.queue.contains(EffectView::FlushFailed((#[trigger] v.parked[k]).ticket)) by {
        assert(flushes_failed(v.parked)[k] == EffectView::FlushFailed(v.parked[k].ticket));
        assert(after@.queue[v.queue.len() + k] == flushes_failed(v.parked)[k]);
    }
}

/// Whatever was held back, an adoption that ends well has replayed the stream
/// to just where the source said it ends, has all of it on stable storage
/// before the source is told, and leaves no flush parked.
pub proof fn law_an_adoption_ends_where_the_stream_does<D: Disk>(before: &ReplNode<D>, after: &ReplNode<D>, from: NodeId, final_rseq: u64, r: Result<()>)
    requires
        heard(before, after, from, MessageView::SyncAdopt { final_rseq }, r),
        r is Ok,
    ensures
        after@.of(from).applied_rseq == final_rseq,
        after.engine().stock().durable(),
        after@.queue.len() > 0,
        after@.queue.last() == EffectView::Send(from, MessageView::SyncDone { era: before@.of(from).pull.manifest->Some_0.era }),
        after@.parked.len() == 0,
{
    let offer = before@.of(from).pull.manifest->Some_0;
    let (mid, taken, steps, live, c, d) = choose|mid: Pool<D>, taken: ReplNode<D>, steps: Seq<ReplNode<D>>, live: ReplNode<D>, c: Result<()>, d: Result<()>| #[trigger]
        adopted_and_replayed(before, &mid, &taken, steps, &live, after, from, final_rseq, c, d, r);
    assert(c is Ok && d is Ok);
    let (flat, f) = choose|flat: Pool<D>, f: Result<()>| #[trigger] closed_out(&live, &flat, after, from, offer.era, f, r);
    assert(after@.peers == live@.peers);
    if flat.seat() is Some && !any_pulling(live@) {
        law_what_is_kept_is_durable(&flat, &after.engine(), live@.offered, r);
    }
}

proof fn lemma_spoken(v: NodeView, from: NodeId, offer: OfferView, s: Seq<VdiskOffer>, o: VdiskOffer)
    ensures
        spoken_vdisks(v, from, offer, s).contains(o) <==> s.contains(o) && speaks_for(v, from, offer, o.0),
        vdisks_ascend(s) ==> vdisks_ascend(spoken_vdisks(v, from, offer, s)),
        forall|i: int| 0 <= i < spoken_vdisks(v, from, offer, s).len() ==> s.contains(#[trigger] spoken_vdisks(v, from, offer, s)[i]),
    decreases s.len(),
{
    if s.len() > 0 {
        let front = s.drop_last();
        let rest = spoken_vdisks(v, from, offer, front);
        let all = spoken_vdisks(v, from, offer, s);
        lemma_spoken(v, from, offer, front, o);
        if all.contains(o) {
            let k = choose|k: int| 0 <= k < all.len() && all[k] == o;
            if k < rest.len() {
                assert(rest[k] == o);
                assert(rest.contains(o));
                let j = choose|j: int| 0 <= j < front.len() && front[j] == o;
                assert(s[j] == o);
            } else {
                assert(s[s.len() - 1] == o);
            }
        }
        if s.contains(o) && speaks_for(v, from, offer, o.0) {
            let j = choose|j: int| 0 <= j < s.len() && s[j] == o;
            if j < front.len() {
                assert(front[j] == o);
                let k = choose|k: int| 0 <= k < rest.len() && rest[k] == o;
                assert(all[k] == o);
            } else {
                assert(all.last() == o);
            }
        }
        assert forall|i: int| 0 <= i < all.len() implies s.contains(#[trigger] all[i]) by {
            if i < rest.len() {
                assert(front.contains(rest[i]));
                let j = choose|j: int| 0 <= j < front.len() && front[j] == rest[i];
                assert(s[j] == all[i]);
            } else {
                assert(s[s.len() - 1] == all[i]);
            }
        }
        if vdisks_ascend(s) {
            assert forall|i: int, j: int| 0 <= i < j < front.len() implies (#[trigger] front[i]).0 < (#[trigger] front[j]).0 by {
                assert(s[i].0 < s[j].0);
            }
            assert(vdisks_ascend(front));
            lemma_spoken(v, from, offer, front, o);
            assert forall|i: int, j: int| 0 <= i < j < all.len() implies (#[trigger] all[i]).0 < (#[trigger] all[j]).0 by {
                if j < rest.len() {
                    assert(rest[i].0 < rest[j].0);
                } else {
                    assert(front.contains(rest[i]));
                    let k = choose|k: int| 0 <= k < front.len() && front[k] == rest[i];
                    assert(s[k].0 < s[s.len() - 1].0);
                }
            }
        }
    }
}

proof fn lemma_spoken_leases(v: NodeView, from: NodeId, offer: OfferView, s: Seq<(u64, Lease)>, o: (u64, Lease))
    ensures
        spoken_leases(v, from, offer, s).contains(o) <==> s.contains(o) && speaks_for(v, from, offer, o.0),
        leases_ascend(s) ==> leases_ascend(spoken_leases(v, from, offer, s)),
        forall|i: int| 0 <= i < spoken_leases(v, from, offer, s).len() ==> s.contains(#[trigger] spoken_leases(v, from, offer, s)[i]) && speaks_for(
            v,
            from,
            offer,
            spoken_leases(v, from, offer, s)[i].0,
        ),
    decreases s.len(),
{
    if s.len() > 0 {
        let front = s.drop_last();
        let rest = spoken_leases(v, from, offer, front);
        let all = spoken_leases(v, from, offer, s);
        lemma_spoken_leases(v, from, offer, front, o);
        if all.contains(o) {
            let k = choose|k: int| 0 <= k < all.len() && all[k] == o;
            if k < rest.len() {
                assert(rest[k] == o);
                assert(rest.contains(o));
                let j = choose|j: int| 0 <= j < front.len() && front[j] == o;
                assert(s[j] == o);
            } else {
                assert(s[s.len() - 1] == o);
            }
        }
        if s.contains(o) && speaks_for(v, from, offer, o.0) {
            let j = choose|j: int| 0 <= j < s.len() && s[j] == o;
            if j < front.len() {
                assert(front[j] == o);
                let k = choose|k: int| 0 <= k < rest.len() && rest[k] == o;
                assert(all[k] == o);
            } else {
                assert(all.last() == o);
            }
        }
        assert forall|i: int| 0 <= i < all.len() implies s.contains(#[trigger] all[i]) && speaks_for(v, from, offer, all[i].0) by {
            if i < rest.len() {
                assert(front.contains(rest[i]));
                let j = choose|j: int| 0 <= j < front.len() && front[j] == rest[i];
                assert(s[j] == all[i]);
            } else {
                assert(s[s.len() - 1] == all[i]);
            }
        }
        if leases_ascend(s) {
            assert forall|i: int, j: int| 0 <= i < j < front.len() implies (#[trigger] front[i]).0 < (#[trigger] front[j]).0 by {
                assert(s[i].0 < s[j].0);
            }
            assert(leases_ascend(front));
            assert forall|i: int, j: int| 0 <= i < j < all.len() implies (#[trigger] all[i]).0 < (#[trigger] all[j]).0 by {
                if j < rest.len() {
                    assert(rest[i].0 < rest[j].0);
                } else {
                    assert(front.contains(rest[i]));
                    let k = choose|k: int| 0 <= k < front.len() && front[k] == rest[i];
                    assert(s[k].0 < s[s.len() - 1].0);
                }
            }
        }
    }
}

proof fn lemma_holder(leases: Seq<(u64, Lease)>, id: u64, j: int)
    requires
        leases_ascend(leases),
    ensures
        0 <= j < leases.len() && leases[j].0 == id ==> holder_in(leases, id) == Some(leases[j].1.holder),
        (forall|k: int| 0 <= k < leases.len() ==> (#[trigger] leases[k]).0 != id) ==> holder_in(leases, id) is None,
    decreases leases.len(),
{
    if leases.len() > 0 {
        let rest = leases.drop_first();
        assert forall|a: int, b: int| 0 <= a < b < rest.len() implies (#[trigger] rest[a]).0 < (#[trigger] rest[b]).0 by {
            assert(leases[a + 1].0 < leases[b + 1].0);
        }
        lemma_holder(rest, id, j - 1);
        if 0 < j < leases.len() && leases[j].0 == id {
            assert(leases[0].0 < leases[j].0);
            assert(rest[j - 1] == leases[j]);
        }
        if forall|k: int| 0 <= k < leases.len() ==> (#[trigger] leases[k]).0 != id {
            assert forall|k: int| 0 <= k < rest.len() implies (#[trigger] rest[k]).0 != id by {
                assert(leases[k + 1].0 != id);
            }
            assert(leases[0].0 != id);
        }
    }
}

/// Some other session than one still pulls.
pub open spec fn others_pull(v: NodeView, from: NodeId) -> bool {
    exists|k: int| 0 <= k < v.peers.len() && (#[trigger] v.peers[k]).id != from && v.peers[k].pulls()
}

/// What a placed adoption is: an adoption of just what the offer speaks for;
/// and, where it ends the last pull, a clearing of what no source offered.
proof fn lemma_placed_adoption<D: Disk>(before: &ReplNode<D>, after: &ReplNode<D>, from: NodeId, final_rseq: u64, r: Result<()>) -> (res: (Pool<D>, Pool<D>))
    requires
        before.inv(),
        heard(before, after, from, MessageView::SyncAdopt { final_rseq }, r),
        r is Ok,
        before.engine().seat() is Some,
        before@.of(from).backlog.len() == 0,
    ensures
        before@.of(from).pull.manifest is Some,
        res.1.vdisk_map() == res.0.vdisk_map(),
        res.1.lease_map() == res.0.lease_map(),
        res.1.snapshot_map() == res.0.snapshot_map(),
        ({
            let offer = before@.of(from).pull.manifest->Some_0;
            sync_adopted(
                &before.engine(),
                &res.0,
                offer.era,
                spoken_vdisks(before@, from, offer, offer.vdisks),
                spoken_snapshots(before@, from, offer, offer.snapshots),
                spoken_leases(before@, from, offer, offer.leases),
                AdoptScope::Named,
                Ok(()),
            )
        }),
        others_pull(before@, from) ==> after.engine() == res.1,
        !others_pull(before@, from) ==> vdisks_retained(&res.1, &after.engine(), before@.offered, r),
{
    before.lemma_node();
    let v = before@;
    let s = v.of(from);
    let offer = s.pull.manifest->Some_0;
    let (mid, taken, steps, live, c, d) = choose|mid: Pool<D>, taken: ReplNode<D>, steps: Seq<ReplNode<D>>, live: ReplNode<D>, c: Result<()>, d: Result<()>| #[trigger]
        adopted_and_replayed(before, &mid, &taken, steps, &live, after, from, final_rseq, c, d, r);
    assert(c is Ok && d is Ok);
    assert(steps.len() == 1 && live == taken);
    let (flat, f) = choose|flat: Pool<D>, f: Result<()>| #[trigger] closed_out(&live, &flat, after, from, offer.era, f, r);
    lemma_slot_range(v.peers, from);
    let next = SessionView { pull: no_pull(), state: ReplState::Synced, backlog: Seq::empty(), ..s };
    assert(live@ == v.with(from, next));
    assert(v.peers[slot_of(v.peers, from)].id == from);
    assert(any_pulling(live@) <==> others_pull(v, from)) by {
        if others_pull(v, from) {
            let k = choose|k: int| 0 <= k < v.peers.len() && (#[trigger] v.peers[k]).id != from && v.peers[k].pulls();
            assert(live@.peers[k] == v.peers[k]);
            assert(live@.peers[k].pulls());
        }
        if any_pulling(live@) {
            let k = choose|k: int| 0 <= k < live@.peers.len() && (#[trigger] live@.peers[k]).pulls();
            assert(k != slot_of(v.peers, from));
            assert(live@.peers[k] == v.peers[k]);
            lemma_slot_at(v.peers, k);
            assert(v.peers[k].id != from);
        }
    }
    assert(flat.seat() is Some);
    (mid, flat)
}

/// A placed node that pulls from several sources takes a vdisk from the one
/// that speaks for it. While another session still pulls, a vdisk whose lease
/// the source holds is as the source offered it, lease and all; and one whose
/// lease another source holds, that this node is pulling from too, is left as
/// it was.
pub proof fn law_a_placed_adoption_heeds_the_holder<D: Disk>(
    before: &ReplNode<D>,
    after: &ReplNode<D>,
    from: NodeId,
    final_rseq: u64,
    r: Result<()>,
    other: int,
    i: int,
    j: int,
)
    requires
        before.inv(),
        heard(before, after, from, MessageView::SyncAdopt { final_rseq }, r),
        r is Ok,
        before.engine().seat() is Some,
        before@.of(from).backlog.len() == 0,
        0 <= other < before@.peers.len(),
        before@.peers[other].id != from,
        before@.peers[other].pulls(),
        before@.of(from).pull.manifest matches Some(offer) ==> vdisks_ascend(offer.vdisks) && leases_ascend(offer.leases) && 0 <= i < offer.vdisks.len() && 0 <= j
            < offer.leases.len() && offer.leases[j].0 == offer.vdisks[i].0,
    ensures
        ({
            let offer = before@.of(from).pull.manifest->Some_0;
            let (o, lease) = (offer.vdisks[i], offer.leases[j].1);
            let (was, is) = (before.engine(), after.engine());
            &&& lease.holder == from ==> {
                &&& is.vdisk_map().contains_key(o.0)
                &&& is.vdisk_map()[o.0].size_bytes == o.1 && is.vdisk_map()[o.0].tier == o.2 && is.vdisk_map()[o.0].root == o.3
                &&& is.lease_map().contains_key(o.0) && is.lease_map()[o.0] == lease
            }
            &&& lease.holder == before@.peers[other].id ==> {
                &&& is.vdisk_map().contains_key(o.0) <==> was.vdisk_map().contains_key(o.0)
                &&& was.vdisk_map().contains_key(o.0) ==> is.vdisk_map()[o.0].size_bytes == was.vdisk_map()[o.0].size_bytes && is.vdisk_map()[o.0].tier
                    == was.vdisk_map()[o.0].tier
                &&& is.lease_map().contains_key(o.0) <==> was.lease_map().contains_key(o.0)
                &&& was.lease_map().contains_key(o.0) ==> is.lease_map()[o.0] == was.lease_map()[o.0]
            }
        }),
{
    let v = before@;
    let offer = v.of(from).pull.manifest->Some_0;
    let (mid, flat) = lemma_placed_adoption(before, after, from, final_rseq, r);
    assert(others_pull(v, from));
    let o = offer.vdisks[i];
    let lease = offer.leases[j].1;
    let vdisks = spoken_vdisks(v, from, offer, offer.vdisks);
    let leases = spoken_leases(v, from, offer, offer.leases);
    lemma_spoken(v, from, offer, offer.vdisks, o);
    lemma_spoken_leases(v, from, offer, offer.leases, offer.leases[j]);
    law_a_named_adoption_replaces_what_it_names(
        &before.engine(),
        &mid,
        offer.era,
        vdisks,
        spoken_snapshots(v, from, offer, offer.snapshots),
        leases,
        Ok(()),
    );
    lemma_holder(offer.leases, o.0, j);
    assert(offer.vdisks.contains(o));
    assert(offer.leases.contains(offer.leases[j]));
    assert(crate::pool::sync::offers(offer.vdisks, o.0));
    if lease.holder == from {
        assert(speaks_for(v, from, offer, o.0));
        assert(vdisks.contains(o));
        let a = choose|a: int| 0 <= a < vdisks.len() && vdisks[a] == o;
        assert(mid.vdisk_map().contains_key(vdisks[a].0));
        assert(leases.contains(offer.leases[j]));
        let b = choose|b: int| 0 <= b < leases.len() && leases[b] == offer.leases[j];
        assert(mid.lease_map().contains_key(leases[b].0));
    } else if lease.holder == v.peers[other].id {
        before.lemma_node();
        lemma_slot_at(v.peers, other);
        assert(v.knows(lease.holder) && v.of(lease.holder).pulls());
        assert(!speaks_for(v, from, offer, o.0));
        assert forall|a: int| 0 <= a < vdisks.len() implies (#[trigger] vdisks[a]).0 != o.0 by {
            if vdisks[a].0 == o.0 {
                lemma_spoken(v, from, offer, offer.vdisks, vdisks[a]);
                assert(vdisks.contains(vdisks[a]));
            }
        }
        assert forall|b: int| 0 <= b < leases.len() implies (#[trigger] leases[b]).0 != o.0 by {
            if leases[b].0 == o.0 {
                assert(speaks_for(v, from, offer, leases[b].0));
            }
        }
        assert(mid.vdisk_map().contains_key(o.0) <==> before.engine().vdisk_map().contains_key(o.0));
        assert(mid.lease_map().contains_key(o.0) <==> before.engine().lease_map().contains_key(o.0));
    }
}

proof fn lemma_spoken_snapshots(v: NodeView, from: NodeId, offer: OfferView, s: Seq<SnapshotOffer>, o: SnapshotOffer)
    ensures
        spoken_snapshots(v, from, offer, s).contains(o) <==> s.contains(o) && speaks_for(v, from, offer, o.0),
        snapshots_ascend(s) ==> snapshots_ascend(spoken_snapshots(v, from, offer, s)),
        forall|i: int| 0 <= i < spoken_snapshots(v, from, offer, s).len() ==> s.contains(#[trigger] spoken_snapshots(v, from, offer, s)[i]) && speaks_for(
            v,
            from,
            offer,
            spoken_snapshots(v, from, offer, s)[i].0,
        ),
    decreases s.len(),
{
    if s.len() > 0 {
        let front = s.drop_last();
        let rest = spoken_snapshots(v, from, offer, front);
        let all = spoken_snapshots(v, from, offer, s);
        lemma_spoken_snapshots(v, from, offer, front, o);
        if s.contains(o) && speaks_for(v, from, offer, o.0) {
            let j = choose|j: int| 0 <= j < s.len() && s[j] == o;
            if j < front.len() {
                assert(front[j] == o);
                let k = choose|k: int| 0 <= k < rest.len() && rest[k] == o;
                assert(all[k] == o);
            } else {
                assert(all.last() == o);
            }
        }
        assert forall|i: int| 0 <= i < all.len() implies s.contains(#[trigger] all[i]) && speaks_for(v, from, offer, all[i].0) by {
            if i < rest.len() {
                assert(front.contains(rest[i]));
                let j = choose|j: int| 0 <= j < front.len() && front[j] == rest[i];
                assert(s[j] == all[i]);
            } else {
                assert(s[s.len() - 1] == all[i]);
            }
        }
        if all.contains(o) {
            let k = choose|k: int| 0 <= k < all.len() && all[k] == o;
            assert(s.contains(all[k]));
        }
        if snapshots_ascend(s) {
            assert forall|i: int, j: int| 0 <= i < j < front.len() implies (#[trigger] front[i]).0 < (#[trigger] front[j]).0 || (front[i].0 == front[j].0 && front[i].1
                < front[j].1) by {
                assert(s[i].0 < s[j].0 || (s[i].0 == s[j].0 && s[i].1 < s[j].1));
            }
            assert(snapshots_ascend(front));
            assert forall|i: int, j: int| 0 <= i < j < all.len() implies (#[trigger] all[i]).0 < (#[trigger] all[j]).0 || (all[i].0 == all[j].0 && all[i].1 < all[j].1) by {
                if j < rest.len() {
                    assert(rest[i].0 < rest[j].0 || (rest[i].0 == rest[j].0 && rest[i].1 < rest[j].1));
                } else {
                    assert(front.contains(rest[i]));
                    let k = choose|k: int| 0 <= k < front.len() && front[k] == rest[i];
                    assert(s[k].0 < s[s.len() - 1].0 || (s[k].0 == s[s.len() - 1].0 && s[k].1 < s[s.len() - 1].1));
                }
            }
        }
    }
}

/// The snapshots follow. While another session still pulls, a vdisk whose
/// lease the source holds has the snapshots the source offered of it, as
/// offered, and no others; and one whose lease another source holds, that
/// this node is pulling from too, has those it had.
pub proof fn law_a_placed_adoption_takes_the_snapshots<D: Disk>(
    before: &ReplNode<D>,
    after: &ReplNode<D>,
    from: NodeId,
    final_rseq: u64,
    r: Result<()>,
    other: int,
    i: int,
    j: int,
    snapshot: u64,
)
    requires
        before.inv(),
        heard(before, after, from, MessageView::SyncAdopt { final_rseq }, r),
        r is Ok,
        before.engine().seat() is Some,
        before@.of(from).backlog.len() == 0,
        0 <= other < before@.peers.len(),
        before@.peers[other].id != from,
        before@.peers[other].pulls(),
        before@.of(from).pull.manifest matches Some(offer) ==> snapshots_ascend(offer.snapshots) && leases_ascend(offer.leases) && 0 <= i < offer.vdisks.len() && 0 <= j
            < offer.leases.len() && offer.leases[j].0 == offer.vdisks[i].0,
    ensures
        ({
            let offer = before@.of(from).pull.manifest->Some_0;
            let (o, lease) = (offer.vdisks[i], offer.leases[j].1);
            let key = SnapshotId { vdisk: o.0, snapshot };
            let (was, is) = (before.engine().snapshot_map(), after.engine().snapshot_map());
            &&& lease.holder == from ==> {
                &&& is.contains_key(key) <==> exists|k: int| 0 <= k < offer.snapshots.len() && (#[trigger] offer.snapshots[k]).0 == o.0 && offer.snapshots[k].1 == snapshot
                &&& forall|k: int|
                    0 <= k < offer.snapshots.len() && (#[trigger] offer.snapshots[k]).0 == o.0 && offer.snapshots[k].1 == snapshot ==> is[key] == (SnapshotState {
                        size_bytes: offer.snapshots[k].2,
                        root: offer.snapshots[k].3,
                    })
            }
            &&& lease.holder == before@.peers[other].id ==> {
                &&& is.contains_key(key) <==> was.contains_key(key)
                &&& was.contains_key(key) ==> is[key] == was[key]
            }
        }),
{
    let v = before@;
    let offer = v.of(from).pull.manifest->Some_0;
    let (mid, flat) = lemma_placed_adoption(before, after, from, final_rseq, r);
    assert(others_pull(v, from));
    let o = offer.vdisks[i];
    let lease = offer.leases[j].1;
    let key = SnapshotId { vdisk: o.0, snapshot };
    let vdisks = spoken_vdisks(v, from, offer, offer.vdisks);
    let snapshots = spoken_snapshots(v, from, offer, offer.snapshots);
    let leases = spoken_leases(v, from, offer, offer.leases);
    lemma_spoken(v, from, offer, offer.vdisks, o);
    if snapshots_ascend(offer.snapshots) {
        lemma_spoken_snapshots(v, from, offer, offer.snapshots, offer.snapshots[0]);
    }
    law_a_named_adoption_replaces_the_snapshots(&before.engine(), &mid, offer.era, vdisks, snapshots, leases, Ok(()));
    lemma_holder(offer.leases, o.0, j);
    assert(offer.vdisks.contains(o));
    assert(crate::pool::sync::offers(offer.vdisks, o.0));
    if lease.holder == from {
        assert(speaks_for(v, from, offer, o.0));
        assert(vdisks.contains(o));
        let a = choose|a: int| 0 <= a < vdisks.len() && vdisks[a] == o;
        assert(vdisks[a].0 == key.vdisk);
        assert forall|k: int| 0 <= k < offer.snapshots.len() && (#[trigger] offer.snapshots[k]).0 == o.0 && offer.snapshots[k].1 == snapshot implies mid.snapshot_map().contains_key(
            key,
        ) && mid.snapshot_map()[key] == (SnapshotState { size_bytes: offer.snapshots[k].2, root: offer.snapshots[k].3 }) by {
            lemma_spoken_snapshots(v, from, offer, offer.snapshots, offer.snapshots[k]);
            assert(offer.snapshots.contains(offer.snapshots[k]));
            assert(snapshots.contains(offer.snapshots[k]));
            let b = choose|b: int| 0 <= b < snapshots.len() && snapshots[b] == offer.snapshots[k];
            assert(mid.snapshot_map().contains_key(SnapshotId { vdisk: snapshots[b].0, snapshot: snapshots[b].1 }));
        }
        if mid.snapshot_map().contains_key(key) {
            let b = choose|b: int| 0 <= b < snapshots.len() && (#[trigger] snapshots[b]).0 == key.vdisk && snapshots[b].1 == key.snapshot;
            assert(0 <= b < snapshots.len() && snapshots[b].0 == key.vdisk && snapshots[b].1 == key.snapshot);
            assert(offer.snapshots.contains(snapshots[b]));
            let k = choose|k: int| 0 <= k < offer.snapshots.len() && offer.snapshots[k] == snapshots[b];
            assert(offer.snapshots[k].0 == o.0);
        }
    } else if lease.holder == v.peers[other].id {
        before.lemma_node();
        lemma_slot_at(v.peers, other);
        assert(v.knows(lease.holder) && v.of(lease.holder).pulls());
        assert(!speaks_for(v, from, offer, o.0));
        assert forall|a: int| 0 <= a < vdisks.len() implies (#[trigger] vdisks[a]).0 != key.vdisk by {
            if vdisks[a].0 == o.0 {
                lemma_spoken(v, from, offer, offer.vdisks, vdisks[a]);
                assert(vdisks.contains(vdisks[a]));
            }
        }
        assert forall|b: int| 0 <= b < snapshots.len() implies !((#[trigger] snapshots[b]).0 == key.vdisk && snapshots[b].1 == key.snapshot) by {
            assert(speaks_for(v, from, offer, snapshots[b].0));
        }
        assert(mid.snapshot_map().contains_key(key) <==> before.engine().snapshot_map().contains_key(key));
    }
}

/// The adoption that ends the last pull clears the node of what no source
/// offered: a vdisk, its lease and its snapshots are gone where no offer had
/// the vdisk. A vdisk offered whose lease the source holds is as the source
/// offered it, and so is the lease.
pub proof fn law_the_last_placed_adoption_clears_the_rest<D: Disk>(
    before: &ReplNode<D>,
    after: &ReplNode<D>,
    from: NodeId,
    final_rseq: u64,
    r: Result<()>,
    i: int,
    j: int,
    id: u64,
    snapshot: u64,
)
    requires
        before.inv(),
        heard(before, after, from, MessageView::SyncAdopt { final_rseq }, r),
        r is Ok,
        before.engine().seat() is Some,
        before@.of(from).backlog.len() == 0,
        forall|k: int| 0 <= k < before@.peers.len() && (#[trigger] before@.peers[k]).id != from ==> !before@.peers[k].pulls(),
        before@.of(from).pull.manifest matches Some(offer) ==> vdisks_ascend(offer.vdisks) && leases_ascend(offer.leases) && 0 <= i < offer.vdisks.len() && 0 <= j
            < offer.leases.len() && offer.leases[j].0 == offer.vdisks[i].0,
    ensures
        !before@.offered.contains(id) ==> {
            &&& !after.engine().vdisk_map().contains_key(id)
            &&& !after.engine().lease_map().contains_key(id)
            &&& !after.engine().snapshot_map().contains_key(SnapshotId { vdisk: id, snapshot })
        },
        ({
            let offer = before@.of(from).pull.manifest->Some_0;
            let (o, lease) = (offer.vdisks[i], offer.leases[j].1);
            let is = after.engine();
            lease.holder == from && before@.offered.contains(o.0) ==> {
                &&& is.vdisk_map().contains_key(o.0)
                &&& is.vdisk_map()[o.0].size_bytes == o.1 && is.vdisk_map()[o.0].tier == o.2
                &&& is.lease_map().contains_key(o.0) && is.lease_map()[o.0] == lease
            }
        }),
{
    let v = before@;
    let offer = v.of(from).pull.manifest->Some_0;
    let (mid, flat) = lemma_placed_adoption(before, after, from, final_rseq, r);
    assert(!others_pull(v, from));
    let o = offer.vdisks[i];
    let lease = offer.leases[j].1;
    let vdisks = spoken_vdisks(v, from, offer, offer.vdisks);
    let leases = spoken_leases(v, from, offer, offer.leases);
    law_what_is_not_kept_is_gone(&flat, &after.engine(), v.offered, r, id, snapshot);
    law_what_is_not_kept_is_gone(&flat, &after.engine(), v.offered, r, o.0, snapshot);
    lemma_spoken(v, from, offer, offer.vdisks, o);
    lemma_spoken_leases(v, from, offer, offer.leases, offer.leases[j]);
    law_a_named_adoption_replaces_what_it_names(
        &before.engine(),
        &mid,
        offer.era,
        vdisks,
        spoken_snapshots(v, from, offer, offer.snapshots),
        leases,
        Ok(()),
    );
    lemma_holder(offer.leases, o.0, j);
    assert(offer.vdisks.contains(o));
    assert(offer.leases.contains(offer.leases[j]));
    assert(crate::pool::sync::offers(offer.vdisks, o.0));
    if lease.holder == from {
        assert(speaks_for(v, from, offer, o.0));
        assert(vdisks.contains(o));
        let a = choose|a: int| 0 <= a < vdisks.len() && vdisks[a] == o;
        assert(mid.vdisk_map().contains_key(vdisks[a].0));
        assert(leases.contains(offer.leases[j]));
        let b = choose|b: int| 0 <= b < leases.len() && leases[b] == offer.leases[j];
        assert(mid.lease_map().contains_key(leases[b].0));
    }
}

} // verus!
