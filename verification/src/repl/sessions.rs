//! How the session with a peer goes: hello, offer, hand-over, loss and fence.

use super::flush::{forgiven, needs_left, unmet};
use super::handle::heard;
use super::link::{
    announced, era_turned, failures, greeted, hello, highest_era, inventory, law_verdict_era_clears_all, member_fenced, peer_gone, reissued, released, riding,
    unsaid, version_of,
};
use super::resync::{data_taken, lemma_opened, lemma_with, offer_cut, other_pulling, progressed, reopened, sources, walked_on};
use super::wire::{EffectView, MessageView, OfferView};
use super::{lemma_slot_at, lemma_slot_range, slot_of, FlushView, NodeView, PullView, ReplNode, ReplState, SessionView};
use crate::brick_set::ops::tier_exists;
use crate::disk::Disk;
use crate::error::{FsError, Result};
use crate::hash::address_of;
use crate::pool::checkpoint::checkpointed;
use crate::pool::sync::{pinned_roots, snapshot_offer, vdisk_offer};
use crate::pool::{Lease, Pool};
use crate::slice::NodeId;
use crate::table::SnapshotId;
use vstd::prelude::*;

verus! {

/// What a hello does. Where the two slice maps have one version, the session
/// starts afresh: its stream and what it owed are gone, it is fenced no
/// longer, and the node with the higher era, or of two with one era the one
/// with the lower id, is the source; the other asks for the sync. A source
/// goes on serving exactly where its era is the higher. Where this node's map
/// is newer, the peer is sent it and greeted again; where the peer's is, this
/// node says nothing. The tables are left alone.
pub proof fn law_a_hello_elects_the_source<D: Disk>(
    before: &ReplNode<D>,
    after: &ReplNode<D>,
    from: NodeId,
    era: u64,
    peer: NodeId,
    tiers: Seq<u8>,
    map_version: u64,
    r: Result<()>,
)
    requires
        before.inv(),
        heard(before, after, from, MessageView::Hello { era, node: peer, tiers, map_version }, r),
    ensures
        r is Ok,
        after.engine().vdisk_map() == before.engine().vdisk_map(),
        after.engine().snapshot_map() == before.engine().snapshot_map(),
        after.engine().lease_map() == before.engine().lease_map(),
        after.engine().era_now() == before.engine().era_now(),
        after.engine().stock() == before.engine().stock(),
        after@.knows(peer),
        after@.parked == before@.parked,
        map_version == version_of(&before.engine()) ==> {
            let s = after@.of(peer);
            let mine = before.engine().era_now();
            let leads = mine > era || (mine == era && before@.node < peer);
            &&& s.state == ReplState::Resyncing { source: leads }
            &&& s.serving_source <==> mine > era
            &&& !s.stream_live && !s.fenced
            &&& s.next_rseq == 1 && s.durable_rseq == 0 && s.required_rseq == 0 && s.applied_rseq == 0
            &&& s.backlog.len() == 0
            &&& s.tiers == tiers
            &&& s.era_seen >= era
            &&& before@.knows(peer) ==> s.era_seen >= before@.of(peer).era_seen
            &&& before@.knows(peer) && before@.of(peer).generation < u64::MAX ==> s.generation > before@.of(peer).generation
            &&& after@.queue == if leads {
                before@.queue
            } else {
                before@.queue.push(EffectView::Send(peer, MessageView::SyncStart))
            }
            &&& !after.engine().pin_map().contains_key(peer as u64)
        },
        map_version < version_of(&before.engine()) ==> {
            &&& after@.queue.len() == before@.queue.len() + 2
            &&& after@.queue[before@.queue.len() as int] == EffectView::Send(
                peer,
                MessageView::MapIs { version: version_of(&before.engine()), pairs: before.engine().seat()->Some_0.1.table() },
            )
            &&& after@.queue.last() is Send && after@.queue.last()->Send_0 == peer && after@.queue.last()->Send_1 is Hello
        },
        map_version > version_of(&before.engine()) ==> after@.queue == before@.queue,
{
    before.lemma_node();
    let v = before@;
    lemma_opened(v, peer);
    let open = v.opened(peer);
    let mine = version_of(&before.engine());
    if map_version == mine {
        let my_era = before.engine().era_now();
        let leads = my_era > era || (my_era == era && v.node < peer);
        let s = reopened(open.of(peer), era, tiers, leads, my_era > era);
        lemma_with::<D>(open, peer, s);
    } else if map_version < mine {
        let told = open.tells(peer, MessageView::MapIs { version: mine, pairs: before.engine().seat()->Some_0.1.table() });
        assert(told.knows(peer));
        assert(told.opened(peer) == told);
        let mine_tiers = choose|t: Seq<u8>| #[trigger] inventory(&before.engine(), t) && after@ == told.opened(peer).tells(peer, hello(&before.engine(), v.node, t));
    }
}

/// What a greeting says: this node's era, its id, its map's version and the
/// tiers its bricks are of, each once and in order.
pub proof fn law_a_greeting_says_who_this_is<D: Disk>(v: NodeView, after: NodeView, pool: &Pool<D>, peer: NodeId)
    requires
        greeted(v, after, pool, peer),
    ensures
        after.queue.len() == v.queue.len() + 1,
        after.queue.last() is Send,
        after.queue.last()->Send_0 == peer,
        after.queue.last()->Send_1 matches MessageView::Hello { era, node, tiers, map_version } && {
            &&& era == pool.era_now()
            &&& node == v.node
            &&& map_version == match pool.seat() {
                Some((_, map)) => map.at_version(),
                None => 0,
            }
            &&& forall|t: u8| #[trigger] tiers.contains(t) <==> tier_exists(pool.stock().members(), t)
            &&& forall|i: int, j: int| 0 <= i < j < tiers.len() ==> #[trigger] tiers[i] < #[trigger] tiers[j]
        },
{
    let tiers = choose|t: Seq<u8>| #[trigger] inventory(pool, t) && after == v.opened(peer).tells(peer, hello(pool, v.node, t));
    assert(after.queue.last() == EffectView::Send(peer, hello(pool, v.node, tiers)));
}

/// A source that is asked to start folds everything and puts it on stable
/// storage, and offers just what it then has: every vdisk, every snapshot and
/// every lease, and none besides. Its tables are as they were. From there on
/// its operations stream exactly where it kept serving.
pub proof fn law_an_offer_is_all_there_is<D: Disk>(before: &ReplNode<D>, after: &ReplNode<D>, from: NodeId, r: Result<()>)
    requires
        before.inv(),
        heard(before, after, from, MessageView::SyncStart, r),
        before@.knows(from),
    ensures
        before@.of(from).state != (ReplState::Resyncing { source: true }) ==> r is Err && after@ == before@ && after.engine() == before.engine(),
        r is Err ==> after@.queue == before@.queue,
        after.engine().lease_map() == before.engine().lease_map(),
        after.engine().snapshot_map() == before.engine().snapshot_map(),
        after.engine().vdisk_map().dom() == before.engine().vdisk_map().dom(),
        r is Ok ==> {
            &&& after.engine().stock().durable()
            &&& after@.of(from).stream_live == before@.of(from).serving_source
            &&& after@.queue.len() == before@.queue.len() + 1
            &&& after@.queue.last() is Send && after@.queue.last()->Send_0 == from
            &&& after@.queue.last()->Send_1 matches MessageView::SyncManifest(offer) && {
                let pool = after.engine();
                &&& offer.era == pool.era_now()
                &&& forall|i: int|
                    0 <= i < offer.vdisks.len() ==> pool.vdisk_map().contains_key((#[trigger] offer.vdisks[i]).0) && offer.vdisks[i].1 == pool.vdisk_map()[offer.vdisks[i].0].size_bytes
                        && offer.vdisks[i].2 == pool.vdisk_map()[offer.vdisks[i].0].tier && offer.vdisks[i].3 == pool.vdisk_map()[offer.vdisks[i].0].root
                &&& forall|id: u64| #[trigger]
                    pool.vdisk_map().contains_key(id) ==> pool.vdisk_map()[id].dirty.dom().is_empty() && exists|i: int|
                        0 <= i < offer.vdisks.len() && (#[trigger] offer.vdisks[i]).0 == id
                &&& forall|i: int|
                    0 <= i < offer.snapshots.len() ==> pool.snapshot_map().contains_key(
                        SnapshotId { vdisk: (#[trigger] offer.snapshots[i]).0, snapshot: offer.snapshots[i].1 },
                    ) && pool.snapshot_map()[SnapshotId { vdisk: offer.snapshots[i].0, snapshot: offer.snapshots[i].1 }].size_bytes == offer.snapshots[i].2
                        && pool.snapshot_map()[SnapshotId { vdisk: offer.snapshots[i].0, snapshot: offer.snapshots[i].1 }].root == offer.snapshots[i].3
                &&& forall|key: SnapshotId| #[trigger]
                    pool.snapshot_map().contains_key(key) ==> exists|i: int|
                        0 <= i < offer.snapshots.len() && (#[trigger] offer.snapshots[i]).0 == key.vdisk && offer.snapshots[i].1 == key.snapshot
                &&& forall|i: int|
                    0 <= i < offer.leases.len() ==> pool.lease_map().contains_key((#[trigger] offer.leases[i]).0) && pool.lease_map()[offer.leases[i].0]
                        == offer.leases[i].1
                &&& forall|id: u64| #[trigger] pool.lease_map().contains_key(id) ==> exists|i: int| 0 <= i < offer.leases.len() && (#[trigger] offer.leases[i]).0 == id
            }
        },
{
    before.lemma_node();
    let v = before@;
    if v.of(from).state == (ReplState::Resyncing { source: true }) {
        let (mid, c) = choose|mid: Pool<D>, c: Result<()>| #[trigger]
            checkpointed(&before.engine(), &mid, c) && match c {
                Err(e) => r == Err::<(), FsError>(e) && after.engine() == mid && after@ == before@,
                Ok(_) => r is Ok && exists|offer: OfferView| #[trigger] offer_cut(before, &mid, after, from, offer),
            };
        if c is Ok {
            let offer = choose|offer: OfferView| #[trigger] offer_cut(before, &mid, after, from, offer);
            let pool = after.engine();
            let s = v.of(from);
            lemma_with::<D>(v, from, SessionView { stream_live: s.serving_source, ..s });
            assert(after@.queue.last() == EffectView::Send(from, MessageView::SyncManifest(offer)));
            assert forall|i: int| 0 <= i < offer.vdisks.len() implies pool.vdisk_map().contains_key((#[trigger] offer.vdisks[i]).0) && offer.vdisks[i].1
                == pool.vdisk_map()[offer.vdisks[i].0].size_bytes && offer.vdisks[i].2 == pool.vdisk_map()[offer.vdisks[i].0].tier && offer.vdisks[i].3
                == pool.vdisk_map()[offer.vdisks[i].0].root by {
                assert(offer.vdisks[i] == vdisk_offer(mid.vdisk_map(), offer.vdisks[i].0));
            }
            assert forall|id: u64| #[trigger] pool.vdisk_map().contains_key(id) implies pool.vdisk_map()[id].dirty.dom().is_empty() && exists|i: int|
                0 <= i < offer.vdisks.len() && (#[trigger] offer.vdisks[i]).0 == id by {
                assert(mid.vdisk_map().contains_key(id));
                assert(offer.vdisks.contains(vdisk_offer(mid.vdisk_map(), id)));
                let i = choose|i: int| 0 <= i < offer.vdisks.len() && offer.vdisks[i] == vdisk_offer(mid.vdisk_map(), id);
                assert(offer.vdisks[i].0 == id);
                assert(mid.vdisk_map()[id].dirty.dom() =~= Set::empty());
            }
            assert forall|i: int| 0 <= i < offer.snapshots.len() implies pool.snapshot_map().contains_key(
                SnapshotId { vdisk: (#[trigger] offer.snapshots[i]).0, snapshot: offer.snapshots[i].1 },
            ) && pool.snapshot_map()[SnapshotId { vdisk: offer.snapshots[i].0, snapshot: offer.snapshots[i].1 }].size_bytes == offer.snapshots[i].2
                && pool.snapshot_map()[SnapshotId { vdisk: offer.snapshots[i].0, snapshot: offer.snapshots[i].1 }].root == offer.snapshots[i].3 by {
                assert(crate::pool::sync::snapshot_offered(mid.snapshot_map(), offer.snapshots[i]));
            }
            assert forall|key: SnapshotId| #[trigger] pool.snapshot_map().contains_key(key) implies exists|i: int|
                0 <= i < offer.snapshots.len() && (#[trigger] offer.snapshots[i]).0 == key.vdisk && offer.snapshots[i].1 == key.snapshot by {
                assert(mid.snapshot_map().contains_key(key));
                assert(offer.snapshots.contains(snapshot_offer(mid.snapshot_map(), key)));
                let i = choose|i: int| 0 <= i < offer.snapshots.len() && offer.snapshots[i] == snapshot_offer(mid.snapshot_map(), key);
                assert(offer.snapshots[i].0 == key.vdisk);
            }
            assert forall|i: int| 0 <= i < offer.leases.len() implies pool.lease_map().contains_key((#[trigger] offer.leases[i]).0) && pool.lease_map()[offer.leases[i].0]
                == offer.leases[i].1 by {
                assert(mid.lease_map().contains_pair(offer.leases[i].0, offer.leases[i].1));
            }
            assert forall|id: u64| #[trigger] pool.lease_map().contains_key(id) implies exists|i: int|
                0 <= i < offer.leases.len() && (#[trigger] offer.leases[i]).0 == id by {
                assert(mid.lease_map().contains_key(id));
                assert(offer.leases.contains((id, mid.lease_map()[id])));
                let i = choose|i: int| 0 <= i < offer.leases.len() && offer.leases[i] == (id, mid.lease_map()[id]);
                assert(offer.leases[i].0 == id);
            }
        }
    }
}

/// A target that is ready is told to adopt, up to the last operation it was
/// sent; the source serves no longer until the target is done. Only a source
/// gives this leave.
pub proof fn law_leave_to_adopt_names_the_stream<D: Disk>(before: &ReplNode<D>, after: &ReplNode<D>, from: NodeId, r: Result<()>)
    requires
        before.inv(),
        heard(before, after, from, MessageView::SyncReady, r),
        before@.knows(from),
    ensures
        after.engine() == before.engine(),
        r is Ok <==> before@.of(from).state == (ReplState::Resyncing { source: true }),
        r is Err ==> after@ == before@,
        r is Ok ==> {
            &&& after@.queue == before@.queue.push(
                EffectView::Send(from, MessageView::SyncAdopt { final_rseq: (before@.of(from).next_rseq - 1) as u64 }),
            )
            &&& !after@.of(from).serving_source
            &&& after@.of(from).next_rseq == before@.of(from).next_rseq
            &&& after@.of(from).state == before@.of(from).state
        },
{
    before.lemma_node();
    let s = before@.of(from);
    lemma_with::<D>(before@, from, SessionView { serving_source: false, ..s });
}

proof fn lemma_none_left(needs: Seq<(NodeId, u64, u64)>, peer: NodeId, j: int)
    requires
        0 <= j < needs_left(needs, peer, None).len(),
    ensures
        needs_left(needs, peer, None)[j].0 != peer,
    decreases needs.len(),
{
    if needs.len() > 0 {
        let rest = needs_left(needs.drop_last(), peer, None);
        if j < rest.len() {
            lemma_none_left(needs.drop_last(), peer, j);
        }
    }
}

proof fn lemma_unmet_from(parked: Seq<FlushView>, k: int)
    requires
        0 <= k < unmet(parked).len(),
    ensures
        exists|i: int| 0 <= i < parked.len() && #[trigger] parked[i] == unmet(parked)[k],
    decreases parked.len(),
{
    if parked.len() > 0 {
        let front = parked.drop_last();
        if k < unmet(front).len() {
            lemma_unmet_from(front, k);
            let i = choose|i: int| 0 <= i < front.len() && #[trigger] front[i] == unmet(front)[k];
            assert(parked[i] == unmet(parked)[k]);
        } else {
            assert(parked[parked.len() - 1] == unmet(parked)[k]);
        }
    }
}

/// No flush that is left parked waits for a peer whose part was forgiven.
pub proof fn law_forgiven_peers_hold_up_no_flush(v: NodeView, peer: NodeId, k: int, j: int)
    requires
        0 <= k < v.forgiving(peer, None).parked.len(),
        0 <= j < v.forgiving(peer, None).parked[k].needs.len(),
    ensures
        v.forgiving(peer, None).parked[k].needs[j].0 != peer,
        v.forgiving(peer, None).peers == v.peers,
{
    let left = Seq::new(v.parked.len(), |i: int| FlushView { ticket: v.parked[i].ticket, needs: needs_left(v.parked[i].needs, peer, None) });
    let mid = NodeView { parked: left, ..v };
    assert(v.forgiving(peer, None) == mid.settled());
    if mid.serving() {
        lemma_unmet_from(left, k);
        let i = choose|i: int| 0 <= i < left.len() && #[trigger] left[i] == unmet(left)[k];
        lemma_none_left(v.parked[i].needs, peer, j);
    } else {
        lemma_none_left(v.parked[k].needs, peer, j);
    }
}

/// A target that says it is done is in step: the source counts it as synced,
/// keeps no root pinned for it, and no parked flush waits for it any more.
/// The tables are left alone, and so is the stream.
pub proof fn law_a_target_that_is_done_is_in_step<D: Disk>(before: &ReplNode<D>, after: &ReplNode<D>, from: NodeId, era: u64, r: Result<()>, k: int, j: int)
    requires
        before.inv(),
        heard(before, after, from, MessageView::SyncDone { era }, r),
        before@.knows(from),
    ensures
        r is Ok,
        after@.of(from).state == ReplState::Synced,
        !after@.of(from).serving_source && !after@.of(from).stream_live,
        after@.of(from).next_rseq == before@.of(from).next_rseq,
        pinned_roots(&after.engine(), from).len() == 0,
        after.engine().vdisk_map() == before.engine().vdisk_map(),
        after.engine().lease_map() == before.engine().lease_map(),
        after.engine().stock() == before.engine().stock(),
        0 <= k < after@.parked.len() && 0 <= j < after@.parked[k].needs.len() ==> after@.parked[k].needs[j].0 != from,
{
    before.lemma_node();
    let s = before@.of(from);
    let next = SessionView { state: ReplState::Synced, serving_source: false, stream_live: false, ..s };
    lemma_with::<D>(before@, from, next);
    if 0 <= k < after@.parked.len() && 0 <= j < after@.parked[k].needs.len() {
        law_forgiven_peers_hold_up_no_flush(before@.with(from, next), from, k, j);
    }
}

/// Blocks that come in answer to a pull are stored on the tiers they name,
/// under the addresses of their bytes. A pull that has all it needs says it
/// is ready, or asks for the last of it; one that has not says no such thing.
pub proof fn law_pulled_blocks_are_stored<D: Disk>(before: &ReplNode<D>, after: &ReplNode<D>, from: NodeId, blocks: Seq<(u8, Seq<u8>)>, r: Result<()>)
    requires
        before.inv(),
        heard(before, after, from, MessageView::SyncData(blocks), r),
        before@.knows(from),
    ensures
        !before@.of(from).pulls() ==> r is Err && after@ == before@ && after.engine() == before.engine(),
        r is Ok ==> forall|i: int|
            0 <= i < blocks.len() ==> after.engine().holds((#[trigger] blocks[i]).0).contains(address_of(blocks[i].1)) && after.engine().promised(blocks[i].0).contains(
                (address_of(blocks[i].1), blocks[i].1),
            ),
        after.engine().vdisk_map() == before.engine().vdisk_map(),
        after.engine().lease_map() == before.engine().lease_map(),
        r is Ok && after@.of(from).pull.complete() ==> after@.queue.len() == before@.queue.len() + 1 && after@.queue.last() is Send && after@.queue.last()->Send_0 == from && (
        after@.queue.last()->Send_1 is SyncReady || after@.queue.last()->Send_1 is SyncNeed),
        r is Ok && !after@.of(from).pull.complete() ==> !(after@.queue.len() > before@.queue.len() && after@.queue.last() == EffectView::Send(
            from,
            MessageView::SyncReady,
        )),
{
    before.lemma_node();
    let v = before@;
    let s = v.of(from);
    if s.pulls() {
        let (mid, n) = choose|mid: Pool<D>, n: nat| #[trigger] data_taken(before, &mid, after, from, blocks, n, r);
        if n == blocks.len() {
            let took = super::resync::arrivals(s.pull, blocks, n);
            let w = v.with(from, SessionView { pull: took, ..s });
            lemma_with::<D>(v, from, SessionView { pull: took, ..s });
            let p = choose|p: PullView| #[trigger] walked_on(w, after@, &mid, from, p, r);
            let x = w.with(from, SessionView { pull: p, ..w.of(from) });
            lemma_with::<D>(w, from, SessionView { pull: p, ..w.of(from) });
            if r is Ok {
                assert(after@ == progressed(x, from));
                if !p.complete() && super::pull::batch_due(p) {
                    let q = SessionView { pull: super::pull::after_asking(p), ..x.of(from) };
                    lemma_with::<D>(x, from, q);
                    assert(after@.queue.last() is Send && after@.queue.last()->Send_1 is SyncNeed);
                }
                assert forall|i: int| 0 <= i < blocks.len() implies after.engine().holds((#[trigger] blocks[i]).0).contains(address_of(blocks[i].1))
                    && after.engine().promised(blocks[i].0).contains((address_of(blocks[i].1), blocks[i].1)) by {
                    assert(super::resync::brought(blocks, n, blocks[i].0, address_of(blocks[i].1)));
                }
            }
        }
    }
}

proof fn lemma_unsaid(queue: Seq<EffectView>, peer: NodeId, e: EffectView)
    ensures
        unsaid(queue, peer).contains(e) <==> queue.contains(e) && !(e is Send && e->Send_0 == peer),
    decreases queue.len(),
{
    if queue.len() > 0 {
        let front = queue.drop_last();
        let rest = unsaid(front, peer);
        let all = unsaid(queue, peer);
        lemma_unsaid(front, peer, e);
        if all.contains(e) {
            let j = choose|j: int| 0 <= j < all.len() && all[j] == e;
            if j < rest.len() {
                assert(rest[j] == e);
                let i = choose|i: int| 0 <= i < front.len() && front[i] == e;
                assert(queue[i] == e);
            } else {
                assert(queue[queue.len() - 1] == e);
            }
        }
        if queue.contains(e) && !(e is Send && e->Send_0 == peer) {
            let i = choose|i: int| 0 <= i < queue.len() && queue[i] == e;
            if i < front.len() {
                assert(front[i] == e);
                let j = choose|j: int| 0 <= j < rest.len() && rest[j] == e;
                assert(all[j] == e);
            } else {
                assert(all.last() == e);
            }
        }
    }
}

/// When a peer is lost, its session is suspended and its stream ends: nothing
/// said to it is left to send, and nothing else that was said is dropped. The
/// reads it was asked for fail, and no other read does; moves it was the
/// source of may be asked for again.
pub proof fn law_a_lost_peer_is_let_go(v: NodeView, after: NodeView, peer: NodeId, e: EffectView, ticket: u64, key: crate::table::TierHash)
    requires
        super::ids_ascend(v.peers),
        peer_gone(v, after, peer),
    ensures
        after.knows(peer),
        after.of(peer).state == ReplState::Suspended,
        !after.of(peer).streams(),
        !after.of(peer).accounted_for() || after.of(peer).fenced,
        after.of(peer).backlog.len() == 0,
        after.of(peer).pull.manifest is None,
        v.knows(peer) ==> after.of(peer).fenced == v.of(peer).fenced && after.of(peer).required_rseq == v.of(peer).required_rseq && after.of(peer).durable_rseq
            == v.of(peer).durable_rseq && after.of(peer).era_seen == v.of(peer).era_seen,
        v.knows(peer) && v.of(peer).generation < u64::MAX ==> after.of(peer).generation == v.of(peer).generation + 1,
        e is Send && e->Send_0 == peer ==> !after.queue.contains(e),
        v.queue.contains(e) && !(e is Send && e->Send_0 == peer) ==> after.queue.contains(e),
        after.reads.contains_key(ticket) <==> v.reads.contains_key(ticket) && v.reads[ticket].target != peer,
        v.reads.contains_key(ticket) && v.reads[ticket].target == peer ==> after.queue.contains(EffectView::ReadFailed(ticket)),
        after.moving.contains_key(key) <==> v.moving.contains_key(key) && v.moving[key] != peer,
        after.parked == v.parked,
        after.fetched == v.fetched,
{
    let quiet = NodeView { queue: unsaid(v.queue, peer), ..v }.opened(peer);
    let tickets = choose|tickets: Seq<u64>| #[trigger]
        riding(v.reads, peer, tickets) && after == (NodeView {
            queue: quiet.queue + failures(tickets),
            reads: v.reads.remove_keys(tickets.to_set()),
            moving: super::link::moves_left(v.moving, peer),
            ..quiet.with(peer, super::link::lost(quiet.of(peer)))
        });
    lemma_opened(NodeView { queue: unsaid(v.queue, peer), ..v }, peer);
    lemma_with::<crate::sim::SimDisk>(quiet, peer, super::link::lost(quiet.of(peer)));
    lemma_unsaid(v.queue, peer, e);
    if after.queue.contains(e) && e is Send && e->Send_0 == peer {
        let j = choose|j: int| 0 <= j < after.queue.len() && after.queue[j] == e;
        if j < quiet.queue.len() {
            assert(unsaid(v.queue, peer)[j] == e);
        } else {
            assert(failures(tickets)[j - quiet.queue.len()] == e);
        }
    }
    if v.queue.contains(e) && !(e is Send && e->Send_0 == peer) {
        let j = choose|j: int| 0 <= j < unsaid(v.queue, peer).len() && unsaid(v.queue, peer)[j] == e;
        assert(after.queue[j] == e);
    }
    assert(tickets.to_set().contains(ticket) <==> tickets.contains(ticket));
    if v.reads.contains_key(ticket) && v.reads[ticket].target == peer {
        assert(tickets.contains(ticket));
        let j = choose|j: int| 0 <= j < tickets.len() && tickets[j] == ticket;
        assert(after.queue[quiet.queue.len() + j] == failures(tickets)[j]);
    }
}

proof fn lemma_released_all(leases: Map<u64, Lease>, ids: Seq<u64>, lease: Lease, n: nat, id: u64)
    requires
        n <= ids.len(),
    ensures
        (exists|i: int| 0 <= i < n && #[trigger] ids[i] == id) ==> released(leases, ids, lease, n).contains_key(id) && released(leases, ids, lease, n)[id] == lease,
        !(exists|i: int| 0 <= i < n && #[trigger] ids[i] == id) ==> (released(leases, ids, lease, n).contains_key(id) <==> leases.contains_key(id)) && (leases.contains_key(
            id,
        ) ==> released(leases, ids, lease, n)[id] == leases[id]),
    decreases n,
{
    if n > 0 {
        lemma_released_all(leases, ids, lease, (n - 1) as nat, id);
        if ids[n - 1] != id && (exists|i: int| 0 <= i < n && #[trigger] ids[i] == id) {
            let i = choose|i: int| 0 <= i < n && #[trigger] ids[i] == id;
            assert(i < n - 1);
        }
    }
}

proof fn lemma_announced(v: NodeView, ids: Seq<u64>, lease: Lease, n: nat, i: int)
    requires
        n <= ids.len(),
    ensures
        announced(v, ids, lease, n).peers.len() == v.peers.len(),
        0 <= i < v.peers.len() ==> announced(v, ids, lease, n).peers[i].id == v.peers[i].id && announced(v, ids, lease, n).peers[i].fenced == v.peers[i].fenced,
        announced(v, ids, lease, n).parked == v.parked,
    decreases n,
{
    if n > 0 {
        lemma_announced(v, ids, lease, (n - 1) as nat, i);
    }
}

/// A fence verdict is carried out for a lost peer that is not fenced yet, in
/// an era above this node's own and above every era a peer has shown. The
/// peer is fenced, the pool is in that era, and of the leases just this
/// node's own are held in it: they stay this node's, and every other is left
/// as it was, of an era gone by. No parked flush waits for the peer any more.
pub proof fn law_a_fence_moves_the_era_on<D: Disk>(
    before: &ReplNode<D>,
    after: &ReplNode<D>,
    peer: NodeId,
    era: u64,
    r: Result<()>,
    i: int,
    id: u64,
    k: int,
    j: int,
)
    requires
        before.inv(),
        member_fenced(before, after, peer, era, r),
        r is Ok,
        before.engine().era_now() < u64::MAX,
        forall|p: int| 0 <= p < before@.peers.len() ==> (#[trigger] before@.peers[p]).era_seen < u64::MAX,
    ensures
        before@.knows(peer) ==> before@.of(peer).state == ReplState::Suspended && !before@.of(peer).fenced,
        era > before.engine().era_now(),
        0 <= i < before@.peers.len() ==> era > before@.peers[i].era_seen,
        after@.knows(peer),
        after@.of(peer).fenced,
        after.engine().era_now() == era,
        after.engine().vdisk_map().dom() == before.engine().vdisk_map().dom(),
        after.engine().snapshot_map() == before.engine().snapshot_map(),
        after.engine().lease_map().contains_key(id) <==> before.engine().lease_map().contains_key(id),
        before.engine().lease_map().contains_key(id) ==> after.engine().lease_map()[id] == if before.engine().lease_map()[id].holder == before@.node {
            Lease { holder: before@.node, handing_to: None, era }
        } else {
            before.engine().lease_map()[id]
        },
        0 <= k < after@.parked.len() && 0 <= j < after@.parked[k].needs.len() ==> after@.parked[k].needs[j].0 != peer,
{
    before.lemma_node();
    let v0 = before@;
    lemma_opened(v0, peer);
    let open = v0.opened(peer);
    let s = SessionView { fenced: true, ..open.of(peer) };
    let v = open.with(peer, s);
    lemma_with::<D>(open, peer, s);
    lemma_highest(before.engine().era_now(), v0.peers);
    if 0 <= i < v0.peers.len() {
        law_verdict_era_clears_all(v0, before.engine().era_now(), peer, era, i);
    }
    assert(era > before.engine().era_now());
    let (mid, bumped, c) = choose|mid: Pool<D>, bumped: Pool<D>, c: Result<()>| #[trigger]
        era_turned(&before.engine(), &mid, &bumped, era, c) && match c {
            Err(e) => r == Err::<(), FsError>(e) && after.engine() == bumped && after@ == v,
            Ok(_) => exists|ids: Seq<u64>, told: nat| #[trigger] reissued(v, &bumped, &after.engine(), after@, ids, told, r, peer),
        };
    let (ids, told) = choose|ids: Seq<u64>, told: nat| #[trigger] reissued(v, &bumped, &after.engine(), after@, ids, told, r, peer);
    let lease = Lease { holder: v.node, handing_to: None, era };
    lemma_released_all(bumped.lease_map(), ids, lease, told, id);
    if bumped.lease_map().contains_key(id) && bumped.lease_map()[id].holder == v.node {
        assert(ids.contains(id));
        let a = choose|a: int| 0 <= a < ids.len() && ids[a] == id;
        assert(ids[a] == id);
    } else {
        if exists|a: int| 0 <= a < told && #[trigger] ids[a] == id {
            assert(ids.contains(id));
        }
    }
    let said = announced(v, ids, lease, told);
    let slot = slot_of(v.peers, peer);
    lemma_slot_range(v.peers, peer);
    lemma_announced(v, ids, lease, told, slot);
    lemma_same_slot(v, ids, lease, told, peer);
    assert(after@ == said.forgiving(peer, None));
    if 0 <= k < after@.parked.len() && 0 <= j < after@.parked[k].needs.len() {
        law_forgiven_peers_hold_up_no_flush(said, peer, k, j);
    }
    assert(after@.peers == said.peers);
}

proof fn lemma_same_slot(v: NodeView, ids: Seq<u64>, lease: Lease, n: nat, peer: NodeId)
    requires
        n <= ids.len(),
        super::ids_ascend(v.peers),
        v.knows(peer),
    ensures
        slot_of(announced(v, ids, lease, n).peers, peer) == slot_of(v.peers, peer),
{
    let w = announced(v, ids, lease, n);
    let slot = slot_of(v.peers, peer);
    lemma_slot_range(v.peers, peer);
    assert forall|a: int, b: int| 0 <= a < b < w.peers.len() implies (#[trigger] w.peers[a]).id < (#[trigger] w.peers[b]).id by {
        lemma_announced(v, ids, lease, n, a);
        lemma_announced(v, ids, lease, n, b);
        assert(v.peers[a].id < v.peers[b].id);
    }
    lemma_announced(v, ids, lease, n, slot);
    super::lemma_slot_at(w.peers, slot);
}

proof fn lemma_highest(floor: u64, peers: Seq<SessionView>)
    requires
        floor < u64::MAX,
        forall|p: int| 0 <= p < peers.len() ==> (#[trigger] peers[p]).era_seen < u64::MAX,
    ensures
        floor <= highest_era(floor, peers) < u64::MAX,
    decreases peers.len(),
{
    if peers.len() > 0 {
        let front = peers.drop_last();
        assert forall|p: int| 0 <= p < front.len() implies (#[trigger] front[p]).era_seen < u64::MAX by {
            assert(peers[p].era_seen < u64::MAX);
        }
        assert(peers[peers.len() - 1].era_seen < u64::MAX);
        lemma_highest(floor, front);
    }
}

/// A node that begins to pull remembers what was offered to it only where
/// another pull is still under way: the first pull starts with no offer, and
/// a later one keeps those of the others.
pub proof fn law_a_first_pull_forgets_old_offers<D: Disk>(
    before: &ReplNode<D>,
    after: &ReplNode<D>,
    from: NodeId,
    era: u64,
    peer: NodeId,
    tiers: Seq<u8>,
    r: Result<()>,
)
    requires
        before.inv(),
        heard(before, after, from, MessageView::Hello { era, node: peer, tiers, map_version: version_of(&before.engine()) }, r),
        after@.of(peer).state == (ReplState::Resyncing { source: false }),
    ensures
        (forall|k: int| 0 <= k < before@.peers.len() && (#[trigger] before@.peers[k]).id != peer ==> !before@.peers[k].pulls()) ==> after@.offered == Set::<u64>::empty(),
        (exists|k: int| 0 <= k < before@.peers.len() && (#[trigger] before@.peers[k]).id != peer && before@.peers[k].pulls()) ==> after@.offered == before@.offered,
{
    before.lemma_node();
    let v = before@;
    lemma_opened(v, peer);
    let open = v.opened(peer);
    let mine = before.engine().era_now();
    let source = sources(mine, v.node, era, peer);
    let s = reopened(open.of(peer), era, tiers, source, mine > era);
    let w = open.with(peer, s);
    lemma_with::<D>(open, peer, s);
    assert(!source);
    lemma_slot_range(open.peers, peer);
    let at = slot_of(v.peers, peer);
    lemma_slot_range(v.peers, peer);
    lemma_slot_at(open.peers, slot_of(open.peers, peer));
    if v.knows(peer) {
        assert(open == v);
    } else {
        assert(open.peers[at].id == peer);
        lemma_slot_at(open.peers, at);
    }
    assert(slot_of(open.peers, peer) == at);
    assert forall|k: int| 0 <= k < v.peers.len() && (#[trigger] v.peers[k]).id != peer && v.peers[k].pulls() implies other_pulling(w, peer) by {
        let to = if v.knows(peer) || k < at {
            k
        } else {
            k + 1
        };
        assert(to != at) by {
            if v.knows(peer) {
                assert(v.peers[at].id == peer);
            }
        }
        assert(w.peers[to] == v.peers[k]);
    }
    if other_pulling(w, peer) {
        let k = choose|k: int| 0 <= k < w.peers.len() && (#[trigger] w.peers[k]).id != peer && w.peers[k].pulls();
        assert(k != at);
        let to = if v.knows(peer) || k < at {
            k
        } else {
            k - 1
        };
        assert(v.peers[to] == w.peers[k]);
    }
}

} // verus!
