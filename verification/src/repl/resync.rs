//! Hello and resync: how a returning peer is reconciled.
//!
//! The side with the higher era is the source; a tie falls to the lower node
//! id. The target pulls what it lacks of the source's offer, asks leave to
//! adopt, and adopts only once the source has stopped serving alone, so that
//! no acknowledged write can exist that the adopting peer lacks.

use super::guest::idle;
use super::link::{greeted, version_of};
use super::pull::{after_arrival, after_asking, batch_due, batch_len, keys_of, no_pull, resolved, PullView, SyncPull};
use super::stream::same_tables;
use super::wire::{EffectView, blocks_view, offer_pins, roots_of, Effect, MessageView, OfferView, PeerMessage, SyncOffer};
use super::{larger, moved_on, slot_of, NodeView, PeerSession, ReplNode, ReplState, SessionView};
use crate::brick_set::ops::tier_exists;
use crate::disk::Disk;
use crate::error::{FsError, Result};
use crate::hash::{address_of, BlockHash};
use crate::pool::checkpoint::checkpointed;
use crate::pool::sync::{offered_whole, only_pins, other_pins, pinned_blocks, pinned_roots, VdiskOffer};
use crate::pool::vdisk::block_stored;
use crate::pool::{lemma_grew_twice, lemma_same_grew, stock_grew, Lease, Pool};
use crate::slice::NodeId;
use crate::table::{SortKey, SortedMap};
use vstd::prelude::*;

verus! {

// ---------------------------------------------------------------------
// Hello

/// Whether a node at `era` is the source of a resync with another: the
/// higher era is, and equal eras fall to the lower node id.
pub open spec fn sources(era: u64, node: NodeId, peer_era: u64, peer: NodeId) -> bool {
    era > peer_era || (era == peer_era && node < peer)
}

/// The session a hello opens. Nothing numbered under an earlier one may be
/// mistaken for part of it, and a member that says hello is not fenced.
pub open spec fn reopened(s: SessionView, era: u64, tiers: Seq<u8>, source: bool, serving: bool) -> SessionView {
    SessionView {
        state: ReplState::Resyncing { source },
        generation: moved_on(s.generation, 1),
        next_rseq: 1,
        durable_rseq: 0,
        required_rseq: 0,
        applied_rseq: 0,
        tiers,
        era_seen: larger(s.era_seen, era),
        fenced: false,
        backlog: Seq::empty(),
        pull: no_pull(),
        serving_source: serving,
        stream_live: false,
        ..s
    }
}

/// A session other than this peer's is pulling.
pub open spec fn other_pulling(v: NodeView, peer: NodeId) -> bool {
    exists|i: int| 0 <= i < v.peers.len() && (#[trigger] v.peers[i]).id != peer && v.peers[i].pulls()
}

/// A node whose session with a peer has been opened anew.
pub open spec fn roles_elected(v: NodeView, my_era: u64, peer: NodeId, era: u64, tiers: Seq<u8>) -> NodeView {
    let open = v.opened(peer);
    let source = sources(my_era, v.node, era, peer);
    let w = open.with(peer, reopened(open.of(peer), era, tiers, source, my_era > era));
    if source {
        w
    } else {
        NodeView {
            offered: if other_pulling(w, peer) {
                w.offered
            } else {
                Set::empty()
            },
            ..w
        }.tells(peer, MessageView::SyncStart)
    }
}

/// What a hello comes to. The maps must agree before roles are elected: the
/// side that is ahead ships its map and says hello again, the side that is
/// behind waits.
pub open spec fn hello_heard<D: Disk>(before: &ReplNode<D>, after: &ReplNode<D>, era: u64, peer: NodeId, tiers: Seq<u8>, map_version: u64) -> bool {
    let pool = before.engine();
    let mine = version_of(&pool);
    if map_version < mine {
        &&& after.engine() == pool
        &&& greeted(
            before@.opened(peer).tells(peer, MessageView::MapIs { version: mine, pairs: pool.seat()->Some_0.1.table() }),
            after@,
            &pool,
            peer,
        )
    } else if map_version > mine {
        after.engine() == pool && after@ == before@.opened(peer)
    } else {
        &&& only_pins(&pool, &after.engine())
        &&& other_pins(&pool, &after.engine(), peer)
        &&& !after.engine().pin_map().contains_key(peer as u64)
        &&& after@ == roles_elected(before@, pool.era_now(), peer, era, tiers)
    }
}

/// Of two nodes that hear each other's hello, exactly one is the source.
pub proof fn law_one_source(era_a: u64, a: NodeId, era_b: u64, b: NodeId)
    requires
        a != b,
    ensures
        sources(era_a, a, era_b, b) != sources(era_b, b, era_a, a),
{
}

proof fn lemma_slot_splits(peers: Seq<SessionView>, peer: NodeId)
    requires
        super::ids_ascend(peers),
    ensures
        0 <= slot_of(peers, peer) <= peers.len(),
        forall|j: int| 0 <= j < slot_of(peers, peer) ==> (#[trigger] peers[j]).id < peer,
        forall|j: int| slot_of(peers, peer) <= j < peers.len() ==> (#[trigger] peers[j]).id >= peer,
    decreases peers.len(),
{
    if peers.len() > 0 {
        let rest = peers.drop_first();
        assert forall|a: int, b: int| 0 <= a < b < rest.len() implies (#[trigger] rest[a]).id < (#[trigger] rest[b]).id by {
            assert(peers[a + 1].id < peers[b + 1].id);
        }
        lemma_slot_splits(rest, peer);
        if peers[0].id < peer {
            assert forall|j: int| 0 <= j < slot_of(peers, peer) implies (#[trigger] peers[j]).id < peer by {
                if j > 0 {
                    assert(rest[j - 1].id < peer);
                }
            }
            assert forall|j: int| slot_of(peers, peer) <= j < peers.len() implies (#[trigger] peers[j]).id >= peer by {
                assert(rest[j - 1].id >= peer);
            }
        } else {
            assert forall|j: int| 0 <= j < peers.len() implies (#[trigger] peers[j]).id >= peer by {
                if j > 0 {
                    assert(peers[0].id < peers[j].id);
                }
            }
        }
    }
}

/// A session that has been opened is known.
pub(super) proof fn lemma_opened(v: NodeView, peer: NodeId)
    requires
        super::ids_ascend(v.peers),
    ensures
        super::ids_ascend(v.opened(peer).peers),
        v.opened(peer).knows(peer),
        v.opened(peer).of(peer).id == peer,
{
    let i = slot_of(v.peers, peer);
    lemma_slot_splits(v.peers, peer);
    if !v.knows(peer) {
        let w = v.opened(peer);
        assert forall|a: int, b: int| 0 <= a < b < w.peers.len() implies (#[trigger] w.peers[a]).id < (#[trigger] w.peers[b]).id by {
            if a < i {
                assert(w.peers[a] == v.peers[a]);
            } else if a > i {
                assert(w.peers[a] == v.peers[a - 1]);
            }
            if b < i {
                assert(w.peers[b] == v.peers[b]);
            } else if b > i {
                assert(w.peers[b] == v.peers[b - 1]);
                if a == i {
                    assert(v.peers[b - 1].id >= peer);
                    if v.peers[b - 1].id == peer && b - 1 > i {
                        assert(v.peers[i].id < v.peers[b - 1].id);
                        assert(v.peers[i].id >= peer);
                    }
                }
            }
        }
        super::lemma_slot_at(w.peers, i);
    }
}

/// When two nodes hear each other's hello over maps that agree, one becomes
/// the source and the other the target, the target alone asks for the sync,
/// and the source goes on serving writes exactly where its era is the higher.
pub proof fn law_two_hellos_elect_one_pair(v: NodeView, era_v: u64, tiers_v: Seq<u8>, w: NodeView, era_w: u64, tiers_w: Seq<u8>)
    requires
        super::ids_ascend(v.peers),
        super::ids_ascend(w.peers),
        v.node != w.node,
    ensures
        ({
            let x = roles_elected(v, era_v, w.node, era_w, tiers_w);
            let y = roles_elected(w, era_w, v.node, era_v, tiers_v);
            let leads = sources(era_v, v.node, era_w, w.node);
            &&& x.of(w.node).state == (ReplState::Resyncing { source: leads })
            &&& y.of(v.node).state == (ReplState::Resyncing { source: !leads })
            &&& x.queue == if leads { v.queue } else { v.queue.push(EffectView::Send(w.node, MessageView::SyncStart)) }
            &&& y.queue == if leads { w.queue.push(EffectView::Send(v.node, MessageView::SyncStart)) } else { w.queue }
            &&& x.of(w.node).serving_source == (era_v > era_w)
            &&& y.of(v.node).serving_source == (era_w > era_v)
        }),
{
    lemma_opened(v, w.node);
    lemma_opened(w, v.node);
    law_one_source(era_v, v.node, era_w, w.node);
    let leads = sources(era_v, v.node, era_w, w.node);
    let a = v.opened(w.node);
    let b = w.opened(v.node);
    let s = reopened(a.of(w.node), era_w, tiers_w, leads, era_v > era_w);
    let t = reopened(b.of(v.node), era_v, tiers_v, !leads, era_w > era_v);
    lemma_with_any(a, w.node, s);
    lemma_with_any(b, v.node, t);
}

proof fn lemma_with_any(v: NodeView, peer: NodeId, s: SessionView)
    requires
        super::ids_ascend(v.peers),
        v.knows(peer),
        s.id == peer,
    ensures
        v.with(peer, s).of(peer) == s,
{
    let i = slot_of(v.peers, peer);
    super::lemma_slot_range(v.peers, peer);
    let w = v.with(peer, s);
    assert forall|a: int, b: int| 0 <= a < b < w.peers.len() implies (#[trigger] w.peers[a]).id < (#[trigger] w.peers[b]).id by {
        assert(v.peers[a].id < v.peers[b].id);
    }
    super::lemma_slot_at(w.peers, i);
}

/// A hello that opens a resync leaves nothing of the old stream: until the
/// offer is cut no op leaves for the peer, and it acknowledges guests only
/// where its era is the higher.
pub proof fn law_hello_starts_afresh(s: SessionView, era: u64, tiers: Seq<u8>, source: bool, serving: bool)
    ensures
        !reopened(s, era, tiers, source, serving).streams(),
        reopened(s, era, tiers, source, serving).accounted_for() == (source && serving),
        super::flush::owes(reopened(s, era, tiers, source, serving)) == false,
{
}

pub(super) proof fn lemma_with<D: Disk>(v: NodeView, peer: NodeId, s: SessionView)
    requires
        super::ids_ascend(v.peers),
        v.knows(peer),
        s.id == peer,
    ensures
        v.with(peer, s).knows(peer),
        v.with(peer, s).of(peer) == s,
        slot_of(v.with(peer, s).peers, peer) == slot_of(v.peers, peer),
        super::ids_ascend(v.with(peer, s).peers),
{
    let i = slot_of(v.peers, peer);
    super::lemma_slot_range(v.peers, peer);
    let w = v.with(peer, s);
    assert forall|a: int, b: int| 0 <= a < b < w.peers.len() implies (#[trigger] w.peers[a]).id < (#[trigger] w.peers[b]).id by {
        assert(v.peers[a].id < v.peers[b].id);
    }
    super::lemma_slot_at(w.peers, i);
}

// ---------------------------------------------------------------------
// The source's side

/// The leases a pool has, by ascending vdisk.
pub open spec fn leases_listed<D: Disk>(pool: &Pool<D>, leases: Seq<(u64, Lease)>) -> bool {
    &&& forall|i: int, j: int| 0 <= i < j < leases.len() ==> (#[trigger] leases[i]).0 < (#[trigger] leases[j]).0
    &&& forall|i: int| 0 <= i < leases.len() ==> pool.lease_map().contains_pair((#[trigger] leases[i]).0, leases[i].1)
    &&& forall|id: u64| #[trigger] pool.lease_map().contains_key(id) ==> leases.contains((id, pool.lease_map()[id]))
}

/// A pool whose session has pinned these roots.
pub open spec fn roots_pinned<D: Disk>(before: &Pool<D>, after: &Pool<D>, peer: NodeId, roots: Seq<(BlockHash, u32, u8)>) -> bool {
    &&& only_pins(before, after)
    &&& other_pins(before, after, peer)
    &&& pinned_roots(after, peer) == roots
    &&& pinned_blocks(after, peer) == pinned_blocks(before, peer)
}

/// The offer is the settled state, its roots are pinned, and from here on
/// ops stream if this source keeps serving.
pub open spec fn offer_cut<D: Disk>(before: &ReplNode<D>, mid: &Pool<D>, after: &ReplNode<D>, from: NodeId, offer: OfferView) -> bool {
    let s = before@.of(from);
    &&& offer.era == mid.era_now()
    &&& offered_whole(mid, offer.vdisks, offer.snapshots)
    &&& leases_listed(mid, offer.leases)
    &&& roots_pinned(mid, &after.engine(), from, roots_of(offer.vdisks, offer.snapshots, mid.unit()))
    &&& after@ == before@.with(from, SessionView { stream_live: s.serving_source, ..s }).tells(from, MessageView::SyncManifest(offer))
}

/// What a request to source a resync comes to.
pub open spec fn sync_started<D: Disk>(before: &ReplNode<D>, after: &ReplNode<D>, from: NodeId, r: Result<()>) -> bool {
    if before@.of(from).state != (ReplState::Resyncing { source: true }) {
        r == Err::<(), FsError>(FsError::Corrupt("asked to source a sync while not sourcing")) && idle(before, after)
    } else {
        exists|mid: Pool<D>, c: Result<()>| #[trigger]
            checkpointed(&before.engine(), &mid, c) && match c {
                Err(e) => r == Err::<(), FsError>(e) && after.engine() == mid && after@ == before@,
                Ok(_) => r is Ok && exists|offer: OfferView| #[trigger] offer_cut(before, &mid, after, from, offer),
            }
    }
}

/// What a target's request to adopt comes to: this node stops serving first.
pub open spec fn leave_granted(v: NodeView, after: NodeView, from: NodeId, r: Result<()>) -> bool {
    let s = v.of(from);
    if s.state != (ReplState::Resyncing { source: true }) {
        r == Err::<(), FsError>(FsError::Corrupt("a sync-ready arrived at a node that is not sourcing")) && after == v
    } else {
        &&& r is Ok
        &&& after == v.with(from, SessionView { serving_source: false, ..s }).tells(
            from,
            MessageView::SyncAdopt { final_rseq: (s.next_rseq - 1) as u64 },
        )
    }
}

/// A source that granted a target leave to adopt refuses its guests until
/// that target is done.
pub proof fn law_no_writes_while_a_target_adopts(v: NodeView, after: NodeView, from: NodeId, r: Result<()>)
    requires
        super::ids_ascend(v.peers),
        v.knows(from),
        v.of(from).id == from,
        !v.of(from).fenced,
        leave_granted(v, after, from, r),
        r is Ok,
    ensures
        !after.serving(),
{
    let i = slot_of(v.peers, from);
    super::lemma_slot_range(v.peers, from);
    assert(after.peers[i] == (SessionView { serving_source: false, ..v.of(from) }));
}

/// A peer that adopted this node's state is in lockstep, and owes nothing
/// for what came before.
pub open spec fn target_done<D: Disk>(before: &ReplNode<D>, after: &ReplNode<D>, from: NodeId) -> bool {
    let s = before@.of(from);
    &&& roots_pinned(&before.engine(), &after.engine(), from, Seq::empty())
    &&& after@ == before@.with(
        from,
        SessionView { state: ReplState::Synced, serving_source: false, stream_live: false, ..s },
    ).forgiving(from, None)
}

// ---------------------------------------------------------------------
// The target's side

/// The first tier these vdisks need that the pool does not carry.
pub open spec fn missing_tier<D: Disk>(pool: &Pool<D>, vdisks: Seq<VdiskOffer>) -> Option<u8>
    decreases vdisks.len(),
{
    if vdisks.len() == 0 {
        None
    } else if !tier_exists(pool.stock().members(), vdisks[0].2) {
        Some(vdisks[0].2)
    } else {
        missing_tier(pool, vdisks.drop_first())
    }
}

/// The ids among the first `n` vdisks of an offer.
pub open spec fn ids_of(vdisks: Seq<VdiskOffer>, n: int) -> Set<u64> {
    Set::new(|id: u64| exists|i: int| 0 <= i < n && (#[trigger] vdisks[i]).0 == id)
}

/// A node once a pull has made progress: it asks leave to adopt when nothing
/// is missing, and else for the next batch, unless an answer is owed.
pub open spec fn progressed(v: NodeView, from: NodeId) -> NodeView {
    let s = v.of(from);
    if s.pull.complete() {
        v.tells(from, MessageView::SyncReady)
    } else if batch_due(s.pull) {
        v.with(from, SessionView { pull: after_asking(s.pull), ..s }).tells(
            from,
            MessageView::SyncNeed(s.pull.unrequested.take(batch_len(s.pull))),
        )
    } else {
        v
    }
}

/// A pull was resolved against the pool, and the node went on with it.
pub open spec fn walked_on<D: Disk>(v: NodeView, after: NodeView, pool: &Pool<D>, from: NodeId, p: PullView, r: Result<()>) -> bool {
    let w = v.with(from, SessionView { pull: p, ..v.of(from) });
    &&& resolved(pool, v.node, from, v.of(from).pull, p, r)
    &&& after == if r is Ok {
        progressed(w, from)
    } else {
        w
    }
}

/// What an offer comes to. One this node has no tier for is refused before a
/// single block moves; else its roots are pinned and the pull begins.
pub open spec fn offer_heard<D: Disk>(before: &ReplNode<D>, after: &ReplNode<D>, from: NodeId, offer: OfferView, r: Result<()>) -> bool {
    let v = before@;
    let s = v.of(from);
    let pool = before.engine();
    let roots = roots_of(offer.vdisks, offer.snapshots, pool.unit());
    if !s.pulls() {
        r == Err::<(), FsError>(FsError::Corrupt("offered a sync manifest while not pulling")) && idle(before, after)
    } else if missing_tier(&pool, offer.vdisks) is Some {
        r == Err::<(), FsError>(FsError::NoSuchTier(missing_tier(&pool, offer.vdisks)->Some_0)) && idle(before, after)
    } else {
        let begun = PullView { pending: s.pull.pending + keys_of(roots), manifest: Some(offer), ..s.pull };
        let w = NodeView { offered: v.offered.union(ids_of(offer.vdisks, offer.vdisks.len() as int)), ..v }.with(from, SessionView { pull: begun, ..s });
        &&& roots_pinned(&pool, &after.engine(), from, roots)
        &&& exists|p: PullView| #[trigger] walked_on(w, after@, &after.engine(), from, p, r)
    }
}

/// A pull after the first `n` of these blocks have arrived.
pub open spec fn arrivals(p: PullView, blocks: Seq<(u8, Seq<u8>)>, n: nat) -> PullView
    decreases n,
{
    if n == 0 {
        p
    } else {
        after_arrival(arrivals(p, blocks, (n - 1) as nat), blocks[n - 1].0, address_of(blocks[n - 1].1))
    }
}

/// One of the first `n` blocks has this tier and address.
pub open spec fn brought(blocks: Seq<(u8, Seq<u8>)>, n: nat, t: u8, h: BlockHash) -> bool {
    exists|i: int| 0 <= i < n && (#[trigger] blocks[i]).0 == t && address_of(blocks[i].1) == h
}

/// The first `n` blocks were stored, whoever their homes are.
pub open spec fn blocks_kept<D: Disk>(before: &Pool<D>, after: &Pool<D>, blocks: Seq<(u8, Seq<u8>)>, n: nat) -> bool {
    &&& same_tables(before, after)
    &&& after.pin_map() == before.pin_map()
    &&& stock_grew(&before.stock(), &after.stock())
    &&& before.stock().intact() ==> after.stock().intact()
    &&& forall|t: u8, h: BlockHash| #[trigger] after.holds(t).contains(h) <==> before.holds(t).contains(h) || brought(blocks, n, t, h)
    &&& forall|i: int| 0 <= i < n ==> after.promised((#[trigger] blocks[i]).0).contains((address_of(blocks[i].1), blocks[i].1))
}

/// What a batch of pulled blocks comes to: stored, and what waited on them
/// resolved. `n` of them arrived before the store refused one, if it did.
pub open spec fn data_taken<D: Disk>(before: &ReplNode<D>, mid: &Pool<D>, after: &ReplNode<D>, from: NodeId, blocks: Seq<(u8, Seq<u8>)>, n: nat, r: Result<()>) -> bool {
    let v = before@;
    let s = v.of(from);
    let w = v.with(from, SessionView { pull: arrivals(s.pull, blocks, n), ..s });
    &&& n <= blocks.len()
    &&& blocks_kept(&before.engine(), mid, blocks, n)
    &&& if n < blocks.len() {
        &&& r is Err
        &&& block_stored(mid, &after.engine(), blocks[n as int].0, blocks[n as int].1, Err(r->Err_0))
        &&& after@ == w
    } else {
        &&& after.engine() == *mid
        &&& exists|p: PullView| #[trigger] walked_on(w, after@, mid, from, p, r)
    }
}

pub open spec fn data_heard<D: Disk>(before: &ReplNode<D>, after: &ReplNode<D>, from: NodeId, blocks: Seq<(u8, Seq<u8>)>, r: Result<()>) -> bool {
    if !before@.of(from).pulls() {
        r == Err::<(), FsError>(FsError::Corrupt("sync data arrived while not pulling")) && idle(before, after)
    } else {
        exists|mid: Pool<D>, n: nat| #[trigger] data_taken(before, &mid, after, from, blocks, n, r)
    }
}

impl<D: Disk> ReplNode<D> {
    pub(super) fn on_hello(&mut self, peer_era: u64, peer_node: NodeId, peer_tiers: Vec<u8>, peer_map_version: u64)
        requires
            old(self).inv(),
        ensures
            final(self).inv(),
            hello_heard(old(self), final(self), peer_era, peer_node, peer_tiers@, peer_map_version),
    {
        let my_map_version: u64 = self.map_version();
        if peer_map_version < my_map_version {
            let ghost pool = self.pool;
            let pairs = match self.pool.placement() {
                Some((_, map)) => map.to_pairs(),
                None => Vec::new(),
            };
            self.session(peer_node);
            self.emit(Effect::Send(peer_node, PeerMessage::MapIs { version: my_map_version, pairs }));
            // The peer elects roles only on receiving a hello, and the one
            // that provoked this reply was spent learning it was behind.
            let ghost told = self@;
            self.connect(peer_node);
            return;
        }
        if peer_map_version > my_map_version {
            self.session(peer_node);
            return;
        }
        let my_era: u64 = self.pool.era();
        let my_node: NodeId = self.node;
        self.pool.drop_session_pins(peer_node);
        let i: usize = self.session(peer_node);
        let source: bool = my_era > peer_era || (my_era == peer_era && my_node < peer_node);
        let ghost open = *self;
        let ghost want = reopened(open@.of(peer_node), peer_era, peer_tiers@, source, my_era > peer_era);
        assert(open@ == old(self)@.opened(peer_node));
        self.reopen(i, peer_era, peer_tiers, source, my_era > peer_era);
        assert(self@ == open@.with(peer_node, want));
        if !source {
            if !self.other_pulls(peer_node) {
                self.offered_vdisks = SortedMap::new();
                assert(self@.offered =~= Set::empty());
            }
            self.emit(Effect::Send(peer_node, PeerMessage::SyncStart));
        }
    }

    fn reopen(&mut self, i: usize, era: u64, tiers: Vec<u8>, source: bool, serving: bool)
        requires
            old(self).inv(),
            i < old(self).peers@.len(),
        ensures
            final(self).inv(),
            final(self).engine() == old(self).engine(),
            final(self)@ == (NodeView {
                peers: old(self)@.peers.update(i as int, reopened(old(self)@.peers[i as int], era, tiers@, source, serving)),
                ..old(self)@
            }),
    {
        let ghost before = *self;
        assert(before@.peers[i as int] == before.peers@[i as int]@);
        let id: NodeId = self.peers[i].id;
        let generation: u64 = self.peers[i].generation;
        let era_seen: u64 = self.peers[i].era_seen;
        let session = PeerSession {
            id,
            state: ReplState::Resyncing { source },
            generation: if generation == u64::MAX {
                u64::MAX
            } else {
                generation + 1
            },
            next_rseq: 1,
            durable_rseq: 0,
            required_rseq: 0,
            applied_rseq: 0,
            tiers,
            era_seen: if era_seen < era {
                era
            } else {
                era_seen
            },
            fenced: false,
            backlog: Vec::new(),
            pull: SyncPull::new(),
            serving_source: serving,
            stream_live: false,
        };
        self.peers[i] = session;
        proof {
            assert(self.peers@[i as int]@.backlog =~= Seq::empty());
            self.lemma_one_session(&before, i as int, reopened(before@.peers[i as int], era, tiers@, source, serving));
        }
    }

    /// Whether a session other than this peer's is pulling.
    fn other_pulls(&self, peer: NodeId) -> (r: bool)
        requires
            self.inv(),
        ensures
            r == other_pulling(self@, peer),
    {
        let mut i: usize = 0;
        while i < self.peers.len()
            invariant
                i <= self.peers@.len(),
                forall|j: int| 0 <= j < i ==> (#[trigger] self@.peers[j]).id == peer || !self@.peers[j].pulls(),
            decreases self.peers@.len() - i,
        {
            assert(self@.peers[i as int] == self.peers@[i as int]@);
            if self.peers[i].id != peer && self.peers[i].state == (ReplState::Resyncing { source: false }) {
                return true;
            }
            i += 1;
        }
        assert(self@.peers.len() == self.peers@.len());
        false
    }

    pub(super) fn on_sync_start(&mut self, from: NodeId) -> (r: Result<()>)
        requires
            old(self).inv(),
            old(self)@.knows(from),
        ensures
            final(self).inv(),
            sync_started(old(self), final(self), from, r),
    {
        let i: usize = self.at(from);
        if self.peers[i].state != (ReplState::Resyncing { source: true }) {
            return Err(FsError::Corrupt("asked to source a sync while not sourcing"));
        }
        // Settle everything, then offer it.
        let ghost before = *self;
        let c = self.pool.checkpoint();
        let ghost mid = self.pool;
        assert(checkpointed(&old(self).engine(), &mid, c));
        if let Err(e) = c {
            assert(self.engine() == mid);
            return Err(e);
        }
        proof {
            self.pool.lemma_pool();
        }
        let (era, vdisks, snapshots) = self.pool.sync_manifest();
        let leases = self.pool.leases();
        let bs: u32 = self.pool.block_size();
        let pins = offer_pins(&vdisks, &snapshots, bs);
        self.pool.pin_sync(from, pins);
        let ghost pinned = *self;
        proof {
            assert(self.inv());
            assert(self.peers@[i as int].wf());
        }
        self.peers[i].stream_live = self.peers[i].serving_source;
        proof {
            let s = before@.of(from);
            self.lemma_one_session(&pinned, i as int, SessionView { stream_live: s.serving_source, ..s });
        }
        let offer = SyncOffer { era, vdisks, snapshots, leases };
        let ghost o = offer@;
        let ghost pool = self.pool;
        self.emit(Effect::Send(from, PeerMessage::SyncManifest(offer)));
        proof {
            assert(self.engine() == pool);
            assert(offer_cut(old(self), &mid, self, from, o));
        }
        Ok(())
    }

    /// The target asked leave to adopt. Granting it means to stop serving
    /// alone first, so that no acknowledged write can exist that the
    /// adopting peer lacks.
    pub(super) fn on_sync_ready(&mut self, from: NodeId) -> (r: Result<()>)
        requires
            old(self).inv(),
            old(self)@.knows(from),
        ensures
            final(self).inv(),
            final(self).engine() == old(self).engine(),
            leave_granted(old(self)@, final(self)@, from, r),
    {
        let i: usize = self.at(from);
        if self.peers[i].state != (ReplState::Resyncing { source: true }) {
            return Err(FsError::Corrupt("a sync-ready arrived at a node that is not sourcing"));
        }
        let ghost before = *self;
        assert(self.peers@[i as int].wf());
        self.peers[i].serving_source = false;
        proof {
            self.lemma_one_session(&before, i as int, SessionView { serving_source: false, ..before@.of(from) });
            assert(self.peers@[i as int].wf());
        }
        let final_rseq: u64 = self.peers[i].next_rseq - 1;
        self.emit(Effect::Send(from, PeerMessage::SyncAdopt { final_rseq }));
        Ok(())
    }

    /// The target adopted this node's state and replayed the stream;
    /// lockstep continues on the numbering the stream already established.
    pub(super) fn on_sync_done(&mut self, from: NodeId)
        requires
            old(self).inv(),
            old(self)@.knows(from),
        ensures
            final(self).inv(),
            target_done(old(self), final(self), from),
    {
        let i: usize = self.at(from);
        let ghost before = *self;
        assert(self.peers@[i as int].wf());
        self.peers[i].state = ReplState::Synced;
        self.peers[i].serving_source = false;
        self.peers[i].stream_live = false;
        proof {
            self.lemma_one_session(
                &before,
                i as int,
                SessionView { state: ReplState::Synced, serving_source: false, stream_live: false, ..before@.of(from) },
            );
        }
        self.pool.unpin_sync(from);
        let ghost pool = self.pool;
        self.forgive(from, None);
        assert(self.engine() == pool);
    }

    /// Asks leave to adopt when nothing is missing, and else for more.
    fn progress(&mut self, i: usize, from: NodeId)
        requires
            old(self).inv(),
            i < old(self).peers@.len(),
            i == slot_of(old(self)@.peers, from),
        ensures
            final(self).inv(),
            final(self).engine() == old(self).engine(),
            final(self)@ == progressed(old(self)@, from),
    {
        let ghost before = *self;
        assert(self@.peers[i as int] == self.peers@[i as int]@);
        assert(self.peers@[i as int].wf());
        if self.peers[i].pull.is_complete() {
            self.emit(Effect::Send(from, PeerMessage::SyncReady));
            return;
        }
        let batch = self.peers[i].pull.next_batch();
        proof {
            let s = before@.of(from);
            self.lemma_one_session(&before, i as int, SessionView { pull: after_asking(s.pull), ..s });
            if batch is None {
                assert(self@.peers =~= before@.peers);
            }
        }
        if let Some(batch) = batch {
            self.emit(Effect::Send(from, PeerMessage::SyncNeed(batch)));
        }
    }

    /// Resolves this session's pull and goes on with it.
    fn walk_on(&mut self, i: usize, from: NodeId) -> (r: Result<()>)
        requires
            old(self).inv(),
            i < old(self).peers@.len(),
            i == slot_of(old(self)@.peers, from),
            old(self)@.peers[i as int].id == from,
        ensures
            final(self).inv(),
            final(self).engine() == old(self).engine(),
            exists|p: PullView| #[trigger] walked_on(old(self)@, final(self)@, &old(self).engine(), from, p, r),
    {
        let ghost before = *self;
        let node: NodeId = self.node;
        assert(self@.peers[i as int] == self.peers@[i as int]@);
        assert(self.peers@[i as int].wf());
        let r = self.peers[i].pull.resolve(&self.pool, node, from);
        let ghost p = self.peers@[i as int].pull@;
        proof {
            let s = before@.of(from);
            self.lemma_one_session(&before, i as int, SessionView { pull: p, ..s });
            lemma_with::<D>(before@, from, SessionView { pull: p, ..s });
        }
        if let Err(e) = r {
            assert(walked_on(old(self)@, self@, &old(self).engine(), from, p, r));
            return Err(e);
        }
        self.progress(i, from);
        assert(walked_on(old(self)@, self@, &old(self).engine(), from, p, r));
        r
    }

    pub(super) fn on_sync_manifest(&mut self, from: NodeId, offer: SyncOffer) -> (r: Result<()>)
        requires
            old(self).inv(),
            old(self)@.knows(from),
        ensures
            final(self).inv(),
            offer_heard(old(self), final(self), from, offer@, r),
    {
        let i: usize = self.at(from);
        if self.peers[i].state != (ReplState::Resyncing { source: false }) {
            return Err(FsError::Corrupt("offered a sync manifest while not pulling"));
        }
        let ghost o = offer@;
        let tiers = self.pool.tiers();
        let mut k: usize = 0;
        assert(o.vdisks.skip(0) =~= o.vdisks);
        while k < offer.vdisks.len()
            invariant
                *self == *old(self),
                self.inv(),
                k <= offer.vdisks@.len(),
                o == offer@,
                self@.of(from).pulls(),
                forall|t: u8| #[trigger] tiers@.contains(t) <==> tier_exists(self.pool.stock().members(), t),
                missing_tier(&self.pool, o.vdisks) == missing_tier(&self.pool, o.vdisks.skip(k as int)),
            decreases offer.vdisks@.len() - k,
        {
            let tier: u8 = offer.vdisks[k].2;
            assert(o.vdisks.skip(k as int)[0] == o.vdisks[k as int]);
            assert(o.vdisks.skip(k as int).drop_first() =~= o.vdisks.skip(k + 1));
            if !super::pull::names(&tiers, tier) {
                return Err(FsError::NoSuchTier(tier));
            }
            k += 1;
        }
        assert(o.vdisks.skip(k as int) =~= Seq::empty());
        proof {
            self.pool.lemma_pool();
        }
        // Everything this pull fetches hangs off these roots, referenced by
        // nothing in this node's own manifest until adoption.
        let bs: u32 = self.pool.block_size();
        let pins = offer_pins(&offer.vdisks, &offer.snapshots, bs);
        let copy = offer_pins(&offer.vdisks, &offer.snapshots, bs);
        self.pool.pin_sync(from, pins);
        let ghost pool = self.pool;
        // What this wave's live members still carry.
        let ghost v = self@;
        let mut n: usize = 0;
        assert(v.offered.union(ids_of(o.vdisks, 0)) =~= v.offered);
        while n < offer.vdisks.len()
            invariant
                self.inv(),
                self.pool == pool,
                n <= offer.vdisks@.len(),
                o == offer@,
                i < self.peers@.len(),
                self.peers == old(self).peers,
                self@ == (NodeView { offered: v.offered.union(ids_of(o.vdisks, n as int)), ..v }),
            decreases offer.vdisks@.len() - n,
        {
            let id: u64 = offer.vdisks[n].0;
            self.offered_vdisks.insert(id, ());
            proof {
                assert forall|x: u64| #[trigger] ids_of(o.vdisks, n + 1).contains(x) <==> ids_of(o.vdisks, n as int).contains(x) || x == id by {
                    if ids_of(o.vdisks, n as int).contains(x) {
                        let j = choose|j: int| 0 <= j < n && (#[trigger] o.vdisks[j]).0 == x;
                        assert(o.vdisks[j].0 == x);
                    }
                    assert(o.vdisks[n as int].0 == id);
                }
                assert(self@.offered =~= v.offered.union(ids_of(o.vdisks, n + 1)));
            }
            n += 1;
        }
        let ghost ready = *self;
        proof {
            assert(self.peers@[i as int].wf());
            assert(ready@.peers[i as int] == ready.peers@[i as int]@);
            assert(ready@.of(from) == old(self)@.of(from));
        }
        self.peers[i].pull.begin(&copy, offer);
        let ghost begun = self.peers@[i as int].pull@;
        proof {
            let s = ready@.of(from);
            self.lemma_one_session(&ready, i as int, SessionView { pull: begun, ..s });
            lemma_with::<D>(ready@, from, SessionView { pull: begun, ..s });
        }
        let ghost w = self@;
        let r = self.walk_on(i, from);
        proof {
            let p = choose|p: PullView| #[trigger] walked_on(w, self@, &pool, from, p, r);
            assert(self.engine() == pool);
            assert(walked_on(w, self@, &self.engine(), from, p, r));
        }
        r
    }

    #[verifier::rlimit(60)]
    pub(super) fn on_sync_data(&mut self, from: NodeId, payloads: Vec<(u8, Vec<u8>)>) -> (r: Result<()>)
        requires
            old(self).inv(),
            old(self)@.knows(from),
        ensures
            final(self).inv(),
            data_heard(old(self), final(self), from, blocks_view(payloads@), r),
    {
        let i: usize = self.at(from);
        if self.peers[i].state != (ReplState::Resyncing { source: false }) {
            return Err(FsError::Corrupt("sync data arrived while not pulling"));
        }
        let ghost before = *self;
        let ghost blocks = blocks_view(payloads@);
        let ghost s = before@.of(from);
        let mut k: usize = 0;
        proof {
            crate::repl::link::lemma_same_stock_refl(&self.pool);
            lemma_same_grew(&self.pool.stock(), &self.pool.stock());
            assert forall|t: u8, h: BlockHash| !(#[trigger] brought(blocks, 0, t, h)) by {}
            assert(before@.with(from, s).peers =~= before@.peers);
        }
        while k < payloads.len()
            invariant
                self.inv(),
                before.inv(),
                before == *old(self),
                before@.knows(from),
                before@.of(from).pulls(),
                s == before@.of(from),
                i == slot_of(before@.peers, from),
                i < self.peers@.len(),
                self.peers@.len() == before.peers@.len(),
                k <= payloads@.len(),
                blocks == blocks_view(payloads@),
                self@ == before@.with(from, SessionView { pull: arrivals(s.pull, blocks, k as nat), ..s }),
                blocks_kept(&before.pool, &self.pool, blocks, k as nat),
            decreases payloads@.len() - k,
        {
            let ghost start = *self;
            let tier: u8 = payloads[k].0;
            assert(blocks[k as int] == (tier, payloads@[k as int].1@));
            let c = self.pool.put_block(tier, payloads[k].1.as_slice());
            let hash = match c {
                Ok(hash) => hash,
                Err(e) => {
                    proof {
                        assert(data_taken(old(self), &start.pool, self, from, blocks, k as nat, Err(e)));
                    }
                    return Err(e);
                },
            };
            let ghost stored = *self;
            proof {
                assert(stored.inv());
                assert(self@.peers[i as int] == self.peers@[i as int]@);
                assert(self.peers@[i as int].wf());
                lemma_with::<D>(before@, from, SessionView { pull: arrivals(s.pull, blocks, k as nat), ..s });
            }
            self.peers[i].pull.arrived(tier, hash);
            proof {
                let next = SessionView { pull: arrivals(s.pull, blocks, (k + 1) as nat), ..s };
                self.lemma_one_session(&stored, i as int, next);
                assert(self@.peers =~= before@.with(from, next).peers);
                lemma_grew_twice(&before.pool.stock(), &start.pool.stock(), &stored.pool.stock());
                assert forall|t: u8, h: BlockHash| #[trigger] self.pool.holds(t).contains(h) <==> before.pool.holds(t).contains(h) || brought(blocks, (k + 1) as nat, t, h) by {
                    if t != tier {
                        assert(self.pool.holds(t) == start.pool.holds(t));
                    }
                    assert(start.pool.holds(t).contains(h) <==> before.pool.holds(t).contains(h) || brought(blocks, k as nat, t, h));
                    if brought(blocks, k as nat, t, h) {
                        let j = choose|j: int| 0 <= j < k && (#[trigger] blocks[j]).0 == t && address_of(blocks[j].1) == h;
                        assert(blocks[j].0 == t);
                    }
                    if t == tier && h == hash {
                        assert(blocks[k as int].0 == t);
                    }
                    if brought(blocks, (k + 1) as nat, t, h) && !(t == tier && h == hash) {
                        let j = choose|j: int| 0 <= j < k + 1 && (#[trigger] blocks[j]).0 == t && address_of(blocks[j].1) == h;
                        assert(j < k);
                        assert(brought(blocks, k as nat, t, h));
                    }
                }
                assert forall|j: int| 0 <= j < k + 1 implies self.pool.promised((#[trigger] blocks[j]).0).contains((address_of(blocks[j].1), blocks[j].1)) by {
                    if j < k {
                        assert(start.pool.promised(blocks[j].0).contains((address_of(blocks[j].1), blocks[j].1)));
                        assert(start.pool.promised(blocks[j].0).subset_of(stored.pool.promised(blocks[j].0)));
                    }
                }
            }
            k += 1;
        }
        let ghost mid = self.pool;
        let ghost w = self@;
        proof {
            lemma_with::<D>(before@, from, SessionView { pull: arrivals(s.pull, blocks, k as nat), ..s });
        }
        let r = self.walk_on(i, from);
        proof {
            let p = choose|p: PullView| #[trigger] walked_on(w, self@, &mid, from, p, r);
            assert(walked_on(w, self@, &mid, from, p, r));
            assert(self.engine() == mid);
            assert(data_taken(old(self), &mid, self, from, blocks, k as nat, r));
        }
        r
    }
}

} // verus!
