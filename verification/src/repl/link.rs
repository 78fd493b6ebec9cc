//! Links and verdicts: the outside world's facts.

use super::pull::{no_pull, SyncPull};
use super::wire::{Effect, EffectView, MessageView, PeerMessage, ReplOp};
use super::{larger, moved_on, NodeView, PendingRead, ReplNode, ReplState, SessionView};
use crate::brick_set::ops::tier_exists;
use crate::disk::Disk;
use crate::error::{FsError, Result};
use crate::pool::checkpoint::checkpointed;
use crate::pool::lease::claimed;
use crate::pool::snapshot::{unchanged, with_era};
use crate::pool::sync::{only_pins, other_pins};
use crate::pool::{stock_same, Lease, Pool};
use crate::slice::NodeId;
use crate::table::{SortKey, TierHash};
use vstd::prelude::*;

verus! {

/// The committed map's version; 0 for an unplaced pool.
pub open spec fn version_of<D: Disk>(pool: &Pool<D>) -> u64 {
    match pool.seat() {
        Some((node, map)) => map.at_version(),
        None => 0,
    }
}

/// The tiers a pool carries, in order.
pub open spec fn inventory<D: Disk>(pool: &Pool<D>, tiers: Seq<u8>) -> bool {
    &&& forall|i: int, j: int| 0 <= i < j < tiers.len() ==> #[trigger] tiers[i] < #[trigger] tiers[j]
    &&& forall|t: u8| #[trigger] tiers.contains(t) <==> tier_exists(pool.stock().members(), t)
}

/// A hello in this pool's name.
pub open spec fn hello<D: Disk>(pool: &Pool<D>, node: NodeId, tiers: Seq<u8>) -> MessageView {
    MessageView::Hello { era: pool.era_now(), node, tiers, map_version: version_of(pool) }
}

/// A session was opened and a hello is on its way.
pub open spec fn greeted<D: Disk>(v: NodeView, after: NodeView, pool: &Pool<D>, peer: NodeId) -> bool {
    exists|tiers: Seq<u8>| #[trigger] inventory(pool, tiers) && after == v.opened(peer).tells(peer, hello(pool, v.node, tiers))
}

/// A queue without the messages to one peer.
pub open spec fn unsaid(queue: Seq<EffectView>, peer: NodeId) -> Seq<EffectView>
    decreases queue.len(),
{
    if queue.len() == 0 {
        Seq::empty()
    } else {
        let rest = unsaid(queue.drop_last(), peer);
        match queue.last() {
            EffectView::Send(to, _) => if to == peer {
                rest
            } else {
                rest.push(queue.last())
            },
            _ => rest.push(queue.last()),
        }
    }
}

/// The fetches that ride a session, oldest first.
pub open spec fn riding(reads: Map<u64, PendingRead>, peer: NodeId, tickets: Seq<u64>) -> bool {
    &&& forall|i: int, j: int| 0 <= i < j < tickets.len() ==> #[trigger] tickets[i] < #[trigger] tickets[j]
    &&& forall|t: u64| #[trigger] tickets.contains(t) <==> reads.contains_key(t) && reads[t].target == peer
}

/// Those fetches, failed.
pub open spec fn failures(tickets: Seq<u64>) -> Seq<EffectView> {
    Seq::new(tickets.len(), |i: int| EffectView::ReadFailed(tickets[i]))
}

/// A session whose link is gone.
pub open spec fn lost(s: SessionView) -> SessionView {
    SessionView {
        state: ReplState::Suspended,
        generation: moved_on(s.generation, 1),
        pull: no_pull(),
        backlog: Seq::empty(),
        serving_source: false,
        stream_live: false,
        ..s
    }
}

/// The moves not asked of a peer.
pub open spec fn moves_left(moving: Map<TierHash, NodeId>, peer: NodeId) -> Map<TierHash, NodeId> {
    Map::new(|k: TierHash| moving.contains_key(k) && moving[k] != peer, |k: TierHash| moving[k])
}

/// A node that lost a peer: the queued messages to it are dropped, its
/// session is suspended, and what rode it is given up.
pub open spec fn peer_gone(v: NodeView, after: NodeView, peer: NodeId) -> bool {
    let quiet = NodeView { queue: unsaid(v.queue, peer), ..v }.opened(peer);
    exists|tickets: Seq<u64>| #[trigger]
        riding(v.reads, peer, tickets) && after == (NodeView {
            queue: quiet.queue + failures(tickets),
            reads: v.reads.remove_keys(tickets.to_set()),
            moving: moves_left(v.moving, peer),
            ..quiet.with(peer, lost(quiet.of(peer)))
        })
}

/// The highest era any of these peers has claimed, or `floor`.
pub open spec fn highest_era(floor: u64, peers: Seq<SessionView>) -> u64
    decreases peers.len(),
{
    if peers.len() == 0 {
        floor
    } else {
        larger(highest_era(floor, peers.drop_last()), peers.last().era_seen)
    }
}

/// The floor a verdict's era must clear: past this node's era and every era
/// a peer has claimed to it.
pub open spec fn era_floor(v: NodeView, era: u64) -> u64 {
    moved_on(highest_era(era, v.peers), 1)
}

/// Why a fence verdict is refused, if it is.
pub open spec fn verdict_refusal(v: NodeView, own_era: u64, peer: NodeId, era: u64) -> Option<FsError> {
    let s = v.opened(peer).of(peer);
    if s.state != ReplState::Suspended {
        Some(FsError::Corrupt("a fence verdict arrived for a peer that is not lost"))
    } else if s.fenced {
        Some(FsError::Corrupt("a fence verdict arrived for a member already fenced"))
    } else if era < era_floor(v, own_era) {
        Some(FsError::Corrupt("a fence verdict's era is below what this node has witnessed"))
    } else {
        None
    }
}

/// The leases a node holds, by ascending vdisk.
pub open spec fn held_by(leases: Map<u64, Lease>, node: NodeId, ids: Seq<u64>) -> bool {
    &&& forall|i: int, j: int| 0 <= i < j < ids.len() ==> #[trigger] ids[i] < #[trigger] ids[j]
    &&& forall|id: u64| #[trigger] ids.contains(id) <==> leases.contains_key(id) && leases[id].holder == node
}

/// Leases with the first `n` of these vdisks leased anew.
pub open spec fn released(leases: Map<u64, Lease>, ids: Seq<u64>, lease: Lease, n: nat) -> Map<u64, Lease>
    decreases n,
{
    if n == 0 {
        leases
    } else {
        released(leases, ids, lease, (n - 1) as nat).insert(ids[n - 1], lease)
    }
}

/// A node that told its peers of the first `n` of those leases.
pub open spec fn announced(v: NodeView, ids: Seq<u64>, lease: Lease, n: nat) -> NodeView
    decreases n,
{
    if n == 0 {
        v
    } else {
        announced(v, ids, lease, (n - 1) as nat).sent(seq![ReplOp::SetLease { vdisk: ids[n - 1], lease }], None)
    }
}

/// A pool that differs in nothing but its leases and its ring.
pub open spec fn same_but_leases<D: Disk>(a: &Pool<D>, b: &Pool<D>) -> bool {
    &&& b.inv()
    &&& stock_same(&a.stock(), &b.stock())
    &&& b.vdisk_map() == a.vdisk_map()
    &&& b.snapshot_map() == a.snapshot_map()
    &&& b.era_now() == a.era_now()
    &&& b.generation() == a.generation()
    &&& b.seat() == a.seat()
    &&& b.pending() == a.pending()
    &&& b.pin_map() == a.pin_map()
}

/// The `i`-th of these leases was issued again between two states.
pub open spec fn claim_step<D: Disk>(steps: Seq<Pool<D>>, i: int, ids: Seq<u64>, node: NodeId) -> bool {
    exists|c: Result<()>| #[trigger] claimed(&steps[i], &steps[i + 1], ids[i], node, c) && c is Ok
}

/// Where issuing leases again got to, one state after each: to the last of
/// them, or to the first that was refused.
pub open spec fn claims_run<D: Disk>(steps: Seq<Pool<D>>, before: &Pool<D>, after: &Pool<D>, ids: Seq<u64>, node: NodeId, r: Result<()>) -> bool {
    &&& 1 <= steps.len() <= ids.len() + 1
    &&& steps[0] == *before
    &&& forall|i: int| 0 <= i < steps.len() - 1 ==> #[trigger] claim_step(steps, i, ids, node)
    &&& match r {
        Ok(_) => steps.len() == ids.len() + 1 && steps.last() == *after,
        Err(_) => steps.len() <= ids.len() && claimed(&steps.last(), after, ids[steps.len() - 1], node, r),
    }
}

/// The leases this node held are issued again under the new era, and the
/// streams told, as far as the ring takes them; `told` of them were.
pub open spec fn reissued<D: Disk>(v: NodeView, mid: &Pool<D>, after: &Pool<D>, view: NodeView, ids: Seq<u64>, told: nat, r: Result<()>, peer: NodeId) -> bool {
    let lease = Lease { holder: v.node, handing_to: None, era: mid.era_now() };
    &&& held_by(mid.lease_map(), v.node, ids)
    &&& told <= ids.len()
    &&& same_but_leases(mid, after)
    &&& after.lease_map() == released(mid.lease_map(), ids, lease, told)
    &&& r is Ok <==> told == ids.len()
    &&& exists|steps: Seq<Pool<D>>| #[trigger] claims_run(steps, mid, after, ids, v.node, r) && steps.len() == told + 1
    &&& view == if r is Ok {
        announced(v, ids, lease, told).forgiving(peer, None)
    } else {
        announced(v, ids, lease, told)
    }
}

/// A verdict that was taken: the member counts as fenced, the pool is in the
/// verdict's era, and this node's own leases are issued again under it.
pub open spec fn fenced_at<D: Disk>(before: &ReplNode<D>, after: &ReplNode<D>, peer: NodeId, era: u64, r: Result<()>) -> bool {
    let open = before@.opened(peer);
    let v = open.with(peer, SessionView { fenced: true, ..open.of(peer) });
    if era <= before.engine().era_now() {
        r is Err && unchanged(&before.engine(), &after.engine()) && after@ == v
    } else {
        exists|mid: Pool<D>, bumped: Pool<D>, c: Result<()>| #[trigger]
            era_turned(&before.engine(), &mid, &bumped, era, c) && match c {
                Err(e) => r == Err::<(), FsError>(e) && after.engine() == bumped && after@ == v,
                Ok(_) => exists|ids: Seq<u64>, told: nat| #[trigger] reissued(v, &bumped, &after.engine(), after@, ids, told, r, peer),
            }
    }
}

/// What a fence verdict comes to.
pub open spec fn member_fenced<D: Disk>(before: &ReplNode<D>, after: &ReplNode<D>, peer: NodeId, era: u64, r: Result<()>) -> bool {
    match verdict_refusal(before@, before.engine().era_now(), peer, era) {
        Some(e) => r == Err::<(), FsError>(e) && after@ == before@.opened(peer) && after.engine() == before.engine(),
        None => fenced_at(before, after, peer, era, r),
    }
}

/// A pool took up a later era and was checkpointed under it.
pub open spec fn era_turned<D: Disk>(before: &Pool<D>, mid: &Pool<D>, after: &Pool<D>, era: u64, c: Result<()>) -> bool {
    with_era(before, mid, era) && checkpointed(mid, after, c)
}

/// One of the first `k` leases is this vdisk's, and this node's.
spec fn leased_first(leases: Seq<(u64, Lease)>, k: int, id: u64, node: NodeId) -> bool {
    exists|b: int| 0 <= b < k && (#[trigger] leases[b]).0 == id && leases[b].1.holder == node
}

impl<D: Disk> ReplNode<D> {
    /// The committed map's version.
    pub(super) fn map_version(&self) -> (r: u64)
        ensures
            r == version_of(&self.engine()),
    {
        match self.pool.placement() {
            Some((_, map)) => map.version(),
            None => 0,
        }
    }

    /// The link to this peer is up; say hello. Roles are assigned when the
    /// peer's own hello arrives.
    pub fn connect(&mut self, peer: NodeId)
        requires
            old(self).inv(),
        ensures
            final(self).inv(),
            final(self).engine() == old(self).engine(),
            greeted(old(self)@, final(self)@, &old(self).engine(), peer),
    {
        self.session(peer);
        let tiers: Vec<u8> = self.pool.tiers();
        let ghost t = tiers@;
        assert(inventory(&self.engine(), t));
        let map_version: u64 = self.map_version();
        let message = PeerMessage::Hello { era: self.pool.era(), node: self.node, tiers, map_version };
        self.emit(Effect::Send(peer, message));
    }

    /// The link to this peer is gone, and whatever was in flight with it;
    /// flushes stay parked until a verdict or a reconciliation decides their
    /// fate. A message written for a connection that has died must not be
    /// delivered over the next one, so those queued are dropped.
    pub fn peer_lost(&mut self, peer: NodeId)
        requires
            old(self).inv(),
        ensures
            final(self).inv(),
            peer_gone(old(self)@, final(self)@, peer),
            only_pins(&old(self).engine(), &final(self).engine()),
            other_pins(&old(self).engine(), &final(self).engine(), peer),
            !final(self).engine().pin_map().contains_key(peer as u64),
    {
        let ghost v = self@;
        let ghost pool = self.pool;
        self.unsay(peer);
        let i: usize = self.session(peer);
        let ghost quiet = *self;
        self.suspend(i);
        self.pool.drop_session_pins(peer);
        let ghost pinless = self.pool;
        let ghost cut = self@;
        let ghost want = lost(quiet@.of(peer));
        assert(cut == quiet@.with(peer, want));
        // Fetches riding the dead session fail rather than hang.
        let keys: Vec<u64> = self.pending_reads.keys();
        let ghost failed: Seq<u64> = Seq::empty();
        let mut k: usize = 0;
        assert(cut.queue + failures(failed) =~= cut.queue);
        assert(v.reads.remove_keys(failed.to_set()) =~= v.reads);
        while k < keys.len()
            invariant
                self.inv(),
                self.pool == pinless,
                k <= keys@.len(),
                crate::table::ascending(keys@),
                forall|t: u64| #[trigger] v.reads.contains_key(t) <==> keys@.contains(t),
                v.reads == cut.reads,
                self@ == (NodeView {
                    queue: cut.queue + failures(failed),
                    reads: v.reads.remove_keys(failed.to_set()),
                    ..cut
                }),
                forall|a: int, b: int| 0 <= a < b < failed.len() ==> #[trigger] failed[a] < #[trigger] failed[b],
                forall|a: int| 0 <= a < failed.len() ==> v.reads.contains_key(#[trigger] failed[a]) && v.reads[failed[a]].target == peer,
                forall|a: int, b: int| 0 <= a < failed.len() && k <= b < keys@.len() ==> #[trigger] failed[a] < #[trigger] keys@[b],
                forall|b: int| 0 <= b < k && v.reads[#[trigger] keys@[b]].target == peer ==> failed.contains(keys@[b]),
            decreases keys@.len() - k,
        {
            let ticket: u64 = keys[k];
            assert(keys@.contains(ticket));
            assert(!failed.to_set().contains(ticket)) by {
                if failed.contains(ticket) {
                    let a = choose|a: int| 0 <= a < failed.len() && failed[a] == ticket;
                    assert(failed[a] < keys@[k as int]);
                }
            }
            let rides: bool = match self.pending_reads.get(&ticket) {
                Some(read) => read.target == peer,
                None => false,
            };
            let ghost was = failed;
            if rides {
                let ghost queue = self@.queue;
                self.pending_reads.remove(&ticket);
                self.emit(Effect::ReadFailed(ticket));
                proof {
                    failed = failed.push(ticket);
                    assert(self@.queue =~= cut.queue + failures(failed));
                    assert(failed.to_set() =~= was.to_set().insert(ticket)) by {
                        assert forall|t: u64| failed.to_set().contains(t) <==> #[trigger] was.to_set().insert(ticket).contains(t) by {
                            if was.contains(t) {
                                let a = choose|a: int| 0 <= a < was.len() && was[a] == t;
                                assert(failed[a] == t);
                            }
                            assert(failed[was.len() as int] == ticket);
                            if failed.contains(t) && t != ticket {
                                let a = choose|a: int| 0 <= a < failed.len() && failed[a] == t;
                                assert(was[a] == t);
                            }
                        }
                    }
                    assert(self@.reads =~= v.reads.remove_keys(failed.to_set()));
                    assert(failed[was.len() as int] == ticket);
                    assert forall|a: int, b: int| 0 <= a < failed.len() && k + 1 <= b < keys@.len() implies #[trigger] failed[a] < #[trigger] keys@[b] by {
                        assert(keys@[k as int].lt(keys@[b]));
                        if a < was.len() {
                            assert(was[a] < keys@[b]);
                        }
                    }
                    assert forall|b: int| 0 <= b < k + 1 && v.reads[#[trigger] keys@[b]].target == peer implies failed.contains(keys@[b]) by {
                        if b < k {
                            let a = choose|a: int| 0 <= a < was.len() && was[a] == keys@[b];
                            assert(failed[a] == keys@[b]);
                        }
                    }
                }
            }
            k += 1;
        }
        proof {
            assert forall|t: u64| #[trigger] failed.contains(t) <==> v.reads.contains_key(t) && v.reads[t].target == peer by {
                if v.reads.contains_key(t) && v.reads[t].target == peer {
                    let b = choose|b: int| 0 <= b < keys@.len() && keys@[b] == t;
                    assert(failed.contains(keys@[b]));
                }
            }
            assert(riding(v.reads, peer, failed));
        }
        // Reassignment requests to the dead source are made again at the
        // next step.
        let ghost mid = self@;
        self.forget_moves(peer);
        proof {
            let moving = moves_left(v.moving, peer);
            assert(self@.moving == moving);
            let hushed = NodeView { queue: unsaid(v.queue, peer), ..v }.opened(peer);
            assert(hushed == quiet@);
            assert(self@ == (NodeView {
                queue: hushed.queue + failures(failed),
                reads: v.reads.remove_keys(failed.to_set()),
                moving,
                ..hushed.with(peer, lost(hushed.of(peer)))
            }));
        }
    }

    fn unsay(&mut self, peer: NodeId)
        requires
            old(self).inv(),
        ensures
            final(self).inv(),
            final(self).engine() == old(self).engine(),
            final(self)@ == (NodeView { queue: unsaid(old(self)@.queue, peer), ..old(self)@ }),
    {
        let ghost start = self@;
        let ghost base = *self;
        let ghost seen: nat = 0;
        let mut i: usize = 0;
        assert(start.queue.take(0) =~= Seq::empty());
        assert(unsaid(start.queue.take(0), peer) + start.queue.skip(0) =~= start.queue);
        while i < self.effects.len()
            invariant
                self.inv(),
                self.pool == base.pool,
                seen <= start.queue.len(),
                i == unsaid(start.queue.take(seen as int), peer).len(),
                self@ == (NodeView { queue: unsaid(start.queue.take(seen as int), peer) + start.queue.skip(seen as int), ..start }),
            decreases start.queue.len() - seen,
        {
            let ghost kept = unsaid(start.queue.take(seen as int), peer);
            let ghost queue = self@.queue;
            assert(queue.len() == self.effects@.len());
            assert(seen < start.queue.len());
            assert(queue[i as int] == self.effects@[i as int]@);
            assert(start.queue.skip(seen as int)[0] == start.queue[seen as int]);
            assert(start.queue.take(seen as int + 1).drop_last() =~= start.queue.take(seen as int));
            let drop: bool = match &self.effects[i] {
                Effect::Send(to, _) => *to == peer,
                _ => false,
            };
            if drop {
                self.effects.remove(i);
                assert(self@.queue =~= queue.remove(i as int));
                assert(self@.queue =~= kept + start.queue.skip(seen as int + 1));
            } else {
                assert(self@.queue =~= kept.push(start.queue[seen as int]) + start.queue.skip(seen as int + 1));
                i += 1;
            }
            proof {
                seen = seen + 1;
            }
        }
        proof {
            assert(self@.queue.len() == self.effects@.len());
            assert(seen == start.queue.len());
            assert(start.queue.take(seen as int) =~= start.queue);
            assert(self@.queue =~= unsaid(start.queue, peer));
        }
    }

    fn suspend(&mut self, i: usize)
        requires
            old(self).inv(),
            i < old(self).peers@.len(),
        ensures
            final(self).inv(),
            final(self).engine() == old(self).engine(),
            final(self)@ == (NodeView { peers: old(self)@.peers.update(i as int, lost(old(self)@.peers[i as int])), ..old(self)@ }),
    {
        let ghost before = *self;
        assert(before@.peers[i as int] == before.peers@[i as int]@);
        let generation: u64 = self.peers[i].generation;
        self.peers[i].state = ReplState::Suspended;
        self.peers[i].generation = if generation == u64::MAX {
            u64::MAX
        } else {
            generation + 1
        };
        self.peers[i].pull = SyncPull::new();
        self.peers[i].backlog = Vec::new();
        self.peers[i].serving_source = false;
        self.peers[i].stream_live = false;
        proof {
            assert(self.peers@[i as int]@.backlog =~= Seq::empty());
            self.lemma_one_session(&before, i as int, lost(before@.peers[i as int]));
        }
    }

    /// One session was replaced by another of the same peer.
    pub(super) proof fn lemma_one_session(&self, before: &Self, i: int, s: SessionView)
        requires
            before.inv(),
            0 <= i < before.peers@.len(),
            *self == (ReplNode { peers: self.peers, ..*before }),
            self.peers@.len() == before.peers@.len(),
            forall|j: int| 0 <= j < before.peers@.len() && j != i ==> #[trigger] self.peers@[j] == before.peers@[j],
            self.peers@[i].wf(),
            self.peers@[i]@ == s,
            s.id == before@.peers[i].id,
        ensures
            self.inv(),
            self@ == (NodeView { peers: before@.peers.update(i, s), ..before@ }),
    {
        assert(self@.peers =~= before@.peers.update(i, s));
        assert forall|a: int, b: int| 0 <= a < b < self@.peers.len() implies (#[trigger] self@.peers[a]).id < (#[trigger] self@.peers[b]).id by {
            assert(before@.peers[a].id < before@.peers[b].id);
        }
        assert forall|j: int| 0 <= j < self.peers@.len() implies (#[trigger] self.peers@[j]).wf() by {
            if j != i {
                assert(self.peers@[j] == before.peers@[j]);
            }
        }
    }

    fn forget_moves(&mut self, peer: NodeId)
        requires
            old(self).inv(),
        ensures
            final(self).inv(),
            final(self).engine() == old(self).engine(),
            final(self)@ == (NodeView {
                moving: moves_left(old(self)@.moving, peer),
                ..old(self)@
            }),
    {
        let ghost start = self@;
        let ghost base = *self;
        let keys: Vec<TierHash> = self.reassign_inflight.keys();
        let mut i: usize = 0;
        while i < keys.len()
            invariant
                self.inv(),
                *self == (ReplNode { reassign_inflight: self.reassign_inflight, ..base }),
                start == base@,
                i <= keys@.len(),
                keys@.no_duplicates(),
                forall|k: TierHash| #[trigger] start.moving.contains_key(k) <==> keys@.contains(k),
                forall|k: TierHash| #[trigger] self@.moving.contains_key(k) ==> start.moving.contains_key(k) && self@.moving[k] == start.moving[k],
                forall|k: TierHash| #[trigger] start.moving.contains_key(k) && start.moving[k] != peer ==> self@.moving.contains_key(k),
                forall|j: int| 0 <= j < i && start.moving[#[trigger] keys@[j]] == peer ==> !self@.moving.contains_key(keys@[j]),
                forall|j: int| i <= j < keys@.len() ==> self@.moving.contains_key(#[trigger] keys@[j]),
            decreases keys@.len() - i,
        {
            let key: TierHash = keys[i];
            assert(keys@.contains(key));
            let drop: bool = match self.reassign_inflight.get(&key) {
                Some(source) => source == peer,
                None => false,
            };
            if drop {
                self.reassign_inflight.remove(&key);
            }
            i += 1;
        }
        proof {
            let goal = moves_left(start.moving, peer);
            assert forall|k: TierHash| #[trigger] self@.moving.contains_key(k) <==> goal.contains_key(k) by {
                if self@.moving.contains_key(k) {
                    let j = choose|j: int| 0 <= j < keys@.len() && keys@[j] == k;
                    assert(self@.moving.contains_key(keys@[j]));
                }
            }
            assert(self@.moving =~= goal);
        }
    }

    /// The floor a fence-verdict era must clear from this node's vantage.
    /// The layer that issues verdicts takes the largest of every survivor's
    /// floor, so all of them adopt one number.
    pub fn era_target(&self) -> (r: u64)
        requires
            self.inv(),
        ensures
            r == era_floor(self@, self.engine().era_now()),
    {
        let mut top: u64 = self.pool.era();
        let ghost era = top;
        let ghost peers = self@.peers;
        let mut i: usize = 0;
        assert(peers.take(0) =~= Seq::empty());
        while i < self.peers.len()
            invariant
                i <= self.peers@.len(),
                peers == self@.peers,
                top == highest_era(era, peers.take(i as int)),
            decreases self.peers@.len() - i,
        {
            assert(peers[i as int] == self.peers@[i as int]@);
            assert(peers.take(i + 1).drop_last() =~= peers.take(i as int));
            if top < self.peers[i].era_seen {
                top = self.peers[i].era_seen;
            }
            i += 1;
        }
        assert(peers.take(i as int) =~= peers);
        if top == u64::MAX {
            u64::MAX
        } else {
            top + 1
        }
    }

    /// The cluster's word that a peer is dead. This member has been fenced, and the pool
    /// continues at `era`. The bump retires every lease of the era it
    /// closed; those this node held are issued again, so that a guest
    /// running here does not lose its pen to another member's death. The
    /// fenced member's needs come off every parked flush.
    #[verifier::rlimit(40)]
    pub fn set_member_fenced(&mut self, peer: NodeId, era: u64) -> (r: Result<()>)
        requires
            old(self).inv(),
        ensures
            final(self).inv(),
            member_fenced(old(self), final(self), peer, era, r),
    {
        let floor: u64 = self.era_target();
        let i: usize = self.session(peer);
        let ghost open = *self;
        if self.peers[i].state != ReplState::Suspended {
            return Err(FsError::Corrupt("a fence verdict arrived for a peer that is not lost"));
        }
        if self.peers[i].fenced {
            return Err(FsError::Corrupt("a fence verdict arrived for a member already fenced"));
        }
        if era < floor {
            return Err(FsError::Corrupt("a fence verdict's era is below what this node has witnessed"));
        }
        self.peers[i].fenced = true;
        let ghost v = open@.with(peer, SessionView { fenced: true, ..open@.of(peer) });
        proof {
            self.lemma_one_session(&open, i as int, SessionView { fenced: true, ..open@.of(peer) });
            assert(self@ == v);
        }
        let ghost own_era = self.pool.era_now();
        assert(old(self).engine() == open.pool && self.pool == open.pool);
        let c = self.pool.bump_era_to(era);
        let ghost bumped = self.pool;
        let ghost mid = choose|mid: Pool<D>| #[trigger] with_era(&open.pool, &mid, era) && checkpointed(&mid, &bumped, c);
        if let Err(e) = c {
            proof {
                assert(self.engine() == bumped);
                if era > own_era {
                    assert(era_turned(&old(self).engine(), &mid, &bumped, era, c));
                }
            }
            return Err(e);
        }
        let leases = self.pool.leases();
        let node: NodeId = self.node;
        let ghost lease = Lease { holder: node, handing_to: None, era };
        let mut mine: Vec<u64> = Vec::new();
        let mut k: usize = 0;
        while k < leases.len()
            invariant
                k <= leases@.len(),
                forall|a: int, b: int| 0 <= a < b < leases@.len() ==> (#[trigger] leases@[a]).0 < (#[trigger] leases@[b]).0,
                forall|a: int, b: int| 0 <= a < b < mine@.len() ==> #[trigger] mine@[a] < #[trigger] mine@[b],
                forall|a: int, b: int| 0 <= a < mine@.len() && k <= b < leases@.len() ==> #[trigger] mine@[a] < (#[trigger] leases@[b]).0,
                forall|a: int| 0 <= a < mine@.len() ==> leased_first(leases@, k as int, #[trigger] mine@[a], node),
                forall|b: int| 0 <= b < k && (#[trigger] leases@[b]).1.holder == node ==> mine@.contains(leases@[b].0),
            decreases leases@.len() - k,
        {
            let entry = leases[k];
            let ghost was = mine@;
            if entry.1.holder == node {
                mine.push(entry.0);
                proof {
                    assert(mine@[was.len() as int] == entry.0);
                    assert forall|b: int| 0 <= b < k + 1 && (#[trigger] leases@[b]).1.holder == node implies mine@.contains(leases@[b].0) by {
                        if b < k {
                            let a = choose|a: int| 0 <= a < was.len() && was[a] == leases@[b].0;
                            assert(mine@[a] == leases@[b].0);
                        }
                    }
                }
            }
            proof {
                assert(leases@[k as int] == entry);
                assert forall|a: int| 0 <= a < mine@.len() implies leased_first(leases@, k + 1, #[trigger] mine@[a], node) by {
                    if a < was.len() {
                        assert(leased_first(leases@, k as int, was[a], node));
                        let b = choose|b: int| 0 <= b < k && (#[trigger] leases@[b]).0 == was[a] && leases@[b].1.holder == node;
                        assert(leases@[b].0 == was[a]);
                    }
                }
            }
            k += 1;
        }
        proof {
            assert forall|id: u64| #[trigger] mine@.contains(id) <==> bumped.lease_map().contains_key(id) && bumped.lease_map()[id].holder == node by {
                if mine@.contains(id) {
                    let a = choose|a: int| 0 <= a < mine@.len() && mine@[a] == id;
                    assert(leased_first(leases@, k as int, mine@[a], node));
                    let b = choose|b: int| 0 <= b < leases@.len() && (#[trigger] leases@[b]).0 == mine@[a] && leases@[b].1.holder == node;
                    assert(bumped.lease_map().contains_pair(leases@[b].0, leases@[b].1));
                }
                if bumped.lease_map().contains_key(id) && bumped.lease_map()[id].holder == node {
                    let b = choose|b: int| 0 <= b < leases@.len() && leases@[b] == (id, bumped.lease_map()[id]);
                    assert(mine@.contains(leases@[b].0));
                }
            }
            assert(held_by(bumped.lease_map(), v.node, mine@));
            lemma_same_stock_refl(&bumped);
        }
        let mut n: usize = 0;
        let ghost mut steps: Seq<Pool<D>> = seq![bumped];
        while n < mine.len()
            invariant
                self.inv(),
                n <= mine@.len(),
                steps.len() == n + 1,
                steps[0] == bumped,
                steps.last() == self.pool,
                forall|i: int| 0 <= i < n ==> #[trigger] claim_step(steps, i, mine@, node),
                node == v.node,
                lease == (Lease { holder: node, handing_to: None, era }),
                bumped.era_now() == era,
                same_but_leases(&bumped, &self.pool),
                held_by(bumped.lease_map(), v.node, mine@),
                self.pool.lease_map() == released(bumped.lease_map(), mine@, lease, n as nat),
                self@ == announced(v, mine@, lease, n as nat),
                old(self).engine() == open.pool,
                era_turned(&open.pool, &mid, &bumped, era, c),
                c is Ok,
                own_era == open.pool.era_now(),
                own_era < era,
                open@ == old(self)@.opened(peer),
                v == open@.with(peer, SessionView { fenced: true, ..open@.of(peer) }),
                verdict_refusal(old(self)@, old(self).engine().era_now(), peer, era) is None,
            decreases mine@.len() - n,
        {
            let vdisk: u64 = mine[n];
            let ghost was = self.pool;
            proof {
                assert(mine@.contains(vdisk));
                lemma_released(bumped.lease_map(), mine@, lease, n as nat, vdisk);
            }
            let claim = self.pool.claim_lease(vdisk, node);
            proof {
                lemma_same_stock_twice(&bumped, &was, &self.pool);
            }
            if let Err(e) = claim {
                assert(claims_run(steps, &bumped, &self.engine(), mine@, v.node, claim));
                assert(reissued(v, &bumped, &self.engine(), self@, mine@, n as nat, claim, peer));
                return claim;
            }
            proof {
                let before = steps;
                steps = steps.push(self.pool);
                assert(claimed(&was, &self.pool, vdisk, node, claim));
                assert forall|i: int| 0 <= i < n + 1 implies #[trigger] claim_step(steps, i, mine@, node) by {
                    if i < n {
                        assert(claim_step(before, i, mine@, node));
                        let c = choose|c: Result<()>| #[trigger] claimed(&before[i], &before[i + 1], mine@[i], node, c) && c is Ok;
                        assert(claimed(&steps[i], &steps[i + 1], mine@[i], node, c));
                    } else {
                        assert(claimed(&steps[i], &steps[i + 1], mine@[i], node, claim));
                    }
                }
            }
            let ghost leased = self.pool;
            assert(leased.lease_map() =~= was.lease_map().insert(vdisk, lease));
            if let Some(settled) = self.pool.lease(vdisk) {
                let ops: Vec<ReplOp> = vec![ReplOp::SetLease { vdisk, lease: settled }];
                assert(ops@ =~= seq![ReplOp::SetLease { vdisk, lease }]);
                self.send_ops(ops);
            }
            assert(self.pool == leased);
            n += 1;
        }
        let ghost after = self.pool;
        self.forgive(peer, None);
        assert(self.engine() == after);
        let done: Result<()> = Ok(());
        assert(claims_run(steps, &bumped, &self.engine(), mine@, v.node, done));
        assert(reissued(v, &bumped, &self.engine(), self@, mine@, n as nat, done, peer));
        done
    }

    /// The verdict of a cluster of two: the other member has been fenced,
    /// and the pool continues at the lowest era that clears everything this
    /// node has witnessed.
    pub fn set_peer_fenced(&mut self, peer: NodeId) -> (r: Result<()>)
        requires
            old(self).inv(),
        ensures
            final(self).inv(),
            member_fenced(old(self), final(self), peer, era_floor(old(self)@, old(self).engine().era_now()), r),
    {
        let era: u64 = self.era_target();
        self.set_member_fenced(peer, era)
    }
}

proof fn lemma_released(leases: Map<u64, Lease>, ids: Seq<u64>, lease: Lease, n: nat, id: u64)
    requires
        n <= ids.len(),
    ensures
        released(leases, ids, lease, n).contains_key(id) ==> released(leases, ids, lease, n)[id] == lease || (leases.contains_key(id) && released(
            leases,
            ids,
            lease,
            n,
        )[id] == leases[id]),
    decreases n,
{
    if n > 0 {
        lemma_released(leases, ids, lease, (n - 1) as nat, id);
    }
}

pub(super) proof fn lemma_same_stock_refl<D: Disk>(a: &Pool<D>)
    requires
        a.inv(),
    ensures
        same_but_leases(a, a),
{
    a.lemma_pool();
}

proof fn lemma_same_stock_twice<D: Disk>(a: &Pool<D>, b: &Pool<D>, c: &Pool<D>)
    requires
        same_but_leases(a, b),
        same_but_leases(b, c),
    ensures
        same_but_leases(a, c),
{
    crate::pool::checkpoint::lemma_same_twice(&a.stock(), &b.stock(), &c.stock());
}

proof fn lemma_highest(floor: u64, peers: Seq<SessionView>, i: int)
    ensures
        highest_era(floor, peers) >= floor,
        0 <= i < peers.len() ==> highest_era(floor, peers) >= peers[i].era_seen,
    decreases peers.len(),
{
    if peers.len() > 0 {
        lemma_highest(floor, peers.drop_last(), i);
    }
}

/// A verdict's era clears the node's own and every era any peer has claimed
/// to it, short of the largest number there is.
pub proof fn law_verdict_era_clears_all(v: NodeView, own_era: u64, peer: NodeId, era: u64, i: int)
    requires
        verdict_refusal(v, own_era, peer, era) is None,
        highest_era(own_era, v.peers) < u64::MAX,
        0 <= i < v.peers.len(),
    ensures
        era > own_era,
        era > v.peers[i].era_seen,
{
    lemma_highest(own_era, v.peers, i);
}

} // verus!
