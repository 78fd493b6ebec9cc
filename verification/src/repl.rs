//! Replication: a pool that keeps its peers in lockstep.
//!
//! A node accepts a guest's mutation, applies it locally, and streams the op
//! (the data first, to the homes of its slice) to every peer it has a live
//! session with. A guest flush completes only once every peer that owes
//! durability has confirmed it, has been declared dead by a fence verdict,
//! or has adopted this node's state.
//!
//! The node is passive: messages, link events and verdicts come in, and
//! [`wire::Effect`]s come out. Sockets and timers belong to the caller.

use crate::disk::Disk;
use crate::error::{FsError, Result};
use crate::hash::BlockHash;
use crate::pool::{Lease, Pool};
use crate::slice::{NodeId, SliceMap};
use crate::table::{SortKey, SortedMap, TierHash};
use pull::{PullView, SyncPull};
use vstd::prelude::*;
use wire::{effects_view, Effect, EffectView, MessageView, PeerMessage};

pub mod adopt;
pub mod coalesce;
pub mod flush;
pub mod guest;
pub mod handle;
pub mod keeping;
pub mod link;
pub mod lockstep;
pub mod ops;
pub mod pen;
pub mod promise;
pub mod pull;
pub mod read;
pub mod reassign;
pub mod resync;
pub mod service;
pub mod sessions;
pub mod settling;
pub mod standing;
pub mod stream;
pub mod takeover;
pub mod wire;

verus! {

/// Where a session stands.
#[derive(Debug, Clone, Copy, PartialEq, Eq, Structural)]
pub enum ReplState {
    /// No peer link and nothing decided: reads only, writes refuse, flushes park.
    Suspended,
    /// Peer in lockstep: every acknowledgement is two-node durable.
    Synced,
    /// Alone under a fence verdict, at a bumped era.
    Degraded,
    /// Reconciling with a returning peer.
    Resyncing { source: bool },
}

/// Everything this node knows about one peer. A session outlives its
/// connections; its stream numbering does not: every hello opens a new
/// generation. The counters stop at the largest number they can hold.
#[derive(Debug)]
pub struct PeerSession {
    id: NodeId,
    state: ReplState,
    /// Which incarnation of this session's stream the counters belong to.
    generation: u64,
    /// Numbering for ops sent to this peer.
    next_rseq: u64,
    /// This peer's confirmed durability.
    durable_rseq: u64,
    /// The highest op sent to this peer whose durability here a guest flush
    /// must wait for.
    required_rseq: u64,
    /// Last op applied from this peer.
    applied_rseq: u64,
    /// The tiers this peer's brick set carried at its last hello.
    tiers: Vec<u8>,
    /// The highest era this peer has ever claimed to this node.
    era_seen: u64,
    /// The cluster vouched this member dead. Cleared by its next hello.
    fenced: bool,
    /// The target's buffer of this source's live stream, replayed in arrival
    /// order after adoption.
    backlog: Vec<PeerMessage>,
    /// This session's pull, when this node is its resync target.
    pull: SyncPull,
    /// Sourcing this session's resync with era superiority: guests keep
    /// writing here.
    serving_source: bool,
    /// The offer has been cut; every op from here on streams to this peer.
    stream_live: bool,
}

/// A session as the contracts see it.
pub struct SessionView {
    pub id: NodeId,
    pub state: ReplState,
    pub generation: u64,
    pub next_rseq: u64,
    pub durable_rseq: u64,
    pub required_rseq: u64,
    pub applied_rseq: u64,
    pub tiers: Seq<u8>,
    pub era_seen: u64,
    pub fenced: bool,
    pub backlog: Seq<MessageView>,
    pub pull: PullView,
    pub serving_source: bool,
    pub stream_live: bool,
}

/// Messages as the contracts see them.
pub open spec fn messages_view(s: Seq<PeerMessage>) -> Seq<MessageView> {
    Seq::new(s.len(), |i: int| s[i]@)
}

/// A session with a peer never heard of.
pub open spec fn fresh_session(id: NodeId) -> SessionView {
    SessionView {
        id,
        state: ReplState::Suspended,
        generation: 0,
        next_rseq: 1,
        durable_rseq: 0,
        required_rseq: 0,
        applied_rseq: 0,
        tiers: Seq::empty(),
        era_seen: 0,
        fenced: false,
        backlog: Seq::empty(),
        pull: pull::no_pull(),
        serving_source: false,
        stream_live: false,
    }
}

/// The larger of two counters.
pub open spec fn larger(a: u64, b: u64) -> u64 {
    if a < b {
        b
    } else {
        a
    }
}

/// A counter moved on, stopping at the largest number there is.
pub open spec fn moved_on(n: u64, by: nat) -> u64 {
    if n + by > u64::MAX {
        u64::MAX
    } else {
        (n + by) as u64
    }
}

impl SessionView {
    /// Ops leave for this peer: in lockstep always, and while sourcing its
    /// resync only once the offer is cut.
    pub open spec fn streams(self) -> bool {
        self.state == ReplState::Synced || self.stream_live
    }

    /// Sourcing its resync under a verdict's era.
    pub open spec fn sourced(self) -> bool {
        self.state == (ReplState::Resyncing { source: true }) && self.serving_source
    }

    /// In lockstep, excused by a verdict, or covered by the single-copy
    /// regime a verdict authorized.
    pub open spec fn accounted_for(self) -> bool {
        self.fenced || self.state == ReplState::Synced || self.sourced()
    }

    /// This node is the target of its resync.
    pub open spec fn pulls(self) -> bool {
        self.state == (ReplState::Resyncing { source: false })
    }
}

/// A message that a pulling target holds back.
pub open spec fn held_back(m: PeerMessage) -> bool {
    m is Payloads || m is Apply
}

impl PeerSession {
    pub closed spec fn view(&self) -> SessionView {
        SessionView {
            id: self.id,
            state: self.state,
            generation: self.generation,
            next_rseq: self.next_rseq,
            durable_rseq: self.durable_rseq,
            required_rseq: self.required_rseq,
            applied_rseq: self.applied_rseq,
            tiers: self.tiers@,
            era_seen: self.era_seen,
            fenced: self.fenced,
            backlog: messages_view(self.backlog@),
            pull: self.pull@,
            serving_source: self.serving_source,
            stream_live: self.stream_live,
        }
    }

    closed spec fn wf(&self) -> bool {
        &&& self.pull.wf()
        &&& self.next_rseq >= 1
        &&& forall|i: int| 0 <= i < self.backlog@.len() ==> held_back(#[trigger] self.backlog@[i])
    }

    fn new(id: NodeId) -> (s: PeerSession)
        ensures
            s.wf(),
            s@ == fresh_session(id),
    {
        let s = PeerSession {
            id,
            state: ReplState::Suspended,
            generation: 0,
            next_rseq: 1,
            durable_rseq: 0,
            required_rseq: 0,
            applied_rseq: 0,
            tiers: Vec::new(),
            era_seen: 0,
            fenced: false,
            backlog: Vec::new(),
            pull: SyncPull::new(),
            serving_source: false,
            stream_live: false,
        };
        assert(messages_view(s.backlog@) =~= Seq::empty());
        s
    }

    fn stream_active(&self) -> (r: bool)
        ensures
            r == self@.streams(),
    {
        self.state == ReplState::Synced || self.stream_live
    }

    fn accounted_for(&self) -> (r: bool)
        ensures
            r == self@.accounted_for(),
    {
        self.fenced || self.state == ReplState::Synced || (self.state == (ReplState::Resyncing { source: true }) && self.serving_source)
    }
}

/// One guest flush waiting on its peers: settled when every need is gone and
/// the node is serving.
#[derive(Debug)]
pub struct ParkedFlush {
    ticket: u64,
    /// The last op each peer owes durability for: peer, session generation,
    /// sequence number.
    needs: Vec<(NodeId, u64, u64)>,
}

/// A parked flush as the contracts see it.
pub struct FlushView {
    pub ticket: u64,
    pub needs: Seq<(NodeId, u64, u64)>,
}

impl ParkedFlush {
    pub closed spec fn view(&self) -> FlushView {
        FlushView { ticket: self.ticket, needs: self.needs@ }
    }
}

pub open spec fn flushes_view(s: Seq<ParkedFlush>) -> Seq<FlushView> {
    Seq::new(s.len(), |i: int| s[i]@)
}

pub open spec fn sessions_view(s: Seq<PeerSession>) -> Seq<SessionView> {
    Seq::new(s.len(), |i: int| s[i]@)
}

/// What was asked of whom.
#[derive(Debug, Clone, Copy)]
pub struct PendingRead {
    pub tier: u8,
    pub hash: BlockHash,
    pub target: NodeId,
}

/// A node: its pool, and its sessions with its peers.
pub struct ReplNode<D: Disk> {
    pool: Pool<D>,
    node: NodeId,
    effects: Vec<Effect>,
    /// One session per peer, by ascending id.
    peers: Vec<PeerSession>,
    parked: Vec<ParkedFlush>,
    next_ticket: u64,
    /// Fetched payloads for blocks this member does not store, held for
    /// exactly one read each.
    fetched: SortedMap<TierHash, Vec<u8>>,
    /// Outstanding fetches, by ticket.
    pending_reads: SortedMap<u64, PendingRead>,
    /// Every vdisk named by any offer this rejoin has seen.
    offered_vdisks: SortedMap<u64, ()>,
    /// Reassignment moves requested and not yet landed, with the source
    /// asked.
    reassign_inflight: SortedMap<TierHash, NodeId>,
}

/// Everything of a node but its pool, as the contracts see it.
pub struct NodeView {
    pub node: NodeId,
    /// Effects not yet taken.
    pub queue: Seq<EffectView>,
    pub peers: Seq<SessionView>,
    pub parked: Seq<FlushView>,
    pub next_ticket: u64,
    pub fetched: Map<TierHash, Seq<u8>>,
    pub reads: Map<u64, PendingRead>,
    pub offered: Set<u64>,
    pub moving: Map<TierHash, NodeId>,
}

/// Where the session with a peer stands, or would.
pub open spec fn slot_of(peers: Seq<SessionView>, peer: NodeId) -> int
    decreases peers.len(),
{
    if peers.len() == 0 || peers[0].id >= peer {
        0
    } else {
        1 + slot_of(peers.drop_first(), peer)
    }
}

pub open spec fn ids_ascend(peers: Seq<SessionView>) -> bool {
    forall|i: int, j: int| 0 <= i < j < peers.len() ==> (#[trigger] peers[i]).id < (#[trigger] peers[j]).id
}

proof fn lemma_slot(peers: Seq<SessionView>, peer: NodeId, i: int)
    requires
        0 <= i <= peers.len(),
        forall|j: int| 0 <= j < i ==> (#[trigger] peers[j]).id < peer,
        i < peers.len() ==> peers[i].id >= peer,
    ensures
        slot_of(peers, peer) == i,
    decreases i,
{
    if i > 0 {
        let rest = peers.drop_first();
        assert(peers[0].id < peer);
        assert forall|j: int| 0 <= j < i - 1 implies (#[trigger] rest[j]).id < peer by {
            assert(rest[j] == peers[j + 1]);
        }
        if i < peers.len() {
            assert(rest[i - 1] == peers[i]);
        }
        lemma_slot(rest, peer, i - 1);
    }
}

proof fn lemma_slot_at(peers: Seq<SessionView>, i: int)
    requires
        ids_ascend(peers),
        0 <= i < peers.len(),
    ensures
        slot_of(peers, peers[i].id) == i,
{
    lemma_slot(peers, peers[i].id, i);
}

proof fn lemma_slot_range(peers: Seq<SessionView>, peer: NodeId)
    ensures
        0 <= slot_of(peers, peer) <= peers.len(),
    decreases peers.len(),
{
    if peers.len() > 0 && peers[0].id < peer {
        lemma_slot_range(peers.drop_first(), peer);
    }
}

/// The first session in the middle of a resync.
pub open spec fn first_resync(peers: Seq<SessionView>) -> Option<ReplState>
    decreases peers.len(),
{
    if peers.len() == 0 {
        None
    } else if peers[0].state is Resyncing {
        Some(peers[0].state)
    } else {
        first_resync(peers.drop_first())
    }
}

/// The later of two stream positions: by ops sent, then confirmed, then
/// applied.
pub open spec fn later_position(a: (u64, u64, u64), b: (u64, u64, u64)) -> (u64, u64, u64) {
    if a.0 < b.0 || (a.0 == b.0 && (a.1 < b.1 || (a.1 == b.1 && a.2 < b.2))) {
        b
    } else {
        a
    }
}

/// Ops sent, ops confirmed durable, ops applied.
pub open spec fn position(s: SessionView) -> (u64, u64, u64) {
    ((s.next_rseq - 1) as u64, s.durable_rseq, s.applied_rseq)
}

/// The position of the busiest stream.
pub open spec fn busiest(peers: Seq<SessionView>) -> (u64, u64, u64)
    decreases peers.len(),
{
    if peers.len() == 0 {
        (0, 0, 0)
    } else {
        later_position(busiest(peers.drop_last()), position(peers.last()))
    }
}

impl NodeView {
    /// A session with this peer exists.
    pub open spec fn knows(self, peer: NodeId) -> bool {
        slot_of(self.peers, peer) < self.peers.len() && self.peers[slot_of(self.peers, peer)].id == peer
    }

    /// The session with a known peer.
    pub open spec fn of(self, peer: NodeId) -> SessionView {
        self.peers[slot_of(self.peers, peer)]
    }

    /// With that session replaced.
    pub open spec fn with(self, peer: NodeId, s: SessionView) -> NodeView {
        NodeView { peers: self.peers.update(slot_of(self.peers, peer), s), ..self }
    }

    /// With a session for this peer, a fresh one if there was none.
    pub open spec fn opened(self, peer: NodeId) -> NodeView {
        if self.knows(peer) {
            self
        } else {
            NodeView { peers: self.peers.insert(slot_of(self.peers, peer), fresh_session(peer)), ..self }
        }
    }

    /// With one more effect in the queue.
    pub open spec fn says(self, effect: EffectView) -> NodeView {
        NodeView { queue: self.queue.push(effect), ..self }
    }

    /// With one more message to a peer in the queue.
    pub open spec fn tells(self, peer: NodeId, message: MessageView) -> NodeView {
        self.says(EffectView::Send(peer, message))
    }

    /// Guests may be served mutations: every known peer is accounted for,
    /// and at least one is known.
    pub open spec fn serving(self) -> bool {
        self.peers.len() > 0 && forall|i: int| 0 <= i < self.peers.len() ==> (#[trigger] self.peers[i]).accounted_for()
    }

    pub open spec fn fenced(self, peer: NodeId) -> bool {
        self.knows(peer) && self.of(peer).fenced
    }

    /// The node's relationship to its pool, derived from the sessions.
    pub open spec fn state(self) -> ReplState {
        match first_resync(self.peers) {
            Some(state) => state,
            None => if self.peers.len() > 0 && (forall|i: int| 0 <= i < self.peers.len() ==> (#[trigger] self.peers[i]).fenced) {
                ReplState::Degraded
            } else if self.peers.len() > 0 && (forall|i: int|
                0 <= i < self.peers.len() ==> (#[trigger] self.peers[i]).fenced || self.peers[i].state == ReplState::Synced) {
                ReplState::Synced
            } else {
                ReplState::Suspended
            },
        }
    }
}

impl<D: Disk> ReplNode<D> {
    pub closed spec fn view(&self) -> NodeView {
        NodeView {
            node: self.node,
            queue: effects_view(self.effects@),
            peers: sessions_view(self.peers@),
            parked: flushes_view(self.parked@),
            next_ticket: self.next_ticket,
            fetched: Map::new(|k: TierHash| self.fetched@.contains_key(k), |k: TierHash| self.fetched@[k]@),
            reads: self.pending_reads@,
            offered: self.offered_vdisks@.dom(),
            moving: self.reassign_inflight@,
        }
    }

    /// The pool under the node.
    pub closed spec fn engine(&self) -> Pool<D> {
        self.pool
    }

    /// The in-memory state is in order.
    pub closed spec fn inv(&self) -> bool {
        &&& self.pool.inv()
        &&& ids_ascend(sessions_view(self.peers@))
        &&& forall|i: int| 0 <= i < self.peers@.len() ==> (#[trigger] self.peers@[i]).wf()
        &&& self.fetched.wf()
        &&& self.pending_reads.wf()
        &&& self.offered_vdisks.wf()
        &&& self.reassign_inflight.wf()
    }

    /// What a node in order says of its parts.
    pub proof fn lemma_node(&self)
        requires
            self.inv(),
        ensures
            self.engine().inv(),
            ids_ascend(self@.peers),
            forall|i: int| 0 <= i < self@.peers.len() ==> (#[trigger] self@.peers[i]).next_rseq >= 1,
    {
    }

    /// A node that knows no peer yet.
    pub fn new(pool: Pool<D>, node: NodeId) -> (r: ReplNode<D>)
        requires
            pool.inv(),
        ensures
            r.inv(),
            r.engine() == pool,
            r@ == (NodeView {
                node,
                queue: Seq::empty(),
                peers: Seq::empty(),
                parked: Seq::empty(),
                next_ticket: 1,
                fetched: Map::empty(),
                reads: Map::empty(),
                offered: Set::empty(),
                moving: Map::empty(),
            }),
    {
        let r = ReplNode {
            pool,
            node,
            effects: Vec::new(),
            peers: Vec::new(),
            parked: Vec::new(),
            next_ticket: 1,
            fetched: SortedMap::new(),
            pending_reads: SortedMap::new(),
            offered_vdisks: SortedMap::new(),
            reassign_inflight: SortedMap::new(),
        };
        assert(r@.queue =~= Seq::empty());
        assert(r@.peers =~= Seq::empty());
        assert(r@.parked =~= Seq::empty());
        assert(r@.fetched =~= Map::empty());
        assert(r@.offered =~= Set::empty());
        r
    }

    /// Hand this node its seat: the first map over `members`.
    pub fn set_placement(&mut self, members: &Vec<NodeId>) -> (r: Result<()>)
        requires
            old(self).inv(),
        ensures
            final(self).inv(),
            final(self)@ == old(self)@,
            forall|list: Seq<NodeId>| #[trigger]
                crate::slice::lists(list, members@) ==> {
                    &&& list.len() < 2 ==> r == Err::<(), FsError>(FsError::Placement("a pool needs at least two members"))
                    &&& list.len() >= 2 ==> r is Ok && crate::slice::is_ring(final(self).engine().seat()->Some_0.1.table(), list)
                },
            r is Err ==> final(self).engine() == old(self).engine(),
            r is Ok ==> seated(&old(self).engine(), &final(self).engine(), old(self)@.node),
    {
        match SliceMap::for_members(1, members) {
            Ok(map) => {
                self.pool.set_placement(self.node, map);
                Ok(())
            },
            Err(e) => Err(e),
        }
    }

    /// The node's relationship to its pool: a resync in flight names itself,
    /// a fleet of verdicts is `Degraded`, a live lockstep is `Synced`, and
    /// anything less is `Suspended`.
    pub fn state(&self) -> (r: ReplState)
        requires
            self.inv(),
        ensures
            r == self@.state(),
    {
        let mut i: usize = 0;
        let mut all_fenced: bool = true;
        let mut all_live: bool = true;
        let ghost peers = self@.peers;
        assert(peers.skip(0) =~= peers);
        while i < self.peers.len()
            invariant
                i <= self.peers@.len(),
                peers == self@.peers,
                first_resync(peers) == first_resync(peers.skip(i as int)),
                all_fenced == (forall|j: int| 0 <= j < i ==> (#[trigger] peers[j]).fenced),
                all_live == (forall|j: int| 0 <= j < i ==> (#[trigger] peers[j]).fenced || peers[j].state == ReplState::Synced),
            decreases self.peers@.len() - i,
        {
            let s = &self.peers[i];
            assert(peers[i as int] == s@);
            assert(peers.skip(i as int)[0] == peers[i as int]);
            assert(peers.skip(i as int).drop_first() =~= peers.skip(i + 1));
            if let ReplState::Resyncing { source: _ } = s.state {
                return s.state;
            }
            if !s.fenced {
                all_fenced = false;
                if s.state != ReplState::Synced {
                    all_live = false;
                }
            }
            i += 1;
        }
        assert(peers.skip(i as int) =~= Seq::empty());
        if self.peers.len() == 0 {
            ReplState::Suspended
        } else if all_fenced {
            ReplState::Degraded
        } else if all_live {
            ReplState::Synced
        } else {
            ReplState::Suspended
        }
    }

    /// The busiest stream's position: ops sent, ops confirmed durable, ops
    /// applied.
    pub fn stream_counters(&self) -> (r: (u64, u64, u64))
        requires
            self.inv(),
        ensures
            r == busiest(self@.peers),
    {
        let mut best: (u64, u64, u64) = (0, 0, 0);
        let mut i: usize = 0;
        let ghost peers = self@.peers;
        assert(peers.take(0) =~= Seq::empty());
        while i < self.peers.len()
            invariant
                self.inv(),
                i <= self.peers@.len(),
                peers == self@.peers,
                best == busiest(peers.take(i as int)),
            decreases self.peers@.len() - i,
        {
            let s = &self.peers[i];
            assert(self.peers@[i as int].wf());
            assert(peers[i as int] == s@);
            assert(peers.take(i + 1).drop_last() =~= peers.take(i as int));
            let sent: u64 = s.next_rseq - 1;
            let durable: u64 = s.durable_rseq;
            let applied: u64 = s.applied_rseq;
            if best.0 < sent || (best.0 == sent && (best.1 < durable || (best.1 == durable && best.2 < applied))) {
                best = (sent, durable, applied);
            }
            i += 1;
        }
        assert(peers.take(i as int) =~= peers);
        best
    }

    /// Every session's stream position: peer, sent, durable, applied.
    pub fn peer_counters(&self) -> (r: Vec<(NodeId, u64, u64, u64)>)
        requires
            self.inv(),
        ensures
            r@.len() == self@.peers.len(),
            forall|i: int| 0 <= i < r@.len() ==> {
                let s = self@.peers[i];
                #[trigger] r@[i] == (s.id, position(s).0, position(s).1, position(s).2)
            },
    {
        let mut out: Vec<(NodeId, u64, u64, u64)> = Vec::new();
        let mut i: usize = 0;
        while i < self.peers.len()
            invariant
                self.inv(),
                i <= self.peers@.len(),
                out@.len() == i,
                forall|j: int| 0 <= j < i ==> {
                    let s = self@.peers[j];
                    #[trigger] out@[j] == (s.id, position(s).0, position(s).1, position(s).2)
                },
            decreases self.peers@.len() - i,
        {
            let s = &self.peers[i];
            assert(self.peers@[i as int].wf());
            assert(self@.peers[i as int] == s@);
            out.push((s.id, s.next_rseq - 1, s.durable_rseq, s.applied_rseq));
            i += 1;
        }
        out
    }

    pub fn node(&self) -> (r: NodeId)
        ensures
            r == self@.node,
    {
        self.node
    }

    /// The pool, for reads and verification. Mutation goes through the node,
    /// which is what keeps the peers honest.
    pub fn pool(&self) -> (r: &Pool<D>)
        requires
            self.inv(),
        ensures
            *r == self.engine(),
            r.inv(),
    {
        &self.pool
    }

    pub fn into_pool(self) -> (r: Pool<D>)
        requires
            self.inv(),
        ensures
            r == self.engine(),
            r.inv(),
    {
        self.pool
    }

    fn emit(&mut self, effect: Effect)
        requires
            old(self).inv(),
        ensures
            final(self).inv(),
            final(self).engine() == old(self).engine(),
            final(self)@ == old(self)@.says(effect@),
    {
        let ghost e = effect@;
        self.effects.push(effect);
        assert(self@.queue =~= old(self)@.queue.push(e));
    }

    /// Where this peer's session stands, if it has one.
    fn find(&self, peer: NodeId) -> (r: Option<usize>)
        requires
            self.inv(),
        ensures
            match r {
                Some(i) => self@.knows(peer) && i == slot_of(self@.peers, peer) && i < self.peers@.len() && self@.of(peer) == self.peers@[i as int]@,
                None => !self@.knows(peer),
            },
    {
        let mut i: usize = 0;
        while i < self.peers.len() && self.peers[i].id < peer
            invariant
                i <= self.peers@.len(),
                forall|j: int| 0 <= j < i ==> (#[trigger] self@.peers[j]).id < peer,
            decreases self.peers@.len() - i,
        {
            assert(self@.peers[i as int] == self.peers@[i as int]@);
            i += 1;
        }
        proof {
            if i < self.peers@.len() {
                assert(self@.peers[i as int] == self.peers@[i as int]@);
            }
            lemma_slot(self@.peers, peer, i as int);
        }
        if i < self.peers.len() && self.peers[i].id == peer {
            Some(i)
        } else {
            None
        }
    }

    /// Where a known peer's session stands.
    fn at(&self, peer: NodeId) -> (i: usize)
        requires
            self.inv(),
            self@.knows(peer),
        ensures
            i == slot_of(self@.peers, peer),
            i < self.peers@.len(),
            self@.of(peer) == self.peers@[i as int]@,
            self@.peers[i as int].id == peer,
    {
        match self.find(peer) {
            Some(i) => i,
            None => 0,
        }
    }

    /// This peer's session, opened if there was none.
    fn session(&mut self, peer: NodeId) -> (i: usize)
        requires
            old(self).inv(),
        ensures
            final(self).inv(),
            final(self).engine() == old(self).engine(),
            final(self)@ == old(self)@.opened(peer),
            final(self)@.knows(peer),
            i == slot_of(final(self)@.peers, peer),
            i < final(self).peers@.len(),
            final(self)@.of(peer) == final(self).peers@[i as int]@,
    {
        let mut i: usize = 0;
        while i < self.peers.len() && self.peers[i].id < peer
            invariant
                i <= self.peers@.len(),
                forall|j: int| 0 <= j < i ==> (#[trigger] self@.peers[j]).id < peer,
            decreases self.peers@.len() - i,
        {
            assert(self@.peers[i as int] == self.peers@[i as int]@);
            i += 1;
        }
        proof {
            if i < self.peers@.len() {
                assert(self@.peers[i as int] == self.peers@[i as int]@);
            }
            lemma_slot(self@.peers, peer, i as int);
        }
        if i < self.peers.len() && self.peers[i].id == peer {
            return i;
        }
        let fresh = PeerSession::new(peer);
        let ghost f = fresh@;
        self.peers.insert(i, fresh);
        proof {
            let was = old(self)@.peers;
            let is = self@.peers;
            assert(is =~= was.insert(i as int, f));
            if i < was.len() {
                assert(was[i as int].id > peer);
            }
            assert forall|a: int, b: int| 0 <= a < b < is.len() implies (#[trigger] is[a]).id < (#[trigger] is[b]).id by {
                let a0 = if a < i { a } else { a - 1 };
                let b0 = if b < i { b } else { b - 1 };
                if a == i {
                    if b0 > i {
                        assert(was[i as int].id < was[b0].id);
                    }
                } else if b == i {
                    assert(was[a0].id < peer);
                } else {
                    assert(was[a0].id < was[b0].id);
                }
            }
            assert forall|j: int| 0 <= j < self.peers@.len() implies (#[trigger] self.peers@[j]).wf() by {
                if j > i {
                    assert(self.peers@[j] == old(self).peers@[j - 1]);
                }
            }
            lemma_slot(is, peer, i as int);
        }
        i
    }

    /// Whether guests may be served mutations here at all.
    fn serving(&self) -> (r: bool)
        requires
            self.inv(),
        ensures
            r == self@.serving(),
    {
        let mut i: usize = 0;
        while i < self.peers.len()
            invariant
                i <= self.peers@.len(),
                forall|j: int| 0 <= j < i ==> (#[trigger] self@.peers[j]).accounted_for(),
            decreases self.peers@.len() - i,
        {
            assert(self@.peers[i as int] == self.peers@[i as int]@);
            if !self.peers[i].accounted_for() {
                return false;
            }
            i += 1;
        }
        self.peers.len() > 0
    }

    /// Whether a guest write would be accepted right now.
    pub fn accepts_writes(&self) -> (r: bool)
        requires
            self.inv(),
        ensures
            r == self@.serving(),
    {
        self.serving()
    }

    /// Whether this member currently stands fenced from this node's view.
    pub fn is_fenced(&self, peer: NodeId) -> (r: bool)
        requires
            self.inv(),
        ensures
            r == self@.fenced(peer),
    {
        match self.find(peer) {
            Some(i) => self.peers[i].fenced,
            None => false,
        }
    }

    /// What the durable lease says about this vdisk.
    pub fn lease(&self, vdisk: u64) -> (r: Option<Lease>)
        requires
            self.inv(),
        ensures
            r == if self.engine().lease_map().contains_key(vdisk) {
                Some(self.engine().lease_map()[vdisk])
            } else {
                None
            },
    {
        self.pool.lease(vdisk)
    }
}

/// A pool that differs in nothing but its seat.
pub open spec fn seated<D: Disk>(a: &Pool<D>, b: &Pool<D>, node: NodeId) -> bool {
    &&& crate::pool::snapshot::same_ground(a, b)
    &&& b.vdisk_map() == a.vdisk_map()
    &&& b.snapshot_map() == a.snapshot_map()
    &&& b.lease_map() == a.lease_map()
    &&& b.era_now() == a.era_now()
    &&& b.pending() == a.pending()
    &&& b.seat() is Some
    &&& b.seat()->Some_0.0 == node
    &&& b.seat()->Some_0.1.at_version() == 1
    &&& b.seat()->Some_0.1.sound()
}

} // verus!
