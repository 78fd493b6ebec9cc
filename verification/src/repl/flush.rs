//! Guest flushes: what they wait for, and when they complete.

use super::wire::{Effect, EffectView, MessageView, PeerMessage};
use super::{FlushView, NodeView, ParkedFlush, ReplNode, ReplState, SessionView};
use crate::disk::Disk;
use crate::error::{FsError, Result};
use crate::slice::NodeId;
use vstd::prelude::*;

verus! {

/// A session whose durability a guest flush has to wait for.
pub open spec fn owes(s: SessionView) -> bool {
    !s.fenced && !s.sourced() && s.required_rseq > s.durable_rseq
}

/// What a flush made now waits for.
pub open spec fn needs_of(peers: Seq<SessionView>) -> Seq<(NodeId, u64, u64)>
    decreases peers.len(),
{
    if peers.len() == 0 {
        Seq::empty()
    } else {
        let rest = needs_of(peers.drop_last());
        let s = peers.last();
        if owes(s) {
            rest.push((s.id, s.generation, s.required_rseq))
        } else {
            rest
        }
    }
}

/// The questions that go to the peers that can be asked now.
pub open spec fn questions(peers: Seq<SessionView>) -> Seq<EffectView>
    decreases peers.len(),
{
    if peers.len() == 0 {
        Seq::empty()
    } else {
        let rest = questions(peers.drop_last());
        let s = peers.last();
        if owes(s) && s.state == ReplState::Synced {
            rest.push(EffectView::Send(s.id, MessageView::Flush { up_to: s.required_rseq }))
        } else {
            rest
        }
    }
}

/// The flushes that still wait for someone.
pub open spec fn unmet(parked: Seq<FlushView>) -> Seq<FlushView>
    decreases parked.len(),
{
    if parked.len() == 0 {
        Seq::empty()
    } else {
        let rest = unmet(parked.drop_last());
        if parked.last().needs.len() > 0 {
            rest.push(parked.last())
        } else {
            rest
        }
    }
}

/// The answers to those that wait for no one, in ticket order.
pub open spec fn answers(parked: Seq<FlushView>) -> Seq<EffectView>
    decreases parked.len(),
{
    if parked.len() == 0 {
        Seq::empty()
    } else {
        let rest = answers(parked.drop_last());
        if parked.last().needs.len() > 0 {
            rest
        } else {
            rest.push(EffectView::FlushDone(parked.last().ticket))
        }
    }
}

/// A need that is gone: this peer's, and where a confirmation covers it, of
/// the confirmed generation and no later than the confirmed op.
pub open spec fn forgiven(need: (NodeId, u64, u64), peer: NodeId, cover: Option<(u64, u64)>) -> bool {
    need.0 == peer && match cover {
        None => true,
        Some((generation, durable)) => need.1 == generation && need.2 <= durable,
    }
}

pub open spec fn needs_left(needs: Seq<(NodeId, u64, u64)>, peer: NodeId, cover: Option<(u64, u64)>) -> Seq<(NodeId, u64, u64)>
    decreases needs.len(),
{
    if needs.len() == 0 {
        Seq::empty()
    } else {
        let rest = needs_left(needs.drop_last(), peer, cover);
        if forgiven(needs.last(), peer, cover) {
            rest
        } else {
            rest.push(needs.last())
        }
    }
}

impl NodeView {
    /// With every parked flush that waits for no one completed, provided
    /// guests are served here.
    pub open spec fn settled(self) -> NodeView {
        if self.serving() {
            NodeView { parked: unmet(self.parked), queue: self.queue + answers(self.parked), ..self }
        } else {
            self
        }
    }

    /// With a peer's needs taken off every parked flush, and those that are
    /// then free completed.
    pub open spec fn forgiving(self, peer: NodeId, cover: Option<(u64, u64)>) -> NodeView {
        NodeView {
            parked: Seq::new(
                self.parked.len(),
                |i: int| FlushView { ticket: self.parked[i].ticket, needs: needs_left(self.parked[i].needs, peer, cover) },
            ),
            ..self
        }.settled()
    }

    /// After a guest flush has been taken in.
    pub open spec fn flushed(self) -> NodeView {
        NodeView {
            queue: self.queue + questions(self.peers),
            parked: self.parked.push(FlushView { ticket: self.next_ticket, needs: needs_of(self.peers) }),
            next_ticket: (self.next_ticket + 1) as u64,
            ..self
        }.settled()
    }
}

/// What a guest's flush comes to: this node's own part first, and a ticket
/// for the peers'.
pub open spec fn guest_flushed<D: Disk>(before: &ReplNode<D>, after: &ReplNode<D>, r: Result<u64>) -> bool {
    &&& super::guest::flushed_pool(&before.engine(), &after.engine())
    &&& match r {
        Ok(ticket) => ticket == before@.next_ticket && ticket < u64::MAX && after@ == before@.flushed() && super::guest::all_durable(&after.engine()),
        Err(_) => after@ == before@,
    }
    &&& before.engine().reliable() && before@.next_ticket < u64::MAX ==> r is Ok
}

impl<D: Disk> ReplNode<D> {
    /// The guest's durability barrier. Local durability happens now; the
    /// ticket completes when every need is settled and the node is serving.
    /// A node that has handed out every ticket number refuses.
    pub fn flush(&mut self) -> (r: Result<u64>)
        requires
            old(self).inv(),
        ensures
            final(self).inv(),
            guest_flushed(old(self), final(self), r),
    {
        match self.pool.flush() {
            Ok(_) => {},
            Err(e) => {
                return Err(e);
            },
        }
        let ticket: u64 = self.next_ticket;
        if ticket == u64::MAX {
            return Err(FsError::Corrupt("every ticket number has been handed out"));
        }
        self.next_ticket = ticket + 1;
        let ghost start = self@;
        let ghost peers = self@.peers;
        let ghost pool = self.pool;
        let mut needs: Vec<(NodeId, u64, u64)> = Vec::new();
        let mut i: usize = 0;
        assert(peers.take(0) =~= Seq::empty());
        assert(start.queue + questions(peers.take(0)) =~= start.queue);
        while i < self.peers.len()
            invariant
                i <= self.peers@.len(),
                self.inv(),
                self.pool == pool,
                peers == self@.peers,
                needs@ == needs_of(peers.take(i as int)),
                self@ == (NodeView { queue: start.queue + questions(peers.take(i as int)), ..start }),
            decreases self.peers@.len() - i,
        {
            let ghost mid = self@;
            let s = &self.peers[i];
            assert(peers[i as int] == s@);
            assert(peers.take(i + 1).drop_last() =~= peers.take(i as int));
            if !s.fenced && !(s.state == (ReplState::Resyncing { source: true }) && s.serving_source) && s.required_rseq > s.durable_rseq {
                let id: NodeId = s.id;
                let rseq: u64 = s.required_rseq;
                needs.push((id, s.generation, rseq));
                if s.state == ReplState::Synced {
                    self.emit(Effect::Send(id, PeerMessage::Flush { up_to: rseq }));
                    assert(self@.queue =~= start.queue + questions(peers.take(i + 1)));
                    assert(self@.peers.len() == self.peers@.len());
                }
            }
            assert(peers.len() == self.peers@.len());
            i += 1;
        }
        assert(peers.take(i as int) =~= peers);
        let flush = ParkedFlush { ticket, needs };
        let ghost f = flush@;
        self.parked.push(flush);
        assert(self@.parked =~= start.parked.push(f));
        self.settle_parked();
        Ok(ticket)
    }

    /// Complete every parked flush whose needs are gone, in ticket order,
    /// but only while serving.
    pub(super) fn settle_parked(&mut self)
        requires
            old(self).inv(),
        ensures
            final(self).inv(),
            final(self).engine() == old(self).engine(),
            final(self)@ == old(self)@.settled(),
    {
        if !self.serving() {
            return;
        }
        let ghost start = self@;
        let ghost base = *self;
        let ghost seen: nat = 0;
        let mut i: usize = 0;
        assert(start.parked.take(0) =~= Seq::empty());
        assert(unmet(start.parked.take(0)) + start.parked.skip(0) =~= start.parked);
        assert(start.queue + answers(start.parked.take(0)) =~= start.queue);
        while i < self.parked.len()
            invariant
                self.inv(),
                self.pool == base.pool,
                seen <= start.parked.len(),
                i == unmet(start.parked.take(seen as int)).len(),
                self@ == (NodeView {
                    parked: unmet(start.parked.take(seen as int)) + start.parked.skip(seen as int),
                    queue: start.queue + answers(start.parked.take(seen as int)),
                    ..start
                }),
            decreases start.parked.len() - seen,
        {
            let ghost kept = unmet(start.parked.take(seen as int));
            let ghost parked = self@.parked;
            assert(parked.len() == self.parked@.len());
            assert(seen < start.parked.len());
            assert(self@.parked[i as int] == self.parked@[i as int]@);
            assert(start.parked.skip(seen as int)[0] == start.parked[seen as int]);
            assert(start.parked.take(seen as int + 1).drop_last() =~= start.parked.take(seen as int));
            if self.parked[i].needs.len() == 0 {
                let ticket: u64 = self.parked[i].ticket;
                self.parked.remove(i);
                assert(self@.parked =~= parked.remove(i as int));
                assert(self@.parked =~= kept + start.parked.skip(seen as int + 1));
                self.emit(Effect::FlushDone(ticket));
                assert(self@.queue =~= start.queue + answers(start.parked.take(seen as int + 1)));
            } else {
                assert(self@.parked =~= kept.push(start.parked[seen as int]) + start.parked.skip(seen as int + 1));
                i += 1;
            }
            proof {
                seen = seen + 1;
            }
        }
        proof {
            assert(self@.parked.len() == self.parked@.len());
            assert(seen == start.parked.len());
            assert(start.parked.take(seen as int) =~= start.parked);
            assert(self@.parked =~= unmet(start.parked));
        }
    }

    /// This peer's durability is no longer owed: a confirmation covers it, a
    /// verdict said there is no one to ask, or an adoption covered
    /// everything it ever missed.
    pub(super) fn forgive(&mut self, peer: NodeId, cover: Option<(u64, u64)>)
        requires
            old(self).inv(),
        ensures
            final(self).inv(),
            final(self).engine() == old(self).engine(),
            final(self)@ == old(self)@.forgiving(peer, cover),
    {
        let ghost start = self@;
        let ghost base = *self;
        let mut i: usize = 0;
        while i < self.parked.len()
            invariant
                i <= self.parked@.len(),
                self.parked@.len() == start.parked.len(),
                *self == (ReplNode { parked: self.parked, ..base }),
                start == base@,
                forall|j: int| 0 <= j < i ==> (#[trigger] self.parked@[j])@ == (FlushView {
                    ticket: start.parked[j].ticket,
                    needs: needs_left(start.parked[j].needs, peer, cover),
                }),
                forall|j: int| i <= j < self.parked@.len() ==> (#[trigger] self.parked@[j])@ == start.parked[j],
            decreases self.parked@.len() - i,
        {
            let left = keep_needs(&self.parked[i].needs, peer, cover);
            self.parked[i].needs = left;
            i += 1;
        }
        proof {
            let forgiven = Seq::new(
                start.parked.len(),
                |k: int| FlushView { ticket: start.parked[k].ticket, needs: needs_left(start.parked[k].needs, peer, cover) },
            );
            assert(self@.parked =~= forgiven);
        }
        self.settle_parked();
    }
}

fn keep_needs(needs: &Vec<(NodeId, u64, u64)>, peer: NodeId, cover: Option<(u64, u64)>) -> (left: Vec<(NodeId, u64, u64)>)
    ensures
        left@ == needs_left(needs@, peer, cover),
{
    let mut left: Vec<(NodeId, u64, u64)> = Vec::new();
    let mut i: usize = 0;
    assert(needs@.take(0) =~= Seq::empty());
    while i < needs.len()
        invariant
            i <= needs@.len(),
            left@ == needs_left(needs@.take(i as int), peer, cover),
        decreases needs@.len() - i,
    {
        let need = needs[i];
        assert(needs@.take(i + 1).drop_last() =~= needs@.take(i as int));
        let gone: bool = need.0 == peer && match cover {
            None => true,
            Some((generation, durable)) => need.1 == generation && need.2 <= durable,
        };
        if !gone {
            left.push(need);
        }
        i += 1;
    }
    assert(needs@.take(i as int) =~= needs@);
    left
}

proof fn lemma_answered(parked: Seq<FlushView>, ticket: u64)
    requires
        answers(parked).contains(EffectView::FlushDone(ticket)),
    ensures
        exists|i: int| 0 <= i < parked.len() && (#[trigger] parked[i]).ticket == ticket && parked[i].needs.len() == 0,
    decreases parked.len(),
{
    let all = answers(parked);
    let j = choose|j: int| 0 <= j < all.len() && all[j] == EffectView::FlushDone(ticket);
    let rest = answers(parked.drop_last());
    if j < rest.len() {
        assert(rest[j] == EffectView::FlushDone(ticket));
        lemma_answered(parked.drop_last(), ticket);
        let i = choose|i: int| 0 <= i < parked.len() - 1 && (#[trigger] parked.drop_last()[i]).ticket == ticket && parked.drop_last()[i].needs.len() == 0;
        assert(parked[i].ticket == ticket);
    } else {
        assert(parked[parked.len() - 1].ticket == ticket);
    }
}

/// A flush is acknowledged only by a node that is serving, and only when no
/// peer owes it anything any more.
pub proof fn law_flush_done_owes_nobody(v: NodeView, i: int, ticket: u64)
    requires
        v.queue.len() <= i < v.settled().queue.len(),
        v.settled().queue[i] == EffectView::FlushDone(ticket),
    ensures
        v.serving(),
        exists|k: int| 0 <= k < v.parked.len() && (#[trigger] v.parked[k]).ticket == ticket && v.parked[k].needs.len() == 0,
{
    let n = v.queue.len();
    assert(answers(v.parked)[i - n] == EffectView::FlushDone(ticket));
    assert(answers(v.parked).contains(EffectView::FlushDone(ticket)));
    lemma_answered(v.parked, ticket);
}

proof fn lemma_needs_left(needs: Seq<(NodeId, u64, u64)>, peer: NodeId, cover: Option<(u64, u64)>, need: (NodeId, u64, u64))
    requires
        needs.contains(need),
        !forgiven(need, peer, cover),
    ensures
        needs_left(needs, peer, cover).contains(need),
    decreases needs.len(),
{
    let rest = needs_left(needs.drop_last(), peer, cover);
    let all = needs_left(needs, peer, cover);
    let j = choose|j: int| 0 <= j < needs.len() && needs[j] == need;
    if j == needs.len() - 1 {
        assert(all[rest.len() as int] == need);
    } else {
        assert(needs.drop_last()[j] == need);
        lemma_needs_left(needs.drop_last(), peer, cover, need);
        let k = choose|k: int| 0 <= k < rest.len() && rest[k] == need;
        assert(all[k] == need);
    }
}

/// A need is met by nothing but a confirmation from that peer, on the stream
/// that carried the op, of that op or a later one.
pub proof fn law_only_its_own_stream_meets_a_need(needs: Seq<(NodeId, u64, u64)>, need: (NodeId, u64, u64), peer: NodeId, generation: u64, durable: u64)
    requires
        needs.contains(need),
        need.0 != peer || need.1 != generation || need.2 > durable,
    ensures
        needs_left(needs, peer, Some((generation, durable))).contains(need),
{
    lemma_needs_left(needs, peer, Some((generation, durable)), need);
}

proof fn lemma_needs_named(peers: Seq<SessionView>, i: int)
    requires
        0 <= i < peers.len(),
        owes(peers[i]),
    ensures
        needs_of(peers).contains((peers[i].id, peers[i].generation, peers[i].required_rseq)),
    decreases peers.len(),
{
    let s = peers[i];
    let need = (s.id, s.generation, s.required_rseq);
    let rest = needs_of(peers.drop_last());
    let all = needs_of(peers);
    if i == peers.len() - 1 {
        assert(all[rest.len() as int] == need);
    } else {
        assert(peers.drop_last()[i] == s);
        lemma_needs_named(peers.drop_last(), i);
        let k = choose|k: int| 0 <= k < rest.len() && rest[k] == need;
        assert(all[k] == need);
    }
}

/// A flush waits for every peer that has not confirmed an op it has to, and
/// is neither fenced nor being sourced under a verdict. It parks, and its
/// ticket is not answered.
pub proof fn law_flush_waits_for_who_owes(v: NodeView, i: int)
    requires
        0 <= i < v.peers.len(),
        owes(v.peers[i]),
    ensures
        needs_of(v.peers).contains((v.peers[i].id, v.peers[i].generation, v.peers[i].required_rseq)),
        v.flushed().parked.len() > 0,
        v.flushed().parked.last() == (FlushView { ticket: v.next_ticket, needs: needs_of(v.peers) }),
{
    lemma_needs_named(v.peers, i);
    let f = FlushView { ticket: v.next_ticket, needs: needs_of(v.peers) };
    let all = v.parked.push(f);
    assert(all.drop_last() =~= v.parked);
    assert(needs_of(v.peers).len() > 0);
}

} // verus!
