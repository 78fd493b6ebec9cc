//! What a flush promises, to a peer and to the guest, in terms of what is on
//! stable storage and what the peers have said.

use super::flush::{answers, forgiven, needs_left, needs_of, owes, questions, unmet};
use super::adopt::{adopt_heard, adopt_refusal, adopted_and_replayed, closed_out, delivered, flushes_failed, took};
use super::handle::{block_arrived, block_took, done, heard, reads_done, reads_run, stores, waiting_on};
use super::{larger, lemma_slot_range, EffectView, FlushView, MessageView, NodeView, ReplNode, ReplState, SessionView};
use crate::disk::Disk;
use crate::error::Result;
use crate::pool::Pool;
use crate::slice::NodeId;
use vstd::prelude::*;

verus! {

/// What a node does about a peer's flush. Where it answers, all that it
/// stores is on stable storage, the peer is told so and nobody is told
/// anything else, and the stream it has applied reaches as far as was asked;
/// a stream that does not reach so far is refused. Where it fails, nobody is
/// told anything.
pub proof fn law_a_flush_is_answered_when_durable<D: Disk>(before: &ReplNode<D>, after: &ReplNode<D>, from: NodeId, up_to: u64, r: Result<()>)
    requires
        heard(before, after, from, MessageView::Flush { up_to }, r),
    ensures
        r is Ok ==> {
            &&& before@.knows(from)
            &&& before@.of(from).applied_rseq >= up_to
            &&& after.engine().stock().durable()
            &&& after@.queue == before@.queue.push(EffectView::Send(from, MessageView::Durable { up_to }))
        },
        r is Err ==> after@.queue == before@.queue,
        before@.knows(from) && before@.of(from).applied_rseq < up_to ==> r is Err,
        before@.knows(from) && before@.of(from).applied_rseq >= up_to && before.engine().reliable() ==> r is Ok,
        after@.peers == before@.peers,
        after@.parked == before@.parked,
        after.engine().vdisk_map() == before.engine().vdisk_map(),
        forall|i: int| before@.queue.len() <= i < after@.queue.len() && says_durable(#[trigger] after@.queue[i]) ==> after.engine().stock().durable(),
{
}

/// An effect that tells a peer its writes are on stable storage.
pub open spec fn says_durable(effect: EffectView) -> bool {
    match effect {
        EffectView::Send(_, MessageView::Durable { .. }) => true,
        _ => false,
    }
}

proof fn lemma_needs(peers: Seq<SessionView>, need: (NodeId, u64, u64))
    ensures
        needs_of(peers).contains(need) ==> exists|i: int|
            0 <= i < peers.len() && !(#[trigger] peers[i]).fenced && !peers[i].sourced() && peers[i].required_rseq > peers[i].durable_rseq && need == (
                peers[i].id,
                peers[i].generation,
                peers[i].required_rseq,
            ),
    decreases peers.len(),
{
    if needs_of(peers).contains(need) {
        let rest = needs_of(peers.drop_last());
        let s = peers.last();
        let j = choose|j: int| 0 <= j < needs_of(peers).len() && needs_of(peers)[j] == need;
        if owes(s) && j == rest.len() {
            assert(peers[peers.len() - 1] == s);
        } else {
            assert(rest[j] == need);
            assert(rest.contains(need));
            lemma_needs(peers.drop_last(), need);
            let i = choose|i: int|
                0 <= i < peers.drop_last().len() && !(#[trigger] peers.drop_last()[i]).fenced && !peers.drop_last()[i].sourced() && peers.drop_last()[i].required_rseq
                    > peers.drop_last()[i].durable_rseq && need == (peers.drop_last()[i].id, peers.drop_last()[i].generation, peers.drop_last()[i].required_rseq);
            assert(peers[i] == peers.drop_last()[i]);
        }
    }
}

proof fn lemma_owed(peers: Seq<SessionView>, i: int)
    requires
        0 <= i < peers.len(),
        !peers[i].fenced && !peers[i].sourced() && peers[i].required_rseq > peers[i].durable_rseq,
    ensures
        needs_of(peers).contains((peers[i].id, peers[i].generation, peers[i].required_rseq)),
        peers[i].state == ReplState::Synced ==> questions(peers).contains(
            EffectView::Send(peers[i].id, MessageView::Flush { up_to: peers[i].required_rseq }),
        ),
    decreases peers.len(),
{
    let rest = peers.drop_last();
    if i == peers.len() - 1 {
        assert(needs_of(peers).last() == (peers[i].id, peers[i].generation, peers[i].required_rseq));
        if peers[i].state == ReplState::Synced {
            assert(questions(peers).last() == EffectView::Send(peers[i].id, MessageView::Flush { up_to: peers[i].required_rseq }));
        }
    } else {
        assert(rest[i] == peers[i]);
        lemma_owed(rest, i);
        let need = (peers[i].id, peers[i].generation, peers[i].required_rseq);
        let j = choose|j: int| 0 <= j < needs_of(rest).len() && needs_of(rest)[j] == need;
        assert(needs_of(peers)[j] == need);
        if peers[i].state == ReplState::Synced {
            let q = EffectView::Send(peers[i].id, MessageView::Flush { up_to: peers[i].required_rseq });
            let j = choose|j: int| 0 <= j < questions(rest).len() && questions(rest)[j] == q;
            assert(questions(peers)[j] == q);
        }
    }
}

proof fn lemma_no_answer_among_questions(peers: Seq<SessionView>, i: int)
    requires
        0 <= i < questions(peers).len(),
    ensures
        questions(peers)[i] is Send,
    decreases peers.len(),
{
    let rest = questions(peers.drop_last());
    if i < rest.len() {
        lemma_no_answer_among_questions(peers.drop_last(), i);
    }
}

proof fn lemma_answers(parked: Seq<FlushView>, ticket: u64)
    ensures
        answers(parked).contains(EffectView::FlushDone(ticket)) <==> exists|k: int|
            0 <= k < parked.len() && (#[trigger] parked[k]).ticket == ticket && parked[k].needs.len() == 0,
        forall|i: int| 0 <= i < answers(parked).len() ==> (#[trigger] answers(parked)[i]) is FlushDone,
    decreases parked.len(),
{
    if parked.len() > 0 {
        let front = parked.drop_last();
        let rest = answers(front);
        let done = EffectView::FlushDone(ticket);
        lemma_answers(front, ticket);
        if answers(parked).contains(done) {
            let j = choose|j: int| 0 <= j < answers(parked).len() && answers(parked)[j] == done;
            if j < rest.len() {
                assert(rest[j] == done);
                let k = choose|k: int| 0 <= k < front.len() && (#[trigger] front[k]).ticket == ticket && front[k].needs.len() == 0;
                assert(parked[k] == front[k]);
            } else {
                assert(parked[parked.len() - 1].ticket == ticket);
            }
        }
        if exists|k: int| 0 <= k < parked.len() && (#[trigger] parked[k]).ticket == ticket && parked[k].needs.len() == 0 {
            let k = choose|k: int| 0 <= k < parked.len() && (#[trigger] parked[k]).ticket == ticket && parked[k].needs.len() == 0;
            if k < front.len() {
                assert(front[k] == parked[k]);
                let j = choose|j: int| 0 <= j < rest.len() && rest[j] == done;
                assert(answers(parked)[j] == done);
            } else {
                assert(answers(parked).last() == done);
            }
        }
        assert forall|i: int| 0 <= i < answers(parked).len() implies (#[trigger] answers(parked)[i]) is FlushDone by {
            if i < rest.len() {
                assert(rest[i] is FlushDone);
            }
        }
    }
}

proof fn lemma_unmet(parked: Seq<FlushView>, k: int)
    requires
        0 <= k < parked.len(),
        parked[k].needs.len() > 0,
    ensures
        unmet(parked).contains(parked[k]),
    decreases parked.len(),
{
    let front = parked.drop_last();
    if k < front.len() {
        assert(front[k] == parked[k]);
        lemma_unmet(front, k);
        let j = choose|j: int| 0 <= j < unmet(front).len() && unmet(front)[j] == parked[k];
        assert(unmet(parked)[j] == parked[k]);
    } else {
        assert(unmet(parked).last() == parked[k]);
    }
}

/// A guest's flush is done at once only where every peer, but the fenced and
/// those this node is the source of, has confirmed all that this node
/// requires of it, and every peer is accounted for.
pub proof fn law_a_guest_flush_is_done_when_all_confirmed(v: NodeView, i: int)
    requires
        forall|k: int| 0 <= k < v.parked.len() ==> (#[trigger] v.parked[k]).ticket != v.next_ticket,
        v.queue.len() <= i < v.flushed().queue.len(),
        v.flushed().queue[i] == EffectView::FlushDone(v.next_ticket),
    ensures
        v.serving(),
        forall|k: int| 0 <= k < v.peers.len() ==> (#[trigger] v.peers[k]).fenced || v.peers[k].sourced() || v.peers[k].required_rseq <= v.peers[k].durable_rseq,
{
    let asked = v.queue + questions(v.peers);
    let parked = v.parked.push(FlushView { ticket: v.next_ticket, needs: needs_of(v.peers) });
    if i < asked.len() {
        lemma_no_answer_among_questions(v.peers, i - v.queue.len());
        assert(v.flushed().queue[i] == questions(v.peers)[i - v.queue.len()]);
    } else {
        let done = EffectView::FlushDone(v.next_ticket);
        assert(v.flushed().queue == asked + answers(parked));
        assert(answers(parked)[i - asked.len()] == done);
        lemma_answers(parked, v.next_ticket);
        let k = choose|k: int| 0 <= k < parked.len() && (#[trigger] parked[k]).ticket == v.next_ticket && parked[k].needs.len() == 0;
        if k < v.parked.len() {
            assert(v.parked[k].ticket != v.next_ticket);
        }
        assert(needs_of(v.peers).len() == 0);
        assert forall|k: int| 0 <= k < v.peers.len() implies (#[trigger] v.peers[k]).fenced || v.peers[k].sourced() || v.peers[k].required_rseq
            <= v.peers[k].durable_rseq by {
            if !(v.peers[k].fenced || v.peers[k].sourced() || v.peers[k].required_rseq <= v.peers[k].durable_rseq) {
                lemma_owed(v.peers, k);
            }
        }
    }
}

/// A guest's flush that owes nobody, on a node that serves, is done at once.
pub proof fn law_a_guest_flush_that_owes_nobody_is_done(v: NodeView)
    requires
        v.serving(),
        forall|k: int| 0 <= k < v.peers.len() ==> (#[trigger] v.peers[k]).fenced || v.peers[k].sourced() || v.peers[k].required_rseq <= v.peers[k].durable_rseq,
    ensures
        v.flushed().queue.contains(EffectView::FlushDone(v.next_ticket)),
{
    let asked = v.queue + questions(v.peers);
    let parked = v.parked.push(FlushView { ticket: v.next_ticket, needs: needs_of(v.peers) });
    if needs_of(v.peers).len() > 0 {
        lemma_needs(v.peers, needs_of(v.peers)[0]);
        assert(needs_of(v.peers).contains(needs_of(v.peers)[0]));
        assert(false);
    }
    assert(parked[v.parked.len() as int].ticket == v.next_ticket && parked[v.parked.len() as int].needs.len() == 0);
    lemma_answers(parked, v.next_ticket);
    let done = EffectView::FlushDone(v.next_ticket);
    let j = choose|j: int| 0 <= j < answers(parked).len() && answers(parked)[j] == done;
    assert(v.flushed().queue == asked + answers(parked));
    assert(v.flushed().queue[asked.len() + j] == done);
}

/// A guest's flush waits for a peer that has not confirmed what is required
/// of it, under the generation of that peer's stream, and asks it to where
/// the two are in step.
pub proof fn law_a_guest_flush_waits_and_asks(v: NodeView, i: int)
    requires
        0 <= i < v.peers.len(),
        !v.peers[i].fenced && !v.peers[i].sourced() && v.peers[i].required_rseq > v.peers[i].durable_rseq,
    ensures
        exists|k: int|
            0 <= k < v.flushed().parked.len() && (#[trigger] v.flushed().parked[k]).ticket == v.next_ticket && v.flushed().parked[k].needs.contains(
                (v.peers[i].id, v.peers[i].generation, v.peers[i].required_rseq),
            ),
        v.peers[i].state == ReplState::Synced ==> v.flushed().queue.contains(
            EffectView::Send(v.peers[i].id, MessageView::Flush { up_to: v.peers[i].required_rseq }),
        ),
{
    lemma_owed(v.peers, i);
    let need = (v.peers[i].id, v.peers[i].generation, v.peers[i].required_rseq);
    let mine = FlushView { ticket: v.next_ticket, needs: needs_of(v.peers) };
    let parked = v.parked.push(mine);
    assert(parked[v.parked.len() as int] == mine);
    lemma_unmet(parked, v.parked.len() as int);
    if v.serving() {
        let k = choose|k: int| 0 <= k < unmet(parked).len() && unmet(parked)[k] == mine;
        assert(v.flushed().parked[k].ticket == v.next_ticket);
    } else {
        assert(v.flushed().parked == parked);
        assert(v.flushed().parked[v.parked.len() as int].ticket == v.next_ticket);
    }
    if v.peers[i].state == ReplState::Synced {
        let q = EffectView::Send(v.peers[i].id, MessageView::Flush { up_to: v.peers[i].required_rseq });
        let j = choose|j: int| 0 <= j < questions(v.peers).len() && questions(v.peers)[j] == q;
        assert(v.flushed().queue[v.queue.len() + j] == q);
    }
}

proof fn lemma_needs_left(needs: Seq<(NodeId, u64, u64)>, peer: NodeId, cover: Option<(u64, u64)>)
    ensures
        needs_left(needs, peer, cover).len() == 0 <==> forall|i: int| 0 <= i < needs.len() ==> forgiven(#[trigger] needs[i], peer, cover),
    decreases needs.len(),
{
    if needs.len() > 0 {
        let front = needs.drop_last();
        lemma_needs_left(front, peer, cover);
        if forall|i: int| 0 <= i < needs.len() ==> forgiven(#[trigger] needs[i], peer, cover) {
            assert forall|i: int| 0 <= i < front.len() implies forgiven(#[trigger] front[i], peer, cover) by {
                assert(needs[i] == front[i]);
            }
            assert(forgiven(needs[needs.len() - 1], peer, cover));
        }
        if needs_left(needs, peer, cover).len() == 0 {
            assert forall|i: int| 0 <= i < needs.len() implies forgiven(#[trigger] needs[i], peer, cover) by {
                if i < front.len() {
                    assert(forgiven(front[i], peer, cover));
                }
            }
        }
    }
}

/// What a peer's confirmation does. It counts up to where the peer says, and
/// never takes back an earlier one. A parked flush is done by it exactly
/// where this node serves and all that the flush still waited for is of that
/// peer's present stream and confirmed by now; and the pool is left alone.
pub proof fn law_a_confirmation_ends_the_flushes_it_covers<D: Disk>(
    before: &ReplNode<D>,
    after: &ReplNode<D>,
    from: NodeId,
    up_to: u64,
    r: Result<()>,
    ticket: u64,
)
    requires
        heard(before, after, from, MessageView::Durable { up_to }, r),
        before@.knows(from),
    ensures
        r is Ok,
        after.engine() == before.engine(),
        after@.of(from).durable_rseq >= up_to,
        after@.of(from).durable_rseq >= before@.of(from).durable_rseq,
        after@.of(from).durable_rseq == up_to || after@.of(from).durable_rseq == before@.of(from).durable_rseq,
        after@.of(from).generation == before@.of(from).generation,
        after@.of(from).required_rseq == before@.of(from).required_rseq,
        (exists|i: int| before@.queue.len() <= i < after@.queue.len() && #[trigger] after@.queue[i] == EffectView::FlushDone(ticket)) <==> before@.serving() && exists|k: int|
            0 <= k < before@.parked.len() && (#[trigger] before@.parked[k]).ticket == ticket && forall|j: int|
                0 <= j < before@.parked[k].needs.len() ==> (#[trigger] before@.parked[k].needs[j]).0 == from && before@.parked[k].needs[j].1 == before@.of(from).generation
                    && before@.parked[k].needs[j].2 <= after@.of(from).durable_rseq,
{
    let v = before@;
    let slot = super::slot_of(v.peers, from);
    let s = v.of(from);
    let durable = larger(s.durable_rseq, up_to);
    let cover = Some((s.generation, durable));
    let told = v.with(from, SessionView { durable_rseq: durable, ..s });
    let left = Seq::new(told.parked.len(), |i: int| FlushView { ticket: told.parked[i].ticket, needs: needs_left(told.parked[i].needs, from, cover) });
    let mid = NodeView { parked: left, ..told };
    assert(after@ == mid.settled());
    lemma_slot_range(v.peers, from);
    lemma_same_ids(v.peers, slot, SessionView { durable_rseq: durable, ..s }, from);
    assert(after@.of(from) == told.peers[slot]);
    assert forall|i: int| 0 <= i < told.peers.len() implies (#[trigger] told.peers[i]).accounted_for() == v.peers[i].accounted_for() by {}
    assert(told.serving() == v.serving()) by {
        if v.serving() {
            assert forall|i: int| 0 <= i < told.peers.len() implies (#[trigger] told.peers[i]).accounted_for() by {
                assert(v.peers[i].accounted_for());
            }
        }
        if told.serving() {
            assert forall|i: int| 0 <= i < v.peers.len() implies (#[trigger] v.peers[i]).accounted_for() by {
                assert(told.peers[i].accounted_for());
            }
        }
    }
    assert(mid.serving() == told.serving()) by {
        if told.serving() {
            assert forall|i: int| 0 <= i < mid.peers.len() implies (#[trigger] mid.peers[i]).accounted_for() by {
                assert(told.peers[i].accounted_for());
            }
        }
        if mid.serving() {
            assert forall|i: int| 0 <= i < told.peers.len() implies (#[trigger] told.peers[i]).accounted_for() by {
                assert(mid.peers[i].accounted_for());
            }
        }
    }
    lemma_answers(left, ticket);
    let done = EffectView::FlushDone(ticket);
    if exists|i: int| v.queue.len() <= i < after@.queue.len() && #[trigger] after@.queue[i] == done {
        let i = choose|i: int| v.queue.len() <= i < after@.queue.len() && #[trigger] after@.queue[i] == done;
        assert(mid.serving());
        assert(answers(left)[i - v.queue.len()] == done);
        let k = choose|k: int| 0 <= k < left.len() && (#[trigger] left[k]).ticket == ticket && left[k].needs.len() == 0;
        lemma_needs_left(v.parked[k].needs, from, cover);
        assert(v.parked[k].ticket == ticket);
        assert forall|j: int| 0 <= j < v.parked[k].needs.len() implies (#[trigger] v.parked[k].needs[j]).0 == from && v.parked[k].needs[j].1 == s.generation
            && v.parked[k].needs[j].2 <= durable by {
            assert(forgiven(v.parked[k].needs[j], from, cover));
        }
    }
    if v.serving() && exists|k: int|
        0 <= k < v.parked.len() && (#[trigger] v.parked[k]).ticket == ticket && forall|j: int|
            0 <= j < v.parked[k].needs.len() ==> (#[trigger] v.parked[k].needs[j]).0 == from && v.parked[k].needs[j].1 == s.generation && v.parked[k].needs[j].2 <= durable {
        let k = choose|k: int|
            0 <= k < v.parked.len() && (#[trigger] v.parked[k]).ticket == ticket && forall|j: int|
                0 <= j < v.parked[k].needs.len() ==> (#[trigger] v.parked[k].needs[j]).0 == from && v.parked[k].needs[j].1 == s.generation && v.parked[k].needs[j].2
                    <= durable;
        lemma_needs_left(v.parked[k].needs, from, cover);
        assert(left[k].needs.len() == 0 && left[k].ticket == ticket);
        let j = choose|j: int| 0 <= j < answers(left).len() && answers(left)[j] == done;
        assert(after@.queue[v.queue.len() + j] == done);
    }
}

/// A queue that has only grown, by effects that tell nobody that anything is
/// on stable storage.
pub open spec fn grew_quietly(a: Seq<EffectView>, b: Seq<EffectView>) -> bool {
    &&& a.len() <= b.len()
    &&& forall|i: int| 0 <= i < a.len() ==> #[trigger] b[i] == a[i]
    &&& forall|i: int| a.len() <= i < b.len() ==> !says_durable(#[trigger] b[i])
}

proof fn lemma_settled_quietly(v: NodeView)
    ensures
        grew_quietly(v.queue, v.settled().queue),
{
    lemma_answers(v.parked, 0);
    if v.serving() {
        assert forall|i: int| v.queue.len() <= i < v.settled().queue.len() implies !says_durable(#[trigger] v.settled().queue[i]) by {
            assert(v.settled().queue[i] == answers(v.parked)[i - v.queue.len()]);
        }
    }
}

proof fn lemma_forgiven_quietly(v: NodeView, peer: NodeId, cover: Option<(u64, u64)>)
    ensures
        grew_quietly(v.queue, v.forgiving(peer, cover).queue),
{
    let left = NodeView {
        parked: Seq::new(v.parked.len(), |i: int| FlushView { ticket: v.parked[i].ticket, needs: needs_left(v.parked[i].needs, peer, cover) }),
        ..v
    };
    lemma_settled_quietly(left);
    assert(v.forgiving(peer, cover) == left.settled());
}

proof fn lemma_arrived_quietly<D: Disk>(before: &ReplNode<D>, after: &ReplNode<D>, block: (u8, Seq<u8>), c: Result<crate::hash::BlockHash>)
    requires
        block_arrived(before, after, block, c),
    ensures
        grew_quietly(before@.queue, after@.queue),
{
    let hash = crate::hash::address_of(block.1);
    let key = crate::table::TierHash { tier: block.0, hash };
    let kept = stores(&before.engine(), before@.node, hash);
    if c is Ok {
        let v = if kept {
            NodeView { moving: before@.moving.remove(key), ..before@ }
        } else {
            NodeView { fetched: before@.fetched.insert(key, block.1), ..before@ }
        };
        assert(reads_done(v, after@, block.0, hash));
        let tickets = choose|tickets: Seq<u64>| #[trigger]
            waiting_on(v.reads, block.0, hash, tickets) && after@ == (NodeView {
                queue: v.queue + done(tickets),
                reads: v.reads.remove_keys(tickets.to_set()),
                ..v
            });
        assert forall|i: int| v.queue.len() <= i < after@.queue.len() implies !says_durable(#[trigger] after@.queue[i]) by {
            assert(after@.queue[i] == done(tickets)[i - v.queue.len()]);
        }
    }
}

proof fn lemma_grew_quietly_on(a: Seq<EffectView>, b: Seq<EffectView>, c: Seq<EffectView>)
    requires
        grew_quietly(a, b),
        grew_quietly(b, c),
    ensures
        grew_quietly(a, c),
{
    assert forall|i: int| a.len() <= i < c.len() implies !says_durable(#[trigger] c[i]) by {
        if i < b.len() {
            assert(c[i] == b[i]);
        }
    }
    assert forall|i: int| 0 <= i < a.len() implies #[trigger] c[i] == a[i] by {
        assert(c[i] == b[i]);
    }
}

proof fn lemma_reads_quietly<D: Disk>(steps: Seq<ReplNode<D>>, blocks: Seq<(u8, Seq<u8>)>, n: int)
    requires
        0 <= n < steps.len(),
        steps.len() - 1 <= blocks.len(),
        forall|i: int| 0 <= i < steps.len() - 1 ==> block_took(&steps[i], &steps[i + 1], #[trigger] blocks[i]),
    ensures
        grew_quietly(steps[0]@.queue, steps[n]@.queue),
    decreases n,
{
    if n > 0 {
        lemma_reads_quietly(steps, blocks, n - 1);
        assert(block_took(&steps[n - 1], &steps[n - 1 + 1], blocks[n - 1]));
        let c = choose|c: Result<crate::hash::BlockHash>| c is Ok && #[trigger] block_arrived(&steps[n - 1], &steps[n], blocks[n - 1], c);
        lemma_arrived_quietly(&steps[n - 1], &steps[n], blocks[n - 1], c);
        lemma_grew_quietly_on(steps[0]@.queue, steps[n - 1]@.queue, steps[n]@.queue);
    }
}

proof fn lemma_replayed_quietly<D: Disk>(steps: Seq<ReplNode<D>>, from: NodeId, backlog: Seq<MessageView>, n: int)
    requires
        0 <= n < steps.len(),
        steps.len() - 1 <= backlog.len(),
        forall|i: int| 0 <= i < steps.len() - 1 ==> took(&steps[i], &steps[i + 1], from, #[trigger] backlog[i]),
    ensures
        steps[n]@.queue == steps[0]@.queue,
    decreases n,
{
    if n > 0 {
        lemma_replayed_quietly(steps, from, backlog, n - 1);
        assert(took(&steps[n - 1], &steps[n - 1 + 1], from, backlog[n - 1]));
        let c = choose|c: Result<()>| c is Ok && #[trigger] delivered(&steps[n - 1], &steps[n], from, backlog[n - 1], c);
    }
}

proof fn lemma_adopts_quietly<D: Disk>(before: &ReplNode<D>, after: &ReplNode<D>, from: NodeId, final_rseq: u64, r: Result<()>)
    requires
        adopt_heard(before, after, from, final_rseq, r),
    ensures
        grew_quietly(before@.queue, after@.queue),
{
    if adopt_refusal(before@, from) is None {
        let (mid, taken, steps, live, c, d) = choose|mid: Pool<D>, taken: ReplNode<D>, steps: Seq<ReplNode<D>>, live: ReplNode<D>, c: Result<()>, d: Result<()>| #[trigger]
            adopted_and_replayed(before, &mid, &taken, steps, &live, after, from, final_rseq, c, d, r);
        assert(taken@.queue == before@.queue);
        if c is Ok {
            let backlog = before@.of(from).backlog;
            lemma_replayed_quietly(steps, from, backlog, steps.len() - 1);
            assert(live@.queue == before@.queue);
            if d is Ok && live@.of(from).applied_rseq == final_rseq {
                let era = before@.of(from).pull.manifest->Some_0.era;
                let (flat, f) = choose|flat: Pool<D>, f: Result<()>| #[trigger] closed_out(&live, &flat, after, from, era, f, r);
                let v = live@;
                assert forall|i: int| v.queue.len() <= i < after@.queue.len() implies !says_durable(#[trigger] after@.queue[i]) by {
                    if i < v.queue.len() + v.parked.len() {
                        assert(after@.queue[i] == flushes_failed(v.parked)[i - v.queue.len()]);
                    }
                }
            }
        }
    }
}

/// Whatever a node hears, it tells a peer that its writes are on stable
/// storage only where they are: in answer to that peer's flush, with all that
/// this node stores there.
pub proof fn law_durable_is_said_only_when_durable<D: Disk>(
    before: &ReplNode<D>,
    after: &ReplNode<D>,
    from: NodeId,
    message: MessageView,
    r: Result<()>,
    i: int,
)
    requires
        heard(before, after, from, message, r),
        before@.queue.len() <= i < after@.queue.len(),
        says_durable(after@.queue[i]),
    ensures
        message is Flush,
        r is Ok,
        after.engine().stock().durable(),
{
    let v = before@;
    if message is Hello || before@.knows(from) {
        match message {
            MessageView::Hello { era, node, tiers, map_version } => {},
            MessageView::MapIs { version, pairs } => {},
            MessageView::Payloads(blocks) => {},
            MessageView::Apply { first_rseq, ops } => {},
            MessageView::Flush { up_to } => {},
            MessageView::Durable { up_to } => {
                let s = v.of(from);
                let told = v.with(from, SessionView { durable_rseq: larger(s.durable_rseq, up_to), ..s });
                lemma_forgiven_quietly(told, from, Some((s.generation, larger(s.durable_rseq, up_to))));
            },
            MessageView::SyncStart => {},
            MessageView::SyncManifest(offer) => {},
            MessageView::SyncNeed(wants) => {},
            MessageView::SyncData(blocks) => {},
            MessageView::Read(wants) => {},
            MessageView::ReadData(blocks) => {
                let steps = choose|steps: Seq<ReplNode<D>>| #[trigger] reads_run(steps, before, after, blocks, r);
                lemma_reads_quietly(steps, blocks, steps.len() - 1);
                if r is Err {
                    lemma_arrived_quietly(&steps.last(), after, blocks[steps.len() - 1], Err(r->Err_0));
                    lemma_grew_quietly_on(before@.queue, steps.last()@.queue, after@.queue);
                }
            },
            MessageView::SyncReady => {},
            MessageView::SyncAdopt { final_rseq } => {
                lemma_adopts_quietly(before, after, from, final_rseq, r);
            },
            MessageView::SyncDone { era } => {
                let s = v.of(from);
                lemma_forgiven_quietly(
                    v.with(from, SessionView { state: ReplState::Synced, serving_source: false, stream_live: false, ..s }),
                    from,
                    None,
                );
            },
        }
    }
}

/// A change of one session's counters leaves every id in its place.
pub proof fn lemma_same_ids(peers: Seq<SessionView>, slot: int, s: SessionView, peer: NodeId)
    requires
        0 <= slot < peers.len(),
        s.id == peers[slot].id,
    ensures
        super::slot_of(peers.update(slot, s), peer) == super::slot_of(peers, peer),
    decreases peers.len(),
{
    let next = peers.update(slot, s);
    if peers[0].id < peer {
        if slot == 0 {
            assert(next.drop_first() =~= peers.drop_first());
        } else {
            assert(next.drop_first() =~= peers.drop_first().update(slot - 1, s));
            lemma_same_ids(peers.drop_first(), slot - 1, s, peer);
        }
    }
}

} // verus!
