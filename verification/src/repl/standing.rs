//! How a node stands with its peers, and what it may do for it.

use super::guest::{op_served, write_served};
use super::wire::ReplOp;
use super::{busiest, NodeView, ReplNode, ReplState, SessionView};
use crate::disk::Disk;
use crate::error::{FsError, Result};
use vstd::prelude::*;

verus! {

/// A peer that does not hold up writes: it is fenced, or in step, or this
/// node is the source of its resync and still serves.
pub open spec fn out_of_the_way(s: SessionView) -> bool {
    s.fenced || s.state == ReplState::Synced || (s.state == (ReplState::Resyncing { source: true }) && s.serving_source)
}

/// A node serves where it has a peer and none holds up writes.
pub proof fn law_a_node_serves_when_no_peer_holds_it_up(v: NodeView)
    ensures
        v.serving() <==> v.peers.len() > 0 && forall|i: int| 0 <= i < v.peers.len() ==> out_of_the_way(#[trigger] v.peers[i]),
{
    if v.serving() {
        assert forall|i: int| 0 <= i < v.peers.len() implies out_of_the_way(#[trigger] v.peers[i]) by {
            assert(v.peers[i].accounted_for());
        }
    }
    if v.peers.len() > 0 && forall|i: int| 0 <= i < v.peers.len() ==> out_of_the_way(#[trigger] v.peers[i]) {
        assert forall|i: int| 0 <= i < v.peers.len() implies (#[trigger] v.peers[i]).accounted_for() by {
            assert(out_of_the_way(v.peers[i]));
        }
    }
}

/// No write and no other operation of a guest succeeds while a peer that is
/// not fenced is lost, or pulls, or is being brought back by a source that
/// has stopped serving.
pub proof fn law_nothing_is_served_past_a_lost_peer<D: Disk>(
    before: &ReplNode<D>,
    after: &ReplNode<D>,
    vdisk: u64,
    index: u64,
    payload: Seq<u8>,
    op: ReplOp,
    r: Result<()>,
    i: int,
)
    requires
        write_served(before, after, vdisk, index, payload, r) || op_served(before, after, vdisk, op, r),
        0 <= i < before@.peers.len(),
        !before@.peers[i].fenced,
        before@.peers[i].state == ReplState::Suspended || before@.peers[i].state == (ReplState::Resyncing { source: false }) || (before@.peers[i].state == (
        ReplState::Resyncing { source: true }) && !before@.peers[i].serving_source),
    ensures
        r == Err::<(), FsError>(FsError::Suspended),
        after@ == before@,
        after.engine() == before.engine(),
{
    law_a_node_serves_when_no_peer_holds_it_up(before@);
    assert(!out_of_the_way(before@.peers[i]));
}

/// What a node calls its state: in step only where every peer is, or is
/// fenced; degraded where all are fenced; in a resync where one is; and
/// suspended where a peer that is not fenced is lost and none resyncs.
pub proof fn law_a_state_says_how_every_peer_stands(v: NodeView, i: int)
    requires
        0 <= i < v.peers.len(),
    ensures
        v.state() == ReplState::Synced ==> v.peers[i].fenced || v.peers[i].state == ReplState::Synced,
        v.state() == ReplState::Degraded ==> v.peers[i].fenced,
        v.peers[i].state is Resyncing ==> v.state() is Resyncing,
        !v.peers[i].fenced && v.peers[i].state == ReplState::Suspended ==> v.state() is Resyncing || v.state() == ReplState::Suspended,
        (forall|k: int| 0 <= k < v.peers.len() ==> (#[trigger] v.peers[k]).state == ReplState::Synced && !v.peers[k].fenced) ==> v.state() == ReplState::Synced,
        v.state() is Resyncing ==> exists|k: int| 0 <= k < v.peers.len() && (#[trigger] v.peers[k]).state == v.state(),
{
    lemma_first_resync(v.peers);
    if forall|k: int| 0 <= k < v.peers.len() ==> (#[trigger] v.peers[k]).state == ReplState::Synced && !v.peers[k].fenced {
        if super::first_resync(v.peers) is Some {
            let k = choose|k: int| 0 <= k < v.peers.len() && Some((#[trigger] v.peers[k]).state) == super::first_resync(v.peers);
            assert(v.peers[k].state == ReplState::Synced);
        }
        assert(!v.peers[i].fenced);
    }
}

proof fn lemma_first_resync(peers: Seq<SessionView>)
    ensures
        super::first_resync(peers) matches Some(state) ==> state is Resyncing && exists|k: int| 0 <= k < peers.len() && Some((#[trigger] peers[k]).state) == super::first_resync(
            peers,
        ),
        super::first_resync(peers) is None ==> forall|k: int| 0 <= k < peers.len() ==> !((#[trigger] peers[k]).state is Resyncing),
    decreases peers.len(),
{
    if peers.len() > 0 {
        let rest = peers.drop_first();
        lemma_first_resync(rest);
        if peers[0].state is Resyncing {
            assert(Some(peers[0].state) == super::first_resync(peers));
        } else {
            if super::first_resync(rest) is Some {
                let k = choose|k: int| 0 <= k < rest.len() && Some((#[trigger] rest[k]).state) == super::first_resync(rest);
                assert(peers[k + 1] == rest[k]);
            } else {
                assert forall|k: int| 0 <= k < peers.len() implies !((#[trigger] peers[k]).state is Resyncing) by {
                    if k > 0 {
                        assert(rest[k - 1] == peers[k]);
                    }
                }
            }
        }
    }
}

/// One stream's position is no earlier than another's: it has sent more, or
/// as much with more confirmed, or as much of both with as much applied.
pub open spec fn no_earlier(a: (u64, u64, u64), b: (u64, u64, u64)) -> bool {
    a.0 > b.0 || (a.0 == b.0 && (a.1 > b.1 || (a.1 == b.1 && a.2 >= b.2)))
}

/// The busiest stream is that of some peer, and no peer's is further on.
pub proof fn law_no_stream_is_ahead_of_the_busiest(peers: Seq<SessionView>)
    requires
        forall|i: int| 0 <= i < peers.len() ==> (#[trigger] peers[i]).next_rseq >= 1,
    ensures
        forall|i: int|
            0 <= i < peers.len() ==> no_earlier(busiest(peers), (((#[trigger] peers[i]).next_rseq - 1) as u64, peers[i].durable_rseq, peers[i].applied_rseq)),
        busiest(peers) == (0u64, 0u64, 0u64) || exists|i: int|
            0 <= i < peers.len() && busiest(peers) == (((#[trigger] peers[i]).next_rseq - 1) as u64, peers[i].durable_rseq, peers[i].applied_rseq),
    decreases peers.len(),
{
    if peers.len() > 0 {
        let rest = peers.drop_last();
        assert forall|i: int| 0 <= i < rest.len() implies (#[trigger] rest[i]).next_rseq >= 1 by {
            assert(peers[i].next_rseq >= 1);
        }
        law_no_stream_is_ahead_of_the_busiest(rest);
        let top = busiest(peers);
        assert forall|i: int| 0 <= i < peers.len() implies no_earlier(top, (((#[trigger] peers[i]).next_rseq - 1) as u64, peers[i].durable_rseq, peers[i].applied_rseq)) by {
            if i < rest.len() {
                assert(rest[i] == peers[i]);
                assert(no_earlier(busiest(rest), ((rest[i].next_rseq - 1) as u64, rest[i].durable_rseq, rest[i].applied_rseq)));
            }
        }
        if top == busiest(rest) && top != (0u64, 0u64, 0u64) {
            let i = choose|i: int|
                0 <= i < rest.len() && busiest(rest) == (((#[trigger] rest[i]).next_rseq - 1) as u64, rest[i].durable_rseq, rest[i].applied_rseq);
            assert(peers[i] == rest[i]);
        } else {
            assert(peers[peers.len() - 1] == peers.last());
        }
    }
}

/// No write and no other operation of a guest succeeds where this node has
/// not the vdisk's pen: nobody has it, another node has, or it was given in
/// an era that is over. Nothing changes, here or on the way to a peer.
pub proof fn law_nothing_is_served_without_the_pen<D: Disk>(
    before: &ReplNode<D>,
    after: &ReplNode<D>,
    vdisk: u64,
    index: u64,
    payload: Seq<u8>,
    op: ReplOp,
    r: Result<()>,
)
    requires
        write_served(before, after, vdisk, index, payload, r) || op_served(before, after, vdisk, op, r),
        before.engine().lease_map().contains_key(vdisk) ==> before.engine().lease_map()[vdisk].holder != before@.node || before.engine().lease_map()[vdisk].era
            < before.engine().era_now(),
    ensures
        r is Err,
        r->Err_0 == FsError::NotWriter(vdisk) || r->Err_0 == FsError::Suspended,
        after@ == before@,
        after.engine() == before.engine(),
{
}

} // verus!
