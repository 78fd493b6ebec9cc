//! What a member does for its guests: vdisks made, pens moved, blocks
//! fetched, flushes waited for.

use super::flush::guest_flushed;
use super::guest::{law_streams_stay_dense, made_and_claimed, vdisk_cloned, vdisk_created};
use super::handle::{block_arrived, block_took, done, heard, reads_run, waiting_on};
use super::lockstep::law_an_op_does_what_it_names;
use super::pen::{pen_accepted, pen_claimed, pen_given, pen_kept, pen_offered};
use super::pull::homes_now;
use super::read::{block_asked, read_served, served_once};
use super::wire::{EffectView, MessageView, ReplOp};
use super::{NodeView, ReplNode, ReplState};
use crate::disk::Disk;
use crate::error::{FsError, Result};
use crate::hash::{address_of, BlockHash};
use crate::pool::holders::other_leases_kept;
use crate::pool::snapshot::cloned;
use crate::pool::vdisk::block_read;
use crate::pool::{Lease, Pool};
use crate::slice::NodeId;
use crate::table::TierHash;
use vstd::prelude::*;

verus! {

/// A vdisk that a guest makes is there, of the size and on the tier asked
/// for, on a tier that every peer that follows has too; its pen is this
/// node's, in this era. Every peer that follows is sent both, next in its
/// stream. One that cannot be made is told to nobody.
pub proof fn law_a_vdisk_made_is_held_and_streamed<D: Disk>(
    before: &ReplNode<D>,
    after: &ReplNode<D>,
    id: u64,
    size_bytes: u64,
    tier: u8,
    r: Result<()>,
    i: int,
)
    requires
        vdisk_created(before, after, id, size_bytes, tier, r),
        0 <= i < before@.peers.len(),
        before@.peers[i].next_rseq < u64::MAX - 1,
    ensures
        r is Ok ==> {
            let lease = Lease { holder: before@.node, handing_to: None, era: before.engine().era_now() };
            &&& forall|k: int| 0 <= k < before@.peers.len() ==> (#[trigger] before@.peers[k]).accounted_for()
            &&& !before.engine().vdisk_map().contains_key(id)
            &&& after.engine().vdisk_map().contains_key(id)
            &&& after.engine().vdisk_map()[id].size_bytes == size_bytes
            &&& after.engine().vdisk_map()[id].tier == tier
            &&& after.engine().lease_map().contains_key(id)
            &&& after.engine().lease_map()[id] == lease
            &&& before@.peers[i].streams() ==> before@.peers[i].tiers.contains(tier) && after@.queue.contains(
                EffectView::Send(
                    before@.peers[i].id,
                    MessageView::Apply {
                        first_rseq: before@.peers[i].next_rseq,
                        ops: seq![ReplOp::CreateVdisk { id, size_bytes, tier }, ReplOp::SetLease { vdisk: id, lease }],
                    },
                ),
            ) && after@.peers[i].next_rseq == before@.peers[i].next_rseq + 2 && after@.peers[i].required_rseq == before@.peers[i].next_rseq + 1
        },
        r is Err ==> after@ == before@,
{
    if r is Ok {
        let op = ReplOp::CreateVdisk { id, size_bytes, tier };
        let (mid, c) = choose|mid: Pool<D>, c: Result<()>| #[trigger] made_and_claimed(&before.engine(), &mid, &after.engine(), op, id, before@.node, c, r);
        law_an_op_does_what_it_names(&before.engine(), &mid, op, c);
        let lease = Lease { holder: before@.node, handing_to: None, era: after.engine().era_now() };
        let ops = seq![op, ReplOp::SetLease { vdisk: id, lease }];
        assert(ops.len() == 2);
        law_streams_stay_dense(before@, ops, None, i);
        if before@.peers[i].streams() && !before@.peers[i].tiers.contains(tier) {
            assert(before@.tier_missing(tier));
        }
    }
}

/// A clone is made by the node that may write the vdisk it is made of; its
/// own pen is that node's too, and both are streamed.
pub proof fn law_a_clone_is_held_and_streamed<D: Disk>(
    before: &ReplNode<D>,
    after: &ReplNode<D>,
    new_id: u64,
    vdisk: u64,
    snapshot: u64,
    r: Result<()>,
    i: int,
)
    requires
        vdisk_cloned(before, after, new_id, vdisk, snapshot, r),
        0 <= i < before@.peers.len(),
        before@.peers[i].next_rseq < u64::MAX - 1,
    ensures
        r is Ok ==> {
            let lease = Lease { holder: before@.node, handing_to: None, era: before.engine().era_now() };
            &&& forall|k: int| 0 <= k < before@.peers.len() ==> (#[trigger] before@.peers[k]).accounted_for()
            &&& before.engine().lease_map().contains_key(vdisk)
            &&& before.engine().lease_map()[vdisk].holder == before@.node
            &&& before.engine().lease_map()[vdisk].era >= before.engine().era_now()
            &&& exists|mid: Pool<D>, c: Result<()>| #[trigger]
                cloned(&before.engine(), &mid, new_id, vdisk, snapshot, c) && c is Ok && after.engine().vdisk_map() == mid.vdisk_map() && after.engine().snapshot_map()
                    == mid.snapshot_map()
            &&& after.engine().lease_map().contains_key(new_id)
            &&& after.engine().lease_map()[new_id] == lease
            &&& before@.peers[i].streams() ==> after@.queue.contains(
                EffectView::Send(
                    before@.peers[i].id,
                    MessageView::Apply {
                        first_rseq: before@.peers[i].next_rseq,
                        ops: seq![ReplOp::Clone { new_id, vdisk, snapshot }, ReplOp::SetLease { vdisk: new_id, lease }],
                    },
                ),
            )
        },
        r is Err ==> after@ == before@,
{
    if r is Ok {
        let op = ReplOp::Clone { new_id, vdisk, snapshot };
        let (mid, c) = choose|mid: Pool<D>, c: Result<()>| #[trigger] made_and_claimed(&before.engine(), &mid, &after.engine(), op, new_id, before@.node, c, r);
        law_an_op_does_what_it_names(&before.engine(), &mid, op, c);
        assert(cloned(&before.engine(), &mid, new_id, vdisk, snapshot, c));
        let lease = Lease { holder: before@.node, handing_to: None, era: after.engine().era_now() };
        let ops = seq![op, ReplOp::SetLease { vdisk: new_id, lease }];
        assert(ops.len() == 2);
        law_streams_stay_dense(before@, ops, None, i);
    }
}

/// A lease that this node changes is told to every peer that follows, next in
/// its stream.
pub open spec fn told_next<D: Disk>(before: &ReplNode<D>, after: &ReplNode<D>, vdisk: u64, i: int) -> bool {
    before@.peers[i].streams() ==> after@.queue.contains(
        EffectView::Send(
            before@.peers[i].id,
            MessageView::Apply {
                first_rseq: before@.peers[i].next_rseq,
                ops: seq![ReplOp::SetLease { vdisk, lease: after.engine().lease_map()[vdisk] }],
            },
        ),
    ) && after@.peers[i].required_rseq == before@.peers[i].next_rseq
}

/// The pen is claimed on a node whose peers are all accounted for, where no
/// other node holds it in this era, nor held it in an earlier one unfenced;
/// it is then this node's alone, and every peer that follows is told.
pub proof fn law_a_claimed_pen_is_told<D: Disk>(before: &ReplNode<D>, after: &ReplNode<D>, vdisk: u64, r: Result<()>, i: int)
    requires
        pen_claimed(before, after, vdisk, r),
        0 <= i < before@.peers.len(),
        before@.peers[i].next_rseq < u64::MAX,
    ensures
        before.engine().lease_map().contains_key(vdisk) && before.engine().lease_map()[vdisk].holder != before@.node && !before@.fenced(
            before.engine().lease_map()[vdisk].holder,
        ) ==> r is Err,
        before.engine().lease_map().contains_key(vdisk) && before.engine().lease_map()[vdisk].holder != before@.node && before.engine().lease_map()[vdisk].era
            >= before.engine().era_now() ==> r is Err,
        r is Ok ==> {
            &&& forall|k: int| 0 <= k < before@.peers.len() ==> (#[trigger] before@.peers[k]).accounted_for()
            &&& after.engine().lease_map().contains_key(vdisk)
            &&& after.engine().lease_map()[vdisk] == (Lease { holder: before@.node, handing_to: None, era: before.engine().era_now() })
            &&& told_next(before, after, vdisk, i)
        },
        r is Err ==> after@ == before@ && after.engine().lease_map() == before.engine().lease_map(),
        other_leases_kept(&before.engine(), &after.engine(), vdisk),
{
    if r is Ok {
        law_streams_stay_dense(before@, seq![ReplOp::SetLease { vdisk, lease: after.engine().lease_map()[vdisk] }], None, i);
    }
}

/// The pen is offered, given and kept by the node that holds it, and every
/// peer that follows is told: offered, it stays this node's; given, it is the
/// node's it was offered to; kept, it is this node's and offered to nobody.
pub proof fn law_a_moved_pen_is_told<D: Disk>(
    before: &ReplNode<D>,
    after: &ReplNode<D>,
    vdisk: u64,
    to: NodeId,
    offered: Result<()>,
    given: Result<()>,
    kept: Result<()>,
    i: int,
)
    requires
        0 <= i < before@.peers.len(),
        before@.peers[i].next_rseq < u64::MAX,
    ensures
        pen_offered(before, after, vdisk, to, offered) && offered is Ok ==> {
            &&& before.engine().lease_map()[vdisk].holder == before@.node
            &&& before.engine().lease_map()[vdisk].era >= before.engine().era_now()
            &&& after.engine().lease_map()[vdisk] == (Lease { holder: before@.node, handing_to: Some(to), era: before.engine().era_now() })
            &&& told_next(before, after, vdisk, i)
            &&& other_leases_kept(&before.engine(), &after.engine(), vdisk)
        },
        pen_given(before, after, vdisk, to, given) && given is Ok ==> {
            &&& before.engine().lease_map()[vdisk].holder == before@.node
            &&& before.engine().lease_map()[vdisk].handing_to == Some(to)
            &&& before.engine().lease_map()[vdisk].era >= before.engine().era_now()
            &&& after.engine().lease_map()[vdisk] == (Lease { holder: to, handing_to: None, era: before.engine().era_now() })
            &&& told_next(before, after, vdisk, i)
            &&& other_leases_kept(&before.engine(), &after.engine(), vdisk)
        },
        pen_kept(before, after, vdisk, kept) && kept is Ok ==> {
            &&& before.engine().lease_map()[vdisk].holder == before@.node
            &&& before.engine().lease_map()[vdisk].handing_to is Some
            &&& after.engine().lease_map()[vdisk] == (Lease { handing_to: None, ..before.engine().lease_map()[vdisk] })
            &&& told_next(before, after, vdisk, i)
            &&& other_leases_kept(&before.engine(), &after.engine(), vdisk)
        },
        pen_offered(before, after, vdisk, to, offered) && offered is Err ==> after@ == before@ && after.engine().lease_map() == before.engine().lease_map(),
        pen_given(before, after, vdisk, to, given) && given is Err ==> after@ == before@ && after.engine().lease_map() == before.engine().lease_map(),
        pen_kept(before, after, vdisk, kept) && kept is Err ==> after@ == before@ && after.engine().lease_map() == before.engine().lease_map(),
{
    law_streams_stay_dense(before@, seq![ReplOp::SetLease { vdisk, lease: after.engine().lease_map()[vdisk] }], None, i);
}

/// The pen is accepted just where it is this node's already, in this era, and
/// offered to nobody, on a node that is not suspended.
pub proof fn law_a_pen_is_accepted_once_it_is_here<D: Disk>(node: &ReplNode<D>, vdisk: u64, r: Result<()>)
    requires
        pen_accepted(node, vdisk, r),
    ensures
        r is Ok <==> node@.state() != ReplState::Suspended && node.engine().lease_map().contains_key(vdisk) && node.engine().lease_map()[vdisk].holder == node@.node
            && node.engine().lease_map()[vdisk].era >= node.engine().era_now() && node.engine().lease_map()[vdisk].handing_to is None,
{
}

/// A block that lives elsewhere is asked for from a home of it that follows,
/// under a ticket of its own; it can be asked for nowhere else.
pub proof fn law_a_block_is_fetched_from_a_home<D: Disk>(before: &ReplNode<D>, after: &ReplNode<D>, tier: u8, hash: BlockHash, r: Result<u64>)
    requires
        block_asked(before, after, tier, hash, r),
    ensures
        r matches Ok(ticket) ==> {
            &&& ticket == before@.next_ticket
            &&& after@.next_ticket == ticket + 1
            &&& before.engine().seat() is Some
            &&& after@.reads.contains_key(ticket)
            &&& after@.reads[ticket].tier == tier && after@.reads[ticket].hash == hash
            &&& ({
                let target = after@.reads[ticket].target;
                let homes = before.engine().seat()->Some_0.1.home_pair(hash);
                &&& target == homes@[0] || target == homes@[1]
                &&& target != before@.node
                &&& before@.knows(target) && before@.of(target).streams()
                &&& after@.queue == before@.queue.push(EffectView::Send(target, MessageView::Read(seq![(tier, hash)])))
            })
        },
        r is Err ==> after@ == before@,
        before.engine().seat() matches Some(seat) ==> before@.next_ticket < u64::MAX && (exists|i: int|
            0 <= i < 2 && #[trigger] seat.1.home_pair(hash)@[i] != before@.node && before@.knows(seat.1.home_pair(hash)@[i]) && before@.of(
                seat.1.home_pair(hash)@[i],
            ).streams()) ==> r is Ok,
{
}

/// A block that was fetched for a member that is no home for it waits under
/// its address, as it came; the reads that waited for it are done, and no
/// other is.
pub proof fn law_a_fetched_block_waits_for_its_read<D: Disk>(
    before: &ReplNode<D>,
    after: &ReplNode<D>,
    from: NodeId,
    tier: u8,
    payload: Seq<u8>,
    r: Result<()>,
    ticket: u64,
)
    requires
        heard(before, after, from, MessageView::ReadData(seq![(tier, payload)]), r),
        before@.knows(from),
        match homes_now(&before.engine(), address_of(payload)) {
            Some(homes) => !homes.contains(before@.node),
            None => true,
        },
    ensures
        r is Ok,
        after.engine() == before.engine(),
        ({
            let key = TierHash { tier, hash: address_of(payload) };
            &&& after@.fetched.contains_key(key)
            &&& after@.fetched[key] == payload
            &&& forall|k: TierHash| k != key ==> (#[trigger] after@.fetched.contains_key(k) <==> before@.fetched.contains_key(k))
            &&& before@.reads.contains_key(ticket) && before@.reads[ticket].tier == tier && before@.reads[ticket].hash == address_of(payload) ==> !after@.reads.contains_key(
                ticket,
            ) && after@.queue.contains(EffectView::ReadDone(ticket))
            &&& before@.reads.contains_key(ticket) && !(before@.reads[ticket].tier == tier && before@.reads[ticket].hash == address_of(payload))
                ==> after@.reads.contains_key(ticket)
        }),
{
    let blocks = seq![(tier, payload)];
    let steps = choose|steps: Seq<ReplNode<D>>| #[trigger] reads_run(steps, before, after, blocks, r);
    assert(blocks[0] == (tier, payload));
    if r is Err {
        assert(steps.len() == 1);
        assert(block_arrived(before, after, blocks[0], Err(r->Err_0)));
    } else {
        assert(block_took(&steps[0], &steps[1], blocks[0]));
    }
    let c = choose|c: Result<BlockHash>| c is Ok && #[trigger] block_arrived(before, after, (tier, payload), c);
    let key = TierHash { tier, hash: address_of(payload) };
    let v = NodeView { fetched: before@.fetched.insert(key, payload), ..before@ };
    let tickets = choose|tickets: Seq<u64>| #[trigger]
        waiting_on(v.reads, tier, address_of(payload), tickets) && after@ == (NodeView {
            queue: v.queue + done(tickets),
            reads: v.reads.remove_keys(tickets.to_set()),
            ..v
        });
    assert(tickets.to_set().contains(ticket) <==> tickets.contains(ticket));
    if tickets.contains(ticket) {
        let j = choose|j: int| 0 <= j < tickets.len() && tickets[j] == ticket;
        assert(after@.queue[v.queue.len() + j] == done(tickets)[j]);
    }
}

/// A read gives what the pool gives. Where that is that the block lives
/// elsewhere, it gives the block that was fetched under the address mapped,
/// if one waits, and that one waits no longer; the pool is left alone.
pub proof fn law_a_read_serves_what_was_fetched<D: Disk>(
    before: &ReplNode<D>,
    after: &ReplNode<D>,
    vdisk: u64,
    index: u64,
    r: Result<Option<Vec<u8>>>,
    local: Result<Option<Vec<u8>>>,
)
    requires
        before.engine().reliable(),
        read_served(before, after, vdisk, index, r),
        block_read(&before.engine(), vdisk, index, local),
    ensures
        after.engine() == before.engine(),
        after@.queue == before@.queue,
        local is Ok ==> r is Ok && crate::bytes::payload_view(r->Ok_0) == crate::bytes::payload_view(local->Ok_0) && after@ == before@,
        local matches Err(FsError::BlockElsewhere { tier, hash }) ==> if before@.fetched.contains_key(TierHash { tier, hash }) {
            &&& r is Ok && r->Ok_0 is Some && r->Ok_0->Some_0@ == before@.fetched[TierHash { tier, hash }]
            &&& !after@.fetched.contains_key(TierHash { tier, hash })
        } else {
            r == local && after@ == before@
        },
        local is Err && !(local->Err_0 is BlockElsewhere) ==> r is Err && after@ == before@,
{
    let mine = choose|mine: Result<Option<Vec<u8>>>| #[trigger] block_read(&before.engine(), vdisk, index, mine) && served_once(before@, after@, mine, r);
}

/// A guest's flush that gets a ticket has put this node's own part on stable
/// storage; one that fails says nothing to anybody. The tables are left
/// alone.
pub proof fn law_a_flush_begins_at_home<D: Disk>(before: &ReplNode<D>, after: &ReplNode<D>, r: Result<u64>)
    requires
        guest_flushed(before, after, r),
    ensures
        r is Ok ==> after.engine().stock().durable() && after@ == before@.flushed(),
        r is Ok ==> r->Ok_0 == before@.next_ticket,
        r is Err ==> after@ == before@,
        before.engine().reliable() && before@.next_ticket < u64::MAX ==> r is Ok,
        after.engine().vdisk_map() == before.engine().vdisk_map(),
{
}

} // verus!
