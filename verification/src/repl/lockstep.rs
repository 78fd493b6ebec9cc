//! An operation at the member that serves it and at the members it is
//! streamed to.

use super::guest::{block_written, everyone, fanned, homes_for, law_streams_stay_dense, op_served, reachable, write_served};
use super::handle::{gathered, heard, served, wants_heard};
use super::ops::{makes_room, op_done, op_step, retried};
use super::promise::lemma_same_ids;
use super::pull::homes_now;
use super::stream::{BlockView, hashed, landed, lands, on_the_wire, op_landed, op_took, ops_run, run_in};
use super::wire::{EffectView, MessageView, ReplOp};
use super::{lemma_slot_at, lemma_slot_range, moved_on, slot_of, NodeView, ReplNode, SessionView};
use crate::disk::Disk;
use crate::error::{FsError, Result};
use crate::hash::{address_of, BlockHash};
use crate::pool::snapshot::{cloned, rolled_back, snapshot_deleted, snapshotted};
use crate::pool::sync::pinned_blocks;
use crate::pool::{mapped, Pool};
use crate::slice::NodeId;
use crate::table::TierHash;
use vstd::prelude::*;

verus! {

/// An operation that was run has done what it names: what it makes is there,
/// what it drops is gone, an index it leads somewhere leads there.
pub proof fn law_an_op_does_what_it_names<D: Disk>(before: &Pool<D>, after: &Pool<D>, op: ReplOp, r: Result<()>)
    requires
        op_done(before, after, op, r),
        r is Ok,
    ensures
        match op {
            ReplOp::CreateVdisk { id, size_bytes, tier } => {
                &&& !before.vdisk_map().contains_key(id)
                &&& after.vdisk_map().contains_key(id)
                &&& after.vdisk_map()[id].size_bytes == size_bytes
                &&& after.vdisk_map()[id].tier == tier
                &&& after.vdisk_map()[id].root is None
                &&& after.vdisk_map()[id].dirty.dom().is_empty()
                &&& after.lease_map() == before.lease_map()
                &&& after.snapshot_map() == before.snapshot_map()
            },
            ReplOp::Write { vdisk, index, hash } => {
                &&& after.vdisk_map().contains_key(vdisk)
                &&& mapped(after.shelf(0), after.unit(), after.vdisk_map()[vdisk], index) == Some(Some(hash))
                &&& after.vdisk_map()[vdisk].tier == before.vdisk_map()[vdisk].tier
                &&& after.vdisk_map()[vdisk].size_bytes == before.vdisk_map()[vdisk].size_bytes
                &&& after.vdisk_map().dom() == before.vdisk_map().dom()
                &&& after.lease_map() == before.lease_map()
                &&& after.snapshot_map() == before.snapshot_map()
            },
            ReplOp::Trim { vdisk, index } => {
                &&& after.vdisk_map().contains_key(vdisk)
                &&& mapped(after.shelf(0), after.unit(), after.vdisk_map()[vdisk], index) == Some(None::<BlockHash>)
                &&& after.vdisk_map()[vdisk].tier == before.vdisk_map()[vdisk].tier
                &&& after.vdisk_map()[vdisk].size_bytes == before.vdisk_map()[vdisk].size_bytes
                &&& after.vdisk_map().dom() == before.vdisk_map().dom()
                &&& after.lease_map() == before.lease_map()
                &&& after.snapshot_map() == before.snapshot_map()
            },
            ReplOp::DeleteVdisk { id } => {
                &&& before.vdisk_map().contains_key(id)
                &&& !after.vdisk_map().contains_key(id)
                &&& !after.lease_map().contains_key(id)
                &&& after.vdisk_map().dom() == before.vdisk_map().dom().remove(id)
                &&& after.snapshot_map() == before.snapshot_map()
            },
            ReplOp::Snapshot { vdisk, snapshot } => snapshotted(before, after, vdisk, snapshot, r),
            ReplOp::DeleteSnapshot { vdisk, snapshot } => snapshot_deleted(before, after, vdisk, snapshot, r),
            ReplOp::Rollback { vdisk, snapshot } => rolled_back(before, after, vdisk, snapshot, r),
            ReplOp::Clone { new_id, vdisk, snapshot } => cloned(before, after, new_id, vdisk, snapshot, r),
            ReplOp::SetLease { vdisk, lease } => {
                &&& before.vdisk_map().contains_key(vdisk)
                &&& after.lease_map() == before.lease_map().insert(vdisk, lease)
                &&& after.vdisk_map() == before.vdisk_map()
                &&& after.snapshot_map() == before.snapshot_map()
            },
        },
        after.era_now() == before.era_now(),
        after.seat() == before.seat(),
{
    if makes_room(op) && !op_step(before, after, op, r) {
        let (full, room, c) = choose|full: Pool<D>, room: Pool<D>, c: Result<()>| #[trigger] retried(before, &full, &room, after, op, c, r);
        assert(c is Ok);
        assert(op_step(&room, after, op, r));
        assert(full.vdisk_map() == before.vdisk_map());
        assert(room.vdisk_map().dom() == full.vdisk_map().dom());
        match op {
            ReplOp::CreateVdisk { id, .. } => {
                assert(room.vdisk_map().dom().contains(id) == before.vdisk_map().dom().contains(id));
            },
            ReplOp::Write { vdisk, .. } => {
                assert(room.vdisk_map().dom().contains(vdisk));
                assert(full.vdisk_map().contains_key(vdisk));
                assert(room.vdisk_map()[vdisk].tier == before.vdisk_map()[vdisk].tier);
            },
            ReplOp::Trim { vdisk, .. } => {
                assert(room.vdisk_map().dom().contains(vdisk));
                assert(full.vdisk_map().contains_key(vdisk));
                assert(room.vdisk_map()[vdisk].tier == before.vdisk_map()[vdisk].tier);
            },
            ReplOp::DeleteVdisk { id } => {
                assert(room.vdisk_map().dom().contains(id));
            },
            _ => {},
        }
    }
    match op {
        ReplOp::DeleteVdisk { id } => {
            assert(after.vdisk_map().dom() =~= before.vdisk_map().dom().remove(id));
        },
        ReplOp::CreateVdisk { id, .. } => {
            assert(after.vdisk_map()[id].dirty.dom() =~= Set::empty());
        },
        _ => {},
    }
}

/// One operation of a stream, run on a pool: it leaves the tables and the
/// blocks as the operation does.
pub open spec fn ran<D: Disk>(before: &Pool<D>, after: &Pool<D>, op: ReplOp) -> bool {
    exists|mid: Pool<D>, c: Result<()>| #[trigger]
        op_done(before, &mid, op, c) && c is Ok && after.vdisk_map() == mid.vdisk_map() && after.snapshot_map() == mid.snapshot_map() && after.lease_map()
            == mid.lease_map() && after.era_now() == mid.era_now() && after.stock() == mid.stock()
}

/// A stream's operations are run in their order, each once, by a node that
/// is not pulling from the sender; they start where the stream stands and
/// move it on by as many as there are. A stream that skips or repeats is
/// refused and changes nothing. A node that is pulling keeps them for later.
pub proof fn law_streamed_ops_are_run_in_order<D: Disk>(before: &ReplNode<D>, after: &ReplNode<D>, from: NodeId, first_rseq: u64, ops: Seq<ReplOp>, r: Result<()>)
    requires
        heard(before, after, from, MessageView::Apply { first_rseq, ops }, r),
        before@.knows(from),
    ensures
        !before@.of(from).pulls() && r is Ok ==> {
            &&& first_rseq == before@.of(from).applied_rseq + 1
            &&& before@.of(from).applied_rseq + ops.len() <= u64::MAX ==> after@.of(from).applied_rseq == before@.of(from).applied_rseq + ops.len()
            &&& exists|steps: Seq<Pool<D>>|
                steps.len() == ops.len() + 1 && #[trigger] steps[0] == before.engine() && steps.last() == after.engine() && forall|i: int|
                    0 <= i < ops.len() ==> ran(&steps[i], &steps[i + 1], #[trigger] ops[i])
        },
        !before@.of(from).pulls() && first_rseq != before@.of(from).applied_rseq + 1 ==> r is Err && after@ == before@ && after.engine() == before.engine(),
        before@.of(from).pulls() ==> r is Ok && after.engine() == before.engine() && after@.of(from).backlog == before@.of(from).backlog.push(
            MessageView::Apply { first_rseq, ops },
        ),
        after@.queue == before@.queue,
{
    let v = before@;
    let s = v.of(from);
    lemma_slot_range(v.peers, from);
    if s.pulls() {
        let next = SessionView { backlog: s.backlog.push(MessageView::Apply { first_rseq, ops }), ..s };
        lemma_same_ids(v.peers, slot_of(v.peers, from), next, from);
    } else if first_rseq == s.applied_rseq + 1 && r is Ok {
        let next = SessionView { applied_rseq: moved_on(s.applied_rseq, ops.len()), ..s };
        lemma_same_ids(v.peers, slot_of(v.peers, from), next, from);
        let steps = choose|steps: Seq<Pool<D>>| #[trigger] ops_run(steps, &before.engine(), &after.engine(), from, ops, r);
        assert forall|i: int| 0 <= i < ops.len() implies ran(&steps[i], &steps[i + 1], #[trigger] ops[i]) by {
            assert(op_took(&steps[i], &steps[i + 1], from, ops[i]));
            let (mid, c) = choose|mid: Pool<D>, c: Result<()>| #[trigger] op_landed(&steps[i], &mid, &steps[i + 1], from, ops[i], c);
            assert(op_done(&steps[i], &mid, ops[i], c));
        }
        assert(steps[0] == before.engine());
    }
}

/// Blocks that a peer sends ahead of its operations are stored, by a node
/// that is not pulling from it, on the tiers they name and under the
/// addresses of their bytes, where this node is a home for them, and nowhere
/// else; they are pinned for that peer. A pulling node keeps them for later.
pub proof fn law_blocks_sent_are_stored<D: Disk>(before: &ReplNode<D>, after: &ReplNode<D>, from: NodeId, blocks: Seq<(u8, Seq<u8>)>, r: Result<()>, i: int)
    requires
        heard(before, after, from, MessageView::Payloads(blocks), r),
        before@.knows(from),
        0 <= i < blocks.len(),
    ensures
        !before@.of(from).pulls() && r is Ok && (match homes_now(&before.engine(), address_of(blocks[i].1)) {
            Some(homes) => homes.contains(before@.node),
            None => true,
        }) ==> {
            &&& after.engine().holds(blocks[i].0).contains(address_of(blocks[i].1))
            &&& after.engine().promised(blocks[i].0).contains((address_of(blocks[i].1), blocks[i].1))
            &&& pinned_blocks(&after.engine(), from).contains(TierHash { tier: blocks[i].0, hash: address_of(blocks[i].1) })
        },
        !before@.of(from).pulls() && r is Ok ==> {
            &&& after@ == before@
            &&& after.engine().vdisk_map() == before.engine().vdisk_map()
            &&& after.engine().lease_map() == before.engine().lease_map()
            &&& forall|t: u8, h: BlockHash| #[trigger]
                after.engine().holds(t).contains(h) ==> before.engine().holds(t).contains(h) || exists|j: int|
                    0 <= j < blocks.len() && (#[trigger] blocks[j]).0 == t && address_of(blocks[j].1) == h
        },
        before@.of(from).pulls() ==> r is Ok && after.engine() == before.engine() && after@.of(from).backlog == before@.of(from).backlog.push(
            MessageView::Payloads(blocks),
        ),
{
    let v = before@;
    let s = v.of(from);
    let b = hashed(blocks);
    lemma_slot_range(v.peers, from);
    if s.pulls() {
        assert(on_the_wire(b) =~= blocks);
        let next = SessionView { backlog: s.backlog.push(MessageView::Payloads(blocks)), ..s };
        lemma_same_ids(v.peers, slot_of(v.peers, from), next, from);
    } else if r is Ok {
        let (mid, n) = choose|mid: Pool<D>, n: nat| #[trigger] run_in(&before.engine(), &mid, &after.engine(), v.node, from, b, n, r);
        assert(n == blocks.len());
        assert(b[i] == BlockView { tier: blocks[i].0, hash: address_of(blocks[i].1), payload: blocks[i].1 });
        if lands(&before.engine(), v.node, b[i].hash) {
            let x = TierHash { tier: b[i].tier, hash: b[i].hash };
            assert(landed(&before.engine(), v.node, b, n, x));
            assert(after.engine().promised(b[i].tier).contains((b[i].hash, b[i].payload)));
        }
        assert forall|t: u8, h: BlockHash| #[trigger] after.engine().holds(t).contains(h) implies before.engine().holds(t).contains(h) || exists|j: int|
            0 <= j < blocks.len() && (#[trigger] blocks[j]).0 == t && address_of(blocks[j].1) == h by {
            if !before.engine().holds(t).contains(h) {
                assert(landed(&before.engine(), v.node, b, n, TierHash { tier: t, hash: h }));
                let j = choose|j: int| 0 <= j < n && (#[trigger] b[j]).tier == t && b[j].hash == h && lands(&before.engine(), v.node, b[j].hash);
                assert(blocks[j].0 == t && address_of(blocks[j].1) == h);
            }
        }
    }
}

/// Blocks that a peer asks for are sent to it, all of them and in the order
/// asked for, each as the tier it names has it; nothing is sent where one
/// cannot be produced.
pub proof fn law_blocks_asked_for_are_sent<D: Disk>(before: &ReplNode<D>, after: &ReplNode<D>, from: NodeId, wants: Seq<(u8, BlockHash)>, sync: bool, r: Result<()>, i: int)
    requires
        heard(
            before,
            after,
            from,
            if sync {
                MessageView::SyncNeed(wants)
            } else {
                MessageView::Read(wants)
            },
            r,
        ),
        before@.knows(from),
        0 <= i < wants.len(),
    ensures
        after.engine() == before.engine(),
        r is Err ==> after@ == before@,
        r is Ok ==> {
            &&& after@.queue.len() == before@.queue.len() + 1
            &&& after@.queue.last() matches EffectView::Send(to, message) && to == from && match message {
                MessageView::SyncData(blocks) => sync && blocks.len() == wants.len() && blocks[i].0 == wants[i].0 && before.engine().shelf(wants[i].0).contains_key(
                    wants[i].1,
                ) && blocks[i].1 == before.engine().shelf(wants[i].0)[wants[i].1],
                MessageView::ReadData(blocks) => !sync && blocks.len() == wants.len() && blocks[i].0 == wants[i].0 && before.engine().shelf(wants[i].0).contains_key(
                    wants[i].1,
                ) && blocks[i].1 == before.engine().shelf(wants[i].0)[wants[i].1],
                _ => false,
            }
        },
{
    assert(wants_heard(before, after, from, wants, sync, r));
    let g = choose|g: Result<Vec<(u8, Vec<u8>)>>| #[trigger]
        gathered(&before.engine(), wants, g) && match g {
            Ok(_) => r is Ok && after@ == before@.tells(
                from,
                if sync {
                    MessageView::SyncData(served(&before.engine(), wants))
                } else {
                    MessageView::ReadData(served(&before.engine(), wants))
                },
            ),
            Err(e) => r == Err::<(), FsError>(e) && after@ == before@,
        };
    if g is Ok {
        assert(super::handle::producible(&before.engine(), wants[i]));
        assert(served(&before.engine(), wants)[i] == (wants[i].0, before.engine().shelf(wants[i].0)[wants[i].1]));
    }
}

/// An operation is served for the node that may write the vdisk, on a node
/// whose peers are all accounted for; it is run here, and every peer that
/// follows is sent it next in its stream and owes it.
pub proof fn law_a_served_op_is_streamed<D: Disk>(before: &ReplNode<D>, after: &ReplNode<D>, vdisk: u64, op: ReplOp, r: Result<()>, i: int)
    requires
        op_served(before, after, vdisk, op, r),
        0 <= i < before@.peers.len(),
        before@.peers[i].next_rseq < u64::MAX,
    ensures
        r is Ok ==> {
            &&& forall|k: int| 0 <= k < before@.peers.len() ==> (#[trigger] before@.peers[k]).accounted_for()
            &&& before.engine().lease_map().contains_key(vdisk)
            &&& before.engine().lease_map()[vdisk].holder == before@.node
            &&& before.engine().lease_map()[vdisk].era >= before.engine().era_now()
            &&& op_done(&before.engine(), &after.engine(), op, r)
            &&& before@.peers[i].streams() ==> {
                &&& after@.queue.contains(EffectView::Send(before@.peers[i].id, MessageView::Apply { first_rseq: before@.peers[i].next_rseq, ops: seq![op] }))
                &&& after@.peers[i].next_rseq == before@.peers[i].next_rseq + 1
                &&& after@.peers[i].required_rseq == before@.peers[i].next_rseq
            }
            &&& !before@.peers[i].streams() ==> after@.peers[i] == before@.peers[i]
        },
        r is Err ==> after@ == before@,
{
    if r is Ok {
        law_streams_stay_dense(before@, seq![op], None, i);
    }
}

proof fn lemma_reachable(v: NodeView, homes: Seq<NodeId>, h: NodeId)
    ensures
        reachable(v, homes).contains(h) <==> homes.contains(h) && h != v.node && v.knows(h) && v.of(h).streams(),
    decreases homes.len(),
{
    if homes.len() > 0 {
        let front = homes.drop_last();
        let rest = reachable(v, front);
        let all = reachable(v, homes);
        lemma_reachable(v, front, h);
        if all.contains(h) {
            let j = choose|j: int| 0 <= j < all.len() && all[j] == h;
            if j < rest.len() {
                assert(rest[j] == h);
                let k = choose|k: int| 0 <= k < front.len() && front[k] == h;
                assert(homes[k] == h);
            } else {
                assert(homes[homes.len() - 1] == h);
            }
        }
        if homes.contains(h) && h != v.node && v.knows(h) && v.of(h).streams() {
            let k = choose|k: int| 0 <= k < homes.len() && homes[k] == h;
            if k < front.len() {
                assert(front[k] == h);
                let j = choose|j: int| 0 <= j < rest.len() && rest[j] == h;
                assert(all[j] == h);
            } else {
                assert(all.last() == h);
            }
        }
    }
}

proof fn lemma_told_all(v: NodeView, peers: Seq<NodeId>, message: MessageView, i: int)
    ensures
        v.told_all(peers, message).queue.len() == v.queue.len() + peers.len(),
        v.told_all(peers, message).peers == v.peers,
        v.told_all(peers, message).node == v.node,
        0 <= i < v.queue.len() ==> v.told_all(peers, message).queue[i] == v.queue[i],
        v.queue.len() <= i < v.queue.len() + peers.len() ==> v.told_all(peers, message).queue[i] == EffectView::Send(peers[i - v.queue.len()], message),
    decreases peers.len(),
{
    if peers.len() > 0 {
        lemma_told_all(v, peers.drop_last(), message, i);
    }
}

proof fn lemma_fanned(peers: Seq<SessionView>, ops: Seq<ReplOp>, j: int)
    requires
        0 <= j < fanned(peers, ops).len(),
    ensures
        fanned(peers, ops)[j] is Send,
        fanned(peers, ops)[j]->Send_1 is Apply,
    decreases peers.len(),
{
    if j < fanned(peers.drop_last(), ops).len() {
        lemma_fanned(peers.drop_last(), ops, j);
    }
}

/// A block is written where this node may write the vdisk and every peer is
/// accounted for. Every peer that follows is sent the mapping next in its
/// stream. The block itself is sent to the homes that follow, all of them and
/// nobody else, ahead of the mapping; these owe the write, and no other peer
/// owes more than it did.
pub proof fn law_a_written_block_goes_to_its_homes<D: Disk>(
    before: &ReplNode<D>,
    after: &ReplNode<D>,
    vdisk: u64,
    index: u64,
    payload: Seq<u8>,
    r: Result<()>,
    i: int,
)
    requires
        before.inv(),
        write_served(before, after, vdisk, index, payload, r),
        r is Ok,
        0 <= i < before@.peers.len(),
        before@.peers[i].next_rseq < u64::MAX,
    ensures
        ({
            let v = before@;
            let s = v.peers[i];
            let tier = before.engine().vdisk_map()[vdisk].tier;
            let op = ReplOp::Write { vdisk, index, hash: address_of(payload) };
            let home = match homes_now(&before.engine(), address_of(payload)) {
                Some(homes) => homes.contains(s.id),
                None => true,
            };
            &&& forall|k: int| 0 <= k < v.peers.len() ==> (#[trigger] v.peers[k]).accounted_for()
            &&& before.engine().lease_map().contains_key(vdisk)
            &&& before.engine().lease_map()[vdisk].holder == v.node
            &&& before.engine().lease_map()[vdisk].era >= before.engine().era_now()
            &&& s.streams() ==> {
                &&& after@.queue.contains(EffectView::Send(s.id, MessageView::Apply { first_rseq: s.next_rseq, ops: seq![op] }))
                &&& after@.peers[i].next_rseq == s.next_rseq + 1
                &&& s.id != v.node && home ==> after@.queue.contains(EffectView::Send(s.id, MessageView::Payloads(seq![(tier, payload)]))) && after@.peers[i].required_rseq
                    == s.next_rseq
                &&& !home ==> after@.peers[i].required_rseq == s.required_rseq
            }
            &&& !s.streams() ==> after@.peers[i] == s
            &&& forall|j: int|
                v.queue.len() <= j < after@.queue.len() && (#[trigger] after@.queue[j]) is Send && after@.queue[j]->Send_1 is Payloads && after@.queue[j]->Send_0 == s.id
                    ==> home && s.streams() && after@.queue[j]->Send_1 == MessageView::Payloads(seq![(tier, payload)])
        }),
{
    let v = before@;
    let s = v.peers[i];
    let hash = address_of(payload);
    let homes = homes_for(v, &before.engine(), hash);
    let remote = reachable(v, homes);
    let tier = before.engine().vdisk_map()[vdisk].tier;
    let op = ReplOp::Write { vdisk, index, hash };
    let parcel = MessageView::Payloads(seq![(tier, payload)]);
    let told = v.told_all(remote, parcel);
    assert(block_written(before, after, vdisk, index, payload, r));
    assert(after@ == told.sent(seq![op], Some(remote)));
    lemma_reachable(v, homes, s.id);
    lemma_told_all(v, remote, parcel, 0);
    before.lemma_node();
    lemma_slot_at(v.peers, i);
    assert(v.of(s.id) == s && v.knows(s.id));
    if homes_now(&before.engine(), hash) is None {
        assert(everyone(v)[i] == s.id);
        assert(homes.contains(s.id));
    }
    law_streams_stay_dense(told, seq![op], Some(remote), i);
    if remote.contains(s.id) {
        let j = choose|j: int| 0 <= j < remote.len() && remote[j] == s.id;
        lemma_told_all(v, remote, parcel, v.queue.len() + j);
        assert(after@.queue[v.queue.len() + j] == EffectView::Send(s.id, parcel));
    }
    assert forall|j: int|
        v.queue.len() <= j < after@.queue.len() && (#[trigger] after@.queue[j]) is Send && after@.queue[j]->Send_1 is Payloads && after@.queue[j]->Send_0
            == s.id implies remote.contains(s.id) && after@.queue[j]->Send_1 == parcel by {
        if j < told.queue.len() {
            lemma_told_all(v, remote, parcel, j);
            assert(after@.queue[j] == told.queue[j]);
            assert(remote[j - v.queue.len()] == s.id);
        } else {
            lemma_fanned(told.peers, seq![op], j - told.queue.len());
            assert(after@.queue[j] == fanned(told.peers, seq![op])[j - told.queue.len()]);
        }
    }
}

} // verus!
