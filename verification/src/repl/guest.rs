//! The guest-facing write path.

use super::ops::{op_done, run_op};
use super::pull::{homes_now, names};
use super::wire::{Effect, EffectView, MessageView, PeerMessage, ReplOp};
use super::{moved_on, NodeView, ReplNode, SessionView};
use crate::brick::GcStats;
use crate::disk::Disk;
use crate::error::{FsError, Result};
use crate::hash::{address_of, BlockHash};
use crate::pool::checkpoint::checkpointed;
use crate::pool::lease::{claimed, writer};
use crate::pool::vdisk::{history_kept, stored_under};
use crate::pool::{stock_same, Lease, Pool};
use crate::slice::NodeId;
use vstd::prelude::*;

verus! {

/// A pool after a flush: nothing is different but what is durable.
pub open spec fn flushed_pool<D: Disk>(before: &Pool<D>, after: &Pool<D>) -> bool {
    &&& after.inv()
    &&& history_kept(before, after)
    &&& after.same_rest(before)
    &&& after.vdisk_map() == before.vdisk_map()
    &&& after.ring() == before.ring()
    &&& stock_same(&before.stock(), &after.stock())
    &&& after.stock().wal_area() == before.stock().wal_area()
}

/// Every brick's bytes are durable.
pub open spec fn all_durable<D: Disk>(pool: &Pool<D>) -> bool {
    pool.stock().durable()
}

/// A node that did nothing.
pub open spec fn idle<D: Disk>(before: &ReplNode<D>, after: &ReplNode<D>) -> bool {
    after@ == before@ && after.engine() == before.engine()
}

/// Why a guest's mutation is refused, if it is: nothing is served, or the
/// pen is elsewhere.
pub open spec fn write_refusal<D: Disk>(v: NodeView, pool: &Pool<D>, vdisk: u64) -> Option<FsError> {
    if !v.serving() {
        Some(FsError::Suspended)
    } else if !writer(pool.lease_map(), pool.era_now(), vdisk, v.node) {
        Some(FsError::NotWriter(vdisk))
    } else {
        None
    }
}

/// Ops number a peer's stream; those it has to make durable move its mark.
pub open spec fn bumped(s: SessionView, n: nat, required: bool) -> SessionView {
    SessionView {
        next_rseq: moved_on(s.next_rseq, n),
        required_rseq: if required {
            (moved_on(s.next_rseq, n) - 1) as u64
        } else {
            s.required_rseq
        },
        ..s
    }
}

/// These peers' durability is required: all of them where none is named.
pub open spec fn required_of(required: Option<Seq<NodeId>>, peer: NodeId) -> bool {
    match required {
        None => true,
        Some(homes) => homes.contains(peer),
    }
}

/// The messages that carry ops to every streaming session, each under its
/// own numbering.
pub open spec fn fanned(peers: Seq<SessionView>, ops: Seq<ReplOp>) -> Seq<EffectView>
    decreases peers.len(),
{
    if peers.len() == 0 {
        Seq::empty()
    } else {
        let rest = fanned(peers.drop_last(), ops);
        let s = peers.last();
        if s.streams() {
            rest.push(EffectView::Send(s.id, MessageView::Apply { first_rseq: s.next_rseq, ops }))
        } else {
            rest
        }
    }
}

/// The session of a peer that ops went to, if it streams.
pub open spec fn carried(s: SessionView, n: nat, required: Option<Seq<NodeId>>) -> SessionView {
    if s.streams() {
        bumped(s, n, required_of(required, s.id))
    } else {
        s
    }
}

/// The peers of `homes` that can take a payload now.
pub open spec fn reachable(v: NodeView, homes: Seq<NodeId>) -> Seq<NodeId>
    decreases homes.len(),
{
    if homes.len() == 0 {
        Seq::empty()
    } else {
        let rest = reachable(v, homes.drop_last());
        let h = homes.last();
        if h != v.node && v.knows(h) && v.of(h).streams() {
            rest.push(h)
        } else {
            rest
        }
    }
}

/// Every known member.
pub open spec fn everyone(v: NodeView) -> Seq<NodeId> {
    Seq::new(v.peers.len(), |i: int| v.peers[i].id).push(v.node)
}

/// Where a block written now has to live. Without a placement every member
/// is a home.
pub open spec fn homes_for<D: Disk>(v: NodeView, pool: &Pool<D>, hash: BlockHash) -> Seq<NodeId> {
    match homes_now(pool, hash) {
        Some(homes) => homes,
        None => everyone(v),
    }
}

impl NodeView {
    /// With ops sent to every streaming session.
    pub open spec fn sent(self, ops: Seq<ReplOp>, required: Option<Seq<NodeId>>) -> NodeView {
        NodeView {
            peers: Seq::new(self.peers.len(), |i: int| carried(self.peers[i], ops.len(), required)),
            queue: self.queue + fanned(self.peers, ops),
            ..self
        }
    }

    /// With one message to each of these peers in the queue.
    pub open spec fn told_all(self, peers: Seq<NodeId>, message: MessageView) -> NodeView
        decreases peers.len(),
    {
        if peers.len() == 0 {
            self
        } else {
            self.told_all(peers.drop_last(), message).tells(peers.last(), message)
        }
    }

    /// Some streaming peer does not carry this tier.
    pub open spec fn tier_missing(self, tier: u8) -> bool {
        exists|i: int| 0 <= i < self.peers.len() && (#[trigger] self.peers[i]).streams() && !self.peers[i].tiers.contains(tier)
    }
}

/// What serving a guest's op comes to: refused, or run here and, where it
/// succeeded, sent to every streaming session.
pub open spec fn op_served<D: Disk>(before: &ReplNode<D>, after: &ReplNode<D>, vdisk: u64, op: ReplOp, r: Result<()>) -> bool {
    match write_refusal(before@, &before.engine(), vdisk) {
        Some(e) => r == Err::<(), FsError>(e) && idle(before, after),
        None => {
            &&& op_done(&before.engine(), &after.engine(), op, r)
            &&& after@ == if r is Ok {
                before@.sent(seq![op], None)
            } else {
                before@
            }
        },
    }
}

/// An op that makes a vdisk was run, and the vdisk was claimed.
pub open spec fn made_and_claimed<D: Disk>(before: &Pool<D>, mid: &Pool<D>, after: &Pool<D>, op: ReplOp, id: u64, node: NodeId, c: Result<()>, r: Result<()>) -> bool {
    &&& op_done(before, mid, op, c)
    &&& match c {
        Err(e) => r == Err::<(), FsError>(e) && *after == *mid,
        Ok(_) => claimed(mid, after, id, node, r),
    }
}

/// What serving an op that makes a vdisk comes to. Whoever made it holds it.
pub open spec fn vdisk_made<D: Disk>(before: &ReplNode<D>, after: &ReplNode<D>, op: ReplOp, id: u64, r: Result<()>) -> bool {
    &&& exists|mid: Pool<D>, c: Result<()>| #[trigger] made_and_claimed(&before.engine(), &mid, &after.engine(), op, id, before@.node, c, r)
    &&& after@ == if r is Ok {
        before@.sent(
            seq![op, ReplOp::SetLease { vdisk: id, lease: Lease { holder: before@.node, handing_to: None, era: after.engine().era_now() } }],
            None,
        )
    } else {
        before@
    }
}

/// What creating a vdisk comes to.
pub open spec fn vdisk_created<D: Disk>(before: &ReplNode<D>, after: &ReplNode<D>, id: u64, size_bytes: u64, tier: u8, r: Result<()>) -> bool {
    if !before@.serving() {
        r == Err::<(), FsError>(FsError::Suspended) && idle(before, after)
    } else if before@.tier_missing(tier) {
        r == Err::<(), FsError>(FsError::TierNotOnPeer(tier)) && idle(before, after)
    } else {
        vdisk_made(before, after, ReplOp::CreateVdisk { id, size_bytes, tier }, id, r)
    }
}

/// What cloning a snapshot comes to.
pub open spec fn vdisk_cloned<D: Disk>(before: &ReplNode<D>, after: &ReplNode<D>, new_id: u64, vdisk: u64, snapshot: u64, r: Result<()>) -> bool {
    match write_refusal(before@, &before.engine(), vdisk) {
        Some(e) => r == Err::<(), FsError>(e) && idle(before, after),
        None => vdisk_made(before, after, ReplOp::Clone { new_id, vdisk, snapshot }, new_id, r),
    }
}

/// The block was stored here if this node is a home, and the index mapped.
pub open spec fn stored_and_mapped<D: Disk>(
    before: &Pool<D>,
    mid: &Pool<D>,
    after: &Pool<D>,
    local: bool,
    tier: u8,
    payload: Seq<u8>,
    op: ReplOp,
    c: Result<()>,
    r: Result<()>,
) -> bool {
    &&& if local {
        stored_under(before, mid, tier, address_of(payload), payload, c)
    } else {
        *mid == *before && c is Ok
    }
    &&& match c {
        Err(e) => r == Err::<(), FsError>(e) && *after == *mid,
        Ok(_) => op_done(mid, after, op, r),
    }
}

/// Why a guest's write is refused, if it is.
pub open spec fn block_refusal<D: Disk>(v: NodeView, pool: &Pool<D>, vdisk: u64, hash: BlockHash) -> Option<FsError> {
    let homes = homes_for(v, pool, hash);
    match write_refusal(v, pool, vdisk) {
        Some(e) => Some(e),
        None => if !pool.vdisk_map().contains_key(vdisk) {
            Some(FsError::UnknownVdisk(vdisk))
        } else if !homes.contains(v.node) && reachable(v, homes).len() == 0 {
            Some(FsError::SliceUnreachable(hash.0@[0]))
        } else {
            None
        },
    }
}

/// What a guest's write comes to: the block goes to its homes, the op to
/// every streaming session, and only the homes' durability is required.
pub open spec fn block_written<D: Disk>(before: &ReplNode<D>, after: &ReplNode<D>, vdisk: u64, index: u64, payload: Seq<u8>, r: Result<()>) -> bool {
    let v = before@;
    let hash = address_of(payload);
    let homes = homes_for(v, &before.engine(), hash);
    let remote = reachable(v, homes);
    let tier = before.engine().vdisk_map()[vdisk].tier;
    let op = ReplOp::Write { vdisk, index, hash };
    &&& exists|mid: Pool<D>, c: Result<()>| #[trigger]
        stored_and_mapped(&before.engine(), &mid, &after.engine(), homes.contains(v.node), tier, payload, op, c, r)
    &&& after@ == if r is Ok {
        v.told_all(remote, MessageView::Payloads(seq![(tier, payload)])).sent(seq![op], Some(remote))
    } else {
        v
    }
}

/// What a guest's write of a block comes to: a refusal, or a block stored,
/// mapped and sent.
pub open spec fn write_served<D: Disk>(before: &ReplNode<D>, after: &ReplNode<D>, vdisk: u64, index: u64, payload: Seq<u8>, r: Result<()>) -> bool {
    match block_refusal(before@, &before.engine(), vdisk, address_of(payload)) {
        Some(e) => r == Err::<(), FsError>(e) && idle(before, after),
        None => block_written(before, after, vdisk, index, payload, r),
    }
}

pub(crate) proof fn lemma_told_all(v: NodeView, peers: Seq<NodeId>, message: MessageView)
    ensures
        v.told_all(peers, message) == (NodeView { queue: v.told_all(peers, message).queue, ..v }),
    decreases peers.len(),
{
    if peers.len() > 0 {
        lemma_told_all(v, peers.drop_last(), message);
    }
}

fn copy_ops(ops: &Vec<ReplOp>) -> (r: Vec<ReplOp>)
    ensures
        r@ == ops@,
{
    let mut out: Vec<ReplOp> = Vec::new();
    let mut i: usize = 0;
    while i < ops.len()
        invariant
            i <= ops@.len(),
            out@ == ops@.take(i as int),
        decreases ops@.len() - i,
    {
        out.push(ops[i]);
        i += 1;
        assert(out@ =~= ops@.take(i as int));
    }
    assert(ops@.take(i as int) =~= ops@);
    out
}

pub(super) fn copy_bytes(bytes: &[u8]) -> (r: Vec<u8>)
    ensures
        r@ == bytes@,
{
    let mut out: Vec<u8> = Vec::new();
    crate::codec::push_bytes(&mut out, bytes);
    assert(out@ =~= bytes@);
    out
}

impl<D: Disk> ReplNode<D> {
    pub(super) fn writable(&self, vdisk: u64) -> (r: Result<()>)
        requires
            self.inv(),
        ensures
            match write_refusal(self@, &self.engine(), vdisk) {
                Some(e) => r == Err::<(), FsError>(e),
                None => r is Ok,
            },
    {
        if !self.serving() {
            return Err(FsError::Suspended);
        }
        if self.pool.may_write(vdisk, self.node) {
            Ok(())
        } else {
            Err(FsError::NotWriter(vdisk))
        }
    }

    /// Fan an op batch out to every streaming session. Metadata durability
    /// is owed by every live member.
    pub(super) fn send_ops(&mut self, ops: Vec<ReplOp>)
        requires
            old(self).inv(),
        ensures
            final(self).inv(),
            final(self).engine() == old(self).engine(),
            final(self)@ == old(self)@.sent(ops@, None),
    {
        self.send_ops_requiring(&ops, None);
    }

    /// The general fan-out: ops go to every streaming session, because
    /// numbering must stay dense on every stream, while `required`, when
    /// given, names the only peers whose durability a flush must wait on.
    fn send_ops_requiring(&mut self, ops: &Vec<ReplOp>, required: Option<&Vec<NodeId>>)
        requires
            old(self).inv(),
        ensures
            final(self).inv(),
            final(self).engine() == old(self).engine(),
            final(self)@ == old(self)@.sent(
                ops@,
                match required {
                    Some(homes) => Some(homes@),
                    None => None,
                },
            ),
    {
        let ghost start = self@;
        let ghost homes: Option<Seq<NodeId>> = match required {
            Some(homes) => Some(homes@),
            None => None,
        };
        let ghost goal = start.sent(ops@, homes);
        let ghost base = *self;
        let count: u64 = ops.len() as u64;
        let mut i: usize = 0;
        assert(start.peers.take(0) =~= Seq::empty());
        assert(start.queue + fanned(start.peers.take(0), ops@) =~= start.queue);
        assert(goal.peers.take(0) + start.peers.skip(0) =~= start.peers);
        while i < self.peers.len()
            invariant
                self.inv(),
                self.pool == base.pool,
                i <= self.peers@.len(),
                self.peers@.len() == start.peers.len(),
                count == ops@.len(),
                homes == (match required {
                    Some(homes) => Some(homes@),
                    None => None,
                }),
                goal == start.sent(ops@, homes),
                self@ == (NodeView {
                    peers: goal.peers.take(i as int) + start.peers.skip(i as int),
                    queue: start.queue + fanned(start.peers.take(i as int), ops@),
                    ..start
                }),
            decreases self.peers@.len() - i,
        {
            let ghost mid = *self;
            assert(self@.peers[i as int] == self.peers@[i as int]@);
            assert(self@.peers[i as int] == start.peers[i as int]);
            assert(self.peers@[i as int].wf());
            assert(start.peers.take(i + 1).drop_last() =~= start.peers.take(i as int));
            if self.peers[i].stream_active() {
                let id: NodeId = self.peers[i].id;
                let first_rseq: u64 = self.peers[i].next_rseq;
                let next: u64 = if count > u64::MAX - first_rseq {
                    u64::MAX
                } else {
                    first_rseq + count
                };
                let needed: bool = match required {
                    Some(homes) => names(homes, id),
                    None => true,
                };
                self.peers[i].next_rseq = next;
                if needed {
                    self.peers[i].required_rseq = next - 1;
                }
                proof {
                    assert(self@.peers =~= mid@.peers.update(i as int, goal.peers[i as int]));
                    assert forall|j: int| 0 <= j < self.peers@.len() implies (#[trigger] self.peers@[j]).wf() by {
                        if j != i {
                            assert(self.peers@[j] == mid.peers@[j]);
                        }
                    }
                    assert forall|a: int, b: int| 0 <= a < b < self@.peers.len() implies (#[trigger] self@.peers[a]).id < (#[trigger] self@.peers[b]).id by {
                        assert(mid@.peers[a].id < mid@.peers[b].id);
                    }
                }
                let message = PeerMessage::Apply { first_rseq, ops: copy_ops(ops) };
                self.emit(Effect::Send(id, message));
                assert(self@.queue =~= start.queue + fanned(start.peers.take(i + 1), ops@));
            }
            proof {
                assert(self@.peers.len() == self.peers@.len());
                assert(self@.peers =~= goal.peers.take(i + 1) + start.peers.skip(i + 1));
            }
            i += 1;
        }
        assert(start.peers.take(i as int) =~= start.peers);
        assert(self@.peers =~= goal.peers);
    }

    fn serve_op(&mut self, vdisk: u64, op: ReplOp) -> (r: Result<()>)
        requires
            old(self).inv(),
        ensures
            final(self).inv(),
            op_served(old(self), final(self), vdisk, op, r),
    {
        if let Err(e) = self.writable(vdisk) {
            return Err(e);
        }
        let r = run_op(&mut self.pool, op);
        if let Err(e) = r {
            return Err(e);
        }
        let ops: Vec<ReplOp> = vec![op];
        assert(ops@ =~= seq![op]);
        let ghost after = self.pool;
        self.send_ops(ops);
        assert(self.engine() == after);
        assert(op_done(&old(self).engine(), &self.engine(), op, r));
        r
    }

    /// Create a vdisk and hold it. Refused where a streaming peer does not
    /// carry the tier: that peer's replay would fail.
    pub fn create_vdisk(&mut self, id: u64, size_bytes: u64, tier: u8) -> (r: Result<()>)
        requires
            old(self).inv(),
        ensures
            final(self).inv(),
            vdisk_created(old(self), final(self), id, size_bytes, tier, r),
    {
        if !self.serving() {
            return Err(FsError::Suspended);
        }
        let mut i: usize = 0;
        while i < self.peers.len()
            invariant
                *self == *old(self),
                self.inv(),
                self@.serving(),
                i <= self.peers@.len(),
                forall|j: int| 0 <= j < i ==> !((#[trigger] self@.peers[j]).streams() && !self@.peers[j].tiers.contains(tier)),
            decreases self.peers@.len() - i,
        {
            assert(self@.peers[i as int] == self.peers@[i as int]@);
            if self.peers[i].stream_active() && !names(&self.peers[i].tiers, tier) {
                return Err(FsError::TierNotOnPeer(tier));
            }
            i += 1;
        }
        self.make_vdisk(ReplOp::CreateVdisk { id, size_bytes, tier }, id)
    }

    fn make_vdisk(&mut self, op: ReplOp, id: u64) -> (r: Result<()>)
        requires
            old(self).inv(),
        ensures
            final(self).inv(),
            vdisk_made(old(self), final(self), op, id, r),
    {
        let ghost before = self.pool;
        let c = run_op(&mut self.pool, op);
        let ghost mid = self.pool;
        if let Err(e) = c {
            assert(made_and_claimed(&old(self).engine(), &mid, &self.engine(), op, id, old(self)@.node, c, Err(e)));
            return Err(e);
        }
        let node: NodeId = self.node;
        let r = self.pool.claim_lease(id, node);
        assert(made_and_claimed(&old(self).engine(), &mid, &self.engine(), op, id, old(self)@.node, c, r));
        if let Err(e) = r {
            return Err(e);
        }
        let lease = Lease { holder: node, handing_to: None, era: self.pool.era() };
        let ghost after = self.pool;
        let ops: Vec<ReplOp> = vec![op, ReplOp::SetLease { vdisk: id, lease }];
        assert(ops@ =~= seq![op, ReplOp::SetLease { vdisk: id, lease }]);
        self.send_ops(ops);
        assert(self.engine() == after);
        assert(made_and_claimed(&old(self).engine(), &mid, &self.engine(), op, id, old(self)@.node, c, r));
        r
    }

    /// Write one block. Where it lives is the hash's decision, not the
    /// writer's: its slice's homes store it.
    pub fn write_block(&mut self, vdisk: u64, index: u64, payload: &[u8]) -> (r: Result<()>)
        requires
            old(self).inv(),
        ensures
            final(self).inv(),
            write_served(old(self), final(self), vdisk, index, payload@, r),
    {
        if let Err(e) = self.writable(vdisk) {
            return Err(e);
        }
        let tier: u8 = match self.pool.vdisk_tier(vdisk) {
            Ok(tier) => tier,
            Err(e) => {
                return Err(e);
            },
        };
        let hash = crate::hash::hash_block(payload);
        let homes: Vec<NodeId> = match self.pool.write_homes_of(&hash) {
            Some(homes) => homes,
            None => self.members(),
        };
        let local: bool = names(&homes, self.node);
        let remote: Vec<NodeId> = self.reachable_homes(&homes);
        if !local && remote.len() == 0 {
            return Err(FsError::SliceUnreachable(crate::slice::slice_of(&hash) as u8));
        }
        let ghost v = self@;
        let ghost before = self.pool;
        let op = ReplOp::Write { vdisk, index, hash };
        let mut c: Result<()> = Ok(());
        if local {
            c = self.pool.put_block_prehashed(tier, hash, payload);
        }
        let ghost mid = self.pool;
        if let Err(e) = c {
            assert(stored_and_mapped(&old(self).engine(), &mid, &self.engine(), homes_for(old(self)@, &old(self).engine(), hash).contains(old(self)@.node), tier, payload@, op, c, Err(e)));
            return Err(e);
        }
        let r = run_op(&mut self.pool, op);
        assert(stored_and_mapped(&old(self).engine(), &mid, &self.engine(), homes_for(old(self)@, &old(self).engine(), hash).contains(old(self)@.node), tier, payload@, op, c, r));
        if let Err(e) = r {
            return Err(e);
        }
        let ghost after = self.pool;
        let ghost m = MessageView::Payloads(seq![(tier, payload@)]);
        let mut i: usize = 0;
        assert(remote@.take(0) =~= Seq::empty());
        while i < remote.len()
            invariant
                self.inv(),
                self.pool == after,
                i <= remote@.len(),
                m == MessageView::Payloads(seq![(tier, payload@)]),
                self@ == v.told_all(remote@.take(i as int), m),
            decreases remote@.len() - i,
        {
            let copy: Vec<u8> = copy_bytes(payload);
            let blocks: Vec<(u8, Vec<u8>)> = vec![(tier, copy)];
            assert(super::wire::blocks_view(blocks@) =~= seq![(tier, payload@)]);
            assert(remote@.take(i + 1).drop_last() =~= remote@.take(i as int));
            self.emit(Effect::Send(remote[i], PeerMessage::Payloads(blocks)));
            i += 1;
        }
        assert(remote@.take(i as int) =~= remote@);
        let ops: Vec<ReplOp> = vec![op];
        assert(ops@ =~= seq![op]);
        self.send_ops_requiring(&ops, Some(&remote));
        proof {
            let homes = homes_for(old(self)@, &old(self).engine(), hash);
            assert(self.engine() == after);
            assert(stored_and_mapped(&old(self).engine(), &mid, &self.engine(), homes.contains(old(self)@.node), tier, payload@, op, c, r));
        }
        r
    }

    fn members(&self) -> (r: Vec<NodeId>)
        requires
            self.inv(),
        ensures
            r@ == everyone(self@),
    {
        let mut out: Vec<NodeId> = Vec::new();
        let mut i: usize = 0;
        while i < self.peers.len()
            invariant
                i <= self.peers@.len(),
                out@.len() == i,
                forall|j: int| 0 <= j < i ==> #[trigger] out@[j] == self@.peers[j].id,
            decreases self.peers@.len() - i,
        {
            assert(self@.peers[i as int] == self.peers@[i as int]@);
            out.push(self.peers[i].id);
            i += 1;
        }
        out.push(self.node);
        assert(self@.peers.len() == self.peers@.len());
        assert(out@ =~= everyone(self@));
        out
    }

    /// Whether this peer's session streams.
    pub(super) fn streams_to(&self, peer: NodeId) -> (r: bool)
        requires
            self.inv(),
        ensures
            r == (self@.knows(peer) && self@.of(peer).streams()),
    {
        match self.find(peer) {
            Some(i) => self.peers[i].stream_active(),
            None => false,
        }
    }

    fn reachable_homes(&self, homes: &Vec<NodeId>) -> (r: Vec<NodeId>)
        requires
            self.inv(),
        ensures
            r@ == reachable(self@, homes@),
    {
        let mut out: Vec<NodeId> = Vec::new();
        let mut i: usize = 0;
        assert(homes@.take(0) =~= Seq::empty());
        while i < homes.len()
            invariant
                self.inv(),
                i <= homes@.len(),
                out@ == reachable(self@, homes@.take(i as int)),
            decreases homes@.len() - i,
        {
            let home: NodeId = homes[i];
            assert(homes@.take(i + 1).drop_last() =~= homes@.take(i as int));
            if home != self.node && self.streams_to(home) {
                out.push(home);
            }
            i += 1;
        }
        assert(homes@.take(i as int) =~= homes@);
        out
    }

    pub fn trim_block(&mut self, vdisk: u64, index: u64) -> (r: Result<()>)
        requires
            old(self).inv(),
        ensures
            final(self).inv(),
            op_served(old(self), final(self), vdisk, ReplOp::Trim { vdisk, index }, r),
    {
        self.serve_op(vdisk, ReplOp::Trim { vdisk, index })
    }

    pub fn delete_vdisk(&mut self, id: u64) -> (r: Result<()>)
        requires
            old(self).inv(),
        ensures
            final(self).inv(),
            op_served(old(self), final(self), id, ReplOp::DeleteVdisk { id }, r),
    {
        self.serve_op(id, ReplOp::DeleteVdisk { id })
    }

    pub fn snapshot_vdisk(&mut self, vdisk: u64, snapshot: u64) -> (r: Result<()>)
        requires
            old(self).inv(),
        ensures
            final(self).inv(),
            op_served(old(self), final(self), vdisk, ReplOp::Snapshot { vdisk, snapshot }, r),
    {
        self.serve_op(vdisk, ReplOp::Snapshot { vdisk, snapshot })
    }

    pub fn delete_snapshot(&mut self, vdisk: u64, snapshot: u64) -> (r: Result<()>)
        requires
            old(self).inv(),
        ensures
            final(self).inv(),
            op_served(old(self), final(self), vdisk, ReplOp::DeleteSnapshot { vdisk, snapshot }, r),
    {
        self.serve_op(vdisk, ReplOp::DeleteSnapshot { vdisk, snapshot })
    }

    pub fn rollback_vdisk(&mut self, vdisk: u64, snapshot: u64) -> (r: Result<()>)
        requires
            old(self).inv(),
        ensures
            final(self).inv(),
            op_served(old(self), final(self), vdisk, ReplOp::Rollback { vdisk, snapshot }, r),
    {
        self.serve_op(vdisk, ReplOp::Rollback { vdisk, snapshot })
    }

    /// Clone a snapshot into a new vdisk, held by this node.
    pub fn clone_vdisk(&mut self, new_id: u64, vdisk: u64, snapshot: u64) -> (r: Result<()>)
        requires
            old(self).inv(),
        ensures
            final(self).inv(),
            vdisk_cloned(old(self), final(self), new_id, vdisk, snapshot, r),
    {
        if let Err(e) = self.writable(vdisk) {
            return Err(e);
        }
        self.make_vdisk(ReplOp::Clone { new_id, vdisk, snapshot }, new_id)
    }

    /// Local maintenance; each node runs its own on its own schedule.
    pub fn checkpoint(&mut self) -> (r: Result<()>)
        requires
            old(self).inv(),
        ensures
            final(self).inv(),
            final(self)@ == old(self)@,
            checkpointed(&old(self).engine(), &final(self).engine(), r),
    {
        self.pool.checkpoint()
    }

    /// Local collection, legal at any point in a resync on either end: the
    /// per-session pins are part of the mark.
    pub fn collect_garbage(&mut self) -> (r: Result<GcStats>)
        requires
            old(self).inv(),
        ensures
            final(self).inv(),
            final(self)@ == old(self)@,
            crate::pool::collect::garbage_collected(&old(self).engine(), &final(self).engine(), r),
    {
        let r = self.pool.collect_garbage();
        proof {
            assert(old(self).engine() == old(self).pool);
            let (opened, done) = choose|opened: Pool<D>, done: Pool<D>| #[trigger]
                crate::pool::collect::same_but_reserve(&old(self).pool, &opened) && #[trigger] crate::pool::collect::collected(&opened, &done, r)
                    && crate::pool::collect::same_but_reserve(&done, &self.pool);
            assert(crate::pool::collect::same_but_reserve(&old(self).engine(), &opened));
            assert(crate::pool::collect::same_but_reserve(&done, &self.engine()));
        }
        r
    }
}

/// A write that succeeded leaves one op on every streaming session and
/// nothing on the others, and each stream's numbering goes on without a gap.
pub proof fn law_streams_stay_dense(v: NodeView, ops: Seq<ReplOp>, required: Option<Seq<NodeId>>, i: int)
    requires
        0 <= i < v.peers.len(),
        v.peers[i].next_rseq + ops.len() <= u64::MAX,
    ensures
        v.sent(ops, required).peers[i].next_rseq == v.peers[i].next_rseq + if v.peers[i].streams() {
            ops.len()
        } else {
            0
        },
        v.peers[i].streams() ==> v.sent(ops, required).queue.contains(
            EffectView::Send(v.peers[i].id, MessageView::Apply { first_rseq: v.peers[i].next_rseq, ops }),
        ),
{
    if v.peers[i].streams() {
        lemma_fanned(v.peers, ops, i);
        let e = EffectView::Send(v.peers[i].id, MessageView::Apply { first_rseq: v.peers[i].next_rseq, ops });
        let f = fanned(v.peers, ops);
        let k = choose|k: int| 0 <= k < f.len() && f[k] == e;
        assert(v.sent(ops, required).queue[v.queue.len() + k] == e);
    }
}

proof fn lemma_fanned(peers: Seq<SessionView>, ops: Seq<ReplOp>, i: int)
    requires
        0 <= i < peers.len(),
        peers[i].streams(),
    ensures
        fanned(peers, ops).contains(EffectView::Send(peers[i].id, MessageView::Apply { first_rseq: peers[i].next_rseq, ops })),
    decreases peers.len(),
{
    let e = EffectView::Send(peers[i].id, MessageView::Apply { first_rseq: peers[i].next_rseq, ops });
    let rest = fanned(peers.drop_last(), ops);
    let all = fanned(peers, ops);
    if i == peers.len() - 1 {
        assert(all[rest.len() as int] == e);
    } else {
        assert(peers.drop_last()[i] == peers[i]);
        lemma_fanned(peers.drop_last(), ops, i);
        let k = choose|k: int| 0 <= k < rest.len() && rest[k] == e;
        assert(all[k] == e);
    }
}

} // verus!
