//! A peer's live stream: data blocks, and the ops that reference them.

use super::guest::idle;
use super::ops::{op_done, run_op};
use super::pull::homes_now;
use super::pull::names;
use super::wire::{blocks_view, MessageView, PeerMessage, ReplOp};
use super::{messages_view, moved_on, NodeView, ReplNode, ReplState, SessionView};
use crate::disk::Disk;
use crate::error::{FsError, Result};
use crate::hash::{address_of, BlockHash};
use crate::pool::sync::{only_pins, other_pins, pinned_blocks, pinned_roots};
use crate::pool::vdisk::stored_under;
use crate::pool::{lemma_grew_twice, lemma_same_grew, stock_grew, Pool};
use crate::slice::NodeId;
use crate::table::TierHash;
use vstd::prelude::*;

verus! {

/// A payload with its tier and the address it is filed under.
pub struct BlockView {
    pub tier: u8,
    pub hash: BlockHash,
    pub payload: Seq<u8>,
}

/// Prehashed blocks as the contracts see them.
pub open spec fn prehashed_view(s: Seq<(u8, BlockHash, Vec<u8>)>) -> Seq<BlockView> {
    Seq::new(s.len(), |i: int| BlockView { tier: s[i].0, hash: s[i].1, payload: s[i].2@ })
}

/// Blocks filed under the addresses their contents have.
pub open spec fn hashed(s: Seq<(u8, Seq<u8>)>) -> Seq<BlockView> {
    Seq::new(s.len(), |i: int| BlockView { tier: s[i].0, hash: address_of(s[i].1), payload: s[i].1 })
}

/// Blocks as they travel.
pub open spec fn on_the_wire(s: Seq<BlockView>) -> Seq<(u8, Seq<u8>)> {
    Seq::new(s.len(), |i: int| (s[i].tier, s[i].payload))
}

/// A payload lands only on a home, committed or pending; without a placement
/// every member is one.
pub open spec fn lands<D: Disk>(pool: &Pool<D>, me: NodeId, hash: BlockHash) -> bool {
    match homes_now(pool, hash) {
        None => true,
        Some(homes) => homes.contains(me),
    }
}

/// One of the first `n` blocks lands here at this address.
pub open spec fn landed<D: Disk>(pool: &Pool<D>, me: NodeId, blocks: Seq<BlockView>, n: nat, x: TierHash) -> bool {
    exists|i: int| 0 <= i < n && (#[trigger] blocks[i]).tier == x.tier && blocks[i].hash == x.hash && lands(pool, me, blocks[i].hash)
}

/// Every address is its content's.
pub open spec fn honest(blocks: Seq<BlockView>) -> bool {
    forall|i: int| 0 <= i < blocks.len() ==> (#[trigger] blocks[i]).hash == address_of(blocks[i].payload)
}

/// The tables of a pool, its ring and its seat are as they were.
pub open spec fn same_tables<D: Disk>(before: &Pool<D>, after: &Pool<D>) -> bool {
    &&& after.inv()
    &&& after.vdisk_map() == before.vdisk_map()
    &&& after.snapshot_map() == before.snapshot_map()
    &&& after.lease_map() == before.lease_map()
    &&& after.era_now() == before.era_now()
    &&& after.generation() == before.generation()
    &&& after.seat() == before.seat()
    &&& after.pending() == before.pending()
    &&& after.ring() == before.ring()
}

/// The first `n` blocks were taken in: those that land here are held, and
/// pinned for the session until their op lands. Strays are dropped.
pub open spec fn blocks_in<D: Disk>(before: &Pool<D>, after: &Pool<D>, me: NodeId, from: NodeId, blocks: Seq<BlockView>, n: nat) -> bool {
    &&& same_tables(before, after)
    &&& forall|t: u8, h: BlockHash| #[trigger]
        after.holds(t).contains(h) <==> before.holds(t).contains(h) || landed(before, me, blocks, n, TierHash { tier: t, hash: h })
    &&& forall|x: TierHash| #[trigger]
        pinned_blocks(after, from).contains(x) <==> pinned_blocks(before, from).contains(x) || landed(before, me, blocks, n, x)
    &&& pinned_roots(after, from) == pinned_roots(before, from)
    &&& other_pins(before, after, from)
    &&& honest(blocks) ==> {
        &&& stock_grew(&before.stock(), &after.stock())
        &&& before.stock().intact() ==> after.stock().intact()
        &&& forall|i: int| 0 <= i < n && lands(before, me, (#[trigger] blocks[i]).hash) ==> after.promised(blocks[i].tier).contains((blocks[i].hash, blocks[i].payload))
    }
}

/// What taking in a run of blocks comes to: all of them, or as many as came
/// before the first that the store refused.
pub open spec fn run_in<D: Disk>(before: &Pool<D>, mid: &Pool<D>, after: &Pool<D>, me: NodeId, from: NodeId, blocks: Seq<BlockView>, n: nat, r: Result<()>) -> bool {
    &&& blocks_in(before, mid, me, from, blocks, n)
    &&& match r {
        Ok(_) => n == blocks.len() && *after == *mid,
        Err(e) => n < blocks.len() && lands(before, me, blocks[n as int].hash) && stored_under(
            mid,
            after,
            blocks[n as int].tier,
            blocks[n as int].hash,
            blocks[n as int].payload,
            Err(e),
        ),
    }
}

/// What a delivery of blocks comes to. A pulling target buffers it.
pub open spec fn blocks_heard<D: Disk>(before: &ReplNode<D>, after: &ReplNode<D>, from: NodeId, blocks: Seq<BlockView>, r: Result<()>) -> bool {
    let s = before@.of(from);
    if s.pulls() {
        &&& r is Ok
        &&& after.engine() == before.engine()
        &&& after@ == before@.with(from, SessionView { backlog: s.backlog.push(MessageView::Payloads(on_the_wire(blocks))), ..s })
    } else {
        &&& after@ == before@
        &&& exists|mid: Pool<D>, n: nat| #[trigger] run_in(&before.engine(), &mid, &after.engine(), before@.node, from, blocks, n, r)
    }
}

/// An op from a peer was run, and the arrival pin of the block it references
/// taken off.
pub open spec fn op_landed<D: Disk>(before: &Pool<D>, mid: &Pool<D>, after: &Pool<D>, from: NodeId, op: ReplOp, c: Result<()>) -> bool {
    &&& c is Ok
    &&& op_done(before, mid, op, c)
    &&& match op {
        ReplOp::Write { vdisk, index, hash } => {
            &&& only_pins(mid, after)
            &&& other_pins(mid, after, from)
            &&& pinned_roots(after, from) == pinned_roots(mid, from)
            &&& pinned_blocks(after, from) == pinned_blocks(mid, from).remove(TierHash { tier: mid.vdisk_map()[vdisk].tier, hash })
        },
        _ => *after == *mid,
    }
}

/// An op from a peer landed.
pub open spec fn op_took<D: Disk>(before: &Pool<D>, after: &Pool<D>, from: NodeId, op: ReplOp) -> bool {
    exists|mid: Pool<D>, c: Result<()>| #[trigger] op_landed(before, &mid, after, from, op, c)
}

/// Ops landed one after the other.
pub open spec fn ops_landed<D: Disk>(steps: Seq<Pool<D>>, from: NodeId, ops: Seq<ReplOp>) -> bool {
    &&& steps.len() >= 1
    &&& steps.len() - 1 <= ops.len()
    &&& forall|i: int| 0 <= i < steps.len() - 1 ==> op_took(&steps[i], &steps[i + 1], from, #[trigger] ops[i])
}

/// Where a run of ops got to: to its end, or to the first that failed.
pub open spec fn ops_run<D: Disk>(steps: Seq<Pool<D>>, before: &Pool<D>, after: &Pool<D>, from: NodeId, ops: Seq<ReplOp>, r: Result<()>) -> bool {
    &&& ops_landed(steps, from, ops)
    &&& steps[0] == *before
    &&& match r {
        Ok(_) => steps.len() == ops.len() + 1 && steps.last() == *after,
        Err(e) => steps.len() <= ops.len() && op_done(&steps.last(), after, ops[steps.len() - 1], Err(e)),
    }
}

/// What a batch of ops comes to. It must continue the stream; a pulling
/// target buffers it.
pub open spec fn ops_heard<D: Disk>(before: &ReplNode<D>, after: &ReplNode<D>, from: NodeId, first_rseq: u64, ops: Seq<ReplOp>, r: Result<()>) -> bool {
    let s = before@.of(from);
    if s.pulls() {
        &&& r is Ok
        &&& after.engine() == before.engine()
        &&& after@ == before@.with(from, SessionView { backlog: s.backlog.push(MessageView::Apply { first_rseq, ops }), ..s })
    } else if first_rseq != s.applied_rseq + 1 {
        r == Err::<(), FsError>(FsError::Corrupt("the op stream skipped or repeated")) && idle(before, after)
    } else {
        &&& exists|steps: Seq<Pool<D>>| #[trigger] ops_run(steps, &before.engine(), &after.engine(), from, ops, r)
        &&& after@ == if r is Ok {
            before@.with(from, SessionView { applied_rseq: moved_on(s.applied_rseq, ops.len()), ..s })
        } else {
            before@
        }
    }
}

proof fn lemma_landed_next<D: Disk>(pool: &Pool<D>, me: NodeId, blocks: Seq<BlockView>, n: nat)
    requires
        n < blocks.len(),
    ensures
        forall|x: TierHash| #[trigger]
            landed(pool, me, blocks, n + 1, x) <==> landed(pool, me, blocks, n, x) || (blocks[n as int].tier == x.tier && blocks[n as int].hash == x.hash && lands(
                pool,
                me,
                blocks[n as int].hash,
            )),
{
    assert forall|x: TierHash| #[trigger]
        landed(pool, me, blocks, n + 1, x) <==> landed(pool, me, blocks, n, x) || (blocks[n as int].tier == x.tier && blocks[n as int].hash == x.hash && lands(
            pool,
            me,
            blocks[n as int].hash,
        )) by {
        if landed(pool, me, blocks, n + 1, x) {
            let i = choose|i: int| 0 <= i < n + 1 && (#[trigger] blocks[i]).tier == x.tier && blocks[i].hash == x.hash && lands(pool, me, blocks[i].hash);
            if i < n {
                assert(blocks[i].tier == x.tier);
            }
        }
        if landed(pool, me, blocks, n, x) {
            let i = choose|i: int| 0 <= i < n && (#[trigger] blocks[i]).tier == x.tier && blocks[i].hash == x.hash && lands(pool, me, blocks[i].hash);
            assert(blocks[i].tier == x.tier);
        }
    }
}

impl<D: Disk> ReplNode<D> {
    /// Whether this node is a home of a block, committed or pending.
    pub(super) fn is_home_of(&self, hash: &BlockHash) -> (r: bool)
        requires
            self.inv(),
        ensures
            r == lands(&self.engine(), self@.node, *hash),
    {
        match self.pool.write_homes_of(hash) {
            Some(homes) => names(&homes, self.node),
            None => true,
        }
    }

    /// `Payloads`, with the addresses already computed from the bytes. The
    /// address must come from hashing the payload on this node, never from
    /// the wire; of a payload filed under another address, only that the
    /// address is held afterwards is promised.
    #[verifier::rlimit(60)]
    pub fn payloads_prehashed(&mut self, from: NodeId, blocks: Vec<(u8, BlockHash, Vec<u8>)>) -> (r: Result<()>)
        requires
            old(self).inv(),
        ensures
            final(self).inv(),
            if !old(self)@.knows(from) {
                r == Err::<(), FsError>(FsError::Corrupt("a message arrived from a peer that never said hello")) && idle(old(self), final(self))
            } else {
                blocks_heard(old(self), final(self), from, prehashed_view(blocks@), r)
            },
    {
        let i: usize = match self.find(from) {
            Some(i) => i,
            None => {
                return Err(FsError::Corrupt("a message arrived from a peer that never said hello"));
            },
        };
        let ghost all = prehashed_view(blocks@);
        let ghost before = *self;
        if let ReplState::Resyncing { source: false } = self.peers[i].state {
            let wire = strip(blocks);
            let ghost m = MessageView::Payloads(blocks_view(wire@));
            assert(blocks_view(wire@) =~= on_the_wire(all));
            self.hold_back(i, PeerMessage::Payloads(wire));
            return Ok(());
        }
        let ghost me = self@.node;
        let ghost pool = self.pool;
        let mut k: usize = 0;
        proof {
            crate::repl::link::lemma_same_stock_refl(&pool);
            lemma_same_grew(&pool.stock(), &pool.stock());
            assert forall|x: TierHash| !(#[trigger] landed(&pool, me, all, 0, x)) by {}
        }
        while k < blocks.len()
            invariant
                k <= blocks@.len(),
                all == prehashed_view(blocks@),
                *self == (ReplNode { pool: self.pool, ..before }),
                before.inv(),
                before == *old(self),
                pool == before.pool,
                me == before@.node,
                !before@.of(from).pulls(),
                before@.knows(from),
                blocks_in(&pool, &self.pool, me, from, all, k as nat),
            decreases blocks@.len() - k,
        {
            let ghost start = self.pool;
            let tier: u8 = blocks[k].0;
            let hash: BlockHash = blocks[k].1;
            assert(all[k as int] == (BlockView { tier, hash, payload: blocks@[k as int].2@ }));
            proof {
                lemma_landed_next(&pool, me, all, k as nat);
                assert(self.inv());
                assert(homes_now(&self.pool, hash) == homes_now(&pool, hash));
            }
            if self.is_home_of(&hash) {
                let c = self.pool.put_block_prehashed(tier, hash, blocks[k].2.as_slice());
                let ghost stored = self.pool;
                if let Err(e) = c {
                    proof {
                        assert(run_in(&old(self).engine(), &start, &self.engine(), me, from, all, k as nat, Err(e)));
                    }
                    return Err(e);
                }
                self.pool.pin_inflight(from, tier, hash);
                proof {
                    assert forall|t: u8, h: BlockHash| #[trigger] self.pool.holds(t).contains(h) <==> pool.holds(t).contains(h) || landed(
                        &pool,
                        me,
                        all,
                        (k + 1) as nat,
                        TierHash { tier: t, hash: h },
                    ) by {
                        assert(self.pool.holds(t) == stored.holds(t));
                        if t != tier {
                            assert(stored.holds(t) == start.holds(t));
                        }
                        assert(start.holds(t).contains(h) <==> pool.holds(t).contains(h) || landed(&pool, me, all, k as nat, TierHash { tier: t, hash: h }));
                    }
                    assert forall|x: TierHash| #[trigger] pinned_blocks(&self.pool, from).contains(x) <==> pinned_blocks(&pool, from).contains(x) || landed(
                        &pool,
                        me,
                        all,
                        (k + 1) as nat,
                        x,
                    ) by {
                        assert(pinned_blocks(&stored, from) == pinned_blocks(&start, from));
                        assert(pinned_blocks(&start, from).contains(x) <==> pinned_blocks(&pool, from).contains(x) || landed(&pool, me, all, k as nat, x));
                    }
                    assert(other_pins(&pool, &self.pool, from)) by {
                        assert forall|p: u64| p != from as u64 implies (#[trigger] self.pool.pin_map().contains_key(p) == pool.pin_map().contains_key(p)) && (
                        pool.pin_map().contains_key(p) ==> self.pool.pin_map()[p] == pool.pin_map()[p]) by {
                            assert(start.pin_map().contains_key(p) == pool.pin_map().contains_key(p));
                            assert(stored.pin_map() == start.pin_map());
                        }
                    }
                    if honest(all) {
                        assert(all[k as int].hash == address_of(all[k as int].payload));
                        lemma_grew_twice(&pool.stock(), &start.stock(), &stored.stock());
                        assert forall|i: int| 0 <= i < k + 1 && lands(&pool, me, (#[trigger] all[i]).hash) implies self.pool.promised(all[i].tier).contains((
                            all[i].hash,
                            all[i].payload,
                        )) by {
                            assert(self.pool.promised(all[i].tier) == stored.promised(all[i].tier));
                            if i < k {
                                assert(start.promised(all[i].tier).contains((all[i].hash, all[i].payload)));
                                assert(start.promised(all[i].tier).subset_of(stored.promised(all[i].tier)));
                            }
                        }
                    }
                }
            }
            k += 1;
        }
        proof {
            assert(run_in(&old(self).engine(), &self.pool, &self.engine(), me, from, all, k as nat, Ok(())));
        }
        Ok(())
    }

    /// Buffers a message of a source's live stream.
    pub(super) fn hold_back(&mut self, i: usize, message: PeerMessage)
        requires
            old(self).inv(),
            i < old(self).peers@.len(),
            super::held_back(message),
        ensures
            final(self).inv(),
            final(self).engine() == old(self).engine(),
            final(self)@ == (NodeView {
                peers: old(self)@.peers.update(
                    i as int,
                    SessionView { backlog: old(self)@.peers[i as int].backlog.push(message@), ..old(self)@.peers[i as int] },
                ),
                ..old(self)@
            }),
    {
        let ghost before = *self;
        let ghost m = message@;
        let ghost was = self.peers@[i as int].backlog@;
        assert(before.peers@[i as int].wf());
        self.peers[i].backlog.push(message);
        proof {
            assert(before@.peers[i as int] == before.peers@[i as int]@);
            assert(messages_view(self.peers@[i as int].backlog@) =~= messages_view(was).push(m));
            self.lemma_one_session(&before, i as int, SessionView { backlog: before@.peers[i as int].backlog.push(m), ..before@.peers[i as int] });
        }
    }

    /// Ops from a peer, which must continue its stream.
    #[verifier::rlimit(60)]
    pub(super) fn on_apply(&mut self, from: NodeId, first_rseq: u64, ops: Vec<ReplOp>) -> (r: Result<()>)
        requires
            old(self).inv(),
            old(self)@.knows(from),
        ensures
            final(self).inv(),
            ops_heard(old(self), final(self), from, first_rseq, ops@, r),
    {
        let i: usize = self.at(from);
        let ghost before = *self;
        if let ReplState::Resyncing { source: false } = self.peers[i].state {
            self.hold_back(i, PeerMessage::Apply { first_rseq, ops });
            return Ok(());
        }
        let applied: u64 = self.peers[i].applied_rseq;
        if first_rseq == 0 || first_rseq - 1 != applied {
            return Err(FsError::Corrupt("the op stream skipped or repeated"));
        }
        let ghost steps: Seq<Pool<D>> = seq![self.pool];
        let mut k: usize = 0;
        while k < ops.len()
            invariant
                k <= ops@.len(),
                *self == (ReplNode { pool: self.pool, ..before }),
                before == *old(self),
                before.inv(),
                self.pool.inv(),
                before@.knows(from),
                !before@.of(from).pulls(),
                first_rseq == before@.of(from).applied_rseq + 1,
                steps.len() == k + 1,
                steps[0] == before.pool,
                steps.last() == self.pool,
                ops_landed(steps, from, ops@),
            decreases ops@.len() - k,
        {
            let op: ReplOp = ops[k];
            let ghost start = self.pool;
            let ghost was = steps;
            let c = run_op(&mut self.pool, op);
            let ghost mid = self.pool;
            if let Err(e) = c {
                proof {
                    assert(ops_run(steps, &old(self).engine(), &self.engine(), from, ops@, Err(e)));
                }
                return Err(e);
            }
            if let ReplOp::Write { vdisk, index, hash } = op {
                proof {
                    assert(mid.vdisk_map().contains_key(vdisk));
                }
                if let Ok(tier) = self.pool.vdisk_tier(vdisk) {
                    self.pool.clear_inflight(from, tier, &hash);
                }
            }
            proof {
                assert(op_landed(&start, &mid, &self.pool, from, op, c));
                assert(op_took(&start, &self.pool, from, op));
                steps = steps.push(self.pool);
                assert forall|j: int| 0 <= j < steps.len() - 1 implies op_took(&steps[j], &steps[j + 1], from, #[trigger] ops@[j]) by {
                    if j < k {
                        assert(steps[j] == was[j] && steps[j + 1] == was[j + 1]);
                        assert(op_took(&was[j], &was[j + 1], from, ops@[j]));
                    } else {
                        assert(steps[j] == start && steps[j + 1] == self.pool);
                    }
                }
            }
            k += 1;
        }
        let count: u64 = ops.len() as u64;
        let ghost applied_to = *self;
        proof {
            assert(self.inv());
            assert(self.peers@[i as int].wf());
        }
        self.peers[i].applied_rseq = if count > u64::MAX - applied {
            u64::MAX
        } else {
            applied + count
        };
        proof {
            let s = before@.of(from);
            self.lemma_one_session(&applied_to, i as int, SessionView { applied_rseq: moved_on(s.applied_rseq, ops@.len()), ..s });
            assert(ops_run(steps, &old(self).engine(), &self.engine(), from, ops@, Ok(())));
        }
        Ok(())
    }
}

/// The blocks without their addresses.
fn strip(blocks: Vec<(u8, BlockHash, Vec<u8>)>) -> (wire: Vec<(u8, Vec<u8>)>)
    ensures
        blocks_view(wire@) == on_the_wire(prehashed_view(blocks@)),
{
    let mut wire: Vec<(u8, Vec<u8>)> = Vec::new();
    let mut i: usize = 0;
    while i < blocks.len()
        invariant
            i <= blocks@.len(),
            wire@.len() == i,
            forall|j: int| 0 <= j < i ==> (#[trigger] wire@[j]).0 == blocks@[j].0 && wire@[j].1@ == blocks@[j].2@,
        decreases blocks@.len() - i,
    {
        wire.push((blocks[i].0, super::guest::copy_bytes(blocks[i].2.as_slice())));
        i += 1;
    }
    assert(blocks_view(wire@) =~= on_the_wire(prehashed_view(blocks@)));
    wire
}

/// The blocks with the addresses their contents have.
pub(super) fn address_all(blocks: &Vec<(u8, Vec<u8>)>) -> (r: Vec<(u8, BlockHash, Vec<u8>)>)
    ensures
        prehashed_view(r@) == hashed(blocks_view(blocks@)),
{
    let mut out: Vec<(u8, BlockHash, Vec<u8>)> = Vec::new();
    let mut i: usize = 0;
    while i < blocks.len()
        invariant
            i <= blocks@.len(),
            out@.len() == i,
            forall|j: int| 0 <= j < i ==> (#[trigger] out@[j]).0 == blocks@[j].0 && out@[j].1 == address_of(blocks@[j].1@) && out@[j].2@ == blocks@[j].1@,
        decreases blocks@.len() - i,
    {
        let hash = crate::hash::hash_block(blocks[i].1.as_slice());
        out.push((blocks[i].0, hash, super::guest::copy_bytes(blocks[i].1.as_slice())));
        i += 1;
    }
    assert(prehashed_view(out@) =~= hashed(blocks_view(blocks@)));
    out
}

/// A block that arrived ahead of its op is pinned from the moment it is held
/// until the op lands, so no collection in between can sweep it.
pub proof fn law_arrived_blocks_are_pinned<D: Disk>(before: &Pool<D>, after: &Pool<D>, me: NodeId, from: NodeId, blocks: Seq<BlockView>, i: int)
    requires
        blocks_in(before, after, me, from, blocks, blocks.len()),
        0 <= i < blocks.len(),
        lands(before, me, blocks[i].hash),
    ensures
        after.holds(blocks[i].tier).contains(blocks[i].hash),
        pinned_blocks(after, from).contains(TierHash { tier: blocks[i].tier, hash: blocks[i].hash }),
{
    let x = TierHash { tier: blocks[i].tier, hash: blocks[i].hash };
    assert(blocks[i].tier == x.tier);
    assert(landed(before, me, blocks, blocks.len(), x));
}

} // verus!
