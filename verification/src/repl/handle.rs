//! The peers' messages.

use super::adopt::adopt_heard;
use super::guest::{all_durable, copy_bytes, flushed_pool, idle};
use super::link::{greeted, version_of};
use super::pull::{homes_now, names};
use super::resync::{data_heard, hello_heard, leave_granted, offer_heard, sync_started, target_done};
use super::stream::{blocks_heard, hashed, ops_heard};
use super::wire::{blocks_view, Effect, EffectView, MessageView, PeerMessage};
use super::{larger, NodeView, PendingRead, ReplNode, SessionView};
use crate::disk::Disk;
use crate::error::{FsError, Result};
use crate::hash::{address_of, BlockHash};
use crate::pool::snapshot::map_adopted;
use crate::pool::vdisk::block_stored;
use crate::pool::Pool;
use crate::slice::{pairs_read, Homes, NodeId, SliceMap};
use crate::table::{SortKey, TierHash};
use vstd::prelude::*;

verus! {

/// The payloads of these blocks, as the store has them.
pub open spec fn served<D: Disk>(pool: &Pool<D>, wants: Seq<(u8, BlockHash)>) -> Seq<(u8, Seq<u8>)> {
    Seq::new(wants.len(), |i: int| (wants[i].0, pool.shelf(wants[i].0)[wants[i].1]))
}

/// The store can produce this block.
pub open spec fn producible<D: Disk>(pool: &Pool<D>, want: (u8, BlockHash)) -> bool {
    pool.holds(want.0).contains(want.1) && pool.shelf(want.0).contains_key(want.1)
}

/// What gathering blocks for a peer comes to.
pub open spec fn gathered<D: Disk>(pool: &Pool<D>, wants: Seq<(u8, BlockHash)>, r: Result<Vec<(u8, Vec<u8>)>>) -> bool {
    &&& r matches Ok(out) ==> blocks_view(out@) == served(pool, wants) && forall|i: int| 0 <= i < wants.len() ==> producible(pool, #[trigger] wants[i])
    &&& pool.reliable() ==> (r is Ok <==> forall|i: int| 0 <= i < wants.len() ==> producible(pool, #[trigger] wants[i]))
    &&& pool.reliable() && r is Err ==> r->Err_0 is Corrupt
    &&& forall|i: int|
        0 <= i < wants.len() && pool.reliable() && !pool.holds((#[trigger] wants[i]).0).contains(wants[i].1) && (forall|j: int|
            0 <= j < i ==> producible(pool, #[trigger] wants[j])) ==> r == Err::<Vec<(u8, Vec<u8>)>, FsError>(
            FsError::Corrupt("the peer asked for a block this store does not hold"),
        )
}

/// A peer's request for blocks: the answer goes out, or the error comes
/// back.
pub open spec fn wants_heard<D: Disk>(before: &ReplNode<D>, after: &ReplNode<D>, from: NodeId, wants: Seq<(u8, BlockHash)>, sync: bool, r: Result<()>) -> bool {
    let answer = if sync {
        MessageView::SyncData(served(&before.engine(), wants))
    } else {
        MessageView::ReadData(served(&before.engine(), wants))
    };
    &&& after.engine() == before.engine()
    &&& exists|g: Result<Vec<(u8, Vec<u8>)>>| #[trigger]
        gathered(&before.engine(), wants, g) && match g {
            Ok(_) => r is Ok && after@ == before@.tells(from, answer),
            Err(e) => r == Err::<(), FsError>(e) && after@ == before@,
        }
}

/// The fetches waiting for a block, oldest first.
pub open spec fn waiting_on(reads: Map<u64, PendingRead>, tier: u8, hash: BlockHash, tickets: Seq<u64>) -> bool {
    &&& forall|i: int, j: int| 0 <= i < j < tickets.len() ==> #[trigger] tickets[i] < #[trigger] tickets[j]
    &&& forall|t: u64| #[trigger] tickets.contains(t) <==> reads.contains_key(t) && reads[t].tier == tier && reads[t].hash == hash
}

/// Those fetches, done.
pub open spec fn done(tickets: Seq<u64>) -> Seq<EffectView> {
    Seq::new(tickets.len(), |i: int| EffectView::ReadDone(tickets[i]))
}

/// A node whose fetches of one block are done.
pub open spec fn reads_done(v: NodeView, after: NodeView, tier: u8, hash: BlockHash) -> bool {
    exists|tickets: Seq<u64>| #[trigger]
        waiting_on(v.reads, tier, hash, tickets) && after == (NodeView {
            queue: v.queue + done(tickets),
            reads: v.reads.remove_keys(tickets.to_set()),
            ..v
        })
}

/// A placed member is a home of this block, committed or pending.
pub open spec fn stores<D: Disk>(pool: &Pool<D>, me: NodeId, hash: BlockHash) -> bool {
    match homes_now(pool, hash) {
        None => false,
        Some(homes) => homes.contains(me),
    }
}

/// A fetched block arrived: a home stores it, another member holds it for
/// one read, and the fetches that waited for it are done.
pub open spec fn block_arrived<D: Disk>(before: &ReplNode<D>, after: &ReplNode<D>, block: (u8, Seq<u8>), c: Result<BlockHash>) -> bool {
    let (tier, payload) = block;
    let hash = address_of(payload);
    let key = TierHash { tier, hash };
    let v = before@;
    if stores(&before.engine(), v.node, hash) {
        &&& block_stored(&before.engine(), &after.engine(), tier, payload, c)
        &&& match c {
            Ok(_) => reads_done(NodeView { moving: v.moving.remove(key), ..v }, after@, tier, hash),
            Err(_) => after@ == v,
        }
    } else {
        &&& c is Ok
        &&& after.engine() == before.engine()
        &&& reads_done(NodeView { fetched: v.fetched.insert(key, payload), ..v }, after@, tier, hash)
    }
}

pub open spec fn block_took<D: Disk>(before: &ReplNode<D>, after: &ReplNode<D>, block: (u8, Seq<u8>)) -> bool {
    exists|c: Result<BlockHash>| c is Ok && #[trigger] block_arrived(before, after, block, c)
}

/// Where a delivery of fetched blocks got to: to its end, or to the first
/// the store refused.
pub open spec fn reads_run<D: Disk>(steps: Seq<ReplNode<D>>, before: &ReplNode<D>, after: &ReplNode<D>, blocks: Seq<(u8, Seq<u8>)>, r: Result<()>) -> bool {
    &&& steps.len() >= 1
    &&& steps.len() - 1 <= blocks.len()
    &&& steps[0] == *before
    &&& forall|i: int| 0 <= i < steps.len() - 1 ==> block_took(&steps[i], &steps[i + 1], #[trigger] blocks[i])
    &&& match r {
        Ok(_) => steps.len() == blocks.len() + 1 && steps.last() == *after,
        Err(e) => steps.len() <= blocks.len() && block_arrived(&steps.last(), after, blocks[steps.len() - 1], Err(e)),
    }
}

pub open spec fn reads_heard<D: Disk>(before: &ReplNode<D>, after: &ReplNode<D>, blocks: Seq<(u8, Seq<u8>)>, r: Result<()>) -> bool {
    exists|steps: Seq<ReplNode<D>>| #[trigger] reads_run(steps, before, after, blocks, r)
}

/// The adoption of a shipped map, and the hello that follows it.
pub open spec fn map_taken<D: Disk>(before: &ReplNode<D>, after: &ReplNode<D>, from: NodeId, map: SliceMap, c: Result<()>, r: Result<()>) -> bool {
    &&& map_adopted(&before.engine(), &after.engine(), map, c)
    &&& match c {
        Err(e) => r == Err::<(), FsError>(e) && after@ == before@,
        Ok(_) => r is Ok && greeted(before@, after@, &after.engine(), from),
    }
}

/// What a shipped map comes to: one ahead of this node's is adopted, if its
/// shape checks; one that agrees is an agreement; one behind is ignored.
pub open spec fn map_heard<D: Disk>(before: &ReplNode<D>, after: &ReplNode<D>, from: NodeId, version: u64, pairs: Seq<Homes>, r: Result<()>) -> bool {
    let mine = version_of(&before.engine());
    if version > mine {
        exists|m: Result<SliceMap>| #[trigger]
            pairs_read(version, pairs, m) && match m {
                Err(e) => r == Err::<(), FsError>(e) && idle(before, after),
                Ok(map) => exists|c: Result<()>| #[trigger] map_taken(before, after, from, map, c, r),
            }
    } else if version == mine {
        r is Ok && after.engine() == before.engine() && greeted(before@, after@, &before.engine(), from)
    } else {
        r is Ok && idle(before, after)
    }
}

/// What a peer's question for durability comes to: nothing is confirmed that
/// the stream never delivered, or that is not durable here.
pub open spec fn flush_heard<D: Disk>(before: &ReplNode<D>, after: &ReplNode<D>, from: NodeId, up_to: u64, r: Result<()>) -> bool {
    if before@.of(from).applied_rseq < up_to {
        r == Err::<(), FsError>(FsError::Corrupt("a flush asks for ops the stream never delivered")) && idle(before, after)
    } else {
        &&& flushed_pool(&before.engine(), &after.engine())
        &&& before.engine().reliable() ==> r is Ok
        &&& match r {
            Ok(_) => all_durable(&after.engine()) && after@ == before@.tells(from, MessageView::Durable { up_to }),
            Err(_) => after@ == before@,
        }
    }
}

/// What a peer's confirmation comes to: the needs it covers are met.
pub open spec fn confirmed(v: NodeView, from: NodeId, up_to: u64) -> NodeView {
    let s = v.of(from);
    let durable = larger(s.durable_rseq, up_to);
    v.with(from, SessionView { durable_rseq: durable, ..s }).forgiving(from, Some((s.generation, durable)))
}

/// What a message comes to.
pub open spec fn heard<D: Disk>(before: &ReplNode<D>, after: &ReplNode<D>, from: NodeId, message: MessageView, r: Result<()>) -> bool {
    match message {
        MessageView::Hello { era, node, tiers, map_version } => r is Ok && hello_heard(before, after, era, node, tiers, map_version),
        _ => if !before@.knows(from) {
            r == Err::<(), FsError>(FsError::Corrupt("a message arrived from a peer that never said hello")) && idle(before, after)
        } else {
            match message {
                MessageView::Hello { .. } => true,
                MessageView::MapIs { version, pairs } => map_heard(before, after, from, version, pairs, r),
                MessageView::Payloads(blocks) => blocks_heard(before, after, from, hashed(blocks), r),
                MessageView::Apply { first_rseq, ops } => ops_heard(before, after, from, first_rseq, ops, r),
                MessageView::Flush { up_to } => flush_heard(before, after, from, up_to, r),
                MessageView::Durable { up_to } => r is Ok && after.engine() == before.engine() && after@ == confirmed(before@, from, up_to),
                MessageView::SyncStart => sync_started(before, after, from, r),
                MessageView::SyncManifest(offer) => offer_heard(before, after, from, offer, r),
                MessageView::SyncNeed(wants) => wants_heard(before, after, from, wants, true, r),
                MessageView::SyncData(blocks) => data_heard(before, after, from, blocks, r),
                MessageView::Read(wants) => wants_heard(before, after, from, wants, false, r),
                MessageView::ReadData(blocks) => reads_heard(before, after, blocks, r),
                MessageView::SyncReady => after.engine() == before.engine() && leave_granted(before@, after@, from, r),
                MessageView::SyncAdopt { final_rseq } => adopt_heard(before, after, from, final_rseq, r),
                MessageView::SyncDone { era } => r is Ok && target_done(before, after, from),
            }
        },
    }
}

impl<D: Disk> ReplNode<D> {
    /// Takes in one message from a peer.
    pub fn handle(&mut self, from: NodeId, message: PeerMessage) -> (r: Result<()>)
        requires
            old(self).inv(),
        ensures
            final(self).inv(),
            heard(old(self), final(self), from, message@, r),
            message@ is Flush && r is Ok ==> final(self).engine().stock().durable(),
    {
        if let PeerMessage::Hello { era, node, tiers, map_version } = message {
            self.on_hello(era, node, tiers, map_version);
            return Ok(());
        }
        if self.find(from).is_none() {
            return Err(FsError::Corrupt("a message arrived from a peer that never said hello"));
        }
        match message {
            PeerMessage::Hello { .. } => Ok(()),
            PeerMessage::MapIs { version, pairs } => self.on_map(from, version, pairs),
            PeerMessage::Payloads(_) => self.deliver(from, message),
            PeerMessage::Apply { .. } => self.deliver(from, message),
            PeerMessage::Flush { up_to } => self.on_flush(from, up_to),
            PeerMessage::Durable { up_to } => {
                self.on_durable(from, up_to);
                Ok(())
            },
            PeerMessage::SyncStart => self.on_sync_start(from),
            PeerMessage::SyncManifest(offer) => self.on_sync_manifest(from, offer),
            PeerMessage::SyncNeed(wants) => self.on_wants(from, wants, true),
            PeerMessage::SyncData(payloads) => self.on_sync_data(from, payloads),
            PeerMessage::Read(wants) => self.on_wants(from, wants, false),
            PeerMessage::ReadData(payloads) => self.on_read_data(payloads),
            PeerMessage::SyncReady => self.on_sync_ready(from),
            PeerMessage::SyncAdopt { final_rseq } => self.on_sync_adopt(from, final_rseq),
            PeerMessage::SyncDone { era: _ } => {
                self.on_sync_done(from);
                Ok(())
            },
        }
    }

    fn on_map(&mut self, from: NodeId, version: u64, pairs: Vec<Homes>) -> (r: Result<()>)
        requires
            old(self).inv(),
        ensures
            final(self).inv(),
            map_heard(old(self), final(self), from, version, pairs@, r),
    {
        let mine: u64 = self.map_version();
        if version < mine {
            return Ok(());
        }
        if version > mine {
            // Bytes from a peer are claims until the shape checks.
            let m = SliceMap::from_pairs(version, pairs);
            let ghost read = m;
            assert(pairs_read(version, pairs@, read));
            let map = match m {
                Ok(map) => map,
                Err(e) => {
                    return Err(e);
                },
            };
            let ghost shipped = map;
            let c = self.pool.adopt_map(map);
            if let Err(e) = c {
                assert(map_taken(old(self), self, from, shipped, c, Err(e)));
                return Err(e);
            }
            let ghost pool = self.pool;
            self.connect(from);
            assert(self.engine() == pool);
            assert(map_taken(old(self), self, from, shipped, c, c));
            return c;
        }
        // Every current member ships the same map, so the second arrival
        // finds it already adopted.
        self.connect(from);
        Ok(())
    }

    fn on_flush(&mut self, from: NodeId, up_to: u64) -> (r: Result<()>)
        requires
            old(self).inv(),
            old(self)@.knows(from),
        ensures
            final(self).inv(),
            flush_heard(old(self), final(self), from, up_to, r),
    {
        let i: usize = self.at(from);
        if self.peers[i].applied_rseq < up_to {
            return Err(FsError::Corrupt("a flush asks for ops the stream never delivered"));
        }
        let f = self.pool.flush();
        if let Err(e) = f {
            return Err(e);
        }
        let ghost pool = self.pool;
        self.emit(Effect::Send(from, PeerMessage::Durable { up_to }));
        assert(self.engine() == pool);
        Ok(())
    }

    fn on_durable(&mut self, from: NodeId, up_to: u64)
        requires
            old(self).inv(),
            old(self)@.knows(from),
        ensures
            final(self).inv(),
            final(self).engine() == old(self).engine(),
            final(self)@ == confirmed(old(self)@, from, up_to),
    {
        let i: usize = self.at(from);
        let ghost before = *self;
        assert(self.peers@[i as int].wf());
        let was: u64 = self.peers[i].durable_rseq;
        let durable: u64 = if was < up_to {
            up_to
        } else {
            was
        };
        let generation: u64 = self.peers[i].generation;
        self.peers[i].durable_rseq = durable;
        proof {
            self.lemma_one_session(&before, i as int, SessionView { durable_rseq: durable, ..before@.of(from) });
        }
        self.forgive(from, Some((generation, durable)));
    }

    fn gather(&self, wants: &Vec<(u8, BlockHash)>) -> (r: Result<Vec<(u8, Vec<u8>)>>)
        requires
            self.inv(),
        ensures
            gathered(&self.engine(), wants@, r),
    {
        let mut out: Vec<(u8, Vec<u8>)> = Vec::new();
        let mut i: usize = 0;
        while i < wants.len()
            invariant
                self.inv(),
                i <= wants@.len(),
                out@.len() == i,
                forall|j: int| 0 <= j < i ==> producible(&self.pool, #[trigger] wants@[j]),
                forall|j: int| 0 <= j < i ==> (#[trigger] out@[j]).0 == wants@[j].0 && out@[j].1@ == self.pool.shelf(wants@[j].0)[wants@[j].1],
            decreases wants@.len() - i,
        {
            let (tier, hash) = wants[i];
            assert(wants@[i as int] == (tier, hash));
            match self.pool.block_payload(tier, &hash) {
                Ok(Some(payload)) => {
                    out.push((tier, payload));
                },
                Ok(None) => {
                    assert(!producible(&self.pool, wants@[i as int]));
                    return Err(FsError::Corrupt("the peer asked for a block this store does not hold"));
                },
                Err(e) => {
                    proof {
                        if self.pool.reliable() {
                            assert(!producible(&self.pool, wants@[i as int]));
                            assert forall|k: int|
                                0 <= k < wants@.len() && !self.pool.holds((#[trigger] wants@[k]).0).contains(wants@[k].1) && (forall|j: int|
                                    0 <= j < k ==> producible(&self.pool, #[trigger] wants@[j])) implies false by {
                                if i < k {
                                    assert(producible(&self.pool, wants@[i as int]));
                                } else if k < i {
                                    assert(producible(&self.pool, wants@[k]));
                                }
                            }
                        }
                    }
                    return Err(e);
                },
            }
            i += 1;
        }
        assert(blocks_view(out@) =~= served(&self.engine(), wants@));
        Ok(out)
    }

    fn on_wants(&mut self, from: NodeId, wants: Vec<(u8, BlockHash)>, sync: bool) -> (r: Result<()>)
        requires
            old(self).inv(),
        ensures
            final(self).inv(),
            wants_heard(old(self), final(self), from, wants@, sync, r),
    {
        let g = self.gather(&wants);
        let ghost told = g;
        assert(gathered(&old(self).engine(), wants@, told));
        match g {
            Ok(payloads) => {
                if sync {
                    self.emit(Effect::Send(from, PeerMessage::SyncData(payloads)));
                } else {
                    self.emit(Effect::Send(from, PeerMessage::ReadData(payloads)));
                }
                Ok(())
            },
            Err(e) => Err(e),
        }
    }

    fn complete_reads(&mut self, tier: u8, hash: BlockHash)
        requires
            old(self).inv(),
        ensures
            final(self).inv(),
            final(self).engine() == old(self).engine(),
            reads_done(old(self)@, final(self)@, tier, hash),
    {
        let ghost v = self@;
        let ghost pool = self.pool;
        let keys: Vec<u64> = self.pending_reads.keys();
        let ghost found: Seq<u64> = Seq::empty();
        let mut k: usize = 0;
        assert(v.queue + done(found) =~= v.queue);
        assert(v.reads.remove_keys(found.to_set()) =~= v.reads);
        while k < keys.len()
            invariant
                self.inv(),
                self.pool == pool,
                k <= keys@.len(),
                crate::table::ascending(keys@),
                forall|t: u64| #[trigger] v.reads.contains_key(t) <==> keys@.contains(t),
                self@ == (NodeView { queue: v.queue + done(found), reads: v.reads.remove_keys(found.to_set()), ..v }),
                forall|a: int, b: int| 0 <= a < b < found.len() ==> #[trigger] found[a] < #[trigger] found[b],
                forall|a: int| 0 <= a < found.len() ==> v.reads.contains_key(#[trigger] found[a]) && v.reads[found[a]].tier == tier && v.reads[found[a]].hash == hash,
                forall|a: int, b: int| 0 <= a < found.len() && k <= b < keys@.len() ==> #[trigger] found[a] < #[trigger] keys@[b],
                forall|b: int| 0 <= b < k && v.reads[#[trigger] keys@[b]].tier == tier && v.reads[keys@[b]].hash == hash ==> found.contains(keys@[b]),
            decreases keys@.len() - k,
        {
            let ticket: u64 = keys[k];
            assert(keys@.contains(ticket));
            assert(!found.to_set().contains(ticket)) by {
                if found.contains(ticket) {
                    let a = choose|a: int| 0 <= a < found.len() && found[a] == ticket;
                    assert(found[a] < keys@[k as int]);
                }
            }
            let waits: bool = match self.pending_reads.get(&ticket) {
                Some(read) => read.tier == tier && read.hash.same(&hash),
                None => false,
            };
            let ghost was = found;
            if waits {
                self.pending_reads.remove(&ticket);
                self.emit(Effect::ReadDone(ticket));
                proof {
                    found = found.push(ticket);
                    assert(self@.queue =~= v.queue + done(found));
                    assert(found.to_set() =~= was.to_set().insert(ticket)) by {
                        assert forall|t: u64| found.to_set().contains(t) <==> #[trigger] was.to_set().insert(ticket).contains(t) by {
                            if was.contains(t) {
                                let a = choose|a: int| 0 <= a < was.len() && was[a] == t;
                                assert(found[a] == t);
                            }
                            assert(found[was.len() as int] == ticket);
                            if found.contains(t) && t != ticket {
                                let a = choose|a: int| 0 <= a < found.len() && found[a] == t;
                                assert(was[a] == t);
                            }
                        }
                    }
                    assert(self@.reads =~= v.reads.remove_keys(found.to_set()));
                    assert(found[was.len() as int] == ticket);
                    assert forall|a: int, b: int| 0 <= a < found.len() && k + 1 <= b < keys@.len() implies #[trigger] found[a] < #[trigger] keys@[b] by {
                        assert(keys@[k as int].lt(keys@[b]));
                        if a < was.len() {
                            assert(was[a] < keys@[b]);
                        }
                    }
                    assert forall|b: int| 0 <= b < k + 1 && v.reads[#[trigger] keys@[b]].tier == tier && v.reads[keys@[b]].hash == hash implies found.contains(keys@[b]) by {
                        if b < k {
                            let a = choose|a: int| 0 <= a < was.len() && was[a] == keys@[b];
                            assert(found[a] == keys@[b]);
                        }
                    }
                }
            }
            k += 1;
        }
        proof {
            assert forall|t: u64| #[trigger] found.contains(t) <==> v.reads.contains_key(t) && v.reads[t].tier == tier && v.reads[t].hash == hash by {
                if v.reads.contains_key(t) && v.reads[t].tier == tier && v.reads[t].hash == hash {
                    let b = choose|b: int| 0 <= b < keys@.len() && keys@[b] == t;
                    assert(found.contains(keys@[b]));
                }
            }
            assert(waiting_on(v.reads, tier, hash, found));
        }
    }

    #[verifier::rlimit(40)]
    fn on_read_data(&mut self, payloads: Vec<(u8, Vec<u8>)>) -> (r: Result<()>)
        requires
            old(self).inv(),
        ensures
            final(self).inv(),
            reads_heard(old(self), final(self), blocks_view(payloads@), r),
    {
        let ghost blocks = blocks_view(payloads@);
        let ghost steps: Seq<ReplNode<D>> = seq![*self];
        let mut k: usize = 0;
        while k < payloads.len()
            invariant
                self.inv(),
                k <= payloads@.len(),
                blocks == blocks_view(payloads@),
                steps.len() == k + 1,
                steps[0] == *old(self),
                steps.last() == *self,
                forall|i: int| 0 <= i < steps.len() - 1 ==> block_took(&steps[i], &steps[i + 1], #[trigger] blocks[i]),
            decreases payloads@.len() - k,
        {
            let ghost at = *self;
            let ghost was = steps;
            let tier: u8 = payloads[k].0;
            let hash = crate::hash::hash_block(payloads[k].1.as_slice());
            let ghost payload = payloads@[k as int].1@;
            assert(blocks[k as int] == (tier, payload));
            let key = TierHash { tier, hash };
            let stores: bool = match self.pool.write_homes_of(&hash) {
                Some(homes) => names(&homes, self.node),
                None => false,
            };
            assert(stores == self::stores(&at.engine(), at@.node, hash));
            let ghost told: Result<BlockHash> = Ok(hash);
            if stores {
                let c = self.pool.put_block(tier, payloads[k].1.as_slice());
                if let Err(e) = c {
                    proof {
                        assert(block_arrived(&at, self, blocks[k as int], Err(e)));
                        assert(reads_run(steps, old(self), self, blocks, Err(e)));
                    }
                    return Err(e);
                }
                proof {
                    told = c;
                }
                let ghost stored = self.pool;
                self.reassign_inflight.remove(&key);
                self.complete_reads(tier, hash);
                assert(self.engine() == stored);
                assert(block_arrived(&at, self, blocks[k as int], told));
            } else {
                self.fetched.insert(key, copy_bytes(payloads[k].1.as_slice()));
                assert(self@.fetched =~= at@.fetched.insert(key, payload));
                self.complete_reads(tier, hash);
                assert(block_arrived(&at, self, blocks[k as int], told));
            }
            proof {
                assert(block_took(&at, self, blocks[k as int]));
                steps = steps.push(*self);
                assert forall|i: int| 0 <= i < steps.len() - 1 implies block_took(&steps[i], &steps[i + 1], #[trigger] blocks[i]) by {
                    if i < was.len() - 1 {
                        assert(steps[i] == was[i] && steps[i + 1] == was[i + 1]);
                    } else {
                        assert(steps[i] == at && steps[i + 1] == *self);
                    }
                }
            }
            k += 1;
        }
        assert(reads_run(steps, old(self), self, blocks, Ok(())));
        Ok(())
    }
}

} // verus!
