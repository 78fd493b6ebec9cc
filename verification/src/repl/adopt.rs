//! The end of a resync on its target: adoption, replay, and the answer.

use super::guest::{all_durable, idle};
use super::pull::{no_pull, PullView, SyncPull};
use super::resync::roots_pinned;
use super::stream::{address_all, blocks_heard, hashed, ops_heard};
use super::wire::{blocks_view, Effect, EffectView, MessageView, OfferView, PeerMessage, SyncOffer};
use super::{messages_view, slot_of, FlushView, NodeView, ReplNode, ReplState, SessionView};
use crate::disk::Disk;
use crate::error::{FsError, Result};
use crate::pool::sync::{offers, sync_adopted, vdisks_retained, AdoptScope, SnapshotOffer, VdiskOffer};
use crate::pool::vdisk::flushed;
use crate::pool::{Lease, Pool};
use crate::slice::NodeId;
use crate::table::{SortKey, SortedMap};
use vstd::prelude::*;

verus! {

/// Who holds a vdisk by an offer: the holder in the first lease for it.
pub open spec fn holder_in(leases: Seq<(u64, Lease)>, id: u64) -> Option<NodeId>
    decreases leases.len(),
{
    if leases.len() == 0 {
        None
    } else if leases[0].0 == id {
        Some(leases[0].1.holder)
    } else {
        holder_in(leases.drop_first(), id)
    }
}

/// Whether this source's offer speaks for a vdisk. Every op for a vdisk
/// originates at its lease holder, so another source's copy is stale while
/// the holder is itself a source this node pulls from.
pub open spec fn speaks_for(v: NodeView, from: NodeId, offer: OfferView, id: u64) -> bool {
    offers(offer.vdisks, id) && match holder_in(offer.leases, id) {
        Some(holder) => holder == from || !(v.knows(holder) && v.of(holder).pulls()),
        None => true,
    }
}

/// The vdisks of an offer that it speaks for.
pub open spec fn spoken_vdisks(v: NodeView, from: NodeId, offer: OfferView, s: Seq<VdiskOffer>) -> Seq<VdiskOffer>
    decreases s.len(),
{
    if s.len() == 0 {
        Seq::empty()
    } else {
        let rest = spoken_vdisks(v, from, offer, s.drop_last());
        if speaks_for(v, from, offer, s.last().0) {
            rest.push(s.last())
        } else {
            rest
        }
    }
}

/// Their snapshots.
pub open spec fn spoken_snapshots(v: NodeView, from: NodeId, offer: OfferView, s: Seq<SnapshotOffer>) -> Seq<SnapshotOffer>
    decreases s.len(),
{
    if s.len() == 0 {
        Seq::empty()
    } else {
        let rest = spoken_snapshots(v, from, offer, s.drop_last());
        if speaks_for(v, from, offer, s.last().0) {
            rest.push(s.last())
        } else {
            rest
        }
    }
}

/// Their leases.
pub open spec fn spoken_leases(v: NodeView, from: NodeId, offer: OfferView, s: Seq<(u64, Lease)>) -> Seq<(u64, Lease)>
    decreases s.len(),
{
    if s.len() == 0 {
        Seq::empty()
    } else {
        let rest = spoken_leases(v, from, offer, s.drop_last());
        if speaks_for(v, from, offer, s.last().0) {
            rest.push(s.last())
        } else {
            rest
        }
    }
}

/// What a pool takes over of an offer: all of it where it is unplaced, what
/// the offer speaks for where it is placed.
pub open spec fn taken_over<D: Disk>(v: NodeView, before: &Pool<D>, after: &Pool<D>, from: NodeId, offer: OfferView, c: Result<()>) -> bool {
    if before.seat() is Some {
        sync_adopted(
            before,
            after,
            offer.era,
            spoken_vdisks(v, from, offer, offer.vdisks),
            spoken_snapshots(v, from, offer, offer.snapshots),
            spoken_leases(v, from, offer, offer.leases),
            AdoptScope::Named,
            c,
        )
    } else {
        sync_adopted(before, after, offer.era, offer.vdisks, offer.snapshots, offer.leases, AdoptScope::Whole, c)
    }
}

/// Why a node does not adopt, if it does not: its pull is not complete, or
/// never had an offer.
pub open spec fn adopt_refusal(v: NodeView, from: NodeId) -> Option<FsError> {
    let s = v.of(from);
    if !(s.pulls() && s.pull.complete()) {
        Some(FsError::Corrupt("told to adopt without a completed pull to adopt"))
    } else if s.pull.manifest is None {
        Some(FsError::Corrupt("finishing a pull that never had a manifest"))
    } else {
        None
    }
}

/// The offer was adopted, and the session is in lockstep with nothing left
/// of its pull.
pub open spec fn offer_adopted<D: Disk>(before: &ReplNode<D>, mid: &Pool<D>, after: &ReplNode<D>, from: NodeId, c: Result<()>) -> bool {
    let v = before@;
    let s = v.of(from);
    let offer = s.pull.manifest->Some_0;
    &&& taken_over(v, &before.engine(), mid, from, offer, c)
    &&& match c {
        Err(_) => after.engine() == *mid && after@ == v.with(from, SessionView { pull: PullView { manifest: None, ..s.pull }, ..s }),
        Ok(_) => roots_pinned(mid, &after.engine(), from, Seq::empty()) && after@ == v.with(
            from,
            SessionView { pull: no_pull(), state: ReplState::Synced, backlog: Seq::empty(), ..s },
        ),
    }
}

/// What a message of the stream comes to.
pub open spec fn delivered<D: Disk>(before: &ReplNode<D>, after: &ReplNode<D>, from: NodeId, message: MessageView, r: Result<()>) -> bool {
    match message {
        MessageView::Payloads(blocks) => blocks_heard(before, after, from, hashed(blocks), r),
        MessageView::Apply { first_rseq, ops } => ops_heard(before, after, from, first_rseq, ops, r),
        _ => false,
    }
}

/// A message of the stream took.
pub open spec fn took<D: Disk>(before: &ReplNode<D>, after: &ReplNode<D>, from: NodeId, message: MessageView) -> bool {
    exists|c: Result<()>| c is Ok && #[trigger] delivered(before, after, from, message, c)
}

/// Where the replay of a buffered stream got to: to its end, or to the first
/// message that failed.
pub open spec fn replayed<D: Disk>(steps: Seq<ReplNode<D>>, after: &ReplNode<D>, from: NodeId, backlog: Seq<MessageView>, c: Result<()>) -> bool {
    &&& steps.len() >= 1
    &&& steps.len() - 1 <= backlog.len()
    &&& forall|i: int| 0 <= i < steps.len() - 1 ==> took(&steps[i], &steps[i + 1], from, #[trigger] backlog[i])
    &&& match c {
        Ok(_) => steps.len() == backlog.len() + 1 && steps.last() == *after,
        Err(_) => steps.len() <= backlog.len() && delivered(&steps.last(), after, from, backlog[steps.len() - 1], c),
    }
}

/// Every parked flush, failed: an adoption discarded its writes.
pub open spec fn flushes_failed(parked: Seq<FlushView>) -> Seq<EffectView> {
    Seq::new(parked.len(), |i: int| EffectView::FlushFailed(parked[i].ticket))
}

/// Some session is pulling.
pub open spec fn any_pulling(v: NodeView) -> bool {
    exists|i: int| 0 <= i < v.peers.len() && (#[trigger] v.peers[i]).pulls()
}

/// The close of a resync: everything durable, the flushes that waited here
/// failed, and, with the last adoption of a wave, the vdisks no live member
/// offered dropped. Only then is the source answered.
pub open spec fn closed_out<D: Disk>(before: &ReplNode<D>, mid: &Pool<D>, after: &ReplNode<D>, from: NodeId, era: u64, f: Result<()>, r: Result<()>) -> bool {
    let v = before@;
    let failed = NodeView { queue: v.queue + flushes_failed(v.parked), parked: Seq::empty(), ..v };
    &&& flushed(&before.engine(), mid, f)
    &&& match f {
        Err(e) => r == Err::<(), FsError>(e) && after.engine() == *mid && after@ == v,
        Ok(_) => all_durable(mid) && if mid.seat() is Some && !any_pulling(v) {
            let swept = NodeView { offered: Set::empty(), ..failed };
            &&& vdisks_retained(mid, &after.engine(), v.offered, r)
            &&& after@ == if r is Ok {
                swept.tells(from, MessageView::SyncDone { era })
            } else {
                swept
            }
        } else {
            r is Ok && after.engine() == *mid && after@ == failed.tells(from, MessageView::SyncDone { era })
        },
    }
}

/// From the end of the replay on: the stream replayed must be the stream the
/// source sent, and then the resync is closed.
pub open spec fn finished<D: Disk>(before: &ReplNode<D>, after: &ReplNode<D>, from: NodeId, era: u64, final_rseq: u64, r: Result<()>) -> bool {
    if before@.of(from).applied_rseq != final_rseq {
        r == Err::<(), FsError>(FsError::Corrupt("the stream this node replayed is not the stream the source sent")) && idle(before, after)
    } else {
        exists|mid: Pool<D>, f: Result<()>| #[trigger] closed_out(before, &mid, after, from, era, f, r)
    }
}

/// Adoption and replay, one after the other.
pub open spec fn adopted_and_replayed<D: Disk>(
    before: &ReplNode<D>,
    mid: &Pool<D>,
    taken: &ReplNode<D>,
    steps: Seq<ReplNode<D>>,
    live: &ReplNode<D>,
    after: &ReplNode<D>,
    from: NodeId,
    final_rseq: u64,
    c: Result<()>,
    d: Result<()>,
    r: Result<()>,
) -> bool {
    let offer = before@.of(from).pull.manifest->Some_0;
    &&& offer_adopted(before, mid, taken, from, c)
    &&& match c {
        Err(e) => r == Err::<(), FsError>(e) && *after == *taken,
        Ok(_) => {
            &&& replayed(steps, live, from, before@.of(from).backlog, d)
            &&& steps[0] == *taken
            &&& match d {
                Err(e) => r == Err::<(), FsError>(e) && *after == *live,
                Ok(_) => finished(live, after, from, offer.era, final_rseq, r),
            }
        },
    }
}

/// What a source's leave to adopt comes to.
pub open spec fn adopt_heard<D: Disk>(before: &ReplNode<D>, after: &ReplNode<D>, from: NodeId, final_rseq: u64, r: Result<()>) -> bool {
    match adopt_refusal(before@, from) {
        Some(e) => r == Err::<(), FsError>(e) && idle(before, after),
        None => exists|mid: Pool<D>, taken: ReplNode<D>, steps: Seq<ReplNode<D>>, live: ReplNode<D>, c: Result<()>, d: Result<()>| #[trigger]
            adopted_and_replayed(before, &mid, &taken, steps, &live, after, from, final_rseq, c, d, r),
    }
}

impl<D: Disk> ReplNode<D> {
    /// Whether the offer of this source speaks for a vdisk.
    fn adopts(&self, from: NodeId, offer: &SyncOffer, id: u64) -> (r: bool)
        requires
            self.inv(),
        ensures
            r == speaks_for(self@, from, offer@, id),
    {
        if !offer_has(&offer.vdisks, id) {
            return false;
        }
        match lease_holder(&offer.leases, id) {
            Some(holder) => holder == from || match self.find(holder) {
                Some(i) => self.peers[i].state != (ReplState::Resyncing { source: false }),
                None => true,
            },
            None => true,
        }
    }

    /// Takes over an offer: whole, or what it speaks for.
    fn take_over(&mut self, from: NodeId, offer: &SyncOffer) -> (c: Result<()>)
        requires
            old(self).inv(),
        ensures
            final(self).inv(),
            final(self)@ == old(self)@,
            final(self).peers == old(self).peers,
            taken_over(old(self)@, &old(self).engine(), &final(self).engine(), from, offer@, c),
    {
        if self.pool.placement().is_none() {
            return self.pool.adopt_sync(offer.era, &offer.vdisks, &offer.snapshots, &offer.leases, AdoptScope::Whole);
        }
        let ghost v = self@;
        let ghost o = offer@;
        let mut vdisks: Vec<VdiskOffer> = Vec::new();
        let mut i: usize = 0;
        assert(o.vdisks.take(0) =~= Seq::empty());
        while i < offer.vdisks.len()
            invariant
                self.inv(),
                v == self@,
                o == offer@,
                i <= offer.vdisks@.len(),
                vdisks@ == spoken_vdisks(v, from, o, o.vdisks.take(i as int)),
            decreases offer.vdisks@.len() - i,
        {
            let entry = offer.vdisks[i];
            assert(o.vdisks.take(i + 1).drop_last() =~= o.vdisks.take(i as int));
            if self.adopts(from, offer, entry.0) {
                vdisks.push(entry);
            }
            i += 1;
        }
        assert(o.vdisks.take(i as int) =~= o.vdisks);
        let mut snapshots: Vec<SnapshotOffer> = Vec::new();
        let mut j: usize = 0;
        assert(o.snapshots.take(0) =~= Seq::empty());
        while j < offer.snapshots.len()
            invariant
                self.inv(),
                v == self@,
                o == offer@,
                j <= offer.snapshots@.len(),
                snapshots@ == spoken_snapshots(v, from, o, o.snapshots.take(j as int)),
            decreases offer.snapshots@.len() - j,
        {
            let entry = offer.snapshots[j];
            assert(o.snapshots.take(j + 1).drop_last() =~= o.snapshots.take(j as int));
            if self.adopts(from, offer, entry.0) {
                snapshots.push(entry);
            }
            j += 1;
        }
        assert(o.snapshots.take(j as int) =~= o.snapshots);
        let mut leases: Vec<(u64, Lease)> = Vec::new();
        let mut k: usize = 0;
        assert(o.leases.take(0) =~= Seq::empty());
        while k < offer.leases.len()
            invariant
                self.inv(),
                v == self@,
                o == offer@,
                k <= offer.leases@.len(),
                leases@ == spoken_leases(v, from, o, o.leases.take(k as int)),
            decreases offer.leases@.len() - k,
        {
            let entry = offer.leases[k];
            assert(o.leases.take(k + 1).drop_last() =~= o.leases.take(k as int));
            if self.adopts(from, offer, entry.0) {
                leases.push(entry);
            }
            k += 1;
        }
        assert(o.leases.take(k as int) =~= o.leases);
        self.pool.adopt_sync(offer.era, &vdisks, &snapshots, &leases, AdoptScope::Named)
    }

    /// A message of a source's live stream.
    pub(super) fn deliver(&mut self, from: NodeId, message: PeerMessage) -> (r: Result<()>)
        requires
            old(self).inv(),
            old(self)@.knows(from),
            super::held_back(message),
        ensures
            final(self).inv(),
            final(self)@.knows(from),
            final(self)@.of(from).pulls() == old(self)@.of(from).pulls(),
            delivered(old(self), final(self), from, message@, r),
    {
        let ghost before = *self;
        proof {
            super::lemma_slot_range(before@.peers, from);
        }
        match message {
            PeerMessage::Payloads(blocks) => {
                let hashed = address_all(&blocks);
                let r = self.payloads_prehashed(from, hashed);
                proof {
                    let s = before@.of(from);
                    super::resync::lemma_with::<D>(
                        before@,
                        from,
                        SessionView { backlog: s.backlog.push(MessageView::Payloads(super::stream::on_the_wire(super::stream::hashed(blocks_view(blocks@))))), ..s },
                    );
                }
                r
            },
            PeerMessage::Apply { first_rseq, ops } => {
                let ghost o = ops@;
                let r = self.on_apply(from, first_rseq, ops);
                proof {
                    let s = before@.of(from);
                    super::resync::lemma_with::<D>(before@, from, SessionView { backlog: s.backlog.push(MessageView::Apply { first_rseq, ops: o }), ..s });
                    super::resync::lemma_with::<D>(before@, from, SessionView { applied_rseq: super::moved_on(s.applied_rseq, o.len()), ..s });
                }
                r
            },
            _ => Ok(()),
        }
    }

    #[verifier::rlimit(80)]
    pub(super) fn on_sync_adopt(&mut self, from: NodeId, final_rseq: u64) -> (r: Result<()>)
        requires
            old(self).inv(),
            old(self)@.knows(from),
        ensures
            final(self).inv(),
            adopt_heard(old(self), final(self), from, final_rseq, r),
    {
        let i: usize = self.at(from);
        assert(self.peers@[i as int].wf());
        if self.peers[i].state != (ReplState::Resyncing { source: false }) || !self.peers[i].pull.is_complete() {
            return Err(FsError::Corrupt("told to adopt without a completed pull to adopt"));
        }
        let ghost before = *self;
        let ghost s = before@.of(from);
        let taken = self.peers[i].pull.take_manifest();
        let offer = match taken {
            Some(offer) => offer,
            None => {
                proof {
                    self.lemma_one_session(&before, i as int, s);
                    assert(self@.peers =~= before@.peers);
                }
                return Err(FsError::Corrupt("finishing a pull that never had a manifest"));
            },
        };
        let ghost emptied = SessionView { pull: PullView { manifest: None, ..s.pull }, ..s };
        proof {
            self.lemma_one_session(&before, i as int, emptied);
        }
        let era: u64 = offer.era;
        let ghost bare = *self;
        proof {
            // Whether another session pulls does not depend on this one.
            assert(bare@ == before@.with(from, emptied));
            assert(emptied.id == from);
            lemma_spoken(before@, bare@, from, offer@);
        }
        let c = self.take_over(from, &offer);
        let ghost mid = self.pool;
        let ghost kept = *self;
        assert(taken_over(before@, &before.pool, &mid, from, s.pull.manifest->Some_0, c));
        if let Err(e) = c {
            proof {
                assert(offer_adopted(old(self), &mid, self, from, c));
                assert(adopted_and_replayed(old(self), &mid, self, seq![*self], self, self, from, final_rseq, c, c, Err(e)));
            }
            return Err(e);
        }
        let mut backlog: Vec<PeerMessage> = Vec::new();
        proof {
            assert(self.peers@[i as int].wf());
        }
        self.peers[i].pull = SyncPull::new();
        self.peers[i].state = ReplState::Synced;
        core::mem::swap(&mut backlog, &mut self.peers[i].backlog);
        let ghost synced = SessionView { pull: no_pull(), state: ReplState::Synced, backlog: Seq::empty(), ..s };
        proof {
            assert(self.peers@[i as int]@.backlog =~= Seq::empty());
            self.lemma_one_session(&kept, i as int, synced);
            assert(self@.peers =~= before@.with(from, synced).peers);
            assert(messages_view(backlog@) == s.backlog);
            super::resync::lemma_with::<D>(before@, from, synced);
        }
        self.pool.unpin_sync(from);
        let ghost start = *self;
        let ghost steps: Seq<ReplNode<D>> = seq![start];
        assert(offer_adopted(old(self), &mid, &start, from, c));
        // The offer was the source at its checkpoint; the backlog is
        // everything its guests did since.
        let ghost stream = s.backlog;
        let ghost gone: nat = 0;
        while backlog.len() > 0
            invariant
                self.inv(),
                before == *old(self),
                self@.knows(from),
                c is Ok,
                gone + backlog@.len() == stream.len(),
                forall|j: int| 0 <= j < backlog@.len() ==> (#[trigger] backlog@[j])@ == stream[gone + j] && super::held_back(backlog@[j]),
                stream == before@.of(from).backlog,
                adopt_refusal(before@, from) is None,
                offer_adopted(old(self), &mid, &start, from, c),
                steps.len() == gone + 1,
                steps[0] == start,
                steps.last() == *self,
                forall|j: int| 0 <= j < steps.len() - 1 ==> took(&steps[j], &steps[j + 1], from, #[trigger] stream[j]),
            decreases backlog@.len(),
        {
            let ghost was = steps;
            let ghost left = backlog@;
            let message = backlog.remove(0);
            let ghost m = message@;
            assert(left[0] == message);
            assert(m == stream[gone as int]);
            assert forall|j: int| 0 <= j < backlog@.len() implies (#[trigger] backlog@[j])@ == stream[gone + 1 + j] && super::held_back(backlog@[j]) by {
                assert(backlog@[j] == left[j + 1]);
            }
            let ghost at = *self;
            let d = self.deliver(from, message);
            if let Err(e) = d {
                proof {
                    assert(replayed(steps, self, from, stream, d));
                    assert(adopted_and_replayed(old(self), &mid, &start, steps, self, self, from, final_rseq, c, d, Err(e)));
                }
                return Err(e);
            }
            proof {
                assert(took(&at, self, from, m));
                steps = steps.push(*self);
                gone = gone + 1;
                assert forall|j: int| 0 <= j < steps.len() - 1 implies took(&steps[j], &steps[j + 1], from, #[trigger] stream[j]) by {
                    if j < was.len() - 1 {
                        assert(steps[j] == was[j] && steps[j + 1] == was[j + 1]);
                    } else {
                        assert(steps[j] == at && steps[j + 1] == *self);
                    }
                }
            }
        }
        let ghost live = *self;
        proof {
            assert(replayed(steps, &live, from, stream, Ok(())));
        }
        let r = self.finish(from, era, final_rseq);
        proof {
            assert(adopted_and_replayed(old(self), &mid, &start, steps, &live, self, from, final_rseq, c, Ok(()), r));
        }
        r
    }

    fn finish(&mut self, from: NodeId, era: u64, final_rseq: u64) -> (r: Result<()>)
        requires
            old(self).inv(),
            old(self)@.knows(from),
        ensures
            final(self).inv(),
            finished(old(self), final(self), from, era, final_rseq, r),
    {
        let i: usize = self.at(from);
        if self.peers[i].applied_rseq != final_rseq {
            return Err(FsError::Corrupt("the stream this node replayed is not the stream the source sent"));
        }
        let ghost v = self@;
        // Durable before the answer: the source will complete parked flushes
        // on it.
        let f = self.pool.flush();
        let ghost mid = self.pool;
        if let Err(e) = f {
            assert(closed_out(old(self), &mid, self, from, era, f, Err(e)));
            return Err(e);
        }
        let ghost base = *self;
        let mut k: usize = 0;
        assert(v.queue + flushes_failed(v.parked).take(0) =~= v.queue);
        while k < self.parked.len()
            invariant
                self.inv(),
                self.pool == mid,
                k <= self.parked@.len(),
                self@ == (NodeView { queue: v.queue + flushes_failed(v.parked).take(k as int), ..v }),
            decreases self.parked@.len() - k,
        {
            assert(self@.parked[k as int] == self.parked@[k as int]@);
            assert(self@.parked.len() == self.parked@.len());
            let ticket: u64 = self.parked[k].ticket;
            self.emit(Effect::FlushFailed(ticket));
            assert(self@.parked.len() == self.parked@.len());
            k += 1;
            assert(self@.queue =~= v.queue + flushes_failed(v.parked).take(k as int));
        }
        assert(self@.parked.len() == self.parked@.len());
        assert(flushes_failed(v.parked).take(k as int) =~= flushes_failed(v.parked));
        self.parked = Vec::new();
        assert(self@.parked =~= Seq::empty());
        if self.pool.placement().is_some() && !self.any_pulls() {
            let mut keep: SortedMap<u64, ()> = SortedMap::new();
            core::mem::swap(&mut keep, &mut self.offered_vdisks);
            assert(self@.offered =~= Set::empty());
            assert(keep@.dom() == v.offered);
            let r = self.pool.retain_vdisks(&keep);
            let ghost swept = self.pool;
            if let Err(e) = r {
                assert(closed_out(old(self), &mid, self, from, era, f, Err(e)));
                return Err(e);
            }
            self.emit(Effect::Send(from, PeerMessage::SyncDone { era }));
            assert(self.engine() == swept);
            assert(closed_out(old(self), &mid, self, from, era, f, r));
            return r;
        }
        self.emit(Effect::Send(from, PeerMessage::SyncDone { era }));
        assert(self.engine() == mid);
        assert(closed_out(old(self), &mid, self, from, era, f, Ok(())));
        Ok(())
    }

    fn any_pulls(&self) -> (r: bool)
        requires
            self.inv(),
        ensures
            r == any_pulling(self@),
    {
        let mut i: usize = 0;
        while i < self.peers.len()
            invariant
                i <= self.peers@.len(),
                forall|j: int| 0 <= j < i ==> !(#[trigger] self@.peers[j]).pulls(),
            decreases self.peers@.len() - i,
        {
            assert(self@.peers[i as int] == self.peers@[i as int]@);
            if self.peers[i].state == (ReplState::Resyncing { source: false }) {
                return true;
            }
            i += 1;
        }
        assert(self@.peers.len() == self.peers@.len());
        false
    }
}

fn offer_has(vdisks: &Vec<VdiskOffer>, id: u64) -> (r: bool)
    ensures
        r == offers(vdisks@, id),
{
    let mut i: usize = 0;
    while i < vdisks.len()
        invariant
            i <= vdisks@.len(),
            forall|j: int| 0 <= j < i ==> (#[trigger] vdisks@[j]).0 != id,
        decreases vdisks@.len() - i,
    {
        if vdisks[i].0 == id {
            return true;
        }
        i += 1;
    }
    false
}

fn lease_holder(leases: &Vec<(u64, Lease)>, id: u64) -> (r: Option<NodeId>)
    ensures
        r == holder_in(leases@, id),
{
    let mut i: usize = 0;
    assert(leases@.skip(0) =~= leases@);
    while i < leases.len()
        invariant
            i <= leases@.len(),
            holder_in(leases@, id) == holder_in(leases@.skip(i as int), id),
        decreases leases@.len() - i,
    {
        assert(leases@.skip(i as int)[0] == leases@[i as int]);
        if leases[i].0 == id {
            return Some(leases[i].1.holder);
        }
        assert(leases@.skip(i as int).drop_first() =~= leases@.skip(i as int + 1));
        i += 1;
    }
    None
}

proof fn lemma_speaks(a: NodeView, b: NodeView, from: NodeId, offer: OfferView, id: u64)
    requires
        super::ids_ascend(a.peers),
        a.knows(from),
        exists|s: SessionView| s.id == from && s.state == a.of(from).state && b == #[trigger] a.with(from, s),
    ensures
        speaks_for(a, from, offer, id) == speaks_for(b, from, offer, id),
{
    let s = choose|s: SessionView| s.id == from && s.state == a.of(from).state && b == #[trigger] a.with(from, s);
    if let Some(holder) = holder_in(offer.leases, id) {
        let i = slot_of(a.peers, holder);
        super::lemma_slot_range(a.peers, holder);
        super::lemma_slot_range(a.peers, from);
        lemma_slot_same(a.peers, b.peers, holder);
    }
}

proof fn lemma_slot_same(a: Seq<SessionView>, b: Seq<SessionView>, peer: NodeId)
    requires
        a.len() == b.len(),
        forall|i: int| 0 <= i < a.len() ==> (#[trigger] a[i]).id == (#[trigger] b[i]).id,
    ensures
        slot_of(a, peer) == slot_of(b, peer),
    decreases a.len(),
{
    if a.len() > 0 {
        assert(a[0].id == b[0].id);
        let x = a.drop_first();
        let y = b.drop_first();
        assert forall|i: int| 0 <= i < x.len() implies (#[trigger] x[i]).id == (#[trigger] y[i]).id by {
            assert(a[i + 1].id == b[i + 1].id);
        }
        lemma_slot_same(x, y, peer);
    }
}

proof fn lemma_spoken_vdisks(a: NodeView, b: NodeView, from: NodeId, offer: OfferView, s: Seq<VdiskOffer>)
    requires
        forall|id: u64| #[trigger] speaks_for(a, from, offer, id) == speaks_for(b, from, offer, id),
    ensures
        spoken_vdisks(a, from, offer, s) == spoken_vdisks(b, from, offer, s),
    decreases s.len(),
{
    if s.len() > 0 {
        lemma_spoken_vdisks(a, b, from, offer, s.drop_last());
        assert(speaks_for(a, from, offer, s.last().0) == speaks_for(b, from, offer, s.last().0));
    }
}

proof fn lemma_spoken_snapshots(a: NodeView, b: NodeView, from: NodeId, offer: OfferView, s: Seq<SnapshotOffer>)
    requires
        forall|id: u64| #[trigger] speaks_for(a, from, offer, id) == speaks_for(b, from, offer, id),
    ensures
        spoken_snapshots(a, from, offer, s) == spoken_snapshots(b, from, offer, s),
    decreases s.len(),
{
    if s.len() > 0 {
        lemma_spoken_snapshots(a, b, from, offer, s.drop_last());
        assert(speaks_for(a, from, offer, s.last().0) == speaks_for(b, from, offer, s.last().0));
    }
}

proof fn lemma_spoken_leases(a: NodeView, b: NodeView, from: NodeId, offer: OfferView, s: Seq<(u64, Lease)>)
    requires
        forall|id: u64| #[trigger] speaks_for(a, from, offer, id) == speaks_for(b, from, offer, id),
    ensures
        spoken_leases(a, from, offer, s) == spoken_leases(b, from, offer, s),
    decreases s.len(),
{
    if s.len() > 0 {
        lemma_spoken_leases(a, b, from, offer, s.drop_last());
        assert(speaks_for(a, from, offer, s.last().0) == speaks_for(b, from, offer, s.last().0));
    }
}

proof fn lemma_spoken(a: NodeView, b: NodeView, from: NodeId, offer: OfferView)
    requires
        super::ids_ascend(a.peers),
        a.knows(from),
        exists|s: SessionView| s.id == from && s.state == a.of(from).state && b == #[trigger] a.with(from, s),
    ensures
        spoken_vdisks(a, from, offer, offer.vdisks) == spoken_vdisks(b, from, offer, offer.vdisks),
        spoken_snapshots(a, from, offer, offer.snapshots) == spoken_snapshots(b, from, offer, offer.snapshots),
        spoken_leases(a, from, offer, offer.leases) == spoken_leases(b, from, offer, offer.leases),
{
    assert forall|id: u64| #[trigger] speaks_for(a, from, offer, id) == speaks_for(b, from, offer, id) by {
        lemma_speaks(a, b, from, offer, id);
    }
    lemma_spoken_vdisks(a, b, from, offer, offer.vdisks);
    lemma_spoken_snapshots(a, b, from, offer, offer.snapshots);
    lemma_spoken_leases(a, b, from, offer, offer.leases);
}

/// A node adopts only what it has pulled whole: the pull it adopts from has
/// nothing left to resolve, to wait for or to ask for.
pub proof fn law_adoption_needs_a_complete_pull(v: NodeView, from: NodeId)
    requires
        adopt_refusal(v, from) is None,
    ensures
        v.of(from).pull.complete(),
        v.of(from).pull.manifest is Some,
{
}

/// Where another source holds a vdisk's pen and is pulled from too, only
/// that source's offer speaks for the vdisk.
pub proof fn law_only_the_holder_speaks(v: NodeView, from: NodeId, offer: OfferView, id: u64, holder: NodeId)
    requires
        holder_in(offer.leases, id) == Some(holder),
        holder != from,
        v.knows(holder),
        v.of(holder).pulls(),
    ensures
        !speaks_for(v, from, offer, id),
{
}

} // verus!
