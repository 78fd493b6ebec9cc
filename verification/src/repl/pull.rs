//! A resync target's walk toward its source's offer.
//!
//! Hashes carry a kind: `0` is a data block, with nothing below it, and
//! `k > 0` is a map node whose children are of kind `k - 1`. The root of a
//! tree of depth `d` is of kind `d`.

use super::wire::{OfferView, SyncOffer, SYNC_BATCH};
use crate::disk::Disk;
use crate::error::{FsError, Result};
use crate::hash::BlockHash;
use crate::map::child_list;
use crate::pool::snapshot::write_homes;
use crate::pool::Pool;
use crate::slice::NodeId;
use crate::table::{SortKey, SortedMap, TierHash};
use vstd::prelude::*;

verus! {

/// One thing to resolve: an address, its kind, and the tier its vdisk keeps
/// data on.
#[derive(Debug, Clone, Copy, PartialEq, Eq)]
pub struct PullKey {
    pub tier: u8,
    pub kind: u32,
    pub hash: BlockHash,
}

impl SortKey for PullKey {
    open spec fn lt(self, other: PullKey) -> bool {
        self.tier < other.tier || (self.tier == other.tier && (self.kind < other.kind || (self.kind == other.kind && self.hash.lt(
            other.hash,
        ))))
    }

    proof fn lemma_transitive(a: PullKey, b: PullKey, c: PullKey) {
        if a.tier == b.tier && b.tier == c.tier && a.kind == b.kind && b.kind == c.kind {
            BlockHash::lemma_transitive(a.hash, b.hash, c.hash);
        }
    }

    proof fn lemma_asymmetric(a: PullKey, b: PullKey) {
        if a.tier == b.tier && a.kind == b.kind {
            BlockHash::lemma_asymmetric(a.hash, b.hash);
        }
    }

    proof fn lemma_total(a: PullKey, b: PullKey) {
        if a.tier == b.tier && a.kind == b.kind {
            BlockHash::lemma_total(a.hash, b.hash);
        }
    }

    fn key_before(&self, other: &PullKey) -> (r: bool) {
        self.tier < other.tier || (self.tier == other.tier && (self.kind < other.kind || (self.kind == other.kind && self.hash.key_before(
            &other.hash,
        ))))
    }

    fn key_same(&self, other: &PullKey) -> (r: bool) {
        self.tier == other.tier && self.kind == other.kind && self.hash.key_same(&other.hash)
    }
}

/// The walk's state.
#[derive(Debug)]
pub struct SyncPull {
    /// To resolve locally: present ones get walked, absent ones requested.
    pending: Vec<PullKey>,
    /// Already resolved: shared subtrees are common, and a diff must not
    /// walk one twice.
    seen: SortedMap<PullKey, ()>,
    /// Absent here, with the kinds and data tiers waiting on each.
    wanted: SortedMap<TierHash, Vec<(u32, u8)>>,
    /// Wanted but not yet requested.
    unrequested: Vec<(u8, BlockHash)>,
    /// Requested and not yet received.
    outstanding: usize,
    manifest: Option<SyncOffer>,
}

/// A pull as the contracts see it.
pub struct PullView {
    pub pending: Seq<PullKey>,
    pub seen: Set<PullKey>,
    pub wanted: Map<TierHash, Seq<(u32, u8)>>,
    pub unrequested: Seq<(u8, BlockHash)>,
    pub outstanding: nat,
    pub manifest: Option<OfferView>,
}

/// No pull at all.
pub open spec fn no_pull() -> PullView {
    PullView {
        pending: Seq::empty(),
        seen: Set::empty(),
        wanted: Map::empty(),
        unrequested: Seq::empty(),
        outstanding: 0,
        manifest: None,
    }
}

impl PullView {
    /// Nothing is left to resolve, to wait for or to ask for.
    pub open spec fn complete(self) -> bool {
        self.pending.len() == 0 && self.wanted.dom() == Set::<TierHash>::empty() && self.unrequested.len() == 0
    }
}

impl SyncPull {
    pub closed spec fn view(&self) -> PullView {
        PullView {
            pending: self.pending@,
            seen: self.seen@.dom(),
            wanted: Map::new(|k: TierHash| self.wanted@.contains_key(k), |k: TierHash| self.wanted@[k]@),
            unrequested: self.unrequested@,
            outstanding: self.outstanding as nat,
            manifest: match self.manifest {
                Some(offer) => Some(offer@),
                None => None,
            },
        }
    }

    pub closed spec fn wf(&self) -> bool {
        self.seen.wf() && self.wanted.wf() && forall|k: TierHash| #[trigger] self.wanted@.contains_key(k) ==> self.wanted@[k]@.len() > 0
    }

    pub fn new() -> (r: SyncPull)
        ensures
            r.wf(),
            r@ == no_pull(),
    {
        let r = SyncPull {
            pending: Vec::new(),
            seen: SortedMap::new(),
            wanted: SortedMap::new(),
            unrequested: Vec::new(),
            outstanding: 0,
            manifest: None,
        };
        assert(r@.seen =~= Set::empty());
        assert(r@.wanted =~= Map::empty());
        r
    }

    /// Starts the pull toward an offer: every root is to be resolved.
    pub(super) fn begin(&mut self, roots: &Vec<(BlockHash, u32, u8)>, offer: SyncOffer)
        requires
            old(self).wf(),
        ensures
            final(self).wf(),
            final(self)@ == (PullView {
                pending: old(self)@.pending + keys_of(roots@),
                manifest: Some(offer@),
                ..old(self)@
            }),
    {
        let ghost before = self@;
        let mut i: usize = 0;
        assert(keys_of(roots@).take(0) =~= Seq::<PullKey>::empty());
        assert(before.pending + Seq::<PullKey>::empty() =~= before.pending);
        while i < roots.len()
            invariant
                i <= roots@.len(),
                self.wf(),
                self@ == (PullView { pending: before.pending + keys_of(roots@).take(i as int), ..before }),
            decreases roots@.len() - i,
        {
            let root = roots[i];
            self.pending.push(PullKey { tier: root.2, kind: root.1, hash: root.0 });
            i += 1;
            assert(self@.pending =~= before.pending + keys_of(roots@).take(i as int));
        }
        assert(keys_of(roots@).take(i as int) =~= keys_of(roots@));
        self.manifest = Some(offer);
    }

    /// Resolves the last thing queued: walks down where this node holds it,
    /// and lists it where it does not.
    fn resolve_one<D: Disk>(&mut self, pool: &Pool<D>, me: NodeId, from: NodeId) -> (r: Result<()>)
        requires
            old(self).wf(),
            pool.inv(),
            old(self)@.pending.len() > 0,
        ensures
            final(self).wf(),
            match r {
                Ok(_) => can_step(pool, me, from, old(self)@) && final(self)@ == pull_step(pool, me, from, old(self)@)
                    && burden(final(self)@.pending) < burden(old(self)@.pending),
                Err(_) => descends(pool, me, from, old(self)@) && final(self)@ == popped(old(self)@),
            },
            pool.reliable() && can_step(pool, me, from, old(self)@) ==> r is Ok,
    {
        let ghost start = self@;
        let e = match self.pending.pop() {
            Some(e) => e,
            None => {
                return Ok(());
            },
        };
        assert(start.pending.drop_last() =~= self@.pending);
        assert(start.pending.last() == e);
        proof {
            lemma_weight(e.kind as nat);
            lemma_burden(self@.pending);
        }
        let repeated: bool = self.seen.contains(&e);
        self.seen.insert(e, ());
        assert(self@.seen =~= start.seen.insert(e));
        assert(self@ == popped(start));
        if repeated {
            return Ok(());
        }
        if e.kind == 0 {
            let ours: bool = match pool.write_homes_of(&e.hash) {
                Some(homes) => names(&homes, me) && names(&homes, from),
                None => true,
            };
            if !ours {
                return Ok(());
            }
        }
        let shelf: u8 = if e.kind > 0 {
            0
        } else {
            e.tier
        };
        if pool.has_block(shelf, &e.hash) {
            if e.kind > 0 {
                let payload = match pool.block_payload(0, &e.hash) {
                    Ok(Some(payload)) => payload,
                    Ok(None) => {
                        return Err(FsError::Corrupt("a held block vanished mid-resync"));
                    },
                    Err(err) => {
                        assert(pool.holds(0).contains(e.hash));
                        return Err(err);
                    },
                };
                let kids = crate::map::children(&payload);
                let len: usize = payload.len();
                proof {
                    assert(len / 32 < fanout());
                    lemma_child_count(payload@, payload@.len() / 32);
                    assert(kids@ == kids_of(pool, e));
                    assert(kid_keys(pool, e).take(0) =~= Seq::<PullKey>::empty());
                    assert(popped(start).pending + Seq::<PullKey>::empty() =~= popped(start).pending);
                }
                let mut i: usize = 0;
                while i < kids.len()
                    invariant
                        self.wf(),
                        e.kind > 0,
                        i <= kids@.len(),
                        kids@ == kids_of(pool, e),
                        self@ == (PullView { pending: popped(start).pending + kid_keys(pool, e).take(i as int), ..popped(start) }),
                        burden(self@.pending) == burden(popped(start).pending) + i * weight((e.kind - 1) as nat),
                    decreases kids@.len() - i,
                {
                    let ghost was = self@.pending;
                    let kid = PullKey { tier: e.tier, kind: e.kind - 1, hash: kids[i] };
                    self.pending.push(kid);
                    proof {
                        assert(self@.pending == was.push(kid));
                        assert(was.push(kid).drop_last() =~= was);
                        assert((i + 1) * weight((e.kind - 1) as nat) == i * weight((e.kind - 1) as nat) + weight((e.kind - 1) as nat)) by (nonlinear_arith);
                        assert(self@.pending =~= popped(start).pending + kid_keys(pool, e).take(i + 1));
                    }
                    i += 1;
                }
                proof {
                    let w = weight((e.kind - 1) as nat);
                    lemma_weight((e.kind - 1) as nat);
                    assert(kids@.len() * w <= (fanout() - 1) * w) by (nonlinear_arith)
                        requires kids@.len() <= fanout() - 1, w >= 0;
                    assert((fanout() - 1) * w < fanout() * w) by (nonlinear_arith)
                        requires w >= 1;
                    assert(kid_keys(pool, e).take(i as int) =~= kid_keys(pool, e));
                }
            }
            return Ok(());
        }
        let key = TierHash { tier: shelf, hash: e.hash };
        let mut waiting: Vec<(u32, u8)> = match self.wanted.take(&key) {
            Some(waiting) => waiting,
            None => Vec::new(),
        };
        assert(waiting@ =~= awaited(start, shelf, e.hash));
        if waiting.len() == 0 {
            self.unrequested.push((shelf, e.hash));
        }
        if !awaits(&waiting, e.kind, e.tier) {
            waiting.push((e.kind, e.tier));
        }
        let ghost now = waiting@;
        self.wanted.insert(key, waiting);
        proof {
            assert(self@.wanted =~= start.wanted.insert(key, now));
            assert(self@ == pull_step(pool, me, from, start));
        }
        Ok(())
    }

    /// Resolves everything queued: walks down through what this node already
    /// holds, and lists what it does not. It descends into subtrees it
    /// already has rather than assuming them complete, because a pull that
    /// was cut short can have left a node whose children never arrived.
    pub(super) fn resolve<D: Disk>(&mut self, pool: &Pool<D>, me: NodeId, from: NodeId) -> (r: Result<()>)
        requires
            old(self).wf(),
            pool.inv(),
        ensures
            final(self).wf(),
            resolved(pool, me, from, old(self)@, final(self)@, r),
    {
        let ghost before = self@;
        let ghost mut n: nat = 0;
        proof {
            lemma_unmoved(pool, me, from, before);
        }
        while self.pending.len() > 0
            invariant
                before == old(self)@,
                self.wf(),
                pool.inv(),
                runs(pool, me, from, before, n),
                self@ == pulled(pool, me, from, before, n),
                progressed(pool, me, from, before, self@),
                walked(pool, me, from, before) ==> walked(pool, me, from, self@),
                forall|k: TierHash| #[trigger] self@.wanted.contains_key(k) ==> self@.wanted[k].len() > 0,
            decreases burden(self@.pending),
        {
            let ghost start = self@;
            proof {
                lemma_burden(start.pending);
            }
            let r = self.resolve_one(pool, me, from);
            if let Err(e) = r {
                proof {
                    lemma_popped(pool, me, from, before, start);
                    assert(got_stuck(pool, me, from, before, self@, n));
                }
                return Err(e);
            }
            proof {
                lemma_pull_step(pool, me, from, before, start);
                n = n + 1;
                lemma_burden(self@.pending);
            }
        }
        assert(self@.pending.len() == 0);
        assert(got_through(pool, me, from, before, self@, n));
        Ok(())
    }

    /// A wanted block has arrived: what waited on it is to be resolved.
    pub(super) fn arrived(&mut self, tier: u8, hash: BlockHash)
        requires
            old(self).wf(),
        ensures
            final(self).wf(),
            final(self)@ == after_arrival(old(self)@, tier, hash),
    {
        let ghost before = self@;
        if self.outstanding > 0 {
            self.outstanding -= 1;
        }
        let key = TierHash { tier, hash };
        let waiting: Vec<(u32, u8)> = match self.wanted.take(&key) {
            Some(waiting) => waiting,
            None => Vec::new(),
        };
        let ghost start = self@;
        assert(start.wanted =~= before.wanted.remove(key));
        assert(waiting@ == awaited(before, tier, hash));
        let mut i: usize = 0;
        assert(resumed(hash, waiting@.take(0)) =~= Seq::<PullKey>::empty());
        assert(start.pending + Seq::<PullKey>::empty() =~= start.pending);
        assert(start.seen.difference(resumed(hash, waiting@.take(0)).to_set()) =~= start.seen);
        while i < waiting.len()
            invariant
                i <= waiting@.len(),
                self.wf(),
                self@ == (PullView {
                    pending: start.pending + resumed(hash, waiting@.take(i as int)),
                    seen: start.seen.difference(resumed(hash, waiting@.take(i as int)).to_set()),
                    ..start
                }),
            decreases waiting@.len() - i,
        {
            let (kind, data_tier) = waiting[i];
            let ghost was = resumed(hash, waiting@.take(i as int));
            let ghost mid = self@;
            let e = PullKey { tier: data_tier, kind, hash };
            self.seen.remove(&e);
            self.pending.push(e);
            i += 1;
            proof {
                let now = resumed(hash, waiting@.take(i as int));
                assert(now =~= was.push(e));
                assert(self@.pending =~= start.pending + now);
                assert(self@.seen =~= mid.seen.remove(e));
                assert forall|k: PullKey| self@.seen.contains(k) <==> #[trigger] start.seen.difference(now.to_set()).contains(k) by {
                    if now.contains(k) && !was.contains(k) {
                        let j = choose|j: int| 0 <= j < now.len() && now[j] == k;
                        if j < was.len() {
                            assert(was[j] == k);
                        }
                    }
                    if was.contains(k) {
                        let j = choose|j: int| 0 <= j < was.len() && was[j] == k;
                        assert(now[j] == k);
                    }
                    assert(now[was.len() as int] == e);
                }
                assert(self@.seen =~= start.seen.difference(now.to_set()));
            }
        }
        assert(waiting@.take(i as int) =~= waiting@);
    }

    /// The next blocks to ask for: none while an answer is owed.
    pub(super) fn next_batch(&mut self) -> (r: Option<Vec<(u8, BlockHash)>>)
        requires
            old(self).wf(),
        ensures
            final(self).wf(),
            final(self)@ == after_asking(old(self)@),
            match r {
                Some(batch) => batch_due(old(self)@) && batch@ == old(self)@.unrequested.take(batch_len(old(self)@)),
                None => !batch_due(old(self)@),
            },
    {
        if self.outstanding > 0 || self.unrequested.len() == 0 {
            return None;
        }
        let take: usize = if self.unrequested.len() < SYNC_BATCH {
            self.unrequested.len()
        } else {
            SYNC_BATCH
        };
        let ghost all = self.unrequested@;
        let mut batch: Vec<(u8, BlockHash)> = Vec::new();
        let mut rest: Vec<(u8, BlockHash)> = Vec::new();
        let mut i: usize = 0;
        while i < self.unrequested.len()
            invariant
                i <= self.unrequested@.len(),
                self.unrequested@ == all,
                take <= all.len(),
                batch@ == all.take(if i < take { i as int } else { take as int }),
                rest@ == all.subrange(take as int, if i < take { take as int } else { i as int }),
            decreases self.unrequested@.len() - i,
        {
            let want = self.unrequested[i];
            if i < take {
                batch.push(want);
            } else {
                rest.push(want);
            }
            i += 1;
            assert(batch@ =~= all.take(if i < take { i as int } else { take as int }));
            assert(rest@ =~= all.subrange(take as int, if i < take { take as int } else { i as int }));
        }
        self.outstanding = batch.len();
        self.unrequested = rest;
        assert(self@.unrequested =~= all.skip(take as int));
        Some(batch)
    }

    /// Hands the offer out.
    pub(super) fn take_manifest(&mut self) -> (r: Option<SyncOffer>)
        requires
            old(self).wf(),
        ensures
            final(self).wf(),
            final(self)@ == (PullView { manifest: None, ..old(self)@ }),
            match r {
                Some(offer) => old(self)@.manifest == Some(offer@),
                None => old(self)@.manifest is None,
            },
    {
        self.manifest.take()
    }

    pub(super) fn is_complete(&self) -> (r: bool)
        requires
            self.wf(),
        ensures
            r == self@.complete(),
    {
        let empty: bool = self.wanted.len() == 0;
        proof {
            assert(self@.wanted.dom() =~= self.wanted@.dom());
            if empty {
                assert(self.wanted@.dom() =~= Set::<TierHash>::empty());
            }
        }
        self.pending.len() == 0 && empty && self.unrequested.len() == 0
    }
}

/// Roots as things to resolve.
pub open spec fn keys_of(roots: Seq<(BlockHash, u32, u8)>) -> Seq<PullKey> {
    Seq::new(roots.len(), |i: int| PullKey { tier: roots[i].2, kind: roots[i].1, hash: roots[i].0 })
}

/// Where a thing lives: nodes on tier 0, data on its vdisk's tier.
pub open spec fn address(e: PullKey) -> TierHash {
    TierHash {
        tier: if e.kind > 0 {
            0
        } else {
            e.tier
        },
        hash: e.hash,
    }
}

/// The homes a data block has now, if the pool is placed.
pub open spec fn homes_now<D: Disk>(pool: &Pool<D>, hash: BlockHash) -> Option<Seq<NodeId>> {
    match pool.seat() {
        None => None,
        Some((node, map)) => Some(
            write_homes(
                map.home_pair(hash),
                match pool.pending() {
                    Some(next) => Some(next.home_pair(hash)),
                    None => None,
                },
            ),
        ),
    }
}

/// A data block this session fetches: every pull walks every tree, and each
/// fetches what both its ends are homes of.
pub open spec fn shared<D: Disk>(pool: &Pool<D>, me: NodeId, from: NodeId, hash: BlockHash) -> bool {
    match homes_now(pool, hash) {
        None => true,
        Some(homes) => homes.contains(me) && homes.contains(from),
    }
}

/// The children of a node the store can produce.
pub open spec fn kids_of<D: Disk>(pool: &Pool<D>, e: PullKey) -> Seq<BlockHash> {
    child_list(pool.shelf(0)[e.hash], pool.shelf(0)[e.hash].len() / 32)
}

/// Resolved already, or still to be.
pub open spec fn listed(p: PullView, e: PullKey) -> bool {
    p.seen.contains(e) || p.pending.contains(e)
}

/// A held node, every child of which is listed.
pub open spec fn descended<D: Disk>(pool: &Pool<D>, p: PullView, e: PullKey) -> bool {
    &&& pool.shelf(0).contains_key(e.hash)
    &&& forall|c: BlockHash| #[trigger] kids_of(pool, e).contains(c) ==> listed(p, PullKey { tier: e.tier, kind: (e.kind - 1) as u32, hash: c })
}

/// A resolved thing: not this session's to fetch, held and descended into,
/// or waited for.
pub open spec fn entry_ok<D: Disk>(pool: &Pool<D>, me: NodeId, from: NodeId, p: PullView, e: PullKey) -> bool {
    ||| e.kind == 0 && !shared(pool, me, from, e.hash)
    ||| pool.holds(address(e).tier).contains(e.hash) && (e.kind > 0 ==> descended(pool, p, e))
    ||| p.wanted.contains_key(address(e)) && p.wanted[address(e)].contains((e.kind, e.tier))
}

/// Everything seen is resolved.
pub open spec fn walked<D: Disk>(pool: &Pool<D>, me: NodeId, from: NodeId, p: PullView) -> bool {
    forall|e: PullKey| #[trigger] p.seen.contains(e) ==> entry_ok(pool, me, from, p, e)
}

/// Wanted now and not before.
pub open spec fn newly_wanted(before: PullView, after: PullView, k: TierHash) -> bool {
    after.wanted.contains_key(k) && !before.wanted.contains_key(k)
}

/// What was waited for still is.
pub open spec fn wanted_kept(before: PullView, after: PullView) -> bool {
    forall|k: TierHash| #[trigger] before.wanted.contains_key(k) ==> after.wanted.contains_key(k) && forall|x: (u32, u8)| #[trigger]
        before.wanted[k].contains(x) ==> after.wanted[k].contains(x)
}

/// The children of a node, as things to resolve.
pub open spec fn kid_keys<D: Disk>(pool: &Pool<D>, e: PullKey) -> Seq<PullKey> {
    Seq::new(kids_of(pool, e).len(), |i: int| PullKey { tier: e.tier, kind: (e.kind - 1) as u32, hash: kids_of(pool, e)[i] })
}

/// A pull whose last pending thing counts as seen.
pub open spec fn popped(p: PullView) -> PullView {
    PullView { pending: p.pending.drop_last(), seen: p.seen.insert(p.pending.last()), ..p }
}

/// The last pending thing is this session's to see to: it was not seen
/// before, and it is a node or a data block that both ends are homes of.
pub open spec fn to_see_to<D: Disk>(pool: &Pool<D>, me: NodeId, from: NodeId, p: PullView) -> bool {
    let e = p.pending.last();
    !p.seen.contains(e) && (e.kind == 0 ==> shared(pool, me, from, e.hash))
}

/// It is a node this member holds, so the walk goes on below it.
pub open spec fn descends<D: Disk>(pool: &Pool<D>, me: NodeId, from: NodeId, p: PullView) -> bool {
    let e = p.pending.last();
    p.pending.len() > 0 && to_see_to(pool, me, from, p) && e.kind > 0 && pool.holds(0).contains(e.hash)
}

/// The next step of the walk can be made: a node to go below can be
/// produced.
pub open spec fn can_step<D: Disk>(pool: &Pool<D>, me: NodeId, from: NodeId, p: PullView) -> bool {
    p.pending.len() > 0 && (descends(pool, me, from, p) ==> pool.shelf(0).contains_key(p.pending.last().hash))
}

/// One step of the walk, on the last thing pending. What is held is walked
/// into; what is not is waited for, and asked for the first time it is
/// waited for.
pub open spec fn pull_step<D: Disk>(pool: &Pool<D>, me: NodeId, from: NodeId, p: PullView) -> PullView {
    let e = p.pending.last();
    let at = address(e);
    let q = popped(p);
    let waiting = awaited(p, at.tier, at.hash);
    if !to_see_to(pool, me, from, p) {
        q
    } else if descends(pool, me, from, p) {
        PullView { pending: q.pending + kid_keys(pool, e), ..q }
    } else if pool.holds(at.tier).contains(at.hash) {
        q
    } else {
        PullView {
            wanted: q.wanted.insert(
                at,
                if waiting.contains((e.kind, e.tier)) {
                    waiting
                } else {
                    waiting.push((e.kind, e.tier))
                },
            ),
            unrequested: if waiting.len() == 0 {
                q.unrequested.push((at.tier, at.hash))
            } else {
                q.unrequested
            },
            ..q
        }
    }
}

/// The pull after `n` steps of the walk.
pub open spec fn pulled<D: Disk>(pool: &Pool<D>, me: NodeId, from: NodeId, p: PullView, n: nat) -> PullView
    decreases n,
{
    if n == 0 {
        p
    } else {
        pull_step(pool, me, from, pulled(pool, me, from, p, (n - 1) as nat))
    }
}

/// Each of the first `n` steps of the walk can be made.
pub open spec fn runs<D: Disk>(pool: &Pool<D>, me: NodeId, from: NodeId, p: PullView, n: nat) -> bool
    decreases n,
{
    n > 0 ==> runs(pool, me, from, p, (n - 1) as nat) && can_step(pool, me, from, pulled(pool, me, from, p, (n - 1) as nat))
}

/// The walk came to its end.
pub open spec fn got_through<D: Disk>(pool: &Pool<D>, me: NodeId, from: NodeId, before: PullView, after: PullView, n: nat) -> bool {
    runs(pool, me, from, before, n) && after == pulled(pool, me, from, before, n) && after.pending.len() == 0
}

/// The walk came to a node it could not go below.
pub open spec fn got_stuck<D: Disk>(pool: &Pool<D>, me: NodeId, from: NodeId, before: PullView, after: PullView, n: nat) -> bool {
    let p = pulled(pool, me, from, before, n);
    runs(pool, me, from, before, n) && descends(pool, me, from, p) && after == popped(p)
}

/// Why a thing is listed: it was, or it is a child of a held node the walk
/// has come by.
pub open spec fn came_up<D: Disk>(pool: &Pool<D>, before: PullView, after: PullView, e: PullKey) -> bool {
    listed(before, e) || exists|parent: PullKey| #[trigger]
        after.seen.contains(parent) && parent.kind == e.kind + 1 && parent.tier == e.tier && pool.shelf(0).contains_key(parent.hash) && kids_of(
            pool,
            parent,
        ).contains(e.hash)
}

/// Something waits on an address that did not before.
pub open spec fn newly_awaited(before: PullView, after: PullView, k: TierHash, x: (u32, u8)) -> bool {
    after.wanted.contains_key(k) && after.wanted[k].contains(x) && !(before.wanted.contains_key(k) && before.wanted[k].contains(x))
}

/// A block is waited for only where the walk came by it, this member does
/// not hold it and, if it is data, both ends of the session are homes of it.
pub open spec fn only_its_share<D: Disk>(pool: &Pool<D>, me: NodeId, from: NodeId, before: PullView, after: PullView) -> bool {
    &&& forall|k: TierHash, x: (u32, u8)| #[trigger]
        newly_awaited(before, after, k, x) ==> {
            let e = PullKey { tier: x.1, kind: x.0, hash: k.hash };
            &&& address(e) == k
            &&& after.seen.contains(e)
            &&& !pool.holds(k.tier).contains(k.hash)
            &&& e.kind == 0 ==> shared(pool, me, from, e.hash)
        }
    &&& forall|e: PullKey| #[trigger] listed(after, e) ==> came_up(pool, before, after, e)
}

/// What every step of a walk keeps: what was listed stays listed, what was
/// waited for still is, and what is new is this session's share and is asked
/// for once.
pub open spec fn progressed<D: Disk>(pool: &Pool<D>, me: NodeId, from: NodeId, before: PullView, after: PullView) -> bool {
    let n = before.unrequested.len() as int;
    &&& after.outstanding == before.outstanding
    &&& after.manifest == before.manifest
    &&& before.seen.subset_of(after.seen)
    &&& forall|e: PullKey| #[trigger] before.pending.contains(e) ==> listed(after, e)
    &&& wanted_kept(before, after)
    &&& after.unrequested.len() >= n
    &&& after.unrequested.take(n) == before.unrequested
    &&& after.unrequested.skip(n).no_duplicates()
    &&& forall|k: TierHash| #[trigger] newly_wanted(before, after, k) <==> after.unrequested.skip(n).contains((k.tier, k.hash))
    &&& forall|k: TierHash| #[trigger] newly_wanted(before, after, k) ==> !pool.holds(k.tier).contains(k.hash) && after.wanted[k].len() > 0
    &&& only_its_share(pool, me, from, before, after)
}

/// What resolving comes to: the whole walk. It can fail only on a node the
/// store holds and cannot produce.
pub open spec fn resolved<D: Disk>(pool: &Pool<D>, me: NodeId, from: NodeId, before: PullView, after: PullView, r: Result<()>) -> bool {
    &&& progressed(pool, me, from, before, after)
    &&& pool.reliable() && (forall|h: BlockHash| #[trigger] pool.holds(0).contains(h) ==> pool.shelf(0).contains_key(h)) ==> r is Ok
    &&& match r {
        Ok(_) => {
            &&& exists|n: nat| #[trigger] got_through(pool, me, from, before, after, n)
            &&& forall|e: PullKey| #[trigger] before.pending.contains(e) ==> after.seen.contains(e)
            &&& walked(pool, me, from, before) ==> walked(pool, me, from, after)
        },
        Err(_) => exists|n: nat| #[trigger] got_stuck(pool, me, from, before, after, n),
    }
}

proof fn lemma_unmoved<D: Disk>(pool: &Pool<D>, me: NodeId, from: NodeId, p: PullView)
    ensures
        progressed(pool, me, from, p, p),
{
    let n = p.unrequested.len() as int;
    assert(p.unrequested.take(n) =~= p.unrequested);
    assert(p.unrequested.skip(n) =~= Seq::empty());
}

/// Taking the last pending thing up keeps everything else.
proof fn lemma_popped<D: Disk>(pool: &Pool<D>, me: NodeId, from: NodeId, before: PullView, p: PullView)
    requires
        progressed(pool, me, from, before, p),
        p.pending.len() > 0,
    ensures
        progressed(pool, me, from, before, popped(p)),
        forall|k: PullKey| #[trigger] listed(p, k) <==> listed(popped(p), k),
{
    let q = popped(p);
    let e = p.pending.last();
    assert forall|k: PullKey| #[trigger] listed(p, k) <==> listed(q, k) by {
        if p.pending.contains(k) && k != e {
            let j = choose|j: int| 0 <= j < p.pending.len() && p.pending[j] == k;
            assert(q.pending[j] == k);
        }
        if q.pending.contains(k) {
            let j = choose|j: int| 0 <= j < q.pending.len() && q.pending[j] == k;
            assert(p.pending[j] == k);
        }
        if k == e {
            assert(p.pending[p.pending.len() - 1] == e);
        }
    }
    assert forall|k: TierHash| #[trigger] newly_wanted(before, q, k) == newly_wanted(before, p, k) by {}
    assert forall|k: TierHash, x: (u32, u8)| #[trigger] newly_awaited(before, q, k, x) == newly_awaited(before, p, k, x) by {}
    assert forall|k: PullKey| #[trigger] listed(q, k) implies came_up(pool, before, q, k) by {
        assert(listed(p, k));
        assert(came_up(pool, before, p, k));
        if !listed(before, k) {
            let parent = choose|parent: PullKey| #[trigger]
                p.seen.contains(parent) && parent.kind == k.kind + 1 && parent.tier == k.tier && pool.shelf(0).contains_key(parent.hash) && kids_of(
                    pool,
                    parent,
                ).contains(k.hash);
            assert(q.seen.contains(parent));
        }
    }
}

/// What a step of the walk keeps.
proof fn lemma_pull_step<D: Disk>(pool: &Pool<D>, me: NodeId, from: NodeId, before: PullView, p: PullView)
    requires
        progressed(pool, me, from, before, p),
        can_step(pool, me, from, p),
        forall|k: TierHash| #[trigger] p.wanted.contains_key(k) ==> p.wanted[k].len() > 0,
        walked(pool, me, from, before) ==> walked(pool, me, from, p),
    ensures
        progressed(pool, me, from, before, pull_step(pool, me, from, p)),
        walked(pool, me, from, before) ==> walked(pool, me, from, pull_step(pool, me, from, p)),
{
    let q = popped(p);
    let t = pull_step(pool, me, from, p);
    let e = p.pending.last();
    lemma_popped(pool, me, from, before, p);
    if p.seen.contains(e) {
        assert(q.seen =~= p.seen);
        lemma_walked_grows(pool, me, from, before, p, q);
    } else if descends(pool, me, from, p) {
        lemma_descended(pool, me, from, before, p);
    } else if to_see_to(pool, me, from, p) && !pool.holds(address(e).tier).contains(e.hash) {
        lemma_awaited(pool, me, from, before, p);
    }
    if !p.seen.contains(e) && walked(pool, me, from, before) {
        lemma_step_walked(pool, me, from, p, t, e);
    }
}

proof fn lemma_descended<D: Disk>(pool: &Pool<D>, me: NodeId, from: NodeId, before: PullView, p: PullView)
    requires
        progressed(pool, me, from, before, popped(p)),
        can_step(pool, me, from, p),
        descends(pool, me, from, p),
        forall|k: PullKey| #[trigger] listed(p, k) <==> listed(popped(p), k),
    ensures
        progressed(pool, me, from, before, pull_step(pool, me, from, p)),
        forall|k: PullKey| #[trigger] listed(p, k) ==> listed(pull_step(pool, me, from, p), k),
        entry_ok(pool, me, from, pull_step(pool, me, from, p), p.pending.last()),
{
    let q = popped(p);
    let t = pull_step(pool, me, from, p);
    let e = p.pending.last();
    let kids = kid_keys(pool, e);
    assert forall|k: PullKey| #[trigger] listed(q, k) implies listed(t, k) by {
        if q.pending.contains(k) {
            let j = choose|j: int| 0 <= j < q.pending.len() && q.pending[j] == k;
            assert(t.pending[j] == k);
        }
    }
    assert forall|k: PullKey| #[trigger] before.pending.contains(k) implies listed(t, k) by {
        assert(listed(q, k));
    }
    assert forall|k: PullKey| #[trigger] listed(p, k) implies listed(t, k) by {
        assert(listed(q, k));
    }
    assert forall|c: BlockHash| #[trigger] kids_of(pool, e).contains(c) implies listed(t, PullKey { tier: e.tier, kind: (e.kind - 1) as u32, hash: c }) by {
        let j = choose|j: int| 0 <= j < kids_of(pool, e).len() && kids_of(pool, e)[j] == c;
        assert(t.pending[q.pending.len() + j] == kids[j]);
    }
    assert forall|k: TierHash| #[trigger] newly_wanted(before, t, k) == newly_wanted(before, q, k) by {}
    assert forall|k: TierHash, x: (u32, u8)| #[trigger] newly_awaited(before, t, k, x) == newly_awaited(before, q, k, x) by {}
    assert forall|k: PullKey| #[trigger] listed(t, k) implies came_up(pool, before, t, k) by {
        if listed(q, k) {
            assert(came_up(pool, before, q, k));
        } else {
            let j = choose|j: int| 0 <= j < t.pending.len() && t.pending[j] == k;
            if j < q.pending.len() {
                assert(q.pending[j] == k);
            }
            let c = kids_of(pool, e)[j - q.pending.len()];
            assert(k == kids[j - q.pending.len()]);
            assert(kids_of(pool, e).contains(c));
            assert(t.seen.contains(e));
        }
    }
    assert(descended(pool, t, e));
}

proof fn lemma_awaited<D: Disk>(pool: &Pool<D>, me: NodeId, from: NodeId, before: PullView, p: PullView)
    requires
        progressed(pool, me, from, before, popped(p)),
        p.pending.len() > 0,
        to_see_to(pool, me, from, p),
        !pool.holds(address(p.pending.last()).tier).contains(p.pending.last().hash),
        forall|k: TierHash| #[trigger] p.wanted.contains_key(k) ==> p.wanted[k].len() > 0,
        forall|k: PullKey| #[trigger] listed(p, k) <==> listed(popped(p), k),
    ensures
        progressed(pool, me, from, before, pull_step(pool, me, from, p)),
        wanted_kept(p, pull_step(pool, me, from, p)),
        forall|k: PullKey| #[trigger] listed(p, k) ==> listed(pull_step(pool, me, from, p), k),
        entry_ok(pool, me, from, pull_step(pool, me, from, p), p.pending.last()),
{
    let q = popped(p);
    let t = pull_step(pool, me, from, p);
    let e = p.pending.last();
    let at = address(e);
    let w0 = awaited(p, at.tier, at.hash);
    let w1 = t.wanted[at];
    let n = before.unrequested.len() as int;
    let (old_news, news) = (q.unrequested.skip(n), t.unrequested.skip(n));
    assert(at == TierHash { tier: at.tier, hash: at.hash });
    assert forall|x: (u32, u8)| #[trigger] w0.contains(x) implies w1.contains(x) by {
        let j = choose|j: int| 0 <= j < w0.len() && w0[j] == x;
        assert(w1[j] == x);
    }
    assert(w1.contains((e.kind, e.tier))) by {
        if !w0.contains((e.kind, e.tier)) {
            assert(w1[w0.len() as int] == (e.kind, e.tier));
        }
    }
    assert forall|x: (u32, u8)| #[trigger] w1.contains(x) implies w0.contains(x) || x == (e.kind, e.tier) by {
        let j = choose|j: int| 0 <= j < w1.len() && w1[j] == x;
        if j < w0.len() {
            assert(w0[j] == x);
        }
    }
    assert forall|k: PullKey| #[trigger] listed(q, k) == listed(t, k) by {}
    assert(t.unrequested.take(n) =~= q.unrequested.take(n));
    assert forall|k: TierHash| #[trigger] newly_wanted(before, t, k) == (newly_wanted(before, q, k) || k == at && !before.wanted.contains_key(at)) by {}
    if w0.len() == 0 {
        assert(!p.wanted.contains_key(at));
        assert(!before.wanted.contains_key(at));
        assert(news =~= old_news.push((at.tier, at.hash)));
        assert(!old_news.contains((at.tier, at.hash))) by {
            if old_news.contains((at.tier, at.hash)) {
                assert(newly_wanted(before, q, at));
            }
        }
        assert forall|k: TierHash| #[trigger] newly_wanted(before, t, k) implies news.contains((k.tier, k.hash)) by {
            if k == at {
                assert(news[old_news.len() as int] == (k.tier, k.hash));
            } else {
                assert(newly_wanted(before, q, k));
                let j = choose|j: int| 0 <= j < old_news.len() && old_news[j] == (k.tier, k.hash);
                assert(news[j] == (k.tier, k.hash));
            }
        }
        assert forall|k: TierHash| news.contains((k.tier, k.hash)) implies #[trigger] newly_wanted(before, t, k) by {
            let j = choose|j: int| 0 <= j < news.len() && news[j] == (k.tier, k.hash);
            if j < old_news.len() {
                assert(old_news[j] == (k.tier, k.hash));
                assert(newly_wanted(before, q, k));
            } else {
                assert(k == at);
            }
        }
    } else {
        assert(p.wanted.contains_key(at));
        assert forall|k: TierHash| #[trigger] newly_wanted(before, t, k) == newly_wanted(before, q, k) by {}
    }
    assert forall|k: TierHash, x: (u32, u8)| #[trigger] newly_awaited(before, t, k, x) implies ({
        let f = PullKey { tier: x.1, kind: x.0, hash: k.hash };
        &&& address(f) == k
        &&& t.seen.contains(f)
        &&& !pool.holds(k.tier).contains(k.hash)
        &&& f.kind == 0 ==> shared(pool, me, from, f.hash)
    }) by {
        if k != at {
            assert(newly_awaited(before, q, k, x));
        } else if x == (e.kind, e.tier) {
            assert(PullKey { tier: x.1, kind: x.0, hash: k.hash } == e);
        } else {
            assert(w0.contains(x));
            assert(newly_awaited(before, q, k, x));
        }
    }
    assert forall|k: PullKey| #[trigger] listed(t, k) implies came_up(pool, before, t, k) by {
        assert(listed(q, k));
        assert(came_up(pool, before, q, k));
    }
}

/// What waits on a block.
pub open spec fn awaited(p: PullView, tier: u8, hash: BlockHash) -> Seq<(u32, u8)> {
    if p.wanted.contains_key(TierHash { tier, hash }) {
        p.wanted[TierHash { tier, hash }]
    } else {
        Seq::empty()
    }
}

/// The same, as things to resolve.
pub open spec fn resumed(hash: BlockHash, waiting: Seq<(u32, u8)>) -> Seq<PullKey> {
    Seq::new(waiting.len(), |i: int| PullKey { tier: waiting[i].1, kind: waiting[i].0, hash })
}

/// A pull once a block has arrived.
pub open spec fn after_arrival(p: PullView, tier: u8, hash: BlockHash) -> PullView {
    let back = resumed(hash, awaited(p, tier, hash));
    PullView {
        pending: p.pending + back,
        seen: p.seen.difference(back.to_set()),
        wanted: p.wanted.remove(TierHash { tier, hash }),
        outstanding: if p.outstanding > 0 {
            (p.outstanding - 1) as nat
        } else {
            0
        },
        ..p
    }
}

/// A batch may be asked for.
pub open spec fn batch_due(p: PullView) -> bool {
    p.outstanding == 0 && p.unrequested.len() > 0
}

pub open spec fn batch_len(p: PullView) -> int {
    if p.unrequested.len() < SYNC_BATCH {
        p.unrequested.len() as int
    } else {
        SYNC_BATCH as int
    }
}

/// A pull once the next batch has been asked for.
pub open spec fn after_asking(p: PullView) -> PullView {
    if batch_due(p) {
        PullView {
            unrequested: p.unrequested.skip(batch_len(p)),
            outstanding: batch_len(p) as nat,
            ..p
        }
    } else {
        p
    }
}

/// A tree with no hole in it: every node is held, and so is every data block
/// that this session fetches.
pub open spec fn whole<D: Disk>(pool: &Pool<D>, me: NodeId, from: NodeId, hash: BlockHash, kind: nat, tier: u8) -> bool
    decreases kind,
{
    if kind == 0 {
        !shared(pool, me, from, hash) || pool.holds(tier).contains(hash)
    } else {
        &&& pool.shelf(0).contains_key(hash)
        &&& forall|c: BlockHash| #[trigger]
            child_list(pool.shelf(0)[hash], pool.shelf(0)[hash].len() / 32).contains(c) ==> whole(pool, me, from, c, (kind - 1) as nat, tier)
    }
}

/// A completed pull leaves no hole: once nothing is left to resolve, to ask
/// for or to wait for, every tree that was ever listed is whole.
pub proof fn law_complete_pull_has_no_holes<D: Disk>(pool: &Pool<D>, me: NodeId, from: NodeId, p: PullView, e: PullKey)
    requires
        walked(pool, me, from, p),
        p.complete(),
        listed(p, e),
    ensures
        whole(pool, me, from, e.hash, e.kind as nat, e.tier),
    decreases e.kind,
{
    assert(p.seen.contains(e));
    assert(!p.wanted.dom().contains(address(e)));
    if e.kind > 0 {
        assert(descended(pool, p, e));
        assert forall|c: BlockHash| #[trigger]
            child_list(pool.shelf(0)[e.hash], pool.shelf(0)[e.hash].len() / 32).contains(c) implies whole(pool, me, from, c, (e.kind - 1) as nat, e.tier) by {
            assert(kids_of(pool, e).contains(c));
            law_complete_pull_has_no_holes(pool, me, from, p, PullKey { tier: e.tier, kind: (e.kind - 1) as u32, hash: c });
        }
    }
}

/// A pull that begins with nothing seen is sound, and lists every root it was
/// given; resolving it keeps it so.
pub proof fn law_a_fresh_pull_walks_every_root<D: Disk>(pool: &Pool<D>, me: NodeId, from: NodeId, begun: PullView, p: PullView, r: Result<()>)
    requires
        begun.seen == Set::<PullKey>::empty(),
        resolved(pool, me, from, begun, p, r),
        r is Ok,
    ensures
        walked(pool, me, from, p),
        forall|e: PullKey| #[trigger] begun.pending.contains(e) ==> listed(p, e),
{
    assert(walked(pool, me, from, begun));
}

/// The walk stays sound when a block arrives: what waited on it is listed
/// again, and nothing else changes.
pub proof fn law_arrival_keeps_the_walk<D: Disk>(pool: &Pool<D>, me: NodeId, from: NodeId, p: PullView, tier: u8, hash: BlockHash)
    requires
        walked(pool, me, from, p),
    ensures
        walked(pool, me, from, after_arrival(p, tier, hash)),
        forall|e: PullKey| #[trigger] listed(p, e) ==> listed(after_arrival(p, tier, hash), e),
{
    let q = after_arrival(p, tier, hash);
    let waiting = awaited(p, tier, hash);
    let back = resumed(hash, waiting);
    assert forall|e: PullKey| #[trigger] listed(p, e) implies listed(q, e) by {
        if p.pending.contains(e) {
            let j = choose|j: int| 0 <= j < p.pending.len() && p.pending[j] == e;
            assert(q.pending[j] == e);
        } else if back.contains(e) {
            let j = choose|j: int| 0 <= j < back.len() && back[j] == e;
            assert(q.pending[p.pending.len() + j] == e);
        } else {
            assert(!back.to_set().contains(e));
        }
    }
    assert forall|e: PullKey| #[trigger] q.seen.contains(e) implies entry_ok(pool, me, from, q, e) by {
        assert(p.seen.contains(e));
        assert(entry_ok(pool, me, from, p, e));
        if p.wanted.contains_key(address(e)) && p.wanted[address(e)].contains((e.kind, e.tier)) {
            if address(e) == (TierHash { tier, hash }) {
                let j = choose|j: int| 0 <= j < waiting.len() && waiting[j] == (e.kind, e.tier);
                assert(back[j] == e);
                assert(back.to_set().contains(e));
            }
        }
    }
}

/// The walk stays sound while the store only grows.
pub proof fn law_growth_keeps_the_walk<D: Disk>(a: &Pool<D>, b: &Pool<D>, me: NodeId, from: NodeId, p: PullView)
    requires
        walked(a, me, from, p),
        b.seat() == a.seat(),
        b.pending() == a.pending(),
        forall|t: u8| #[trigger] a.holds(t).subset_of(b.holds(t)),
        forall|h: BlockHash| #[trigger] a.shelf(0).contains_key(h) ==> b.shelf(0).contains_key(h) && b.shelf(0)[h] == a.shelf(0)[h],
    ensures
        walked(b, me, from, p),
{
    assert forall|e: PullKey| #[trigger] p.seen.contains(e) implies entry_ok(b, me, from, p, e) by {
        assert(entry_ok(a, me, from, p, e));
        assert(a.holds(address(e).tier).subset_of(b.holds(address(e).tier)));
        if a.shelf(0).contains_key(e.hash) {
            assert(kids_of(b, e) == kids_of(a, e));
        }
    }
}

/// Above what a node can have children.
pub open spec fn fanout() -> int {
    0x1000_0000_0000_0000
}

pub open spec fn weight(kind: nat) -> int
    decreases kind,
{
    if kind == 0 {
        1
    } else {
        fanout() * weight((kind - 1) as nat)
    }
}

pub open spec fn burden(s: Seq<PullKey>) -> int
    decreases s.len(),
{
    if s.len() == 0 {
        0
    } else {
        burden(s.drop_last()) + weight(s.last().kind as nat)
    }
}

pub(super) proof fn lemma_weight(kind: nat)
    ensures
        weight(kind) >= 1,
    decreases kind,
{
    if kind > 0 {
        lemma_weight((kind - 1) as nat);
        let w = weight((kind - 1) as nat);
        assert(fanout() * w >= 1) by (nonlinear_arith)
            requires w >= 1;
    }
}

pub(super) proof fn lemma_burden(s: Seq<PullKey>)
    ensures
        burden(s) >= 0,
    decreases s.len(),
{
    if s.len() > 0 {
        lemma_burden(s.drop_last());
        lemma_weight(s.last().kind as nat);
    }
}

pub(super) proof fn lemma_child_count(node: Seq<u8>, n: nat)
    ensures
        child_list(node, n).len() <= n,
    decreases n,
{
    if n > 0 {
        lemma_child_count(node, (n - 1) as nat);
    }
}

proof fn lemma_walked_grows<D: Disk>(pool: &Pool<D>, me: NodeId, from: NodeId, before: PullView, p: PullView, q: PullView)
    requires
        walked(pool, me, from, before) ==> walked(pool, me, from, p),
        q.seen == p.seen,
        q.wanted == p.wanted,
        forall|k: PullKey| #[trigger] listed(p, k) ==> listed(q, k),
    ensures
        walked(pool, me, from, before) ==> walked(pool, me, from, q),
{
    if walked(pool, me, from, before) {
        assert forall|e: PullKey| #[trigger] q.seen.contains(e) implies entry_ok(pool, me, from, q, e) by {
            assert(p.seen.contains(e));
            assert(entry_ok(pool, me, from, p, e));
        }
    }
}

proof fn lemma_step_walked<D: Disk>(pool: &Pool<D>, me: NodeId, from: NodeId, p: PullView, q: PullView, e: PullKey)
    requires
        walked(pool, me, from, p),
        q.seen == p.seen.insert(e),
        wanted_kept(p, q),
        forall|k: PullKey| #[trigger] listed(p, k) ==> listed(q, k),
        entry_ok(pool, me, from, q, e),
    ensures
        walked(pool, me, from, q),
{
    assert forall|k: PullKey| #[trigger] q.seen.contains(k) implies entry_ok(pool, me, from, q, k) by {
        if k != e {
            assert(p.seen.contains(k));
            assert(entry_ok(pool, me, from, p, k));
        }
    }
}

/// A list names a node.
pub(super) fn names(list: &Vec<NodeId>, node: NodeId) -> (r: bool)
    ensures
        r == list@.contains(node),
{
    let mut i: usize = 0;
    while i < list.len()
        invariant
            i <= list@.len(),
            forall|j: int| 0 <= j < i ==> #[trigger] list@[j] != node,
        decreases list@.len() - i,
    {
        if list[i] == node {
            return true;
        }
        i += 1;
    }
    false
}

fn awaits(list: &Vec<(u32, u8)>, kind: u32, tier: u8) -> (r: bool)
    ensures
        r == list@.contains((kind, tier)),
{
    let mut i: usize = 0;
    while i < list.len()
        invariant
            i <= list@.len(),
            forall|j: int| 0 <= j < i ==> #[trigger] list@[j] != (kind, tier),
        decreases list@.len() - i,
    {
        let entry = list[i];
        if entry.0 == kind && entry.1 == tier {
            return true;
        }
        i += 1;
    }
    false
}

} // verus!
