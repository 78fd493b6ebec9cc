//! The set as a whole: its figures, its barrier, its scrub and its
//! collection.

use super::ops::{alike, holds_same, lemma_alike, lemma_holds_same, tier_exists, tier_room};
use super::{brick_before, entry_of_brick, lemma_roomed_twice, lemma_route, one_changed, roomed, route, route_from, serves, set_fault, tier_blocks, tier_claims, tier_held, BrickSet};
use crate::brick::read::{capped, space_of, total_length};
use crate::brick::{capped_sum, space_sum, Brick, BrickStats, ByteSpace, GcStats};
use crate::disk::Disk;
use crate::error::Result;
use crate::format::{RosterEntry, Superblock, ROSTER_CAP};
use crate::hash::BlockHash;
use crate::store::{BlockRead, BlockWrite};
use crate::table::{ascending, BlockSet, SortKey, SortedMap, TierHash};
use vstd::prelude::*;

verus! {

/// One brick's figures.
pub open spec fn stats_of<D: Disk>(b: Brick<D>) -> BrickStats {
    BrickStats {
        blocks: b.held().len() as u64,
        segments_total: b.superblock().segment_count,
        segments_live: (b.superblock().segment_count - b.free_list().len()) as u64,
        segments_free: b.free_list().len() as u64,
        payload_bytes: capped(total_length(b.catalogue())),
    }
}

/// The figures of the first `n` bricks added up.
pub open spec fn stats_sum<D: Disk>(bricks: Seq<Brick<D>>, n: nat) -> BrickStats
    decreases n,
{
    if n == 0 {
        BrickStats { blocks: 0, segments_total: 0, segments_live: 0, segments_free: 0, payload_bytes: 0 }
    } else {
        let a = stats_sum(bricks, (n - 1) as nat);
        let b = stats_of(bricks[n - 1]);
        BrickStats {
            blocks: capped_sum(a.blocks, b.blocks),
            segments_total: capped_sum(a.segments_total, b.segments_total),
            segments_live: capped_sum(a.segments_live, b.segments_live),
            segments_free: capped_sum(a.segments_free, b.segments_free),
            payload_bytes: capped_sum(a.payload_bytes, b.payload_bytes),
        }
    }
}

/// The set's space in bytes.
#[derive(Debug, Clone, PartialEq, Eq)]
pub struct SpaceReport {
    /// Ascending by tier; every tier the set carries appears.
    pub tiers: Vec<TierSpace>,
}

/// One tier's space: the summed figures and each brick's own.
#[derive(Debug, Clone, PartialEq, Eq)]
pub struct TierSpace {
    pub tier: u8,
    pub space: ByteSpace,
    pub bricks: Vec<BrickSpace>,
}

/// One brick's space, with enough identity to say which disk it is.
#[derive(Debug, Clone, Copy, PartialEq, Eq)]
pub struct BrickSpace {
    pub brick_uuid: [u8; 16],
    pub tier: u8,
    pub wal_holder: bool,
    pub space: ByteSpace,
}

/// One brick's line of the report.
pub open spec fn brick_line<D: Disk>(b: Brick<D>) -> BrickSpace {
    BrickSpace {
        brick_uuid: b.superblock().brick_uuid,
        tier: b.superblock().tier,
        wal_holder: b.superblock().wal_holder,
        space: space_of(b.superblock(), b.kept_back(), b.free_list().len(), capped(total_length(b.catalogue()))),
    }
}

/// The lines of one tier among the first `n` bricks, in the set's order.
pub open spec fn tier_lines<D: Disk>(bricks: Seq<Brick<D>>, tier: u8, n: nat) -> Seq<BrickSpace>
    decreases n,
{
    if n == 0 {
        Seq::empty()
    } else {
        let before = tier_lines(bricks, tier, (n - 1) as nat);
        if bricks[n - 1].superblock().tier == tier {
            before.push(brick_line(bricks[n - 1]))
        } else {
            before
        }
    }
}

/// The figures of lines added up, the first taken as it is.
pub open spec fn lines_sum(lines: Seq<BrickSpace>) -> ByteSpace
    decreases lines.len(),
{
    if lines.len() == 0 {
        ByteSpace { usable_bytes: 0, free_bytes: 0, payload_bytes: 0 }
    } else {
        space_sum(lines_sum(lines.drop_last()), lines.last().space)
    }
}

/// One tier of the report says what its bricks say.
pub open spec fn tier_told<D: Disk>(t: TierSpace, bricks: Seq<Brick<D>>, n: nat) -> bool {
    &&& t.bricks@ == tier_lines(bricks, t.tier, n)
    &&& t.bricks@.len() > 0
    &&& t.space == lines_sum(t.bricks@)
}

/// The report has a line for the tier.
pub open spec fn tells(tiers: Seq<TierSpace>, t: u8) -> bool {
    exists|k: int| 0 <= k < tiers.len() && (#[trigger] tiers[k]).tier == t
}

/// The figures of one brick's collection.
pub open spec fn one_figure<D: Disk>(a: Seq<Brick<D>>, b: Seq<Brick<D>>, live: Set<TierHash>, stats: GcStats, i: int) -> bool {
    &&& b[i].swept_figures(&a[i], live_on(a, live, i), stats)
    &&& b[i].compacted_well(&a[i], live_on(a, live, i), stats)
    &&& a[i].reliable() && a[i].intact() && a[i].compaction_due(live_on(a, live, i)) ==> stats.segments_compacted > 0
}

/// The figures of every brick's collection.
pub open spec fn brick_figures<D: Disk>(a: Seq<Brick<D>>, b: Seq<Brick<D>>, live: Set<TierHash>, each: Seq<GcStats>) -> bool {
    &&& each.len() == a.len()
    &&& forall|i: int| 0 <= i < a.len() ==> one_figure(a, b, live, #[trigger] each[i], i)
}

/// Two counts added up, as far as a word can hold them.
pub open spec fn capped_add(a: u64, b: u64) -> u64 {
    if a + b > u64::MAX {
        u64::MAX
    } else {
        (a + b) as u64
    }
}

/// Figures added up.
pub open spec fn summed(each: Seq<GcStats>) -> GcStats
    decreases each.len(),
{
    if each.len() == 0 {
        GcStats { blocks_dropped: 0, blocks_moved: 0, segments_freed: 0, segments_compacted: 0 }
    } else {
        let (sum, last) = (summed(each.drop_last()), each.last());
        GcStats {
            blocks_dropped: capped_add(sum.blocks_dropped, last.blocks_dropped),
            blocks_moved: capped_add(sum.blocks_moved, last.blocks_moved),
            segments_freed: capped_add(sum.segments_freed, last.segments_freed),
            segments_compacted: capped_add(sum.segments_compacted, last.segments_compacted),
        }
    }
}

/// The live addresses that a brick is to keep.
pub open spec fn live_on<D: Disk>(a: Seq<Brick<D>>, live: Set<TierHash>, i: int) -> Set<BlockHash> {
    Set::new(|h: BlockHash| a[i].held().contains(h) && kept_on(a, live, i, h))
}

/// What a collection keeps of one brick: the live addresses routed to it.
pub open spec fn kept_on<D: Disk>(bricks: Seq<Brick<D>>, live: Set<TierHash>, i: int, h: BlockHash) -> bool {
    let tier = bricks[i].superblock().tier;
    live.contains(TierHash { tier, hash: h }) && route(bricks, tier, h) == Some(i)
}

/// Brick `b` is `a` swept down to what a collection keeps.
pub open spec fn swept<D: Disk>(bricks: Seq<Brick<D>>, live: Set<TierHash>, i: int, b: Brick<D>) -> bool {
    &&& b.same_shape(&bricks[i])
    &&& forall|h: BlockHash| #[trigger] b.held().contains(h) <==> bricks[i].held().contains(h) && kept_on(bricks, live, i, h)
    &&& forall|h: BlockHash| #[trigger] b.blocks().contains_key(h) <==> bricks[i].blocks().contains_key(h) && kept_on(bricks, live, i, h)
    &&& forall|h: BlockHash| #[trigger] b.blocks().contains_key(h) ==> b.blocks()[h] == bricks[i].blocks()[h]
    &&& forall|h: BlockHash, p: Seq<u8>| #[trigger] b.claims().contains((h, p)) <==> bricks[i].claims().contains((h, p)) && kept_on(bricks, live, i, h)
}

/// Nothing live is lost, and what is left reads back as it did.
pub open spec fn nothing_live_lost<D: Disk>(a: Seq<Brick<D>>, b: Seq<Brick<D>>, live: Set<TierHash>) -> bool {
    &&& forall|t: u8, h: BlockHash| live.contains(TierHash { tier: t, hash: h }) && #[trigger] tier_held(a, t).contains(h) ==> tier_held(b, t).contains(h)
    &&& forall|t: u8, h: BlockHash| #[trigger] tier_held(b, t).contains(h) ==> tier_held(a, t).contains(h)
    &&& forall|t: u8, h: BlockHash| live.contains(TierHash { tier: t, hash: h }) ==> (#[trigger] tier_blocks(b, t).contains_key(h) == tier_blocks(a, t).contains_key(h))
    &&& forall|t: u8, h: BlockHash| live.contains(TierHash { tier: t, hash: h }) && #[trigger] tier_blocks(b, t).contains_key(h) ==> tier_blocks(b, t)[h] == tier_blocks(a, t)[h]
    &&& forall|t: u8, h: BlockHash, p: Seq<u8>| live.contains(TierHash { tier: t, hash: h }) ==> (#[trigger] tier_claims(b, t).contains((h, p)) == tier_claims(a, t).contains((h, p)))
}

/// What a sweep of the first bricks does to the tiers.
proof fn lemma_swept<D: Disk>(a: Seq<Brick<D>>, b: Seq<Brick<D>>, live: Set<TierHash>, done: int)
    requires
        a.len() == b.len(),
        0 <= done <= a.len(),
        forall|i: int| 0 <= i < a.len() ==> (#[trigger] a[i]).inv(),
        forall|i: int| 0 <= i < done ==> swept(a, live, i, #[trigger] b[i]),
        forall|i: int| done <= i < a.len() ==> alike(a[i], #[trigger] b[i]) || swept(a, live, i, b[i]),
    ensures
        nothing_live_lost(a, b, live),
        done == a.len() ==> forall|t: u8, h: BlockHash| #[trigger] tier_held(b, t).contains(h) ==> live.contains(TierHash { tier: t, hash: h }),
{
    assert forall|t: u8, h: BlockHash| live.contains(TierHash { tier: t, hash: h }) implies #[trigger] route(b, t, h) == route(a, t, h) && (route(a, t, h) matches Some(i) ==> 0 <= i < a.len() && b[i].held().contains(h)) by {
        lemma_route(a, t, h, 0);
        match route(a, t, h) {
            Some(i) => {
                lemma_route_first(a, t, h, 0);
                assert(kept_on(a, live, i, h));
                assert(b[i].same_shape(&a[i]) && b[i].held().contains(h)) by {
                    if i < done {
                        assert(swept(a, live, i, b[i]));
                    } else {
                        assert(alike(a[i], b[i]) || swept(a, live, i, b[i]));
                    }
                }
                assert(serves(b[i], t, h));
                assert forall|j: int| 0 <= j < i implies !serves(#[trigger] b[j], t, h) by {
                    assert(!serves(a[j], t, h));
                    assert(swept(a, live, j, b[j]) || alike(a[j], b[j]));
                }
                lemma_route_is(b, t, h, 0, i);
            },
            None => {
                lemma_route(b, t, h, 0);
                if let Some(i) = route(b, t, h) {
                    assert(swept(a, live, i, b[i]) || alike(a[i], b[i]));
                    assert(serves(a[i], t, h));
                }
            },
        }
    }
    assert forall|t: u8, h: BlockHash| #[trigger] tier_held(b, t).contains(h) implies tier_held(a, t).contains(h) && (done == a.len() ==> live.contains(TierHash { tier: t, hash: h })) by {
        lemma_route(b, t, h, 0);
        lemma_route(a, t, h, 0);
        let i = route(b, t, h)->Some_0;
        assert(swept(a, live, i, b[i]) || alike(a[i], b[i]));
        assert(serves(a[i], t, h));
    }
    assert forall|t: u8, h: BlockHash| live.contains(TierHash { tier: t, hash: h }) implies (#[trigger] tier_blocks(b, t).contains_key(h) == tier_blocks(a, t).contains_key(h)) && (tier_blocks(b, t).contains_key(h) ==> tier_blocks(b, t)[h] == tier_blocks(a, t)[h]) by {
        assert(route(b, t, h) == route(a, t, h));
        if let Some(i) = route(a, t, h) {
            lemma_route(a, t, h, 0);
            assert(swept(a, live, i, b[i]) || alike(a[i], b[i]));
            assert(kept_on(a, live, i, h));
        }
    }
    assert forall|t: u8, h: BlockHash, p: Seq<u8>| live.contains(TierHash { tier: t, hash: h }) implies (#[trigger] tier_claims(b, t).contains((h, p)) == tier_claims(a, t).contains((h, p))) by {
        assert(route(b, t, h) == route(a, t, h));
        if let Some(i) = route(a, t, h) {
            lemma_route(a, t, h, 0);
            assert(swept(a, live, i, b[i]) || alike(a[i], b[i]));
            assert(kept_on(a, live, i, h));
        }
    }
    assert forall|t: u8, h: BlockHash| live.contains(TierHash { tier: t, hash: h }) && #[trigger] tier_held(a, t).contains(h) implies tier_held(b, t).contains(h) by {
        assert(route(b, t, h) == route(a, t, h));
    }
}

proof fn lemma_route_first<D: Disk>(bricks: Seq<Brick<D>>, tier: u8, h: BlockHash, i: nat)
    ensures
        route_from(bricks, tier, h, i) matches Some(j) ==> forall|k: int| i <= k < j ==> !serves(#[trigger] bricks[k], tier, h),
    decreases bricks.len() - i,
{
    if i < bricks.len() && !serves(bricks[i as int], tier, h) {
        lemma_route_first(bricks, tier, h, i + 1);
    }
}

proof fn lemma_route_is<D: Disk>(bricks: Seq<Brick<D>>, tier: u8, h: BlockHash, i: nat, j: int)
    requires
        i <= j < bricks.len(),
        serves(bricks[j], tier, h),
        forall|k: int| i <= k < j ==> !serves(#[trigger] bricks[k], tier, h),
    ensures
        route_from(bricks, tier, h, i) == Some(j),
    decreases j - i,
{
    if i < j {
        lemma_route_is(bricks, tier, h, i + 1, j);
    }
}

impl<D: Disk> BrickSet<D> {
    /// The durability barrier over every brick.
    pub fn flush(&mut self) -> (r: Result<()>)
        requires
            old(self).inv(),
        ensures
            final(self).same_stock(old(self)),
            roomed(old(self).members(), final(self).members()),
            final(self).reliable() == old(self).reliable(),
            forall|i: int| 0 <= i < old(self).members().len() ==> (#[trigger] final(self).members()[i]).disk_bytes() == old(self).members()[i].disk_bytes(),
            r is Ok ==> final(self).durable() && forall|i: int| 0 <= i < final(self).members().len() ==> (#[trigger] final(self).members()[i]).at_rest(),
            forall|i: int| 0 <= i < old(self).members().len() ==> (#[trigger] final(self).members()[i]).same_room(&old(self).members()[i]),
            (forall|i: int| 0 <= i < old(self).members().len() && old(self).presumed_written(i) ==> (#[trigger] old(self).members()[i]).reliable()) ==> r is Ok,
            forall|i: int| 0 <= i < old(self).members().len() && !old(self).presumed_written(i) ==> #[trigger] final(self).members()[i] == old(self).members()[i],
            r is Ok ==> forall|i: int| 0 <= i < final(self).members().len() ==> !#[trigger] final(self).presumed_written(i),
    {
        let ghost a = self.bricks@;
        let ghost calm = forall|i: int| 0 <= i < old(self).members().len() && old(self).presumed_written(i) ==> (#[trigger] old(self).members()[i]).reliable();
        let mut k: usize = 0;
        let mut outcome: Result<()> = Ok(());
        while k < self.bricks.len() && outcome.is_ok()
            invariant
                k <= self.bricks@.len() == a.len(),
                old(self).inv(),
                a == old(self).bricks@,
                self.holder == old(self).holder,
                forall|i: int| 0 <= i < a.len() ==> alike(a[i], #[trigger] self.bricks@[i]),
                forall|i: int| 0 <= i < a.len() ==> (#[trigger] self.bricks@[i]).disk_bytes() == a[i].disk_bytes(),
                roomed(a, self.bricks@),
                outcome is Ok ==> forall|i: int| 0 <= i < k ==> (#[trigger] self.bricks@[i]).at_rest(),
                forall|i: int| 0 <= i < a.len() ==> (#[trigger] self.bricks@[i]).same_room(&a[i]),
                forall|i: int| 0 <= i < a.len() && a[i].intact() ==> (#[trigger] self.bricks@[i]).intact(),
                forall|i: int| k <= i < a.len() ==> #[trigger] self.bricks@[i] == a[i],
                outcome is Ok ==> forall|i: int| 0 <= i < k ==> (#[trigger] self.bricks@[i]).durable(),
                calm == forall|i: int|
                    0 <= i < old(self).members().len() && old(self).presumed_written(i) ==> (#[trigger] old(self).members()[i]).reliable(),
                calm ==> outcome is Ok,
                self.marked(),
                outcome is Ok ==> forall|i: int| 0 <= i < k ==> !#[trigger] self.dirty@[i],
                forall|i: int| k <= i < a.len() ==> #[trigger] self.dirty@[i] == old(self).dirty@[i],
                forall|i: int| 0 <= i < a.len() && !old(self).dirty@[i] ==> #[trigger] self.bricks@[i] == a[i],
            decreases a.len() - k,
        {
            let ghost mid = self.bricks@;
            assert(mid[k as int] == a[k as int]);
            assert(a[k as int].inv());
            if !self.dirty[k] {
                proof {
                    assert(mid[k as int].durable());
                    a[k as int].lemma_durable_rests();
                }
                k += 1;
                continue;
            }
            proof {
                assert(old(self).dirty@[k as int]);
                if calm {
                    assert(old(self).presumed_written(k as int));
                    assert(old(self).members()[k as int].reliable());
                }
            }
            outcome = self.bricks[k].flush();
            if outcome.is_ok() {
                self.dirty.set(k, false);
            }
            proof {
                let b = self.bricks@;
                assert(b =~= mid.update(k as int, b[k as int]));
                assert forall|i: int| 0 <= i < a.len() implies (#[trigger] b[i]).kept_to_room(&a[i]) && b[i].same_room(&a[i]) by {
                    if i != k {
                        assert(b[i] == mid[i]);
                    }
                }
                assert forall|i: int| 0 <= i < a.len() implies alike(a[i], #[trigger] b[i]) && b[i].disk_bytes() == a[i].disk_bytes() && (a[i].intact() ==> b[i].intact()) by {
                    if i != k {
                        assert(b[i] == mid[i]);
                    }
                }
                assert forall|i: int| k + 1 <= i < a.len() implies #[trigger] b[i] == a[i] by {
                    assert(b[i] == mid[i]);
                }
                if outcome is Ok {
                    assert forall|i: int| 0 <= i < k + 1 implies (#[trigger] b[i]).at_rest() && b[i].durable() by {
                        if i < k {
                            assert(b[i] == mid[i]);
                        }
                    }
                }
            }
            k += 1;
        }
        proof {
            self.lemma_all_alike(old(self));
        }
        outcome
    }

    /// Bricks that all hold what they held make a set that does.
    proof fn lemma_all_alike(&self, before: &Self)
        requires
            before.inv(),
            self.marked(),
            self.holder == before.holder,
            self.bricks@.len() == before.bricks@.len(),
            forall|i: int| 0 <= i < before.bricks@.len() ==> alike(before.bricks@[i], #[trigger] self.bricks@[i]),
            forall|i: int| 0 <= i < before.bricks@.len() && before.bricks@[i].intact() ==> (#[trigger] self.bricks@[i]).intact(),
        ensures
            self.same_stock(before),
            self.reliable() == before.reliable(),
    {
        assert(one_changed(before.bricks@, self.bricks@)) by {
            assert forall|i: int| 0 <= i < before.bricks@.len() implies (#[trigger] self.bricks@[i]).same_shape(&before.bricks@[i]) by {
                assert(alike(before.bricks@[i], self.bricks@[i]));
            }
        }
        self.lemma_reset(before);
        lemma_alike(before.bricks@, self.bricks@);
        if before.intact() {
            assert forall|i: int| 0 <= i < self.members().len() implies (#[trigger] self.members()[i]).intact() by {
                assert(before.members()[i].intact());
            }
        }
    }

    /// The brick that carries the WAL.
    pub fn wal_brick(&self) -> (r: &Brick<D>)
        requires
            self.inv(),
        ensures
            *r == self.members()[self.holder_at()],
            r.inv(),
    {
        &self.bricks[self.holder]
    }

    /// The same, to write to. The set stays one while the brick keeps its
    /// identity and its order.
    pub fn wal_brick_mut(&mut self) -> (r: &mut Brick<D>)
        requires
            old(self).inv(),
        ensures
            *r == old(self).members()[old(self).holder_at()],
            r.inv(),
            final(self).members() == old(self).members().update(old(self).holder_at(), *final(r)),
            final(self).holder_at() == old(self).holder_at(),
            final(r).inv() && final(r).superblock() == r.superblock() ==> final(self).inv(),
    {
        self.dirty.set(self.holder, true);
        let ghost before = *self;
        let at: usize = self.holder;
        proof {
            assert forall|b: Brick<D>| #[trigger] b.inv() && b.superblock() == before.bricks@[at as int].superblock() implies set_fault(before.bricks@.update(at as int, b)) is None && (forall|i: int, j: int|
                0 <= i < j < before.bricks@.len() ==> brick_before(
                    (#[trigger] before.bricks@.update(at as int, b)[i]).superblock(),
                    (#[trigger] before.bricks@.update(at as int, b)[j]).superblock(),
                )) by {
                lemma_same_supers(before.bricks@, before.bricks@.update(at as int, b), at as int);
            }
        }
        &mut self.bricks[at]
    }

    /// Every tier the set carries, ascending.
    pub fn tiers(&self) -> (r: Vec<u8>)
        requires
            self.inv(),
        ensures
            forall|i: int, j: int| 0 <= i < j < r@.len() ==> #[trigger] r@[i] < #[trigger] r@[j],
            forall|t: u8| #[trigger] r@.contains(t) <==> super::ops::tier_exists(self.members(), t),
    {
        let mut r: Vec<u8> = Vec::new();
        let mut k: usize = 0;
        while k < self.bricks.len()
            invariant
                self.inv(),
                k <= self.bricks@.len(),
                forall|i: int, j: int| 0 <= i < j < r@.len() ==> #[trigger] r@[i] < #[trigger] r@[j],
                k > 0 ==> r@.len() > 0 && r@.last() == self.bricks@[k - 1].superblock().tier,
                k == 0 ==> r@.len() == 0,
                forall|t: u8| #[trigger] r@.contains(t) <==> exists|i: int| 0 <= i < k && (#[trigger] self.bricks@[i]).superblock().tier == t,
            decreases self.bricks@.len() - k,
        {
            let tier: u8 = self.bricks[k].tier();
            let ghost before = r@;
            let fresh = r.len() == 0 || r[r.len() - 1] != tier;
            proof {
                if k > 0 {
                    assert(brick_before(self.bricks@[k - 1].superblock(), self.bricks@[k as int].superblock()));
                }
            }
            if fresh {
                r.push(tier);
            }
            proof {
                assert forall|t: u8| #[trigger] r@.contains(t) <==> exists|i: int| 0 <= i < k + 1 && (#[trigger] self.bricks@[i]).superblock().tier == t by {
                    if r@.contains(t) {
                        let x = choose|x: int| 0 <= x < r@.len() && r@[x] == t;
                        if x < before.len() {
                            assert(before.contains(t));
                            let i = choose|i: int| 0 <= i < k && (#[trigger] self.bricks@[i]).superblock().tier == t;
                            assert(self.bricks@[i].superblock().tier == t);
                        } else {
                            assert(self.bricks@[k as int].superblock().tier == t);
                        }
                    }
                    if exists|i: int| 0 <= i < k + 1 && (#[trigger] self.bricks@[i]).superblock().tier == t {
                        let i = choose|i: int| 0 <= i < k + 1 && (#[trigger] self.bricks@[i]).superblock().tier == t;
                        if i < k {
                            assert(before.contains(t));
                            let x = choose|x: int| 0 <= x < before.len() && before[x] == t;
                            assert(r@[x] == t);
                        } else if fresh {
                            assert(r@[before.len() as int] == t);
                        } else {
                            assert(r@[before.len() - 1] == t);
                        }
                    }
                }
            }
            k += 1;
        }
        r
    }

    pub fn has_tier(&self, tier: u8) -> (r: bool)
        requires
            self.inv(),
        ensures
            r == super::ops::tier_exists(self.members(), tier),
    {
        let mut i: usize = 0;
        while i < self.bricks.len()
            invariant
                i <= self.bricks@.len(),
                forall|k: int| 0 <= k < i ==> (#[trigger] self.bricks@[k]).superblock().tier != tier,
            decreases self.bricks@.len() - i,
        {
            if self.bricks[i].tier() == tier {
                assert(self.members()[i as int].superblock().tier == tier);
                return true;
            }
            i += 1;
        }
        false
    }

    /// Every brick as a roster names it, in the set's order.
    pub fn roster(&self) -> (r: Vec<RosterEntry>)
        requires
            self.inv(),
        ensures
            r@.len() == self.members().len(),
            forall|i: int| 0 <= i < r@.len() ==> #[trigger] r@[i] == entry_of_brick(self.members()[i]),
            r@.len() <= ROSTER_CAP,
    {
        let mut r: Vec<RosterEntry> = Vec::new();
        let mut i: usize = 0;
        while i < self.bricks.len()
            invariant
                i <= self.bricks@.len(),
                r@.len() == i,
                forall|k: int| 0 <= k < i ==> #[trigger] r@[k] == entry_of_brick(self.bricks@[k]),
            decreases self.bricks@.len() - i,
        {
            r.push(self.bricks[i].roster_entry());
            i += 1;
        }
        r
    }

    pub fn block_size(&self) -> (r: u32)
        requires
            self.inv(),
        ensures
            r == self.unit_size(),
    {
        self.bricks[0].block_size()
    }

    pub fn pool_uuid(&self) -> (r: [u8; 16])
        requires
            self.inv(),
        ensures
            r == self.members()[0].superblock().pool_uuid,
    {
        self.bricks[0].pool_uuid()
    }

    /// How the set's space stands, all bricks together.
    pub fn stats(&self) -> (r: BrickStats)
        requires
            self.inv(),
        ensures
            r == stats_sum(self.members(), self.members().len()),
    {
        let mut total = BrickStats { blocks: 0, segments_total: 0, segments_live: 0, segments_free: 0, payload_bytes: 0 };
        let mut i: usize = 0;
        while i < self.bricks.len()
            invariant
                self.inv(),
                i <= self.bricks@.len(),
                total == stats_sum(self.bricks@, i as nat),
            decreases self.bricks@.len() - i,
        {
            assert(self.bricks@[i as int].inv());
            let stats = self.bricks[i].stats();
            assert(stats == stats_of(self.bricks@[i as int]));
            total = BrickStats {
                blocks: total.blocks.saturating_add(stats.blocks),
                segments_total: total.segments_total.saturating_add(stats.segments_total),
                segments_live: total.segments_live.saturating_add(stats.segments_live),
                segments_free: total.segments_free.saturating_add(stats.segments_free),
                payload_bytes: total.payload_bytes.saturating_add(stats.payload_bytes),
            };
            i += 1;
        }
        total
    }

    /// The set's space in bytes, per tier and per brick. Bricks appear in
    /// the set's order; tiers ascend.
    pub fn space_report(&self) -> (r: SpaceReport)
        requires
            self.inv(),
        ensures
            forall|i: int, j: int| 0 <= i < j < r.tiers@.len() ==> (#[trigger] r.tiers@[i]).tier < (#[trigger] r.tiers@[j]).tier,
            forall|k: int| 0 <= k < r.tiers@.len() ==> tier_told(#[trigger] r.tiers@[k], self.members(), self.members().len()),
            forall|t: u8| #[trigger] super::ops::tier_exists(self.members(), t) ==> tells(r.tiers@, t),
    {
        let ghost a = self.bricks@;
        let tiers = self.tiers();
        let mut out: Vec<TierSpace> = Vec::new();
        let mut k: usize = 0;
        while k < tiers.len()
            invariant
                self.inv(),
                a == self.bricks@,
                k <= tiers@.len(),
                out@.len() == k,
                forall|t: u8| #[trigger] tiers@.contains(t) <==> super::ops::tier_exists(a, t),
                forall|x: int| 0 <= x < k ==> (#[trigger] out@[x]).tier == tiers@[x] && tier_told(out@[x], a, a.len()),
            decreases tiers@.len() - k,
        {
            let tier: u8 = tiers[k];
            let mut space = ByteSpace { usable_bytes: 0, free_bytes: 0, payload_bytes: 0 };
            let mut lines: Vec<BrickSpace> = Vec::new();
            let mut i: usize = 0;
            assert(lines@ =~= tier_lines(a, tier, 0));
            while i < self.bricks.len()
                invariant
                    self.inv(),
                    a == self.bricks@,
                    i <= a.len(),
                    lines@ == tier_lines(a, tier, i as nat),
                    space == lines_sum(lines@),
                    lines@.len() > 0 <==> exists|x: int| 0 <= x < i && (#[trigger] a[x]).superblock().tier == tier,
                decreases a.len() - i,
            {
                if self.bricks[i].tier() == tier {
                    assert(a[i as int].inv());
                    let own = self.bricks[i].byte_space();
                    let line = BrickSpace {
                        brick_uuid: self.bricks[i].roster_entry().brick_uuid,
                        tier,
                        wal_holder: self.bricks[i].wal_holder(),
                        space: own,
                    };
                    assert(line == brick_line(a[i as int]));
                    let ghost before = lines@;
                    lines.push(line);
                    space.add(&own);
                    assert(lines@.drop_last() =~= before);
                }
                i += 1;
            }
            proof {
                assert(tiers@.contains(tier));
                let x = choose|x: int| 0 <= x < a.len() && (#[trigger] a[x]).superblock().tier == tier;
                assert(a[x].superblock().tier == tier);
            }
            out.push(TierSpace { tier, space, bricks: lines });
            k += 1;
        }
        proof {
            assert forall|t: u8| #[trigger] super::ops::tier_exists(self.members(), t) implies tells(out@, t) by {
                assert(tiers@.contains(t));
                let x = choose|x: int| 0 <= x < tiers@.len() && tiers@[x] == t;
                assert(out@[x].tier == t);
            }
            assert forall|i: int, j: int| 0 <= i < j < out@.len() implies (#[trigger] out@[i]).tier < (#[trigger] out@[j]).tier by {
                assert(tiers@[i] < tiers@[j]);
            }
        }
        SpaceReport { tiers: out }
    }

    /// Verify every brick's every block.
    pub fn scrub(&self) -> (r: Result<(u64, Vec<BlockHash>)>)
        requires
            self.inv(),
        ensures
            self.reliable() ==> r is Ok,
            r matches Ok((verified, corrupt)) ==> {
                &&& ascending(corrupt@)
                &&& corrupt@.no_duplicates()
                &&& self.reliable() ==> forall|h: BlockHash| #[trigger] corrupt@.contains(h) <==> rotten(self.members(), h)
                &&& self.reliable() ==> verified == readable_sum(self.members(), self.members().len())
            },
    {
        let mut verified: u64 = 0;
        let mut bad: BlockSet = SortedMap::new();
        let mut i: usize = 0;
        while i < self.bricks.len()
            invariant
                self.inv(),
                bad.wf(),
                i <= self.bricks@.len(),
                self.reliable() ==> verified == readable_sum(self.bricks@, i as nat),
                self.reliable() ==> forall|h: BlockHash| #[trigger] bad@.contains_key(h) <==> rotten(self.bricks@.subrange(0, i as int), h),
            decreases self.bricks@.len() - i,
        {
            assert(self.bricks@[i as int].inv());
            proof {
                if self.reliable() {
                    assert(self.members()[i as int].reliable());
                }
            }
            let (count, corrupt) = self.bricks[i].scrub()?;
            verified = verified.saturating_add(count);
            let ghost before = bad@;
            let mut k: usize = 0;
            while k < corrupt.len()
                invariant
                    bad.wf(),
                    k <= corrupt@.len(),
                    forall|h: BlockHash| #[trigger] bad@.contains_key(h) <==> before.contains_key(h) || corrupt@.subrange(0, k as int).contains(h),
                decreases corrupt@.len() - k,
            {
                let h = corrupt[k];
                let ghost mid = bad@;
                bad.insert(h, ());
                proof {
                    let shorter = corrupt@.subrange(0, k as int);
                    let longer = corrupt@.subrange(0, k + 1);
                    assert(longer =~= shorter.push(h));
                    assert forall|x: BlockHash| #[trigger] bad@.contains_key(x) <==> before.contains_key(x) || longer.contains(x) by {
                        assert(longer[k as int] == h);
                        if longer.contains(x) && x != h {
                            let y = choose|y: int| 0 <= y < longer.len() && longer[y] == x;
                            assert(shorter[y] == x);
                        }
                        if shorter.contains(x) {
                            let y = choose|y: int| 0 <= y < shorter.len() && shorter[y] == x;
                            assert(longer[y] == x);
                        }
                        assert(mid.contains_key(x) <==> before.contains_key(x) || shorter.contains(x));
                    }
                }
                k += 1;
            }
            proof {
                assert(corrupt@.subrange(0, k as int) =~= corrupt@);
                let shorter = self.bricks@.subrange(0, i as int);
                let longer = self.bricks@.subrange(0, i + 1);
                if self.reliable() {
                    assert forall|h: BlockHash| #[trigger] bad@.contains_key(h) <==> rotten(longer, h) by {
                        assert(longer[i as int] == self.bricks@[i as int]);
                        assert(before.contains_key(h) <==> rotten(shorter, h));
                        if rotten(shorter, h) {
                            let y = choose|y: int| 0 <= y < shorter.len() && (#[trigger] shorter[y]).held().contains(h) && !shorter[y].blocks().contains_key(h);
                            assert(longer[y] == shorter[y]);
                        }
                        if rotten(longer, h) {
                            let y = choose|y: int| 0 <= y < longer.len() && (#[trigger] longer[y]).held().contains(h) && !longer[y].blocks().contains_key(h);
                            if y < i {
                                assert(shorter[y] == longer[y]);
                            }
                        }
                    }
                }
            }
            i += 1;
        }
        assert(self.bricks@.subrange(0, i as int) =~= self.bricks@);
        let keys = bad.keys();
        proof {
            if self.reliable() {
                assert forall|h: BlockHash| #[trigger] keys@.contains(h) <==> rotten(self.members(), h) by {
                    assert(bad@.contains_key(h) <==> keys@.contains(h));
                }
            }
        }
        Ok((verified, keys))
    }

    /// Make every brick's reserve available: a collection is running.
    pub fn open_reserve(&mut self)
        requires
            old(self).inv(),
        ensures
            final(self).reserve_set(old(self), true),
    {
        self.set_reserve(true);
    }

    /// Keep every brick's reserve back again.
    pub fn close_reserve(&mut self)
        requires
            old(self).inv(),
        ensures
            final(self).reserve_set(old(self), false),
    {
        self.set_reserve(false);
    }

    /// Nothing but the use of the reserve has changed.
    pub open spec fn reserve_set(&self, before: &Self, open: bool) -> bool {
        &&& self.inv()
        &&& self.holder_at() == before.holder_at()
        &&& self.members().len() == before.members().len()
        &&& self.unit_size() == before.unit_size()
        &&& self.reliable() == before.reliable()
        &&& before.intact() ==> self.intact()
        &&& self.wal_area() == before.wal_area()
        &&& self.wal_super() == before.wal_super()
        &&& roomed(before.members(), self.members())
        &&& forall|i: int| 0 <= i < self.members().len() ==> (#[trigger] self.members()[i]).same_room(&before.members()[i])
        &&& forall|i: int| 0 <= i < self.members().len() ==> (#[trigger] self.members()[i]).same_disk(&before.members()[i])
        &&& before.durable() ==> self.durable()
        &&& forall|i: int| 0 <= i < self.members().len() ==> (#[trigger] self.members()[i]).reserve_is_open() == open
        &&& forall|i: int| 0 <= i < self.members().len() ==> (#[trigger] self.members()[i]).superblock() == before.members()[i].superblock()
        &&& forall|t: u8| #[trigger] tier_held(self.members(), t) == tier_held(before.members(), t)
        &&& forall|t: u8| #[trigger] tier_blocks(self.members(), t) == tier_blocks(before.members(), t)
        &&& forall|t: u8| #[trigger] tier_claims(self.members(), t) == tier_claims(before.members(), t)
    }

    fn set_reserve(&mut self, open: bool)
        requires
            old(self).inv(),
        ensures
            final(self).reserve_set(old(self), open),
    {
        let ghost a = self.bricks@;
        let mut k: usize = 0;
        while k < self.bricks.len()
            invariant
                k <= self.bricks@.len() == a.len(),
                old(self).inv(),
                a == old(self).bricks@,
                self.holder == old(self).holder,
                self.dirty == old(self).dirty,
                forall|i: int| 0 <= i < k ==> turned(a[i], #[trigger] self.bricks@[i], open),
                forall|i: int| k <= i < a.len() ==> #[trigger] self.bricks@[i] == a[i],
            decreases a.len() - k,
        {
            let ghost mid = self.bricks@;
            assert(mid[k as int] == a[k as int]);
            assert(a[k as int].inv());
            if open {
                self.bricks[k].open_reserve();
            } else {
                self.bricks[k].close_reserve();
            }
            proof {
                let b = self.bricks@;
                assert(b =~= mid.update(k as int, b[k as int]));
                assert forall|i: int| 0 <= i < k + 1 implies turned(a[i], #[trigger] b[i], open) by {
                    if i != k {
                        assert(b[i] == mid[i]);
                    }
                }
                assert forall|i: int| k + 1 <= i < a.len() implies #[trigger] b[i] == a[i] by {
                    assert(b[i] == mid[i]);
                }
            }
            k += 1;
        }
        proof {
            let b = self.bricks@;
            lemma_turned(a, b, open);
            lemma_same_supers_all(a, b);
            assert forall|i: int| 0 <= i < b.len() implies (#[trigger] self.members()[i]).reserve_is_open() == open && self.members()[i].superblock() == old(self).members()[i].superblock() by {
                assert(turned(a[i], b[i], open));
            }
            assert forall|i: int| 0 <= i < a.len() implies (#[trigger] b[i]).kept_to_room(&a[i]) && b[i].same_room(&a[i]) by {
                assert(turned(a[i], b[i], open));
            }
            assert forall|i: int| 0 <= i < b.len() && !self.dirty@[i] implies (#[trigger] b[i]).durable() by {
                assert(a[i].durable());
                assert(turned(a[i], b[i], open));
            }
            assert(turned(a[0], b[0], open));
            assert(turned(a[self.holder as int], b[self.holder as int], open));
            if old(self).reliable() {
                assert forall|i: int| 0 <= i < self.members().len() implies (#[trigger] self.members()[i]).reliable() by {
                    assert(old(self).members()[i].reliable());
                    assert(turned(a[i], b[i], open));
                }
            }
            if self.reliable() {
                assert forall|i: int| 0 <= i < old(self).members().len() implies (#[trigger] old(self).members()[i]).reliable() by {
                    assert(self.members()[i].reliable());
                    assert(turned(a[i], b[i], open));
                }
            }
            if old(self).intact() {
                assert forall|i: int| 0 <= i < self.members().len() implies (#[trigger] self.members()[i]).intact() by {
                    assert(old(self).members()[i].intact());
                    assert(turned(a[i], b[i], open));
                }
            }
        }
    }

    /// Sweep every brick against the live set, keyed by tier. Each brick
    /// keeps exactly the live addresses routed to it: a duplicate on another
    /// brick is reclaimed. Wherever the sweep got to, a crash leaves a brick
    /// that was at rest with everything live on it.
    pub fn retain_and_reclaim(&mut self, live: &SortedMap<TierHash, ()>) -> (r: Result<GcStats>)
        requires
            old(self).inv(),
            live.wf(),
        ensures
            final(self).same_set(old(self)),
            final(self).reliable() == old(self).reliable(),
            old(self).intact() ==> final(self).intact(),
            nothing_live_lost(old(self).members(), final(self).members(), live@.dom()),
            r is Ok ==> forall|t: u8, h: BlockHash| #[trigger] tier_held(final(self).members(), t).contains(h) ==> live@.contains_key(TierHash { tier: t, hash: h }),
            forall|i: int| 0 <= i < old(self).members().len() && old(self).members()[i].intact() && old(self).members()[i].at_rest()
                ==> (#[trigger] final(self).members()[i]).secures(live_on(old(self).members(), live@.dom(), i)),
            old(self).reliable() && old(self).intact() ==> r is Ok,
            r matches Ok(stats) ==> exists|each: Seq<GcStats>| #[trigger] brick_figures(old(self).members(), final(self).members(), live@.dom(), each) && stats
                == summed(each),
            r is Err ==> forall|i: int| 0 <= i < old(self).members().len() ==> (#[trigger] final(self).members()[i]).free_list().len() + 1
                >= old(self).members()[i].free_list().len(),
    {
        let ghost a = self.bricks@;
        let ghost mut each: Seq<GcStats> = Seq::empty();
        let keeps = self.keeps(live);
        let mut total = GcStats { blocks_dropped: 0, blocks_moved: 0, segments_freed: 0, segments_compacted: 0 };
        let mut k: usize = 0;
        while k < self.bricks.len()
            invariant
                k <= self.bricks@.len() == a.len(),
                old(self).inv(),
                a == old(self).bricks@,
                self.holder == old(self).holder,
                self.marked(),
                keeps@.len() == a.len(),
                forall|i: int| 0 <= i < a.len() ==> (#[trigger] keeps@[i]).wf(),
                forall|i: int, h: BlockHash| 0 <= i < a.len() ==> (#[trigger] keeps@[i]@.contains_key(h) <==> a[i].held().contains(h) && kept_on(a, live@.dom(), i, h)),
                forall|i: int| 0 <= i < k ==> swept(a, live@.dom(), i, #[trigger] self.bricks@[i]),
                forall|i: int| 0 <= i < k && a[i].intact() ==> (#[trigger] self.bricks@[i]).intact(),
                forall|i: int| 0 <= i < k && a[i].intact() && a[i].at_rest() ==> (#[trigger] self.bricks@[i]).secures(live_on(a, live@.dom(), i)),
                each.len() == k,
                total == summed(each),
                forall|i: int| 0 <= i < k ==> one_figure(a, self.bricks@, live@.dom(), #[trigger] each[i], i),
                forall|i: int| 0 <= i < k ==> (#[trigger] self.bricks@[i]).free_list().len() >= a[i].free_list().len(),
                forall|i: int| k <= i < a.len() ==> #[trigger] self.bricks@[i] == a[i],
            decreases a.len() - k,
        {
            let ghost mid = self.bricks@;
            assert(mid[k as int] == a[k as int]);
            assert(a[k as int].inv());
            assert(keeps@[k as int].wf());
            proof {
                if old(self).reliable() {
                    assert(old(self).members()[k as int].reliable());
                }
                if old(self).intact() {
                    assert(old(self).members()[k as int].intact());
                }
                a[k as int].lemma_model();
            }
            let outcome = self.bricks[k].retain_and_reclaim(&keeps[k]);
            self.dirty.set(k, true);
            proof {
                assert forall|i: int| 0 <= i < self.bricks@.len() && !self.dirty@[i] implies (#[trigger] self.bricks@[i]).durable() by {
                    assert(i != k);
                    assert(self.bricks@[i] == mid[i]);
                }
                let b = self.bricks@;
                assert(b =~= mid.update(k as int, b[k as int]));
                assert(swept(a, live@.dom(), k as int, b[k as int])) by {
                    let x = b[k as int];
                    let keep = keeps@[k as int]@.dom();
                    assert forall|h: BlockHash| #[trigger] x.held().contains(h) <==> a[k as int].held().contains(h) && kept_on(a, live@.dom(), k as int, h) by {
                        assert(keeps@[k as int]@.contains_key(h) <==> a[k as int].held().contains(h) && kept_on(a, live@.dom(), k as int, h));
                    }
                    assert forall|h: BlockHash| #[trigger] x.blocks().contains_key(h) <==> a[k as int].blocks().contains_key(h) && kept_on(a, live@.dom(), k as int, h) by {
                        assert(keeps@[k as int]@.contains_key(h) <==> a[k as int].held().contains(h) && kept_on(a, live@.dom(), k as int, h));
                    }
                    assert forall|h: BlockHash, p: Seq<u8>| #[trigger] x.claims().contains((h, p)) <==> a[k as int].claims().contains((h, p)) && kept_on(a, live@.dom(), k as int, h) by {
                        assert(keeps@[k as int]@.contains_key(h) <==> a[k as int].held().contains(h) && kept_on(a, live@.dom(), k as int, h));
                    }
                }
                assert forall|i: int| 0 <= i < k + 1 implies swept(a, live@.dom(), i, #[trigger] b[i]) by {
                    if i != k {
                        assert(b[i] == mid[i]);
                    }
                }
                assert forall|i: int| 0 <= i < k + 1 && a[i].intact() implies (#[trigger] b[i]).intact() by {
                    if i != k {
                        assert(b[i] == mid[i]);
                    }
                }
                assert(a[k as int].held().intersect(keeps@[k as int]@.dom()) =~= live_on(a, live@.dom(), k as int)) by {
                    assert forall|h: BlockHash| keeps@[k as int]@.contains_key(h) <==> a[k as int].held().contains(h) && kept_on(a, live@.dom(), k as int, h) by {}
                }
                assert forall|i: int| 0 <= i < k + 1 && a[i].intact() && a[i].at_rest() implies (#[trigger] b[i]).secures(live_on(a, live@.dom(), i)) by {
                    if i != k {
                        assert(b[i] == mid[i]);
                    }
                }
                assert forall|i: int| k + 1 <= i < a.len() implies #[trigger] b[i] == a[i] by {
                    assert(b[i] == mid[i]);
                }
                assert forall|i: int| 0 <= i < a.len() && a[i].intact() && a[i].at_rest() implies (#[trigger] b[i]).secures(live_on(a, live@.dom(), i)) by {
                    if i > k {
                        assert(b[i] == a[i]);
                        assert(old(self).bricks@[i].inv());
                        a[i].law_a_flush_secures_what_is_held();
                        a[i].law_less_is_secured_too(a[i].held(), live_on(a, live@.dom(), i));
                    }
                }
            }
            let stats = match outcome {
                Ok(stats) => stats,
                Err(e) => {
                    proof {
                        self.lemma_swept_set(old(self), live@.dom(), k + 1);
                        assert forall|i: int| 0 <= i < a.len() implies (#[trigger] self.members()[i]).free_list().len() + 1 >= a[i].free_list().len() by {
                            if i != k {
                                assert(self.bricks@[i] == mid[i]);
                            }
                        }
                    }
                    return Err(e);
                },
            };
            total = GcStats {
                blocks_dropped: total.blocks_dropped.saturating_add(stats.blocks_dropped),
                blocks_moved: total.blocks_moved.saturating_add(stats.blocks_moved),
                segments_freed: total.segments_freed.saturating_add(stats.segments_freed),
                segments_compacted: total.segments_compacted.saturating_add(stats.segments_compacted),
            };
            proof {
                let before = each;
                let b = self.bricks@;
                each = each.push(stats);
                assert(each.drop_last() =~= before);
                assert(keeps@[k as int]@.dom() =~= live_on(a, live@.dom(), k as int)) by {
                    assert forall|h: BlockHash| keeps@[k as int]@.contains_key(h) <==> a[k as int].held().contains(h) && kept_on(a, live@.dom(), k as int, h) by {}
                }
                assert forall|i: int| 0 <= i < k + 1 implies one_figure(a, b, live@.dom(), #[trigger] each[i], i) by {
                    if i < k {
                        assert(b[i] == mid[i]);
                        assert(each[i] == before[i]);
                    }
                }
                assert forall|i: int| 0 <= i < k + 1 implies (#[trigger] b[i]).free_list().len() >= a[i].free_list().len() by {
                    if i < k {
                        assert(b[i] == mid[i]);
                    }
                }
            }
            k += 1;
        }
        proof {
            self.lemma_swept_set(old(self), live@.dom(), k as int);
            assert(brick_figures(old(self).members(), self.members(), live@.dom(), each));
        }
        Ok(total)
    }

    proof fn lemma_swept_set(&self, before: &Self, live: Set<TierHash>, done: int)
        requires
            before.inv(),
            self.marked(),
            self.holder == before.holder,
            self.bricks@.len() == before.bricks@.len(),
            0 <= done <= before.bricks@.len(),
            forall|i: int| 0 <= i < done ==> swept(before.bricks@, live, i, #[trigger] self.bricks@[i]),
            forall|i: int| 0 <= i < done && before.bricks@[i].intact() ==> (#[trigger] self.bricks@[i]).intact(),
            forall|i: int| done <= i < before.bricks@.len() ==> #[trigger] self.bricks@[i] == before.bricks@[i],
        ensures
            self.same_set(before),
            self.reliable() == before.reliable(),
            before.intact() ==> self.intact(),
            nothing_live_lost(before.members(), self.members(), live),
            done == before.bricks@.len() ==> forall|t: u8, h: BlockHash| #[trigger] tier_held(self.members(), t).contains(h) ==> live.contains(TierHash { tier: t, hash: h }),
    {
        let a = before.bricks@;
        let b = self.bricks@;
        assert(one_changed(a, b)) by {
            assert forall|i: int| 0 <= i < a.len() implies (#[trigger] b[i]).same_shape(&a[i]) by {
                if i < done {
                    assert(swept(a, live, i, b[i]));
                } else {
                    assert(b[i] == a[i]);
                    assert(a[i].inv());
                }
            }
        }
        self.lemma_reset(before);
        assert forall|i: int| done <= i < a.len() implies alike(a[i], #[trigger] b[i]) by {
            assert(b[i] == a[i]);
            assert(a[i].inv());
        }
        lemma_swept(a, b, live, done);
        if before.intact() {
            assert forall|i: int| 0 <= i < self.members().len() implies (#[trigger] self.members()[i]).intact() by {
                assert(before.members()[i].intact());
                if i >= done {
                    assert(b[i] == a[i]);
                }
            }
        }
    }

    /// For each brick, the live addresses routed to it.
    fn keeps(&self, live: &SortedMap<TierHash, ()>) -> (keeps: Vec<BlockSet>)
        requires
            self.inv(),
            live.wf(),
        ensures
            keeps@.len() == self.bricks@.len(),
            forall|i: int| 0 <= i < keeps@.len() ==> (#[trigger] keeps@[i]).wf(),
            forall|i: int, h: BlockHash| 0 <= i < keeps@.len() ==> (#[trigger] keeps@[i]@.contains_key(h) <==> self.bricks@[i].held().contains(h) && kept_on(self.bricks@, live@.dom(), i, h)),
    {
        let ghost a = self.bricks@;
        let mut keeps: Vec<BlockSet> = Vec::new();
        let mut i: usize = 0;
        while i < self.bricks.len()
            invariant
                self.inv(),
                live.wf(),
                a == self.bricks@,
                i <= a.len(),
                keeps@.len() == i,
                forall|x: int| 0 <= x < i ==> (#[trigger] keeps@[x]).wf(),
                forall|x: int, h: BlockHash| 0 <= x < i ==> (#[trigger] keeps@[x]@.contains_key(h) <==> a[x].held().contains(h) && kept_on(a, live@.dom(), x, h)),
            decreases a.len() - i,
        {
            assert(a[i as int].inv());
            let tier: u8 = self.bricks[i].tier();
            let hashes = self.bricks[i].indexed_hashes();
            let mut keep: BlockSet = SortedMap::new();
            let mut k: usize = 0;
            while k < hashes.len()
                invariant
                    self.inv(),
                    live.wf(),
                    keep.wf(),
                    a == self.bricks@,
                    i < a.len(),
                    tier == a[i as int].superblock().tier,
                    k <= hashes@.len(),
                    forall|h: BlockHash| #[trigger] a[i as int].held().contains(h) <==> hashes@.contains(h),
                    forall|h: BlockHash| #[trigger] keep@.contains_key(h) <==> hashes@.subrange(0, k as int).contains(h) && kept_on(a, live@.dom(), i as int, h),
                decreases hashes@.len() - k,
            {
                let h = hashes[k];
                let ghost mid = keep@;
                let ghost shorter = hashes@.subrange(0, k as int);
                let ghost longer = hashes@.subrange(0, k + 1);
                let mine = live.contains(&TierHash { tier, hash: h }) && match self.route_of(tier, &h) {
                    Some(at) => at == i,
                    None => false,
                };
                assert(mine == kept_on(a, live@.dom(), i as int, h));
                if mine {
                    keep.insert(h, ());
                }
                proof {
                    assert forall|x: BlockHash| #[trigger] keep@.contains_key(x) <==> longer.contains(x) && kept_on(a, live@.dom(), i as int, x) by {
                        assert(longer[k as int] == h);
                        if longer.contains(x) && x != h {
                            let y = choose|y: int| 0 <= y < longer.len() && longer[y] == x;
                            assert(shorter[y] == x);
                        }
                        if shorter.contains(x) {
                            let y = choose|y: int| 0 <= y < shorter.len() && shorter[y] == x;
                            assert(longer[y] == x);
                        }
                        assert(mid.contains_key(x) <==> shorter.contains(x) && kept_on(a, live@.dom(), i as int, x));
                    }
                }
                k += 1;
            }
            let ghost before = keeps@;
            let ghost kept = keep@;
            keeps.push(keep);
            proof {
                assert(hashes@.subrange(0, k as int) =~= hashes@);
                assert forall|x: int, h: BlockHash| 0 <= x < i + 1 implies (#[trigger] keeps@[x]@.contains_key(h) <==> a[x].held().contains(h) && kept_on(a, live@.dom(), x, h)) by {
                    if x < i {
                        assert(keeps@[x] == before[x]);
                    } else {
                        assert(a[i as int].held().contains(h) <==> hashes@.contains(h));
                    }
                }
            }
            i += 1;
        }
        keeps
    }

    /// Take the set apart.
    pub fn into_bricks(self) -> (r: Vec<Brick<D>>)
        requires
            self.inv(),
        ensures
            r@ == self.members(),
            forall|i: int| 0 <= i < r@.len() ==> (#[trigger] r@[i]).inv(),
    {
        self.bricks
    }
}

/// A brick of the set holds the address and cannot produce it.
pub open spec fn rotten<D: Disk>(bricks: Seq<Brick<D>>, h: BlockHash) -> bool {
    exists|i: int| 0 <= i < bricks.len() && (#[trigger] bricks[i]).held().contains(h) && !bricks[i].blocks().contains_key(h)
}

/// The readable blocks of the first `n` bricks, counted.
pub open spec fn readable_sum<D: Disk>(bricks: Seq<Brick<D>>, n: nat) -> u64
    decreases n,
{
    if n == 0 {
        0
    } else {
        capped_sum(readable_sum(bricks, (n - 1) as nat), bricks[n - 1].blocks().dom().len() as u64)
    }
}

/// A brick whose reserve has been opened or closed, and nothing else.
pub open spec fn turned<D: Disk>(a: Brick<D>, b: Brick<D>, open: bool) -> bool {
    &&& b.inv()
    &&& b.superblock() == a.superblock()
    &&& b.reliable() == a.reliable()
    &&& b.aux() == a.aux()
    &&& b.held() == a.held()
    &&& b.blocks() == a.blocks()
    &&& b.claims() == a.claims()
    &&& a.intact() ==> b.intact()
    &&& b.reserve_is_open() == open
    &&& b.kept_to_room(&a)
    &&& b.same_room(&a)
    &&& b.same_disk(&a)
    &&& b.settled() == a.settled()
}

proof fn lemma_turned<D: Disk>(a: Seq<Brick<D>>, b: Seq<Brick<D>>, open: bool)
    requires
        a.len() == b.len(),
        forall|i: int| 0 <= i < a.len() ==> turned(a[i], #[trigger] b[i], open),
    ensures
        forall|t: u8| #[trigger] tier_held(b, t) == tier_held(a, t),
        forall|t: u8| #[trigger] tier_blocks(b, t) == tier_blocks(a, t),
        forall|t: u8| #[trigger] tier_claims(b, t) == tier_claims(a, t),
{
    assert forall|i: int| 0 <= i < a.len() implies holds_same(a[i], #[trigger] b[i]) by {
        assert(turned(a[i], b[i], open));
    }
    lemma_holds_same(a, b);
}

/// A set whose bricks keep their superblocks stays a set.
proof fn lemma_same_supers_all<D: Disk>(a: Seq<Brick<D>>, b: Seq<Brick<D>>)
    requires
        set_fault(a) is None,
        a.len() == b.len(),
        forall|i: int| 0 <= i < a.len() ==> (#[trigger] b[i]).superblock() == a[i].superblock(),
        forall|i: int, j: int|
            0 <= i < j < a.len() ==> brick_before((#[trigger] a[i]).superblock(), (#[trigger] a[j]).superblock()),
    ensures
        set_fault(b) is None,
        forall|i: int, j: int|
            0 <= i < j < b.len() ==> brick_before((#[trigger] b[i]).superblock(), (#[trigger] b[j]).superblock()),
{
    assert forall|i: int, j: int| 0 <= i < j < b.len() implies brick_before((#[trigger] b[i]).superblock(), (#[trigger] b[j]).superblock()) && b[i].superblock().brick_uuid != b[j].superblock().brick_uuid && !(b[i].superblock().wal_holder && b[j].superblock().wal_holder) by {
        assert(brick_before(a[i].superblock(), a[j].superblock()));
    }
    assert forall|i: int| 0 <= i < b.len() implies !((#[trigger] b[i]).superblock().pool_uuid != b[0].superblock().pool_uuid) && !(b[i].superblock().block_size != b[0].superblock().block_size) && !(b[i].superblock().wal_holder && b[i].superblock().tier != 0) by {
        assert(a[i].superblock() == b[i].superblock());
    }
    let h = choose|i: int| 0 <= i < a.len() && (#[trigger] a[i]).superblock().wal_holder;
    assert(a[h].superblock().wal_holder);
    assert(b[h].superblock().wal_holder);
}

proof fn lemma_same_supers<D: Disk>(a: Seq<Brick<D>>, b: Seq<Brick<D>>, at: int)
    requires
        set_fault(a) is None,
        0 <= at < a.len(),
        b == a.update(at, b[at]),
        b[at].superblock() == a[at].superblock(),
        forall|i: int, j: int|
            0 <= i < j < a.len() ==> brick_before((#[trigger] a[i]).superblock(), (#[trigger] a[j]).superblock()),
    ensures
        set_fault(b) is None,
        forall|i: int, j: int|
            0 <= i < j < b.len() ==> brick_before((#[trigger] b[i]).superblock(), (#[trigger] b[j]).superblock()),
{
    assert forall|i: int| 0 <= i < a.len() implies (#[trigger] b[i]).superblock() == a[i].superblock() by {}
    lemma_same_supers_all(a, b);
}

impl<D: Disk> BlockRead for BrickSet<D> {
    open spec fn ready(&self) -> bool {
        self.inv()
    }

    open spec fn holds(&self, tier: u8) -> Set<BlockHash> {
        tier_held(self.members(), tier)
    }

    open spec fn shelf(&self, tier: u8) -> Map<BlockHash, Seq<u8>> {
        tier_blocks(self.members(), tier)
    }

    open spec fn steady(&self) -> bool {
        self.reliable()
    }

    open spec fn unit(&self) -> u32 {
        self.unit_size()
    }

    fn get(&self, tier: u8, hash: &BlockHash) -> (r: Result<Option<Vec<u8>>>) {
        proof {
            lemma_route(self.members(), tier, *hash, 0);
        }
        BrickSet::get(self, tier, hash)
    }

    fn contains(&self, tier: u8, hash: &BlockHash) -> (r: bool) {
        BrickSet::contains(self, tier, hash)
    }

    fn block_size(&self) -> (r: u32) {
        BrickSet::block_size(self)
    }
}

/// What a put leaves of one brick.
pub struct BrickFrame {
    pub superblock: Superblock,
    pub aux: Seq<u8>,
    pub reserve_open: bool,
    pub size: nat,
}

/// What puts leave of a set.
pub struct SetFrame {
    pub bricks: Seq<BrickFrame>,
    pub holder: int,
}

pub open spec fn brick_frame<D: Disk>(b: Brick<D>) -> BrickFrame {
    BrickFrame {
        superblock: b.superblock(),
        aux: b.aux(),
        reserve_open: b.reserve_is_open(),
        size: b.disk_bytes().len(),
    }
}

pub open spec fn set_frame<D: Disk>(set: &BrickSet<D>) -> SetFrame {
    SetFrame { bricks: Seq::new(set.members().len(), |i: int| brick_frame(set.members()[i])), holder: set.holder_at() }
}

proof fn lemma_frame<D: Disk>(a: &BrickSet<D>, b: &BrickSet<D>)
    requires
        b.same_set(a),
        a.inv(),
    ensures
        set_frame(b) == set_frame(a),
        b.unit_size() == a.unit_size(),
{
    assert forall|i: int| 0 <= i < a.members().len() implies brick_frame(a.members()[i]) == brick_frame(b.members()[i]) by {
        assert(b.members()[i].same_shape(&a.members()[i]));
    }
    assert(set_frame(b).bricks =~= set_frame(a).bricks);
    assert(b.members()[0].same_shape(&a.members()[0]));
}

impl<D: Disk> BlockWrite for BrickSet<D> {
    type Frame = SetFrame;

    open spec fn frame(&self) -> SetFrame {
        set_frame(self)
    }

    open spec fn promised(&self, tier: u8) -> Set<(BlockHash, Seq<u8>)> {
        tier_claims(self.members(), tier)
    }

    open spec fn recoverable(&self) -> bool {
        self.intact()
    }

    open spec fn carries(&self, tier: u8) -> bool {
        tier_exists(self.members(), tier)
    }

    open spec fn crammed(&self, tier: u8, len: nat) -> bool {
        !tier_room(self.members(), tier, len)
    }

    open spec fn follows(&self, before: &Self) -> bool {
        roomed(before.members(), self.members())
    }

    proof fn lemma_follows_self(&self) {
    }

    proof fn lemma_follows_twice(&self, mid: &Self, before: &Self) {
        lemma_roomed_twice(before.members(), mid.members(), self.members());
    }

    proof fn lemma_promised_held(&self, tier: u8) {
        assert forall|h: BlockHash, p: Seq<u8>| #[trigger] self.promised(tier).contains((h, p)) implies self.holds(tier).contains(h) by {}
    }

    fn put(&mut self, tier: u8, payload: &[u8]) -> (r: Result<BlockHash>) {
        let r = BrickSet::put(self, tier, payload);
        proof {
            lemma_frame(old(self), self);
            assert forall|t: u8| #[trigger] self.carries(t) == old(self).carries(t) by {
                let (a, b) = (old(self).members(), self.members());
                if tier_exists(a, t) {
                    let i = choose|i: int| 0 <= i < a.len() && (#[trigger] a[i]).superblock().tier == t;
                    assert(b[i].same_shape(&a[i]));
                    assert(b[i].superblock().tier == t);
                }
                if tier_exists(b, t) {
                    let i = choose|i: int| 0 <= i < b.len() && (#[trigger] b[i]).superblock().tier == t;
                    assert(b[i].same_shape(&a[i]));
                    assert(a[i].superblock().tier == t);
                }
            }
        }
        r
    }
}

} // verus!
