//! A pool on bricks that were just laid out.

use super::manifest::ManifestView;
use super::open::{brick_refused, one_brick_set, open_refused, opened_as, opened_whole, set_of_one};
use super::{Lease, Pool, SessionPins, SnapshotState, VdiskView};
use crate::brick::{best_anchor, first_anchor, Brick};
use crate::brick_set::{entry_of_brick, lemma_route, roster_matches, route, serves, tier_blocks, tier_claims, tier_held, BrickSet};
use crate::codec::zeros;
use crate::disk::Disk;
use crate::error::{FsError, Result};
use crate::format::{Anchor, RosterEntry, WAL_AREA_START};
use crate::hash::BlockHash;
use crate::table::SnapshotId;
use crate::wal::{frame_size, law_a_young_ring_has_room};
use vstd::prelude::*;

verus! {

/// Nothing is in the pool, and its ring is all room.
pub open spec fn empty_pool<D: Disk>(pool: &Pool<D>) -> bool {
    &&& pool.vdisk_map() == Map::<u64, VdiskView>::empty()
    &&& pool.snapshot_map() == Map::<SnapshotId, SnapshotState>::empty()
    &&& pool.lease_map() == Map::<u64, Lease>::empty()
    &&& pool.pin_map() == Map::<u64, SessionPins>::empty()
    &&& pool.pending() is None
    &&& pool.era_now() == 1
    &&& pool.generation() == 1
    &&& forall|t: u8| #[trigger] pool.holds(t) == Set::<BlockHash>::empty()
    &&& forall|t: u8| #[trigger] pool.shelf(t) == Map::<BlockHash, Seq<u8>>::empty()
    &&& forall|t: u8| #[trigger] pool.promised(t) == Set::<(BlockHash, Seq<u8>)>::empty()
    &&& pool.ring().wf()
    &&& pool.ring().start == WAL_AREA_START
    &&& pool.ring().size == pool.stock().wal_super().wal_size
    &&& pool.ring().replay_start == WAL_AREA_START
    &&& pool.ring().cursor == WAL_AREA_START
    &&& pool.ring().next_seq == 1
    &&& pool.ring().epoch == 2
    &&& forall|len: nat| frame_size(len) < pool.ring().size ==> #[trigger] pool.ring().has_room(len)
}

/// Two readings of the best anchor of one area agree on where replay begins
/// and on whether there is a manifest.
proof fn lemma_first_reading(area: Seq<u8>, a: Anchor, roster: Seq<RosterEntry>, b: Anchor)
    requires
        first_anchor(a, roster),
        best_anchor(area, Some(a)),
        best_anchor(area, Some(b)),
    ensures
        b.generation == 1,
        b.wal_replay_offset == WAL_AREA_START,
        b.wal_replay_seq == 1,
        b.wal_epoch == 1,
        b.era == 1,
        b.manifest_hash@ == zeros(32),
{
}

/// A freshly laid out set is a pool with no vdisks, snapshots or leases, a
/// store with no blocks, and a ring that stands at its start.
pub proof fn law_a_fresh_set_is_an_empty_pool<D: Disk>(pool: &Pool<D>)
    requires
        pool.inv(),
        pool.stock().unused(),
        opened_whole(pool, None),
    ensures
        empty_pool(pool),
{
    let stock = pool.stock();
    stock.lemma_set();
    stock.members()[stock.holder_at()].lemma_model();
    pool.lemma_pool();
    let (a, m) = choose|a: Anchor, m: Option<ManifestView>| #[trigger] opened_as(&stock, a, m, pool);
    let (first, roster) = choose|first: Anchor, roster: Seq<RosterEntry>| #[trigger] first_anchor(first, roster) && best_anchor(stock.wal_area(), Some(first));
    lemma_first_reading(stock.wal_area(), first, roster, a);
    assert forall|t: u8| #[trigger] tier_held(stock.members(), t) == Set::<BlockHash>::empty() && tier_blocks(stock.members(), t) == Map::<
        BlockHash,
        Seq<u8>,
    >::empty() && tier_claims(stock.members(), t) == Set::<(BlockHash, Seq<u8>)>::empty() by {
        assert forall|h: BlockHash| route(stock.members(), t, h) is None by {
            lemma_route(stock.members(), t, h, 0);
            if let Some(i) = route(stock.members(), t, h) {
                assert(serves(stock.members()[i], t, h));
                assert(stock.members()[i].held() == Set::<BlockHash>::empty());
            }
        }
        assert(tier_held(stock.members(), t) =~= Set::<BlockHash>::empty());
        assert(tier_blocks(stock.members(), t) =~= Map::<BlockHash, Seq<u8>>::empty());
        assert(tier_claims(stock.members(), t) =~= Set::<(BlockHash, Seq<u8>)>::empty());
    }
    assert forall|t: u8| #[trigger] pool.holds(t) == Set::<BlockHash>::empty() by {
        assert(tier_held(stock.members(), t) == Set::<BlockHash>::empty());
    }
    assert forall|t: u8| #[trigger] pool.shelf(t) == Map::<BlockHash, Seq<u8>>::empty() by {
        assert(tier_held(stock.members(), t) == Set::<BlockHash>::empty());
    }
    assert forall|t: u8| #[trigger] pool.promised(t) == Set::<(BlockHash, Seq<u8>)>::empty() by {
        assert(tier_held(stock.members(), t) == Set::<BlockHash>::empty());
    }
    assert forall|len: nat| frame_size(len) < pool.ring().size implies #[trigger] pool.ring().has_room(len) by {
        law_a_young_ring_has_room(pool.ring(), len);
    }
}

/// A freshly laid out set opens as a pool.
pub proof fn law_a_fresh_set_opens<D: Disk>(store: &BrickSet<D>, e: FsError)
    requires
        store.inv(),
        store.unused(),
    ensures
        !open_refused(store, false, e),
{
    store.lemma_set();
    store.members()[store.holder_at()].lemma_model();
    let (first, roster) = choose|first: Anchor, roster: Seq<RosterEntry>| #[trigger] first_anchor(first, roster) && best_anchor(store.wal_area(), Some(first));
    assert forall|a: Anchor| #[trigger] best_anchor(store.wal_area(), Some(a)) implies a.manifest_hash@ == zeros(32) && a.wal_replay_offset
        == WAL_AREA_START && a.wal_replay_seq == 1 && a.wal_epoch == 1 by {
        lemma_first_reading(store.wal_area(), first, roster, a);
    }
}

/// A brick that was laid out by itself is a freshly laid out set.
proof fn lemma_alone_is_unused<D: Disk>(store: &BrickSet<D>, brick: Brick<D>)
    requires
        set_of_one(store, brick),
        brick.fresh_alone(),
    ensures
        store.unused(),
{
    store.lemma_set();
    let a = choose|a: Anchor| #[trigger] first_anchor(a, seq![entry_of_brick(brick)]) && best_anchor(brick.aux(), Some(a));
    assert(first_anchor(a, seq![entry_of_brick(brick)]) && best_anchor(store.wal_area(), Some(a)));
}

/// A brick that was laid out by itself opens as a pool.
pub proof fn law_a_fresh_brick_opens<D: Disk>(brick: Brick<D>, e: FsError)
    requires
        brick.inv(),
        brick.reliable(),
        brick.fresh_alone(),
    ensures
        !brick_refused(brick, e),
{
    assert forall|sorted: Seq<Brick<D>>, r: Result<BrickSet<D>>| #[trigger] one_brick_set(brick, sorted, r) implies r is Ok by {
        assert(seq![brick][0] == brick);
        assert(sorted.contains(seq![brick][0]));
        assert(sorted[0] == brick);
        let holder = choose|i: int| 0 <= i < sorted.len() && (#[trigger] sorted[i]).superblock().wal_holder;
        assert(sorted[0].superblock().wal_holder);
        assert(holder == 0);
        let a = choose|a: Anchor| #[trigger] first_anchor(a, seq![entry_of_brick(brick)]) && best_anchor(brick.aux(), Some(a));
        assert(a.roster@[0] == entry_of_brick(brick));
        if let Err(f) = r {
            if let Some(b) = (if exists|b: Anchor| #[trigger] best_anchor(brick.aux(), Some(b)) && !roster_matches(b.roster@, sorted) {
                Some(choose|b: Anchor| #[trigger] best_anchor(brick.aux(), Some(b)) && !roster_matches(b.roster@, sorted))
            } else {
                None
            }) {
                crate::brick_set::layout::lemma_one_roster(brick.aux(), a, b);
                assert(b.roster@[0] == entry_of_brick(sorted[0]));
                assert(roster_matches(b.roster@, sorted));
            }
        }
    }
    assert forall|store: BrickSet<D>| #[trigger] set_of_one(&store, brick) implies !open_refused(&store, false, e) by {
        lemma_alone_is_unused(&store, brick);
        law_a_fresh_set_opens(&store, e);
    }
}

/// A brick that was laid out by itself is a pool with nothing in it.
pub proof fn law_a_fresh_brick_is_an_empty_pool<D: Disk>(pool: &Pool<D>, brick: Brick<D>)
    requires
        pool.inv(),
        brick.fresh_alone(),
        pool.stock().members().len() == 1,
        pool.stock().members()[0] == brick,
        opened_whole(pool, None),
    ensures
        empty_pool(pool),
{
    pool.lemma_pool();
    lemma_alone_is_unused(&pool.stock(), brick);
    law_a_fresh_set_is_an_empty_pool(pool);
}

} // verus!
