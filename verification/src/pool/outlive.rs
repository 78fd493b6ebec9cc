//! What outlives a crash that comes any number of operations after a flush.
//!
//! Between a flush and the crash, operations write to room no block lives in
//! and to the ring past its live history. So whatever the power loss leaves
//! of those writes, an open starts from the state that was flushed.

use super::collect::{live_in, live_secured, live_set, manifest_marks, swept_out, swept_safely};
use super::entry::WalEntry;
use super::lease::only_leases;
use super::manifest::ManifestView;
use super::open::{first_tables, opened_as, replayed};
use super::recover::{
    accepts_no_less, agree, bricks_came_back, carried_out, found_frames, law_an_open_recovers_what_was_acknowledged, missing, recoverable, tables_of,
};
use super::vdisk::{
    block_stored, block_wrote, created, deleted, flushed, history_kept, lemma_history_twice, lemma_shielded, mapped_to, shielded, stored_under,
    trimmed,
};
use super::{lemma_grew_twice, lemma_same_grew, stock_grew, Pool};
use crate::brick::{lemma_best_superblock_unique, Brick, GcStats};
use crate::brick_set::care::live_on;
use crate::brick_set::ops::tier_exists;
use crate::brick_set::{lemma_route, route, serves, tier_blocks, tier_held, BrickSet};
use crate::disk::Disk;
use crate::error::Result;
use crate::format::{Anchor, ANCHOR_AREA_START, WAL_AREA_START};
use crate::hash::{address_of, BlockHash};
use crate::map::extends;
use crate::table::TierHash;
use crate::wal::{between, law_a_history_leaves_room, FrameView};
use vstd::prelude::*;

verus! {

/// Nothing that was there is endangered: the store has only grown, and the
/// bytes that recovery rests on are as they were.
pub open spec fn safe_step<D: Disk>(before: &Pool<D>, after: &Pool<D>) -> bool {
    &&& stock_grew(&before.stock(), &after.stock())
    &&& history_kept(before, after)
}

/// Every state of a run is a safe step from the one before it.
pub open spec fn safe_run<D: Disk>(states: Seq<Pool<D>>) -> bool {
    forall|k: int| 0 <= k < states.len() - 1 ==> #[trigger] steps_safely(states, k)
}

pub open spec fn steps_safely<D: Disk>(states: Seq<Pool<D>>, k: int) -> bool {
    safe_step(&states[k], &states[k + 1])
}

/// One operation on a pool, whatever became of it.
pub open spec fn operated<D: Disk>(before: &Pool<D>, after: &Pool<D>) -> bool {
    ||| exists|id: u64, size: u64, tier: u8, r: Result<()>| #[trigger] created(before, after, id, size, tier, r)
    ||| exists|id: u64, r: Result<()>| #[trigger] deleted(before, after, id, r)
    ||| exists|v: u64, i: u64, payload: Seq<u8>, r: Result<()>| #[trigger] block_wrote(before, after, v, i, payload, r)
    ||| exists|v: u64, i: u64, h: BlockHash, r: Result<()>| #[trigger] mapped_to(before, after, v, i, h, r)
    ||| exists|v: u64, i: u64, r: Result<()>| #[trigger] trimmed(before, after, v, i, r)
    ||| exists|tier: u8, payload: Seq<u8>, r: Result<BlockHash>| #[trigger] block_stored(before, after, tier, payload, r)
    ||| exists|tier: u8, h: BlockHash, payload: Seq<u8>, r: Result<()>| #[trigger] stored_under(before, after, tier, h, payload, r) && h == address_of(payload)
    ||| exists|r: Result<()>| #[trigger] only_leases(before, after, r)
    ||| exists|r: Result<()>| #[trigger] flushed(before, after, r)
}

/// Every operation endangers nothing, acknowledged or refused.
pub proof fn law_operations_are_safe<D: Disk>(before: &Pool<D>, after: &Pool<D>)
    requires
        operated(before, after),
    ensures
        safe_step(before, after),
{
    if !stock_grew(&before.stock(), &after.stock()) {
        lemma_same_grew(&before.stock(), &after.stock());
    }
}

/// Nor does an operation that the ring records.
pub proof fn law_recorded_operations_are_safe<D: Disk>(before: &Pool<D>, after: &Pool<D>, e: WalEntry, r: Result<()>)
    requires
        carried_out(before, after, e, r),
    ensures
        safe_step(before, after),
{
    if !stock_grew(&before.stock(), &after.stock()) {
        lemma_same_grew(&before.stock(), &after.stock());
    }
}

/// A safe run is one safe step from its first state to its last.
proof fn lemma_run_is_safe<D: Disk>(states: Seq<Pool<D>>, n: nat)
    requires
        safe_run(states),
        states.len() > 0,
        n < states.len(),
        n > 0,
    ensures
        safe_step(&states[0], &states[n as int]),
    decreases n,
{
    assert(steps_safely(states, n - 1));
    if n > 1 {
        lemma_run_is_safe(states, (n - 1) as nat);
        let (a, b, c) = (&states[0], &states[n - 1], &states[n as int]);
        lemma_grew_twice(&a.stock(), &b.stock(), &c.stock());
        lemma_history_twice(a, b, c);
    }
}

/// A set that was flushed, grew, and lost power comes back with everything
/// it held at the flush.
proof fn lemma_set_outlives<D: Disk>(a: &BrickSet<D>, l: &BrickSet<D>, b: &BrickSet<D>)
    requires
        a.inv(),
        b.inv(),
        a.durable(),
        a.intact(),
        stock_grew(a, l),
        bricks_came_back(l, b),
    ensures
        b.wal_super() == a.wal_super(),
        b.holder_at() == a.holder_at(),
        b.unit_size() == a.unit_size(),
        forall|t: u8| #[trigger] tier_exists(a.members(), t) ==> tier_exists(b.members(), t),
        forall|t: u8| #[trigger] tier_held(a.members(), t).subset_of(tier_held(b.members(), t)),
        forall|t: u8, h: BlockHash| #[trigger] tier_held(b.members(), t).contains(h) ==> tier_blocks(b.members(), t).contains_key(h),
{
    let (x, z, y) = (a.members(), l.members(), b.members());
    a.lemma_set();
    b.lemma_set();
    assert forall|i: int| 0 <= i < x.len() implies (#[trigger] y[i]).superblock() == x[i].superblock() && x[i].held().subset_of(y[i].held()) by {
        assert(y[i].came_back(&z[i]));
        assert(x[i].durable() && x[i].intact());
        assert(z[i].superblock() == x[i].superblock() && z[i].kept_to_room(&x[i]));
        x[i].law_a_flush_secures_what_is_held();
        Brick::law_what_is_secured_stays_secured(&x[i], &z[i], x[i].held());
        z[i].law_a_secured_brick_stays_known(x[i].held(), y[i].disk_bytes());
        lemma_best_superblock_unique(y[i].disk_bytes());
        assert forall|h: BlockHash| x[i].held().contains(h) implies y[i].held().contains(h) by {
            Brick::law_a_flushed_block_survives_a_crash(&x[i], &z[i], &y[i], h);
        }
    }
    assert forall|i: int, h: BlockHash| 0 <= i < y.len() && (#[trigger] y[i]).held().contains(h) implies #[trigger] y[i].blocks().contains_key(h) by {
        assert(y[i].came_back(&z[i]));
        y[i].law_intact_means_readable(h);
    }
    let (h, k) = (a.holder_at(), b.holder_at());
    assert(y[h].superblock() == x[h].superblock());
    assert(y[k].superblock() == x[k].superblock());
    if h < k {
        assert(y[h].superblock().wal_holder && y[k].superblock().wal_holder);
    } else if k < h {
        assert(y[k].superblock().wal_holder && y[h].superblock().wal_holder);
    }
    assert(y[0].superblock() == x[0].superblock());
    assert(y[0].superblock().block_size == b.unit_size() && x[0].superblock().block_size == a.unit_size());
    assert forall|t: u8| #[trigger] tier_exists(x, t) implies tier_exists(y, t) by {
        let i = choose|i: int| 0 <= i < x.len() && (#[trigger] x[i]).superblock().tier == t;
        assert(y[i].superblock().tier == t);
    }
    assert forall|t: u8| #[trigger] tier_held(x, t).subset_of(tier_held(y, t)) by {
        assert forall|d: BlockHash| tier_held(x, t).contains(d) implies tier_held(y, t).contains(d) by {
            lemma_route(x, t, d, 0);
            lemma_route(y, t, d, 0);
            let i = route(x, t, d)->Some_0;
            assert(serves(x[i], t, d));
            assert(y[i].held().contains(d));
            assert(serves(y[i], t, d));
        }
    }
    assert forall|t: u8, d: BlockHash| #[trigger] tier_held(y, t).contains(d) implies tier_blocks(y, t).contains_key(d) by {
        lemma_route(y, t, d, 0);
        let i = route(y, t, d)->Some_0;
        assert(y[i].held().contains(d));
        assert(y[i].blocks().contains_key(d));
    }
}

/// The bytes that recovery rested on at the flush are on the disk after the
/// crash.
proof fn lemma_history_outlives<D: Disk>(pool: &Pool<D>, last: &Pool<D>, reopened: &Pool<D>)
    requires
        pool.inv(),
        pool.stock().durable(),
        pool.ring().unwound(),
        history_kept(pool, last),
        last.stock().inv(),
        last.stock().holder_at() == pool.stock().holder_at(),
        last.stock().wal_super() == pool.stock().wal_super(),
        reopened.inv(),
        bricks_came_back(&last.stock(), &reopened.stock()),
        reopened.stock().holder_at() == pool.stock().holder_at(),
        reopened.stock().wal_super() == pool.stock().wal_super(),
    ensures
        forall|i: int| shielded(pool.ring(), i) ==> #[trigger] reopened.stock().wal_area()[i] == pool.stock().wal_area()[i],
{
    let h = pool.stock().holder_at();
    pool.stock().lemma_set();
    last.stock().lemma_set();
    reopened.stock().lemma_set();
    let (z, y) = (last.stock().members()[h], reopened.stock().members()[h]);
    z.lemma_model();
    y.lemma_model();
    assert(y.came_back(&z));
    assert forall|i: int| shielded(pool.ring(), i) implies #[trigger] reopened.stock().wal_area()[i] == pool.stock().wal_area()[i] by {
        lemma_shielded(pool, i);
        assert(pool.stock().members()[h].durable());
        assert(!pool.stock().wal_risks(i));
        assert(last.stock().wal_area()[i] == pool.stock().wal_area()[i]);
        assert(!last.stock().wal_risks(i));
        assert(!z.risks(i));
        assert(y.disk_bytes()[i] == z.disk_bytes()[i]);
    }
}

/// The durability contract: flush, then any number of operations, then a
/// crash and an open. The open finds the anchor, the manifest, the snapshots,
/// the era and the whole history of the flush, goes through that history to
/// exactly the tables the pool had then, and then on through whatever frames
/// of later operations the crash happened to keep. Every block that was
/// stored at the flush is there with its bytes. No two payloads share an
/// address.
pub proof fn law_a_flush_outlives_any_crash<D: Disk>(
    states: Seq<Pool<D>>,
    a: Anchor,
    m: Option<ManifestView>,
    log: Seq<FrameView>,
    reopened: &Pool<D>,
    found: Anchor,
    n: Option<ManifestView>,
)
    requires
        states.len() > 0,
        safe_run(states),
        states[0].inv(),
        states[0].stock().durable(),
        states[0].stock().intact(),
        recoverable(&states[0], a, m, log),
        reopened.inv(),
        bricks_came_back(&states.last().stock(), &reopened.stock()),
        opened_as(&reopened.stock(), found, n, reopened),
        reopened.seat() == states[0].seat(),
        forall|t: u8| #[trigger] agree(states[0].shelf(t), reopened.shelf(t)),
    ensures
        reopened.unit() == states[0].unit(),
        reopened.generation() == states[0].generation(),
        reopened.era_now() == states[0].era_now(),
        reopened.snapshot_map() == states[0].snapshot_map(),
        log.is_prefix_of(found_frames(reopened, found)),
        replayed(reopened, first_tables(n), log, 0) == (tables_of(&states[0]), log.len()),
        tables_of(reopened) == replayed(reopened, tables_of(&states[0]), found_frames(reopened, found), log.len()).0,
        found_frames(reopened, found).len() == log.len() ==> tables_of(reopened) == tables_of(&states[0]),
        forall|t: u8| extends(#[trigger] states[0].shelf(t), reopened.shelf(t)),
{
    let pool = &states[0];
    let last = &states[states.len() - 1];
    law_a_history_leaves_room(pool.ring(), pool.stock().wal_area(), a.wal_replay_seq, a.wal_epoch, log);
    if states.len() > 1 {
        lemma_run_is_safe(states, (states.len() - 1) as nat);
    } else {
        lemma_still_safe(pool);
    }
    let (x, y) = (pool.stock(), reopened.stock());
    lemma_set_outlives(&x, &last.stock(), &y);
    lemma_history_outlives(pool, last, reopened);
    assert forall|t: u8| extends(#[trigger] pool.shelf(t), reopened.shelf(t)) by {
        assert(agree(pool.shelf(t), reopened.shelf(t)));
        assert forall|h: BlockHash| #[trigger] pool.shelf(t).contains_key(h) implies reopened.shelf(t).contains_key(h) && reopened.shelf(t)[h]
            == pool.shelf(t)[h] by {
            assert(tier_held(x.members(), t).contains(h));
            assert(tier_held(x.members(), t).subset_of(tier_held(y.members(), t)));
            assert(tier_held(y.members(), t).contains(h));
        }
    }
    assert forall|t: u8, h: BlockHash| #[trigger] missing(reopened, t, h) implies missing(pool, t, h) by {
        assert(tier_held(x.members(), t).subset_of(tier_held(y.members(), t)));
    }
    assert(accepts_no_less(pool, reopened));
    if m is Some {
        assert(extends(pool.shelf(0), reopened.shelf(0)));
        assert(pool.shelf(0).contains_key(BlockHash(a.manifest_hash)));
    }
    assert forall|i: int|
        ANCHOR_AREA_START <= i < WAL_AREA_START || between(
            pool.ring().start as int,
            pool.ring().size as int,
            pool.ring().replay_start as int,
            pool.ring().cursor as int,
            i,
        ) implies #[trigger] reopened.stock().wal_area()[i] == pool.stock().wal_area()[i] by {
        assert(shielded(pool.ring(), i));
    }
    law_an_open_recovers_what_was_acknowledged(pool, a, m, log, reopened, found, n);
}

/// Every live block is there after the crash, on the brick it was on.
proof fn lemma_live_outlives<D: Disk>(mid: &Pool<D>, done: &Pool<D>, last: &Pool<D>, reopened: &Pool<D>)
    requires
        mid.inv(),
        mid.stock().intact(),
        swept_safely(mid, done),
        live_secured(mid, done),
        stock_grew(&done.stock(), &last.stock()),
        reopened.inv(),
        bricks_came_back(&last.stock(), &reopened.stock()),
    ensures
        reopened.stock().wal_super() == mid.stock().wal_super(),
        reopened.stock().holder_at() == mid.stock().holder_at(),
        reopened.unit() == mid.unit(),
        forall|x: TierHash| #[trigger] live_in(mid, x) && mid.shelf(x.tier).contains_key(x.hash) ==> reopened.shelf(x.tier).contains_key(x.hash),
{
    let (x, d, z, y) = (mid.stock().members(), done.stock().members(), last.stock().members(), reopened.stock().members());
    mid.stock().lemma_set();
    reopened.stock().lemma_set();
    let live = live_set(mid);
    assert forall|i: int| 0 <= i < x.len() implies (#[trigger] y[i]).superblock() == x[i].superblock() && live_on(x, live, i).subset_of(y[i].held()) by {
        assert(x[i].intact());
        assert(d[i].superblock() == x[i].superblock() && z[i].superblock() == d[i].superblock());
        assert(d[i].secures(live_on(x, live, i)));
        assert(z[i].kept_to_room(&d[i]));
        Brick::law_what_is_secured_stays_secured(&d[i], &z[i], live_on(x, live, i));
        assert(y[i].came_back(&z[i]));
        z[i].law_a_secured_brick_stays_known(live_on(x, live, i), y[i].disk_bytes());
        lemma_best_superblock_unique(y[i].disk_bytes());
        assert forall|h: BlockHash| live_on(x, live, i).contains(h) implies y[i].held().contains(h) by {
            z[i].law_a_secured_block_survives_a_crash(live_on(x, live, i), y[i].disk_bytes(), h);
        }
    }
    let (h, k) = (mid.stock().holder_at(), reopened.stock().holder_at());
    assert(y[h].superblock() == x[h].superblock());
    assert(y[k].superblock() == x[k].superblock());
    if h < k {
        assert(y[h].superblock().wal_holder && y[k].superblock().wal_holder);
    } else if k < h {
        assert(y[k].superblock().wal_holder && y[h].superblock().wal_holder);
    }
    assert(y[0].superblock() == x[0].superblock());
    assert(y[0].superblock().block_size == reopened.stock().unit_size() && x[0].superblock().block_size == mid.stock().unit_size());
    assert forall|b: TierHash| #[trigger] live_in(mid, b) && mid.shelf(b.tier).contains_key(b.hash) implies reopened.shelf(b.tier).contains_key(b.hash) by {
        let (t, d) = (b.tier, b.hash);
        lemma_route(x, t, d, 0);
        lemma_route(y, t, d, 0);
        let i = route(x, t, d)->Some_0;
        assert(serves(x[i], t, d));
        assert(live.contains(b) && b == TierHash { tier: t, hash: d });
        assert(live_on(x, live, i).contains(d));
        assert(y[i].held().contains(d));
        assert(serves(y[i], t, d));
        let j = route(y, t, d)->Some_0;
        assert(y[j].came_back(&z[j]));
        y[j].law_intact_means_readable(d);
    }
}

/// A collection, then any number of operations, then a crash and an open:
/// the open finds the anchor, the manifest, the snapshots and the era of the
/// checkpoint that the collection began with, starts from its tables, and
/// goes on through whatever frames of later operations the crash happened to
/// keep. Every block that the collection found live is there with its bytes.
/// No two payloads share an address.
pub proof fn law_a_collection_outlives_any_crash<D: Disk>(
    mid: &Pool<D>,
    states: Seq<Pool<D>>,
    a: Anchor,
    m: Option<ManifestView>,
    r: Result<GcStats>,
    reopened: &Pool<D>,
    found: Anchor,
    n: Option<ManifestView>,
)
    requires
        mid.inv(),
        mid.stock().durable(),
        mid.stock().intact(),
        recoverable(mid, a, m, Seq::empty()),
        m is Some ==> manifest_marks(mid, TierHash { tier: 0, hash: BlockHash(a.manifest_hash) }),
        states.len() > 0,
        swept_out(mid, &states[0], r),
        safe_run(states),
        reopened.inv(),
        bricks_came_back(&states.last().stock(), &reopened.stock()),
        opened_as(&reopened.stock(), found, n, reopened),
        forall|t: u8| #[trigger] agree(mid.shelf(t), reopened.shelf(t)),
    ensures
        reopened.unit() == mid.unit(),
        reopened.generation() == mid.generation(),
        reopened.era_now() == mid.era_now(),
        reopened.snapshot_map() == mid.snapshot_map(),
        tables_of(reopened) == replayed(reopened, tables_of(mid), found_frames(reopened, found), 0).0,
        found_frames(reopened, found).len() == 0 ==> tables_of(reopened) == tables_of(mid),
        forall|x: TierHash| #[trigger] live_in(mid, x) && mid.shelf(x.tier).contains_key(x.hash) ==> reopened.shelf(x.tier).contains_key(x.hash)
            && reopened.shelf(x.tier)[x.hash] == mid.shelf(x.tier)[x.hash],
{
    let done = &states[0];
    let last = &states[states.len() - 1];
    law_a_history_leaves_room(mid.ring(), mid.stock().wal_area(), a.wal_replay_seq, a.wal_epoch, Seq::empty());
    if states.len() > 1 {
        lemma_run_is_safe(states, (states.len() - 1) as nat);
    } else {
        lemma_still_safe(done);
    }
    lemma_history_twice(mid, done, last);
    lemma_live_outlives(mid, done, last, reopened);
    mid.stock().lemma_set();
    assert(done.stock().members()[mid.stock().holder_at()].superblock() == mid.stock().wal_super());
    lemma_history_outlives(mid, last, reopened);
    assert forall|x: TierHash| #[trigger] live_in(mid, x) && mid.shelf(x.tier).contains_key(x.hash) implies reopened.shelf(x.tier).contains_key(x.hash)
        && reopened.shelf(x.tier)[x.hash] == mid.shelf(x.tier)[x.hash] by {
        assert(agree(mid.shelf(x.tier), reopened.shelf(x.tier)));
    }
    if m is Some {
        assert(live_in(mid, TierHash { tier: 0, hash: BlockHash(a.manifest_hash) }));
        assert(mid.shelf(0).contains_key(BlockHash(a.manifest_hash)));
    }
    assert forall|i: int|
        ANCHOR_AREA_START <= i < WAL_AREA_START || between(
            mid.ring().start as int,
            mid.ring().size as int,
            mid.ring().replay_start as int,
            mid.ring().cursor as int,
            i,
        ) implies #[trigger] reopened.stock().wal_area()[i] == mid.stock().wal_area()[i] by {
        assert(shielded(mid.ring(), i));
    }
    law_an_open_recovers_what_was_acknowledged(mid, a, m, Seq::empty(), reopened, found, n);
}

/// To do nothing is safe.
proof fn lemma_still_safe<D: Disk>(pool: &Pool<D>)
    requires
        pool.inv(),
    ensures
        safe_step(pool, pool),
{
}

} // verus!
