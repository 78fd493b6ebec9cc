//! What an open recovers: everything that was acknowledged.
//!
//! A pool is recoverable when the anchor on its disk, the tables that the
//! anchored manifest lists and the ring's live history give back the tables
//! it has. An open leaves it so, every operation and checkpoint keeps it so,
//! and an open after a crash finds the whole history again.

use super::checkpoint::{anchor_names, anchored, checkpointed, flushed_twice};
use super::entry::{entry_bytes, entry_of_bytes, law_entry_round_trip, WalEntry, NO_NODE};
use super::lease::{lease_step, only_leases};
use super::manifest::{encodable, lemma_manifest_layout, manifest_bytes, manifest_fault, manifest_reads, manifest_unread, ManifestView};
use super::open::{
    anchored_manifest, applied, brick_refused, first_tables, last_epoch, law_replay_is_the_run_of_its_entries, listed, manifest_refused, one_brick_set,
    open_refused, opened_as, replayed, ring_refused, set_of_one, Tables,
};
use super::vdisk::{created, deleted, history_kept, index_fault, logged, mapped_to, shielded, trimmed, with_dirty};
use super::{lemma_same_grew, mapped, stock_grew, tree_depth, Lease, Pool, SnapshotState};
use crate::brick::{best_anchor, Brick};
use crate::brick_set::ops::tier_exists;
use crate::brick_set::layout::lemma_one_roster;
use crate::brick_set::{entry_of_brick, lemma_route, roster_matches, route, set_fault, serves, tier_blocks, tier_held, BrickSet};
use crate::codec::{lemma_array_view_injective, padded, splice, zeros};
use crate::disk::Disk;
use crate::error::{FsError, Result};
use crate::format::{
    anchor_bytes, anchor_reads, anchor_slot, anchor_valid, law_anchor_slots_alternate, lemma_anchor_layout, Anchor, ANCHOR_AREA_START, ROSTER_CAP,
    SECTOR_SIZE, WAL_AREA_START,
};
use crate::hash::{address_of, BlockHash};
use crate::map::{extends, lemma_tree_grows};
use crate::store::{grew, keeps_promises};
use crate::table::SnapshotId;
use crate::wal::{
    between, frame_at, frame_size, law_a_crash_keeps_the_flushed_history, law_a_history_is_in_order, law_a_history_leaves_room, law_a_recovered_ring_tracks_its_frames,
    law_append_extends_history, law_the_history_alone_counts, scan, tracks, FrameView,
};
use vstd::bytes::*;
use vstd::prelude::*;

verus! {

/// The tables that the ring's entries change.
pub open spec fn tables_of<D: Disk>(pool: &Pool<D>) -> Tables {
    Tables { vdisks: pool.vdisk_map(), leases: pool.lease_map() }
}

/// A block that a tier should hold and does not.
pub open spec fn missing<D: Disk>(pool: &Pool<D>, tier: u8, h: BlockHash) -> bool {
    pool.keeps(h) && !pool.holds(tier).contains(h)
}

/// Whatever entry the one pool accepts, the other does.
pub open spec fn accepts_no_less<D: Disk>(a: &Pool<D>, b: &Pool<D>) -> bool {
    &&& b.unit() == a.unit()
    &&& forall|t: u8| #[trigger] tier_exists(a.stock().members(), t) ==> tier_exists(b.stock().members(), t)
    &&& forall|t: u8, h: BlockHash| #[trigger] missing(b, t, h) ==> missing(a, t, h)
}

/// The snapshots a manifest lists.
pub open spec fn first_snapshots(m: Option<ManifestView>) -> Map<SnapshotId, SnapshotState> {
    match m {
        Some(m) => listed(m.snapshots),
        None => Map::empty(),
    }
}

/// The anchor `a`, the manifest `m` that it names and the live history `log`
/// give back everything the pool has.
pub open spec fn recoverable<D: Disk>(pool: &Pool<D>, a: Anchor, m: Option<ManifestView>, log: Seq<FrameView>) -> bool {
    &&& best_anchor(pool.stock().wal_area(), Some(a))
    &&& a.generation == pool.generation()
    &&& a.era == pool.era_now()
    &&& a.wal_replay_offset == pool.ring().replay_start
    &&& anchored_manifest(&pool.stock(), a, m)
    &&& pool.snapshot_map() == first_snapshots(m)
    &&& tracks(pool.ring(), pool.stock().wal_area(), a.wal_replay_seq, a.wal_epoch, log)
    &&& replayed(pool, first_tables(m), log, 0) == (tables_of(pool), log.len())
}

/// No stale frame stands at the ring's cursor that a scan would take for the
/// next one when that goes to the start of the ring.
pub open spec fn unmistaken<D: Disk>(pool: &Pool<D>, a: Anchor, log: Seq<FrameView>, len: int) -> bool {
    pool.ring().next_place(len) != pool.ring().cursor ==> !frame_at(
        pool.stock().wal_area(),
        pool.ring().cursor as int,
        pool.ring().start + pool.ring().size,
        pool.ring().next_seq,
        if log.len() == 0 { a.wal_epoch } else { log.last().epoch },
    )
}

/// The frame an entry is logged in.
pub open spec fn frame_of<D: Disk>(before: &Pool<D>, after: &Pool<D>, e: WalEntry) -> FrameView {
    FrameView {
        payload: entry_bytes(e),
        seq: before.ring().next_seq,
        epoch: before.ring().epoch,
        cursor_after: after.ring().cursor,
    }
}

/// A block was stored and an index led to it.
pub open spec fn written<D: Disk>(before: &Pool<D>, after: &Pool<D>, vdisk: u64, index: u64, hash: BlockHash) -> bool {
    &&& after.inv()
    &&& after.same_rest(before)
    &&& stock_grew(&before.stock(), &after.stock())
    &&& history_kept(before, after)
    &&& index_fault(before, vdisk, index) is None
    &&& after.vdisk_map() == before.vdisk_map().insert(vdisk, with_dirty(before.vdisk_map()[vdisk], index, Some(hash)))
    &&& after.holds(before.vdisk_map()[vdisk].tier).contains(hash)
    &&& logged(
        before.ring(),
        before.stock().wal_area(),
        WalEntry::MapWrite { vdisk, index, hash },
        after.ring(),
        after.stock().wal_area(),
    )
}

/// The operation that an entry records was acknowledged.
pub open spec fn carried_out<D: Disk>(before: &Pool<D>, after: &Pool<D>, e: WalEntry, r: Result<()>) -> bool {
    &&& r is Ok
    &&& match e {
        WalEntry::CreateVdisk { id, size_bytes, tier } => created(before, after, id, size_bytes, tier, r),
        WalEntry::MapWrite { vdisk, index, hash } => written(before, after, vdisk, index, hash) || mapped_to(
            before,
            after,
            vdisk,
            index,
            hash,
            r,
        ),
        WalEntry::TrimBlock { vdisk, index } => trimmed(before, after, vdisk, index, r),
        WalEntry::DeleteVdisk { id } => deleted(before, after, id, r),
        WalEntry::SetLease { vdisk, lease } => lease.handing_to != Some(NO_NODE) && only_leases(before, after, r) && lease_step(
            before,
            after,
            vdisk,
            lease,
            r,
        ),
    }
}

proof fn lemma_applied_more<D: Disk>(a: &Pool<D>, b: &Pool<D>, t: Tables, e: WalEntry)
    requires
        accepts_no_less(a, b),
        applied(a, t, e).1,
    ensures
        applied(b, t, e) == applied(a, t, e),
{
    match e {
        WalEntry::MapWrite { vdisk, index, hash } => {
            assert(missing(b, t.vdisks[vdisk].tier, hash) ==> missing(a, t.vdisks[vdisk].tier, hash));
        },
        _ => {},
    }
}

proof fn lemma_replayed_more<D: Disk>(a: &Pool<D>, b: &Pool<D>, t: Tables, log: Seq<FrameView>, i: nat)
    requires
        accepts_no_less(a, b),
        i <= log.len(),
        replayed(a, t, log, i).1 == log.len(),
    ensures
        replayed(b, t, log, i) == replayed(a, t, log, i),
    decreases log.len() - i,
{
    if i < log.len() {
        let e = entry_of_bytes(log[i as int].payload)->Some_0;
        lemma_applied_more(a, b, t, e);
        lemma_replayed_more(a, b, applied(a, t, e).0, log, i + 1);
    }
}

proof fn lemma_replayed_prefix<D: Disk>(pool: &Pool<D>, t: Tables, log: Seq<FrameView>, all: Seq<FrameView>, i: nat)
    requires
        log.is_prefix_of(all),
        i <= log.len(),
        replayed(pool, t, log, i).1 == log.len(),
    ensures
        replayed(pool, t, all, i) == replayed(pool, replayed(pool, t, log, i).0, all, log.len()),
    decreases log.len() - i,
{
    if i < log.len() {
        assert(all[i as int] == log[i as int]);
        let e = entry_of_bytes(log[i as int].payload)->Some_0;
        lemma_replayed_prefix(pool, applied(pool, t, e).0, log, all, i + 1);
    }
}

/// What the disk of a pool's ring holder looks like.
proof fn lemma_area<D: Disk>(pool: &Pool<D>)
    requires
        pool.inv(),
    ensures
        pool.ring().start == WAL_AREA_START,
        pool.ring().start + pool.ring().size <= pool.stock().wal_area().len(),
{
    pool.stock().lemma_set();
    pool.stock().members()[pool.stock().holder_at()].lemma_model();
}

/// A store that has only grown accepts no less.
proof fn lemma_grew_accepts<D: Disk>(before: &Pool<D>, after: &Pool<D>)
    requires
        stock_grew(&before.stock(), &after.stock()),
        after.seat() == before.seat(),
        after.pending() == before.pending(),
    ensures
        accepts_no_less(before, after),
{
    let (a, b) = (before.stock().members(), after.stock().members());
    assert forall|t: u8| #[trigger] tier_exists(a, t) implies tier_exists(b, t) by {
        let i = choose|i: int| 0 <= i < a.len() && (#[trigger] a[i]).superblock().tier == t;
        assert(b[i].superblock() == a[i].superblock());
    }
    assert forall|t: u8, h: BlockHash| #[trigger] missing(after, t, h) implies missing(before, t, h) by {
        assert(before.holds(t).subset_of(after.holds(t)));
    }
}

/// The anchor sectors decide which anchor is the best.
proof fn lemma_best_anchor_frame(b: Seq<u8>, c: Seq<u8>, a: Anchor)
    requires
        best_anchor(b, Some(a)),
        b.len() == c.len(),
        b.len() >= WAL_AREA_START,
        forall|i: int| ANCHOR_AREA_START <= i < WAL_AREA_START ==> #[trigger] c[i] == b[i],
    ensures
        best_anchor(c, Some(a)),
{
    assert(c.subrange(ANCHOR_AREA_START as int, ANCHOR_AREA_START + SECTOR_SIZE) =~= b.subrange(
        ANCHOR_AREA_START as int,
        ANCHOR_AREA_START + SECTOR_SIZE,
    ));
    assert(c.subrange(ANCHOR_AREA_START + SECTOR_SIZE, ANCHOR_AREA_START + 2 * SECTOR_SIZE) =~= b.subrange(
        ANCHOR_AREA_START + SECTOR_SIZE,
        ANCHOR_AREA_START + 2 * SECTOR_SIZE,
    ));
}

/// An entry logged and applied leaves the pool recoverable, its frame the
/// last of the history.
proof fn lemma_logged_is_recoverable<D: Disk>(before: &Pool<D>, after: &Pool<D>, a: Anchor, m: Option<ManifestView>, log: Seq<FrameView>, e: WalEntry)
    requires
        before.inv(),
        recoverable(before, a, m, log),
        accepts_no_less(before, after),
        stock_grew(&before.stock(), &after.stock()),
        after.generation() == before.generation(),
        after.era_now() == before.era_now(),
        after.snapshot_map() == before.snapshot_map(),
        logged(before.ring(), before.stock().wal_area(), e, after.ring(), after.stock().wal_area()),
        unmistaken(before, a, log, frame_size(entry_bytes(e).len()) as int),
        e matches WalEntry::SetLease { vdisk, lease } ==> lease.handing_to != Some(NO_NODE),
        applied(after, tables_of(before), e) == (tables_of(after), true),
    ensures
        recoverable(after, a, m, log.push(frame_of(before, after, e))),
{
    lemma_auto_spec_u64_to_from_le_bytes();
    lemma_area(before);
    law_entry_round_trip(e);
    let payload = entry_bytes(e);
    let (b, c) = (before.stock().wal_area(), after.stock().wal_area());
    let frame = frame_of(before, after, e);
    let longer = log.push(frame);
    assert(payload.len() <= 49);
    law_append_extends_history(before.ring(), b, a.wal_replay_seq, a.wal_epoch, log, payload, after.ring(), c);
    lemma_best_anchor_frame(b, c, a);
    assert(longer.drop_last() =~= log);
    lemma_replayed_more(before, after, first_tables(m), log, 0);
    law_replay_is_the_run_of_its_entries(after, first_tables(m), longer, e, tables_of(after));
    let named = BlockHash(a.manifest_hash);
    assert(grew(before.holds(0), before.shelf(0), after.holds(0), after.shelf(0)));
    if before.shelf(0).contains_key(named) {
        assert(after.shelf(0).contains_key(named) && after.shelf(0)[named] == before.shelf(0)[named]);
    }
}

/// An acknowledged operation is recoverable, as the last of the history,
/// after everything that was.
pub proof fn law_an_acknowledged_operation_is_recoverable<D: Disk>(
    before: &Pool<D>,
    after: &Pool<D>,
    a: Anchor,
    m: Option<ManifestView>,
    log: Seq<FrameView>,
    e: WalEntry,
    r: Result<()>,
)
    requires
        before.inv(),
        recoverable(before, a, m, log),
        carried_out(before, after, e, r),
        unmistaken(before, a, log, frame_size(entry_bytes(e).len()) as int),
    ensures
        recoverable(after, a, m, log.push(frame_of(before, after, e))),
{
    match e {
        WalEntry::MapWrite { vdisk, index, hash } => {
            if !written(before, after, vdisk, index, hash) {
                lemma_same_grew(&before.stock(), &after.stock());
            }
        },
        _ => {
            lemma_same_grew(&before.stock(), &after.stock());
        },
    }
    lemma_grew_accepts(before, after);
    lemma_logged_is_recoverable(before, after, a, m, log, e);
}

/// A call that stood still leaves the pool as recoverable as it was.
pub proof fn law_stood_still_is_recoverable<D: Disk>(before: &Pool<D>, after: &Pool<D>, a: Anchor, m: Option<ManifestView>, log: Seq<FrameView>)
    requires
        before.inv(),
        recoverable(before, a, m, log),
        stock_grew(&before.stock(), &after.stock()),
        history_kept(before, after),
        after.ring() == before.ring(),
        tables_of(after) == tables_of(before),
        after.snapshot_map() == before.snapshot_map(),
        after.era_now() == before.era_now(),
        after.generation() == before.generation(),
        after.seat() == before.seat(),
        after.pending() == before.pending(),
    ensures
        recoverable(after, a, m, log),
{
    let (b, c) = (before.stock().wal_area(), after.stock().wal_area());
    lemma_area(before);
    before.stock().lemma_set();
    before.stock().members()[before.stock().holder_at()].lemma_model();
    after.stock().lemma_set();
    after.stock().members()[after.stock().holder_at()].lemma_model();
    law_a_history_leaves_room(before.ring(), b, a.wal_replay_seq, a.wal_epoch, log);
    assert forall|i: int| ANCHOR_AREA_START <= i < WAL_AREA_START implies #[trigger] c[i] == b[i] by {
        assert(shielded(before.ring(), i));
    }
    lemma_best_anchor_frame(b, c, a);
    let ring = before.ring();
    assert forall|i: int| between(ring.start as int, ring.size as int, ring.replay_start as int, ring.cursor as int, i) implies #[trigger] c[i] == b[i] by {
        assert(shielded(ring, i));
    }
    law_the_history_alone_counts(ring, b, a.wal_replay_seq, a.wal_epoch, log, c);
    lemma_grew_accepts(before, after);
    lemma_replayed_more(before, after, first_tables(m), log, 0);
    if m is Some {
        assert(grew(before.holds(0), before.shelf(0), after.holds(0), after.shelf(0)));
    }
}

/// A sector that reads as an anchor of the next generation, in either slot,
/// is the best.
proof fn lemma_newer_sector_is_best(b: Seq<u8>, c: Seq<u8>, a: Anchor, next: Anchor, slot: int, sector: Seq<u8>)
    requires
        best_anchor(b, Some(a)),
        b.len() >= WAL_AREA_START,
        next.generation == a.generation + 1,
        anchor_valid(sector),
        anchor_reads(sector, next),
        sector.len() == SECTOR_SIZE,
        slot == ANCHOR_AREA_START || slot == ANCHOR_AREA_START + SECTOR_SIZE,
        c == splice(b, slot, sector),
    ensures
        best_anchor(c, Some(next)),
{
    let (one, two) = (ANCHOR_AREA_START as int, ANCHOR_AREA_START + SECTOR_SIZE);
    let three = two + SECTOR_SIZE;
    if slot == one {
        assert(c.subrange(one, two) =~= sector);
        assert(c.subrange(two, three) =~= b.subrange(two, three));
    } else {
        assert(c.subrange(two, three) =~= sector);
        assert(c.subrange(one, two) =~= b.subrange(one, two));
    }
}

/// An anchor of the next generation is the best once it is in its slot.
pub proof fn lemma_new_anchor_is_best(b: Seq<u8>, c: Seq<u8>, a: Anchor, next: Anchor)
    requires
        best_anchor(b, Some(a)),
        b.len() >= WAL_AREA_START,
        next.generation == a.generation + 1,
        next.roster@.len() <= ROSTER_CAP,
        anchored(b, c, next),
    ensures
        best_anchor(c, Some(next)),
{
    law_anchor_slots_alternate(a.generation);
    let slot = anchor_slot(next.generation) as int;
    let bytes = anchor_bytes(next);
    let tail = zeros((SECTOR_SIZE - bytes.len()) as nat);
    lemma_anchor_layout(next, tail);
    let sector = bytes + tail;
    assert(sector == padded(bytes, SECTOR_SIZE as nat));
    assert(sector.len() == SECTOR_SIZE);
    lemma_newer_sector_is_best(b, c, a, next, slot, sector);
}

/// What a checkpoint has its anchor name: nothing, of a pool with no vdisks.
pub open spec fn checkpoint_manifest<D: Disk>(pool: &Pool<D>) -> Option<ManifestView> {
    if pool.blank() {
        None
    } else {
        Some(pool.manifest_view())
    }
}

/// The manifest that a checkpoint stored is the one its anchor names.
proof fn lemma_manifest_named<D: Disk>(pool: &Pool<D>, a: Anchor)
    requires
        !pool.blank(),
        a.manifest_hash@ == pool.manifest_address(),
        keeps_promises(pool.shelf(0), pool.promised(0)),
        pool.promised(0).contains((address_of(manifest_bytes(pool.manifest_view())), manifest_bytes(pool.manifest_view()))),
    ensures
        a.manifest_hash@ != zeros(32),
        pool.shelf(0).contains_key(BlockHash(a.manifest_hash)),
        pool.shelf(0)[BlockHash(a.manifest_hash)] == manifest_bytes(pool.manifest_view()),
{
    let h = address_of(manifest_bytes(pool.manifest_view()));
    lemma_array_view_injective(h.0, a.manifest_hash);
    assert(BlockHash(a.manifest_hash) == h);
}

/// A checkpoint that succeeds leaves any pool recoverable from its own
/// manifest, with no history: the store has to keep its promises, and no
/// lease be left of a pool without vdisks.
pub proof fn law_a_checkpoint_is_recoverable<D: Disk>(
    before: &Pool<D>,
    after: &Pool<D>,
    a: Anchor,
    next: Anchor,
    r: Result<()>,
)
    requires
        before.inv(),
        best_anchor(before.stock().wal_area(), Some(a)),
        a.generation == before.generation(),
        r is Ok,
        checkpointed(before, after, r),
        anchor_names(next, after, before.ring().cursor, before.ring().next_seq, before.ring().epoch, after.manifest_address()),
        anchored(before.stock().wal_area(), after.stock().wal_area(), next),
        encodable(after.manifest_view()),
        keeps_promises(after.shelf(0), after.promised(0)),
        after.blank() ==> after.lease_map() == Map::<u64, Lease>::empty(),
    ensures
        recoverable(after, next, checkpoint_manifest(after), Seq::empty()),
{
    lemma_area(before);
    lemma_area(after);
    after.stock().lemma_set();
    let (b, c) = (before.stock().wal_area(), after.stock().wal_area());
    lemma_new_anchor_is_best(b, c, a, next);
    if after.blank() {
        after.lemma_blank();
    } else {
        after.lemma_manifest_tables();
        lemma_manifest_layout(after.manifest_view());
        lemma_manifest_named(after, next);
    }
    law_a_recovered_ring_tracks_its_frames(after.ring(), c, next.wal_replay_seq, next.wal_epoch, 0);
    assert(scan(
        c,
        after.ring().start as int,
        after.ring().size as int,
        after.ring().replay_start as int,
        next.wal_replay_seq,
        next.wal_epoch,
        0,
    ).subrange(0, 0) =~= Seq::<FrameView>::empty());
}

/// An open leaves the pool recoverable, with the frames it replayed as the
/// history.
pub proof fn law_an_opened_pool_is_recoverable<D: Disk>(pool: &Pool<D>, a: Anchor, m: Option<ManifestView>)
    requires
        pool.inv(),
        opened_as(&pool.stock(), a, m, pool),
    ensures
        recoverable(pool, a, m, replayed_frames(pool, a, m)),
{
    let ring = pool.ring();
    let all = found_frames(pool, a);
    let (tables, n) = replayed(pool, first_tables(m), all, 0);
    lemma_replayed_count(pool, first_tables(m), all, 0);
    let log = all.subrange(0, n as int);
    lemma_last_epoch(all, a.wal_epoch, n);
    law_a_recovered_ring_tracks_its_frames(ring, pool.stock().wal_area(), a.wal_replay_seq, a.wal_epoch, n as int);
}

/// The frames a scan from an anchor's position finds.
pub open spec fn found_frames<D: Disk>(pool: &Pool<D>, a: Anchor) -> Seq<FrameView> {
    scan(
        pool.stock().wal_area(),
        pool.stock().wal_super().wal_start as int,
        pool.stock().wal_super().wal_size as int,
        a.wal_replay_offset as int,
        a.wal_replay_seq,
        a.wal_epoch,
        0,
    )
}

/// Those of them that replay accepts.
pub open spec fn replayed_frames<D: Disk>(pool: &Pool<D>, a: Anchor, m: Option<ManifestView>) -> Seq<FrameView> {
    found_frames(pool, a).subrange(0, replayed(pool, first_tables(m), found_frames(pool, a), 0).1 as int)
}

proof fn lemma_last_epoch(frames: Seq<FrameView>, epoch: u64, n: nat)
    requires
        n <= frames.len(),
    ensures
        epoch <= last_epoch(frames, epoch, n),
        n > 0 ==> frames[n - 1].epoch <= last_epoch(frames, epoch, n),
    decreases n,
{
    if n > 0 {
        lemma_last_epoch(frames, epoch, (n - 1) as nat);
    }
}

/// Replaying the frames that replay accepts accepts them all.
proof fn lemma_replayed_count<D: Disk>(pool: &Pool<D>, t: Tables, all: Seq<FrameView>, i: nat)
    requires
        i <= all.len(),
    ensures
        ({
            let (tables, n) = replayed(pool, t, all, i);
            &&& i <= n <= all.len()
            &&& replayed(pool, t, all.subrange(0, n as int), i) == (tables, n)
        }),
    decreases all.len() - i,
{
    if i < all.len() {
        if let Some(e) = entry_of_bytes(all[i as int].payload) {
            let (next, held) = applied(pool, t, e);
            if held {
                lemma_replayed_count(pool, next, all, i + 1);
                let n = replayed(pool, next, all, i + 1).1;
                assert(all.subrange(0, n as int)[i as int] == all[i as int]);
            }
        }
    }
}

/// What a brick of the pool secured, as a flush leaves it, stays secured
/// through every operation and checkpoint that follows.
pub proof fn law_operations_keep_what_is_secured<D: Disk>(before: &Pool<D>, after: &Pool<D>, i: int, addresses: Set<BlockHash>)
    requires
        stock_grew(&before.stock(), &after.stock()),
        0 <= i < before.stock().members().len(),
        before.stock().members()[i].secures(addresses),
    ensures
        after.stock().members()[i].secures(addresses),
{
    let (a, b) = (before.stock().members()[i], after.stock().members()[i]);
    assert(b.superblock() == a.superblock());
    assert(b.kept_to_room(&a));
    Brick::law_what_is_secured_stays_secured(&a, &b, addresses);
}

/// Two readings of the same manifest block list the same tables.
proof fn lemma_one_reading(b: Seq<u8>, m: ManifestView, n: ManifestView)
    requires
        manifest_reads(b, m),
        manifest_reads(b, n),
    ensures
        first_tables(Some(m)) == first_tables(Some(n)),
        first_snapshots(Some(m)) == first_snapshots(Some(n)),
{
}

/// The durability contract: an open after any crash that spared the anchor,
/// the ring's live history and the blocks recovers everything that was
/// acknowledged. It starts from the same manifest, goes through the whole
/// history to exactly the tables the pool had, and then on through whatever
/// frames of unflushed operations the crash happened to keep.
pub proof fn law_an_open_recovers_what_was_acknowledged<D: Disk>(
    pool: &Pool<D>,
    a: Anchor,
    m: Option<ManifestView>,
    log: Seq<FrameView>,
    reopened: &Pool<D>,
    found: Anchor,
    n: Option<ManifestView>,
)
    requires
        pool.inv(),
        reopened.inv(),
        recoverable(pool, a, m, log),
        opened_as(&reopened.stock(), found, n, reopened),
        log.len() > 0 ==> accepts_no_less(pool, reopened),
        m is Some ==> reopened.shelf(0)[BlockHash(a.manifest_hash)] == pool.shelf(0)[BlockHash(a.manifest_hash)],
        reopened.stock().wal_super() == pool.stock().wal_super(),
        forall|i: int|
            ANCHOR_AREA_START <= i < WAL_AREA_START || between(
                pool.ring().start as int,
                pool.ring().size as int,
                pool.ring().replay_start as int,
                pool.ring().cursor as int,
                i,
            ) ==> #[trigger] reopened.stock().wal_area()[i] == pool.stock().wal_area()[i],
    ensures
        reopened.generation() == pool.generation(),
        reopened.era_now() == pool.era_now(),
        reopened.snapshot_map() == pool.snapshot_map(),
        log.is_prefix_of(found_frames(reopened, found)),
        replayed(reopened, first_tables(n), log, 0) == (tables_of(pool), log.len()),
        tables_of(reopened) == replayed(reopened, tables_of(pool), found_frames(reopened, found), log.len()).0,
        found_frames(reopened, found).len() == log.len() ==> tables_of(reopened) == tables_of(pool),
{
    lemma_area(pool);
    lemma_area(reopened);
    let (b, c) = (pool.stock().wal_area(), reopened.stock().wal_area());
    pool.stock().lemma_set();
    pool.stock().members()[pool.stock().holder_at()].lemma_model();
    reopened.stock().lemma_set();
    reopened.stock().members()[reopened.stock().holder_at()].lemma_model();
    lemma_best_anchor_frame(b, c, a);
    lemma_array_view_injective(a.manifest_hash, found.manifest_hash);
    if m is Some {
        lemma_one_reading(pool.shelf(0)[BlockHash(a.manifest_hash)], m->Some_0, n->Some_0);
    }
    assert(first_tables(n) == first_tables(m));
    law_a_crash_keeps_the_flushed_history(pool.ring(), b, a.wal_replay_seq, a.wal_epoch, log, c);
    if log.len() > 0 {
        lemma_replayed_more(pool, reopened, first_tables(m), log, 0);
    }
    lemma_replayed_prefix(reopened, first_tables(m), log, found_frames(reopened, found), 0);
}

/// Every brick of `b` is what an open found on a disk that a power loss left
/// of the same brick of `a`.
pub open spec fn bricks_came_back<D: Disk>(a: &BrickSet<D>, b: &BrickSet<D>) -> bool {
    &&& b.members().len() == a.members().len()
    &&& forall|i: int| 0 <= i < a.members().len() ==> (#[trigger] b.members()[i]).came_back(&a.members()[i])
}

/// No address leads to two payloads.
pub open spec fn agree(a: Map<BlockHash, Seq<u8>>, b: Map<BlockHash, Seq<u8>>) -> bool {
    forall|h: BlockHash| #[trigger] a.contains_key(h) && b.contains_key(h) ==> a[h] == b[h]
}

/// A set whose disks lost power right after a flush comes back whole.
proof fn lemma_set_came_back<D: Disk>(a: &BrickSet<D>, b: &BrickSet<D>)
    requires
        a.inv(),
        b.inv(),
        a.durable(),
        a.intact(),
        bricks_came_back(a, b),
    ensures
        b.wal_super() == a.wal_super(),
        b.wal_area() == a.wal_area(),
        b.unit_size() == a.unit_size(),
        forall|t: u8| #[trigger] tier_exists(a.members(), t) ==> tier_exists(b.members(), t),
        forall|t: u8| #[trigger] tier_held(a.members(), t).subset_of(tier_held(b.members(), t)),
        forall|t: u8, h: BlockHash| #[trigger] tier_held(b.members(), t).contains(h) ==> tier_blocks(b.members(), t).contains_key(h),
{
    let (x, y) = (a.members(), b.members());
    a.lemma_set();
    b.lemma_set();
    assert forall|i: int| 0 <= i < x.len() implies (#[trigger] y[i]).superblock() == x[i].superblock() && y[i].aux() == x[i].aux() && x[i].held().subset_of(
        y[i].held(),
    ) && y[i].held() == y[i].blocks().dom() by {
        assert(y[i].came_back(&x[i]));
        assert(x[i].durable() && x[i].intact());
        Brick::law_a_crash_after_a_flush_changes_nothing(&x[i], &y[i]);
    }
    let (h, k) = (a.holder_at(), b.holder_at());
    assert(y[h].superblock() == x[h].superblock());
    assert(y[k].superblock() == x[k].superblock());
    if h < k {
        assert(y[h].superblock().wal_holder && y[k].superblock().wal_holder);
    } else if k < h {
        assert(y[k].superblock().wal_holder && y[h].superblock().wal_holder);
    }
    assert(y[0].superblock() == x[0].superblock());
    assert(y[0].superblock().block_size == b.unit_size() && x[0].superblock().block_size == a.unit_size());
    assert forall|t: u8| #[trigger] tier_exists(x, t) implies tier_exists(y, t) by {
        let i = choose|i: int| 0 <= i < x.len() && (#[trigger] x[i]).superblock().tier == t;
        assert(y[i].superblock().tier == t);
    }
    assert forall|t: u8| #[trigger] tier_held(x, t).subset_of(tier_held(y, t)) by {
        assert forall|d: BlockHash| tier_held(x, t).contains(d) implies tier_held(y, t).contains(d) by {
            lemma_route(x, t, d, 0);
            lemma_route(y, t, d, 0);
            let i = route(x, t, d)->Some_0;
            assert(serves(x[i], t, d));
            assert(y[i].held().contains(d));
            assert(serves(y[i], t, d));
        }
    }
    assert forall|t: u8, d: BlockHash| #[trigger] tier_held(y, t).contains(d) implies tier_blocks(y, t).contains_key(d) by {
        lemma_route(y, t, d, 0);
        let i = route(y, t, d)->Some_0;
        assert(y[i].held() == y[i].blocks().dom());
    }
}

/// Everything acknowledged by a flush survives a crash: the pool that an
/// open finds on what the crash left has the same vdisks, snapshots, leases
/// and era, and every block that led somewhere leads to the same bytes. The
/// ring's own bytes must end where its history ends, and no two payloads
/// share an address.
pub proof fn law_a_flushed_pool_survives_a_crash<D: Disk>(
    pool: &Pool<D>,
    a: Anchor,
    m: Option<ManifestView>,
    log: Seq<FrameView>,
    reopened: &Pool<D>,
    found: Anchor,
    n: Option<ManifestView>,
)
    requires
        pool.inv(),
        pool.stock().durable(),
        pool.stock().intact(),
        recoverable(pool, a, m, log),
        found_frames(pool, a) == log,
        reopened.inv(),
        bricks_came_back(&pool.stock(), &reopened.stock()),
        opened_as(&reopened.stock(), found, n, reopened),
        reopened.seat() == pool.seat(),
        forall|t: u8| #[trigger] agree(pool.shelf(t), reopened.shelf(t)),
    ensures
        reopened.unit() == pool.unit(),
        reopened.vdisk_map() == pool.vdisk_map(),
        reopened.snapshot_map() == pool.snapshot_map(),
        reopened.lease_map() == pool.lease_map(),
        reopened.era_now() == pool.era_now(),
        forall|t: u8| extends(#[trigger] pool.shelf(t), reopened.shelf(t)),
        forall|v: u64, k: u64|
            pool.vdisk_map().contains_key(v) && (#[trigger] mapped(pool.shelf(0), pool.unit(), pool.vdisk_map()[v], k)) is Some ==> mapped(
                reopened.shelf(0),
                reopened.unit(),
                reopened.vdisk_map()[v],
                k,
            ) == mapped(pool.shelf(0), pool.unit(), pool.vdisk_map()[v], k),
{
    let (x, y) = (pool.stock(), reopened.stock());
    lemma_set_came_back(&x, &y);
    assert forall|t: u8| extends(#[trigger] pool.shelf(t), reopened.shelf(t)) by {
        assert(agree(pool.shelf(t), reopened.shelf(t)));
        assert forall|h: BlockHash| #[trigger] pool.shelf(t).contains_key(h) implies reopened.shelf(t).contains_key(h) && reopened.shelf(t)[h] == pool.shelf(t)[h] by {
            assert(tier_held(x.members(), t).contains(h));
            assert(tier_held(x.members(), t).subset_of(tier_held(y.members(), t)));
            assert(tier_held(y.members(), t).contains(h));
        }
    }
    assert forall|t: u8, h: BlockHash| #[trigger] missing(reopened, t, h) implies missing(pool, t, h) by {
        assert(tier_held(x.members(), t).subset_of(tier_held(y.members(), t)));
    }
    assert(accepts_no_less(pool, reopened));
    if m is Some {
        assert(extends(pool.shelf(0), reopened.shelf(0)));
        assert(pool.shelf(0).contains_key(BlockHash(a.manifest_hash)));
    }
    law_an_open_recovers_what_was_acknowledged(pool, a, m, log, reopened, found, n);
    assert(found_frames(reopened, found) == found_frames(pool, a));
    let bs = pool.unit();
    assert forall|v: u64, k: u64| pool.vdisk_map().contains_key(v) && (#[trigger] mapped(pool.shelf(0), bs, pool.vdisk_map()[v], k)) is Some implies mapped(
        reopened.shelf(0),
        reopened.unit(),
        reopened.vdisk_map()[v],
        k,
    ) == mapped(pool.shelf(0), bs, pool.vdisk_map()[v], k) by {
        assert(extends(pool.shelf(0), reopened.shelf(0)));
        let vd = pool.vdisk_map()[v];
        if let Some(root) = vd.root {
            if !vd.dirty.contains_key(k) {
                lemma_tree_grows(pool.shelf(0), reopened.shelf(0), bs, root, tree_depth(bs, vd.size_bytes), k);
            }
        }
    }
}

proof fn lemma_epochs_bounded(frames: Seq<FrameView>, epoch: u64, top: u64, n: nat)
    requires
        n <= frames.len(),
        epoch <= top,
        forall|i: int| 0 <= i < frames.len() ==> (#[trigger] frames[i]).epoch <= top,
    ensures
        last_epoch(frames, epoch, n) <= top,
    decreases n,
{
    if n > 0 {
        lemma_epochs_bounded(frames, epoch, top, (n - 1) as nat);
    }
}

/// What a crash right after a flush leaves of a set opens as a pool again.
/// The ring's bytes end where its history ends, its epochs have not run out,
/// the manifest can be read, and no two payloads share an address.
pub proof fn law_a_flushed_set_opens_again<D: Disk>(
    pool: &Pool<D>,
    a: Anchor,
    m: Option<ManifestView>,
    log: Seq<FrameView>,
    store: &BrickSet<D>,
    placed: bool,
    e: FsError,
)
    requires
        pool.inv(),
        pool.stock().durable(),
        pool.stock().intact(),
        recoverable(pool, a, m, log),
        found_frames(pool, a) == log,
        pool.ring().epoch < u64::MAX,
        m matches Some(v) ==> (v.map is Some ==> placed) && forall|f: FsError| !#[trigger] manifest_unread(pool.shelf(0)[BlockHash(a.manifest_hash)], f),
        store.inv(),
        bricks_came_back(&pool.stock(), store),
        agree(pool.shelf(0), tier_blocks(store.members(), 0)),
    ensures
        !open_refused(store, placed, e),
{
    let x = pool.stock();
    lemma_set_came_back(&x, store);
    lemma_area(pool);
    pool.lemma_pool();
    x.lemma_set();
    let (start, size) = (x.wal_super().wal_start as int, x.wal_super().wal_size as int);
    law_a_history_is_in_order(pool.ring(), x.wal_area(), a.wal_replay_seq, a.wal_epoch, log);
    assert forall|c: Anchor| #[trigger] best_anchor(store.wal_area(), Some(c)) implies !manifest_refused(store, c, placed, e) && !ring_refused(store, c, e) by {
        lemma_array_view_injective(a.manifest_hash, c.manifest_hash);
        assert(scan(store.wal_area(), start, size, c.wal_replay_offset as int, c.wal_replay_seq, c.wal_epoch, 0) == log);
        assert forall|n: nat| n <= log.len() implies #[trigger] last_epoch(log, a.wal_epoch, n) < u64::MAX by {
            lemma_epochs_bounded(log, a.wal_epoch, pool.ring().epoch, n);
        }
        if m is Some {
            let h = BlockHash(a.manifest_hash);
            assert(pool.shelf(0).contains_key(h));
            assert(tier_held(x.members(), 0).contains(h));
            assert(tier_held(x.members(), 0).subset_of(tier_held(store.members(), 0)));
            assert(tier_held(store.members(), 0).contains(h));
            let b = pool.shelf(0)[h];
            assert(tier_blocks(store.members(), 0)[h] == b);
            assert(!manifest_unread(b, e));
            assert(manifest_fault(b) is None) by {
                if let Some(f) = manifest_fault(b) {
                    assert(manifest_unread(b, f));
                }
            }
        }
    }
}

/// The same of a pool on one brick.
pub proof fn law_a_flushed_brick_opens_again<D: Disk>(
    pool: &Pool<D>,
    a: Anchor,
    m: Option<ManifestView>,
    log: Seq<FrameView>,
    brick: Brick<D>,
    e: FsError,
)
    requires
        pool.inv(),
        pool.stock().durable(),
        pool.stock().intact(),
        pool.stock().members().len() == 1,
        recoverable(pool, a, m, log),
        roster_matches(a.roster@, pool.stock().members()),
        found_frames(pool, a) == log,
        pool.ring().epoch < u64::MAX,
        m matches Some(v) ==> v.map is None && forall|f: FsError| !#[trigger] manifest_unread(pool.shelf(0)[BlockHash(a.manifest_hash)], f),
        brick.reliable(),
        brick.came_back(&pool.stock().members()[0]),
        forall|h: BlockHash| #[trigger] pool.shelf(0).contains_key(h) && brick.blocks().contains_key(h) ==> brick.blocks()[h] == pool.shelf(0)[h],
    ensures
        !brick_refused(brick, e),
{
    let x = pool.stock();
    let old_brick = x.members()[0];
    x.lemma_set();
    pool.lemma_pool();
    assert(old_brick.durable() && old_brick.intact());
    Brick::law_a_crash_after_a_flush_changes_nothing(&old_brick, &brick);
    assert forall|sorted: Seq<Brick<D>>, r: Result<BrickSet<D>>| #[trigger] one_brick_set(brick, sorted, r) implies r is Ok by {
        assert(seq![brick][0] == brick);
        assert(sorted.contains(seq![brick][0]));
        assert(sorted[0] == brick);
        assert(sorted[0].superblock().wal_holder && sorted[0].superblock().tier == 0);
        assert(set_fault(sorted) is None);
        let holder = choose|i: int| 0 <= i < sorted.len() && (#[trigger] sorted[i]).superblock().wal_holder;
        assert(sorted[0].superblock().wal_holder);
        assert(holder == 0);
        assert(entry_of_brick(x.members()[0]) == entry_of_brick(sorted[0]));
        if r is Err && !best_anchor(brick.aux(), None) {
            let b = choose|b: Anchor| #[trigger] best_anchor(brick.aux(), Some(b)) && !roster_matches(b.roster@, sorted);
            lemma_one_roster(brick.aux(), a, b);
            assert(roster_matches(b.roster@, sorted));
        }
    }
    assert forall|store: BrickSet<D>| #[trigger] set_of_one(&store, brick) implies !open_refused(&store, false, e) by {
        assert(bricks_came_back(&x, &store));
        assert(agree(pool.shelf(0), tier_blocks(store.members(), 0))) by {
            assert forall|h: BlockHash| #[trigger] pool.shelf(0).contains_key(h) && tier_blocks(store.members(), 0).contains_key(h) implies pool.shelf(0)[h]
                == tier_blocks(store.members(), 0)[h] by {
                lemma_route(store.members(), 0, h, 0);
            }
        }
        law_a_flushed_set_opens_again(pool, a, m, log, &store, false, e);
    }
}

/// A checkpoint, and with it a snapshot, a rollback and an era bump, holds
/// after a crash right behind it, with no flush of its own.
pub proof fn law_a_checkpoint_survives_a_crash<D: Disk>(
    before: &Pool<D>,
    after: &Pool<D>,
    a: Anchor,
    next: Anchor,
    r: Result<()>,
    reopened: &Pool<D>,
    found: Anchor,
    n: Option<ManifestView>,
)
    requires
        before.inv(),
        best_anchor(before.stock().wal_area(), Some(a)),
        a.generation == before.generation(),
        r is Ok,
        checkpointed(before, after, r),
        anchor_names(next, after, before.ring().cursor, before.ring().next_seq, before.ring().epoch, after.manifest_address()),
        anchored(before.stock().wal_area(), after.stock().wal_area(), next),
        encodable(after.manifest_view()),
        keeps_promises(after.shelf(0), after.promised(0)),
        after.blank() ==> after.lease_map() == Map::<u64, Lease>::empty(),
        after.stock().intact(),
        found_frames(after, next) == Seq::<FrameView>::empty(),
        reopened.inv(),
        bricks_came_back(&after.stock(), &reopened.stock()),
        opened_as(&reopened.stock(), found, n, reopened),
        reopened.seat() == after.seat(),
        forall|t: u8| #[trigger] agree(after.shelf(t), reopened.shelf(t)),
    ensures
        reopened.vdisk_map() == after.vdisk_map(),
        reopened.snapshot_map() == after.snapshot_map(),
        reopened.lease_map() == after.lease_map(),
        reopened.era_now() == after.era_now(),
        forall|t: u8| extends(#[trigger] after.shelf(t), reopened.shelf(t)),
{
    law_a_checkpoint_is_recoverable(before, after, a, next, r);
    let mid = choose|mid: BrickSet<D>| #[trigger] flushed_twice(&before.stock(), &mid, &after.stock());
    law_a_flushed_pool_survives_a_crash(after, next, checkpoint_manifest(after), Seq::empty(), reopened, found, n);
}

} // verus!
