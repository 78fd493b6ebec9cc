//! Opening a pool: the anchor names the manifest and where replay begins,
//! and replay rebuilds what the ring still holds.
//!
//! Replay trusts nothing it cannot verify. An entry is applied only if
//! everything it references holds; the first one that fails ends replay.

use super::entry::{entry_of_bytes, WalEntry};
use super::fresh::{
    empty_pool, law_a_fresh_brick_is_an_empty_pool, law_a_fresh_brick_opens, law_a_fresh_set_is_an_empty_pool, law_a_fresh_set_opens,
};
use super::manifest::{decode_manifest, manifest_reads, manifest_unread, Manifest, ManifestView};
use super::vdisk::with_dirty;
use super::{capacity, views_of, Lease, Placement, Pool, SessionPins, SnapshotState, VdiskHead, VdiskState, VdiskView};
use crate::brick::{best_anchor, Brick};
use crate::brick_set::ops::tier_exists;
use crate::brick_set::{assembly, same_bricks, tier_blocks, tier_held, BrickSet};
use crate::codec::{same32, zeros};
use crate::disk::Disk;
use crate::error::{FsError, Result};
use crate::format::Anchor;
use crate::hash::BlockHash;
use crate::slice::{Homes, NodeId, SliceMap};
use crate::table::{SnapshotId, SortedMap};
use crate::wal::{scan, views, FrameView, Wal};
use vstd::prelude::*;

verus! {

/// A vdisk as a manifest gives it back.
pub open spec fn fresh_view(head: VdiskHead) -> VdiskView {
    VdiskView { size_bytes: head.size_bytes, tier: head.tier, root: head.root, dirty: Map::empty() }
}

/// The vdisks a manifest lists; the later of two wins.
pub open spec fn listed_vdisks(s: Seq<(u64, VdiskHead)>) -> Map<u64, VdiskView>
    decreases s.len(),
{
    if s.len() == 0 {
        Map::empty()
    } else {
        listed_vdisks(s.drop_last()).insert(s.last().0, fresh_view(s.last().1))
    }
}

/// Any other table a manifest lists; the later of two wins.
pub open spec fn listed<K, V>(s: Seq<(K, V)>) -> Map<K, V>
    decreases s.len(),
{
    if s.len() == 0 {
        Map::empty()
    } else {
        listed(s.drop_last()).insert(s.last().0, s.last().1)
    }
}

/// What replay rebuilds.
pub struct Tables {
    pub vdisks: Map<u64, VdiskView>,
    pub leases: Map<u64, Lease>,
}

/// One entry applied, and whether its references held.
pub open spec fn applied<D: Disk>(pool: &Pool<D>, t: Tables, e: WalEntry) -> (Tables, bool) {
    match e {
        WalEntry::CreateVdisk { id, size_bytes, tier } => if t.vdisks.contains_key(id) || size_bytes == 0 || !tier_exists(
            pool.stock().members(),
            tier,
        ) {
            (t, false)
        } else {
            (
                Tables {
                    vdisks: t.vdisks.insert(id, VdiskView { size_bytes, tier, root: None, dirty: Map::empty() }),
                    ..t
                },
                true,
            )
        },
        WalEntry::MapWrite { vdisk, index, hash } => if !t.vdisks.contains_key(vdisk) || index >= capacity(
            pool.unit(),
            t.vdisks[vdisk].size_bytes,
        ) || (pool.keeps(hash) && !pool.holds(t.vdisks[vdisk].tier).contains(hash)) {
            (t, false)
        } else {
            (Tables { vdisks: t.vdisks.insert(vdisk, with_dirty(t.vdisks[vdisk], index, Some(hash))), ..t }, true)
        },
        WalEntry::TrimBlock { vdisk, index } => if !t.vdisks.contains_key(vdisk) || index >= capacity(
            pool.unit(),
            t.vdisks[vdisk].size_bytes,
        ) {
            (t, false)
        } else {
            (Tables { vdisks: t.vdisks.insert(vdisk, with_dirty(t.vdisks[vdisk], index, None)), ..t }, true)
        },
        WalEntry::DeleteVdisk { id } => if !t.vdisks.contains_key(id) {
            (t, false)
        } else {
            (Tables { vdisks: t.vdisks.remove(id), leases: t.leases.remove(id) }, true)
        },
        WalEntry::SetLease { vdisk, lease } => if !t.vdisks.contains_key(vdisk) {
            (t, false)
        } else {
            (Tables { leases: t.leases.insert(vdisk, lease), ..t }, true)
        },
    }
}

/// Frames applied from the `i`-th on while they decode and their references
/// hold: the tables, and how many frames were accepted in all.
pub open spec fn replayed<D: Disk>(pool: &Pool<D>, t: Tables, frames: Seq<FrameView>, i: nat) -> (Tables, nat)
    decreases frames.len() - i,
{
    if i >= frames.len() {
        (t, i)
    } else {
        match entry_of_bytes(frames[i as int].payload) {
            None => (t, i),
            Some(e) => {
                let (next, held) = applied(pool, t, e);
                if held {
                    replayed(pool, next, frames, i + 1)
                } else {
                    (next, i)
                }
            },
        }
    }
}

/// The highest epoch among the first `n` frames and the anchor's.
pub open spec fn last_epoch(frames: Seq<FrameView>, epoch: u64, n: nat) -> u64
    decreases n,
{
    if n == 0 {
        epoch
    } else {
        let before = last_epoch(frames, epoch, (n - 1) as nat);
        if frames[n - 1].epoch > before {
            frames[n - 1].epoch
        } else {
            before
        }
    }
}

/// The manifest an anchor names, if it names one.
pub open spec fn anchored_manifest<D: Disk>(store: &BrickSet<D>, a: Anchor, m: Option<ManifestView>) -> bool {
    if a.manifest_hash@ == zeros(32) {
        m is None
    } else {
        m is Some && tier_blocks(store.members(), 0).contains_key(BlockHash(a.manifest_hash)) && manifest_reads(
            tier_blocks(store.members(), 0)[BlockHash(a.manifest_hash)],
            m->Some_0,
        )
    }
}

/// The tables a manifest opens with.
pub open spec fn first_tables(m: Option<ManifestView>) -> Tables {
    match m {
        Some(m) => Tables { vdisks: listed_vdisks(m.vdisks), leases: listed(m.leases) },
        None => Tables { vdisks: Map::empty(), leases: Map::empty() },
    }
}

/// What an open finds.
pub open spec fn opened_as<D: Disk>(store: &BrickSet<D>, a: Anchor, m: Option<ManifestView>, pool: &Pool<D>) -> bool {
    let ring = pool.ring();
    let frames = scan(
        store.wal_area(),
        store.wal_super().wal_start as int,
        store.wal_super().wal_size as int,
        a.wal_replay_offset as int,
        a.wal_replay_seq,
        a.wal_epoch,
        0,
    );
    let (tables, n) = replayed(pool, first_tables(m), frames, 0);
    &&& best_anchor(store.wal_area(), Some(a))
    &&& anchored_manifest(store, a, m)
    &&& pool.vdisk_map() == tables.vdisks
    &&& pool.lease_map() == tables.leases
    &&& pool.snapshot_map() == match m {
        Some(m) => listed(m.snapshots),
        None => Map::empty(),
    }
    &&& pool.era_now() == a.era
    &&& pool.generation() == a.generation
    &&& pool.pending() is None
    &&& pool.pin_map() == Map::<u64, SessionPins>::empty()
    &&& ring.replay_start == a.wal_replay_offset
    &&& ring.cursor == if n == 0 {
        a.wal_replay_offset
    } else {
        frames[n - 1].cursor_after
    }
    &&& ring.next_seq == if n == 0 {
        a.wal_replay_seq as int
    } else {
        frames[n - 1].seq + 1
    }
    &&& ring.epoch == last_epoch(frames, a.wal_epoch, n) + 1
}

/// Why the manifest an anchor names cannot be taken up.
pub open spec fn manifest_refused<D: Disk>(store: &BrickSet<D>, a: Anchor, placed: bool, e: FsError) -> bool {
    let hash = BlockHash(a.manifest_hash);
    let shelf = tier_blocks(store.members(), 0);
    &&& a.manifest_hash@ != zeros(32)
    &&& {
        ||| !tier_held(store.members(), 0).contains(hash) && e == FsError::Corrupt("the anchored manifest block is missing")
        ||| tier_held(store.members(), 0).contains(hash) && !shelf.contains_key(hash) && e is Corrupt
        ||| shelf.contains_key(hash) && manifest_unread(shelf[hash], e)
        ||| shelf.contains_key(hash) && !placed && e == FsError::Corrupt("a placed pool must be opened with its seat") && exists|m: ManifestView| #[trigger]
            manifest_reads(shelf[hash], m) && m.map is Some
    }
}

/// Why the ring an anchor points into cannot be replayed.
pub open spec fn ring_refused<D: Disk>(store: &BrickSet<D>, a: Anchor, e: FsError) -> bool {
    let sb = store.wal_super();
    let frames = scan(store.wal_area(), sb.wal_start as int, sb.wal_size as int, a.wal_replay_offset as int, a.wal_replay_seq, a.wal_epoch, 0);
    ||| !(sb.wal_start <= a.wal_replay_offset <= sb.wal_start + sb.wal_size) && e == FsError::Corrupt("the anchor's replay position lies outside the ring")
    ||| frames.len() > 0 && frames.last().seq == u64::MAX && e == FsError::Corrupt("ring seqs have run out")
    ||| e == FsError::Corrupt("ring epochs have run out") && exists|n: nat| n <= frames.len() && #[trigger] last_epoch(frames, a.wal_epoch, n) == u64::MAX
}

/// Why a set on reliable disks does not open as a pool.
pub open spec fn open_refused<D: Disk>(store: &BrickSet<D>, placed: bool, e: FsError) -> bool {
    ||| best_anchor(store.wal_area(), None) && e == FsError::Corrupt("a formatted brick with no valid anchor")
    ||| exists|a: Anchor| #[trigger]
        best_anchor(store.wal_area(), Some(a)) && (manifest_refused(store, a, placed, e) || ring_refused(store, a, e))
}

impl<D: Disk> Pool<D> {
    /// A freshly formatted brick is a pool with no vdisks.
    pub fn create(brick: Brick<D>) -> (r: Result<Pool<D>>)
        requires
            brick.inv(),
        ensures
            r matches Ok(pool) ==> pool.inv() && opened_whole(&pool, None) && pool.seat() is None && pool.stock().members().len() == 1
                && pool.stock().members()[0] == brick,
            r matches Ok(pool) ==> pool.stock().holder_at() == 0 && pool.unit() == brick.superblock().block_size && pool.reliable()
                == brick.reliable(),
            brick.reliable() && r is Err ==> brick_refused(brick, r->Err_0),
            brick.fresh_alone() ==> (r matches Ok(pool) ==> empty_pool(&pool)),
            brick.fresh_alone() && brick.reliable() ==> r is Ok,
    {
        let ghost one = brick;
        let r = Self::open(brick);
        proof {
            if one.fresh_alone() {
                if r is Ok {
                    law_a_fresh_brick_is_an_empty_pool(&r->Ok_0, one);
                } else if one.reliable() {
                    law_a_fresh_brick_opens(one, r->Err_0);
                }
            }
        }
        r
    }

    /// Open a single-brick pool.
    pub fn open(brick: Brick<D>) -> (r: Result<Pool<D>>)
        requires
            brick.inv(),
        ensures
            r matches Ok(pool) ==> pool.inv() && opened_whole(&pool, None) && pool.seat() is None && pool.stock().members().len() == 1
                && pool.stock().members()[0] == brick,
            r matches Ok(pool) ==> pool.stock().holder_at() == 0 && pool.unit() == brick.superblock().block_size && pool.reliable()
                == brick.reliable(),
            brick.reliable() && r is Err ==> brick_refused(brick, r->Err_0),
    {
        let ghost one = brick;
        let assembled = BrickSet::single(brick);
        let ghost put_together = assembled;
        let store = match assembled {
            Ok(store) => store,
            Err(e) => {
                proof {
                    let sorted = choose|sorted: Seq<Brick<D>>| #[trigger] same_bricks(seq![one], sorted) && assembly(sorted, put_together);
                    assert(one_brick_set(one, sorted, put_together));
                }
                return Err(e);
            },
        };
        proof {
            assert(store.members().len() == 1);
            assert(seq![one].contains(store.members()[0]));
            store.lemma_set();
            assert(store.members()[0] == one);
            assert(one.reliable() ==> store.reliable());
        }
        let ghost stock = store;
        let r = Self::open_set(store);
        proof {
            if one.reliable() && r is Err {
                assert(set_of_one(&stock, one));
            }
        }
        r
    }

    /// A freshly formatted set is a pool with no vdisks, same as one brick.
    pub fn create_set(store: BrickSet<D>) -> (r: Result<Pool<D>>)
        requires
            store.inv(),
        ensures
            r matches Ok(pool) ==> pool.inv() && pool.stock() == store && opened_whole(&pool, None) && pool.seat() is None,
            store.reliable() && r is Err ==> open_refused(&store, false, r->Err_0),
            store.unused() ==> (r matches Ok(pool) ==> empty_pool(&pool)),
            store.unused() && store.reliable() ==> r is Ok,
    {
        let ghost stock = store;
        let r = Self::open_set(store);
        proof {
            if stock.unused() {
                if r is Ok {
                    law_a_fresh_set_is_an_empty_pool(&r->Ok_0);
                } else {
                    law_a_fresh_set_opens(&stock, r->Err_0);
                }
            }
        }
        r
    }

    /// Open a pool over its brick set. No placement: this member holds
    /// everything.
    pub fn open_set(store: BrickSet<D>) -> (r: Result<Pool<D>>)
        requires
            store.inv(),
        ensures
            r matches Ok(pool) ==> pool.inv() && pool.stock() == store && opened_whole(&pool, None) && pool.seat() is None,
            store.reliable() && r is Err ==> open_refused(&store, false, r->Err_0),
    {
        Self::open_set_inner(store, None)
    }

    /// Open a pool over its brick set with a placement seat: who this member
    /// is, and the map that applies until a manifest names one.
    pub fn open_set_placed(store: BrickSet<D>, node: NodeId, map: SliceMap) -> (r: Result<Pool<D>>)
        requires
            store.inv(),
            map.covers(),
        ensures
            r matches Ok(pool) ==> pool.inv() && pool.stock() == store && opened_whole(&pool, Some((node, map))),
            store.reliable() && r is Err ==> open_refused(&store, true, r->Err_0),
    {
        Self::open_set_inner(store, Some(Placement { node, map }))
    }

    fn open_set_inner(store: BrickSet<D>, placement: Option<Placement>) -> (r: Result<Pool<D>>)
        requires
            store.inv(),
            placement matches Some(p) ==> p.map.covers(),
        ensures
            r matches Ok(pool) ==> pool.inv() && pool.stock() == store && opened_whole(&pool, seat_of(placement)),
            store.reliable() && r is Err ==> open_refused(&store, placement is Some, r->Err_0),
    {
        proof {
            store.lemma_set();
        }
        let ghost stock = store;
        proof {
            if store.reliable() {
                assert(store.members()[store.holder_at()].reliable());
            }
        }
        proof {
            store.members()[0].lemma_model();
            assert(store.members()[0].superblock().block_size == store.unit_size());
        }
        let anchor = match store.wal_brick().read_best_anchor() {
            Ok(Some(anchor)) => anchor,
            Ok(None) => {
                return Err(FsError::Corrupt("a formatted brick with no valid anchor"));
            },
            Err(e) => {
                return Err(e);
            },
        };
        assert(best_anchor(stock.wal_area(), Some(anchor)));
        let mut vdisks: SortedMap<u64, VdiskState> = SortedMap::new();
        let mut snapshots: SortedMap<SnapshotId, SnapshotState> = SortedMap::new();
        let mut leases: SortedMap<u64, Lease> = SortedMap::new();
        let mut placement = placement;
        let ghost seat = placement;
        let ghost placed = placement is Some;
        let blank = [0u8; 32];
        assert(blank@ =~= zeros(32));
        let mut named: Ghost<Option<ManifestView>> = Ghost(None);
        let hash = BlockHash(anchor.manifest_hash);
        proof {
            if anchor.manifest_hash@ == blank@ {
                crate::codec::lemma_array_view_injective(anchor.manifest_hash, blank);
            }
            assert(views_of(vdisks@) =~= listed_vdisks(Seq::empty()));
            assert(snapshots@ =~= listed(Seq::<(SnapshotId, SnapshotState)>::empty()));
            assert(leases@ =~= listed(Seq::<(u64, Lease)>::empty()));
        }
        if !same32(&anchor.manifest_hash, &blank) {
            let payload = match store.get(0, &hash) {
                Ok(Some(payload)) => payload,
                Ok(None) => {
                    assert(manifest_refused(&stock, anchor, seat is Some, FsError::Corrupt("the anchored manifest block is missing")));
                    return Err(FsError::Corrupt("the anchored manifest block is missing"));
                },
                Err(e) => {
                    assert(stock.reliable() ==> manifest_refused(&stock, anchor, seat is Some, e));
                    return Err(e);
                },
            };
            let decoded = match decode_manifest(payload.as_slice()) {
                Ok(decoded) => decoded,
                Err(e) => {
                    assert(manifest_unread(payload@, e));
                    assert(manifest_refused(&stock, anchor, seat is Some, e));
                    return Err(e);
                },
            };
            proof {
                named@ = Some(decoded@);
            }
            let Manifest { vdisks: heads, snapshots: snaps, leases: grants, map } = decoded;
            let mut i: usize = 0;
            assert(heads@.subrange(0, 0) =~= Seq::<(u64, VdiskHead)>::empty());
            while i < heads.len()
                invariant
                    i <= heads@.len(),
                    vdisks.wf(),
                    views_of(vdisks@) == listed_vdisks(heads@.subrange(0, i as int)),
                    forall|id: u64| #[trigger] vdisks@.contains_key(id) ==> vdisks@[id].dirty.wf() && vdisks@[id].dirty@ == Map::<u64, Option<BlockHash>>::empty(),
                decreases heads@.len() - i,
            {
                let (id, head) = heads[i];
                let ghost before = vdisks@;
                vdisks.insert(id, VdiskState { size_bytes: head.size_bytes, tier: head.tier, root: head.root, dirty: SortedMap::new() });
                proof {
                    let now = heads@.subrange(0, i + 1);
                    assert(now.drop_last() =~= heads@.subrange(0, i as int));
                    assert(views_of(vdisks@) =~= views_of(before).insert(id, fresh_view(head)));
                    assert forall|x: u64| #[trigger] vdisks@.contains_key(x) implies vdisks@[x].dirty.wf() && vdisks@[x].dirty@ == Map::<u64, Option<BlockHash>>::empty() by {
                        if x != id {
                            assert(before.contains_key(x));
                        }
                    }
                }
                i += 1;
            }
            assert(heads@.subrange(0, i as int) =~= heads@);
            let mut i: usize = 0;
            assert(snaps@.subrange(0, 0) =~= Seq::<(SnapshotId, SnapshotState)>::empty());
            while i < snaps.len()
                invariant
                    i <= snaps@.len(),
                    snapshots.wf(),
                    snapshots@ == listed(snaps@.subrange(0, i as int)),
                decreases snaps@.len() - i,
            {
                let (key, state) = snaps[i];
                snapshots.insert(key, state);
                proof {
                    let now = snaps@.subrange(0, i + 1);
                    assert(now.drop_last() =~= snaps@.subrange(0, i as int));
                }
                i += 1;
            }
            assert(snaps@.subrange(0, i as int) =~= snaps@);
            let mut i: usize = 0;
            assert(grants@.subrange(0, 0) =~= Seq::<(u64, Lease)>::empty());
            while i < grants.len()
                invariant
                    i <= grants@.len(),
                    leases.wf(),
                    leases@ == listed(grants@.subrange(0, i as int)),
                decreases grants@.len() - i,
            {
                let (vdisk, lease) = grants[i];
                leases.insert(vdisk, lease);
                proof {
                    let now = grants@.subrange(0, i + 1);
                    assert(now.drop_last() =~= grants@.subrange(0, i as int));
                }
                i += 1;
            }
            assert(grants@.subrange(0, i as int) =~= grants@);
            if let Some(map) = map {
                match placement {
                    Some(p) => {
                        placement = Some(Placement { node: p.node, map });
                    },
                    None => {
                        proof {
                            assert(manifest_reads(payload@, named@->Some_0) && named@->Some_0.map is Some);
                            assert(manifest_refused(&stock, anchor, seat is Some, FsError::Corrupt("a placed pool must be opened with its seat")));
                        }
                        return Err(FsError::Corrupt("a placed pool must be opened with its seat"));
                    },
                }
            }
        }
        let (wal_start, wal_size) = store.wal_brick().wal_bounds();
        let offset: u64 = anchor.wal_replay_offset;
        proof {
            store.members()[store.holder_at()].lemma_model();
        }
        if offset < wal_start || offset - wal_start > wal_size {
            assert(ring_refused(&stock, anchor, FsError::Corrupt("the anchor's replay position lies outside the ring")));
            return Err(FsError::Corrupt("the anchor's replay position lies outside the ring"));
        }
        let frames = match Wal::recover(store.wal_brick(), offset, anchor.wal_replay_seq, anchor.wal_epoch) {
            Ok(frames) => frames,
            Err(e) => {
                return Err(e);
            },
        };
        let wal = Wal::empty(wal_start, wal_size, offset, anchor.wal_replay_seq, anchor.wal_epoch);
        let ghost found = views(frames@);
        let mut pool = Pool {
            store,
            wal,
            vdisks,
            snapshots,
            leases,
            anchor_generation: anchor.generation,
            era: anchor.era,
            session_pins: SortedMap::new(),
            placement,
            pending_map: None,
        };
        let ghost start = pool;
        proof {
            assert forall|x: u64, k: u64| #[trigger] views_of(pool.vdisks@).contains_key(x) && #[trigger] views_of(pool.vdisks@)[x].dirty.contains_key(k) implies k < capacity(pool.unit(), views_of(pool.vdisks@)[x].size_bytes) by {
                assert(pool.vdisks@.contains_key(x));
            }
            lemma_scan_positions(stock.wal_area(), wal_start as int, wal_size as int, offset as int, anchor.wal_replay_seq, anchor.wal_epoch, 0);
            assert((Tables { vdisks: pool.vdisk_map(), leases: pool.lease_map() }) == first_tables(named@));
        }
        let mut max_epoch: u64 = anchor.wal_epoch;
        let mut i: usize = 0;
        let mut done = false;
        while i < frames.len() && !done
            invariant
                i <= frames@.len(),
                found == views(frames@),
                stock == store,
                placed == (seat is Some),
                best_anchor(stock.wal_area(), Some(anchor)),
                found == scan(
                    stock.wal_area(),
                    stock.wal_super().wal_start as int,
                    stock.wal_super().wal_size as int,
                    anchor.wal_replay_offset as int,
                    anchor.wal_replay_seq,
                    anchor.wal_epoch,
                    0,
                ),
                pool.inv(),
                pool.store == start.store,
                pool.placement == start.placement,
                pool.pending_map == start.pending_map,
                pool.snapshots == start.snapshots,
                pool.era == start.era,
                pool.anchor_generation == start.anchor_generation,
                pool.session_pins == start.session_pins,
                pool.wal.start == wal_start,
                pool.wal.size == wal_size,
                pool.wal.epoch == start.wal.epoch,
                pool.wal.replay_start == offset,
                wal_start <= offset <= wal_start + wal_size,
                wal_start + wal_size <= u64::MAX,
                forall|k: int| 0 <= k < found.len() ==> wal_start <= (#[trigger] found[k]).cursor_after <= wal_start + wal_size,
                forall|k: int| 0 <= k < found.len() - 1 ==> (#[trigger] found[k]).seq < u64::MAX,
                max_epoch == last_epoch(found, anchor.wal_epoch, i as nat),
                pool.wal.cursor == if i == 0 { offset } else { found[i - 1].cursor_after },
                pool.wal.next_seq == if i == 0 { anchor.wal_replay_seq as int } else { found[i - 1].seq + 1 },
                !done ==> replayed(&start, first_tables(named@), found, 0) == replayed(&start, Tables { vdisks: pool.vdisk_map(), leases: pool.lease_map() }, found, i as nat),
                done ==> replayed(&start, first_tables(named@), found, 0) == (Tables { vdisks: pool.vdisk_map(), leases: pool.lease_map() }, i as nat),
            decreases frames@.len() - i, (if done { 0int } else { 1int }),
        {
            let frame = &frames[i];
            assert(found[i as int] == frame@);
            match WalEntry::decode(frame.payload.as_slice()) {
                None => {
                    done = true;
                },
                Some(entry) => {
                    let ghost mid = pool;
                    let seq: u64 = frame.seq;
                    if seq == u64::MAX {
                        proof {
                            assert(found[i as int].seq == u64::MAX);
                            assert(ring_refused(&stock, anchor, FsError::Corrupt("ring seqs have run out")));
                            assert(open_refused(&stock, placed, FsError::Corrupt("ring seqs have run out")));
                        }
                        return Err(FsError::Corrupt("ring seqs have run out"));
                    }
                    let ok = pool.apply_replayed(&entry);
                    proof {
                        lemma_applied_same(&start, &mid, Tables { vdisks: mid.vdisk_map(), leases: mid.lease_map() }, entry);
                    }
                    if !ok {
                        done = true;
                    } else {
                        if frame.epoch > max_epoch {
                            max_epoch = frame.epoch;
                        }
                        pool.wal.adopt(frame.cursor_after, seq + 1, offset);
                        i += 1;
                    }
                },
            }
        }
        if max_epoch == u64::MAX {
            proof {
                assert(last_epoch(found, anchor.wal_epoch, i as nat) == u64::MAX);
                assert(ring_refused(&stock, anchor, FsError::Corrupt("ring epochs have run out")));
            }
            return Err(FsError::Corrupt("ring epochs have run out"));
        }
        let ghost scanned = pool;
        pool.wal.set_epoch(max_epoch + 1);
        proof {
            assert(scanned.inv());
            assert(pool == Pool { wal: pool.wal, ..scanned });
            assert(pool.inv());
            assert(pool.stock() == stock);
            let tables = Tables { vdisks: pool.vdisk_map(), leases: pool.lease_map() };
            assert(replayed(&start, first_tables(named@), found, 0) == (tables, i as nat));
            lemma_replayed_same(&start, &pool, first_tables(named@), found, 0);
            assert(pool.pin_map() =~= Map::empty());
            assert(opened_as(&stock, anchor, named@, &pool));
            assert(opened_as(&pool.stock(), anchor, named@, &pool));
            assert(seated_by(pool.seat(), seat_of(seat), named@));
            assert(opened_whole(&pool, seat_of(seat)));
        }
        Ok(pool)
    }

    /// Apply one replayed entry if its references hold. `false` ends replay.
    fn apply_replayed(&mut self, entry: &WalEntry) -> (held: bool)
        requires
            old(self).inv(),
        ensures
            final(self).inv(),
            final(self).store == old(self).store,
            final(self).wal == old(self).wal,
            final(self).snapshots == old(self).snapshots,
            final(self).anchor_generation == old(self).anchor_generation,
            final(self).era == old(self).era,
            final(self).session_pins == old(self).session_pins,
            final(self).placement == old(self).placement,
            final(self).pending_map == old(self).pending_map,
            (Tables { vdisks: final(self).vdisk_map(), leases: final(self).lease_map() }, held) == applied(
                old(self),
                Tables { vdisks: old(self).vdisk_map(), leases: old(self).lease_map() },
                *entry,
            ),
    {
        match *entry {
            WalEntry::CreateVdisk { id, size_bytes, tier } => {
                if self.vdisks.contains(&id) || size_bytes == 0 || !self.store.has_tier(tier) {
                    return false;
                }
                let ghost before = self.vdisks@;
                self.vdisks.insert(id, VdiskState { size_bytes, tier, root: None, dirty: SortedMap::new() });
                proof {
                    self.lemma_new_vdisk(before, id);
                    assert(views_of(self.vdisks@) =~= views_of(before).insert(id, VdiskView { size_bytes, tier, root: None, dirty: Map::empty() }));
                }
                true
            },
            WalEntry::MapWrite { vdisk, index, hash } => {
                let (tier, capacity) = match self.vdisks.get_ref(&vdisk) {
                    Some(state) => (state.tier, self.capacity_for(state.size_bytes)),
                    None => {
                        return false;
                    },
                };
                if index >= capacity || (self.holds_data(&hash) && !self.store.contains(tier, &hash)) {
                    return false;
                }
                self.set_dirty(vdisk, index, Some(hash));
                true
            },
            WalEntry::TrimBlock { vdisk, index } => {
                let capacity: u64 = match self.vdisks.get_ref(&vdisk) {
                    Some(state) => self.capacity_for(state.size_bytes),
                    None => {
                        return false;
                    },
                };
                if index >= capacity {
                    return false;
                }
                self.set_dirty(vdisk, index, None);
                true
            },
            WalEntry::DeleteVdisk { id } => {
                let ghost before = self.vdisks@;
                if !self.vdisks.contains(&id) {
                    return false;
                }
                let _ = self.leases.remove(&id);
                let _ = self.vdisks.remove(&id);
                proof {
                    self.lemma_fewer_vdisks(before);
                    assert(views_of(self.vdisks@) =~= views_of(before).remove(id));
                }
                true
            },
            WalEntry::SetLease { vdisk, lease } => {
                if !self.vdisks.contains(&vdisk) {
                    return false;
                }
                self.leases.insert(vdisk, lease);
                true
            },
        }
    }
}

/// One brick, put together as a set, or refused.
pub open spec fn one_brick_set<D: Disk>(brick: Brick<D>, sorted: Seq<Brick<D>>, r: Result<BrickSet<D>>) -> bool {
    same_bricks(seq![brick], sorted) && assembly(sorted, r)
}

/// A set of this brick alone.
pub open spec fn set_of_one<D: Disk>(store: &BrickSet<D>, brick: Brick<D>) -> bool {
    store.inv() && store.members().len() == 1 && store.members()[0] == brick
}

/// Why a single reliable brick does not open as a pool: it is no set by
/// itself, or the set it is does not open.
pub open spec fn brick_refused<D: Disk>(brick: Brick<D>, e: FsError) -> bool {
    ||| exists|sorted: Seq<Brick<D>>, r: Result<BrickSet<D>>| #[trigger] one_brick_set(brick, sorted, r) && r == Err::<BrickSet<D>, FsError>(e)
    ||| exists|store: BrickSet<D>| #[trigger] set_of_one(&store, brick) && open_refused(&store, false, e)
}

/// A placement as the contracts see it.
pub(super) open(super) spec fn seat_of(placement: Option<Placement>) -> Option<(NodeId, SliceMap)> {
    match placement {
        Some(p) => Some((p.node, p.map)),
        None => None,
    }
}

/// The seat an open takes: whose it is, and the map the manifest names, or
/// the one given where the manifest names none.
pub open spec fn seated_by(seat: Option<(NodeId, SliceMap)>, given: Option<(NodeId, SliceMap)>, m: Option<ManifestView>) -> bool {
    match given {
        None => seat is None,
        Some((node, map)) => seat matches Some((me, now)) && me == node && match manifest_map(m) {
            Some((version, homes)) => now.at_version() == version && now.table() == homes,
            None => now == map,
        },
    }
}

/// The placement map a manifest names, if it names one.
pub open spec fn manifest_map(m: Option<ManifestView>) -> Option<(u64, Seq<Homes>)> {
    match m {
        Some(m) => m.map,
        None => None,
    }
}

/// The pool is what its own bricks' anchor, manifest and ring say, and its
/// seat what the manifest makes of the one given.
pub open spec fn opened_whole<D: Disk>(pool: &Pool<D>, given: Option<(NodeId, SliceMap)>) -> bool {
    exists|a: Anchor, m: Option<ManifestView>| #[trigger] opened_as(&pool.stock(), a, m, pool) && seated_by(pool.seat(), given, m)
}

/// Applying an entry asks the pool only for its store, seat and pending map.
proof fn lemma_applied_same<D: Disk>(a: &Pool<D>, b: &Pool<D>, t: Tables, e: WalEntry)
    requires
        a.stock() == b.stock(),
        a.seat() == b.seat(),
        a.pending() == b.pending(),
    ensures
        applied(a, t, e) == applied(b, t, e),
{
}

proof fn lemma_replayed_same<D: Disk>(a: &Pool<D>, b: &Pool<D>, t: Tables, frames: Seq<FrameView>, i: nat)
    requires
        a.stock() == b.stock(),
        a.seat() == b.seat(),
        a.pending() == b.pending(),
    ensures
        replayed(a, t, frames, i) == replayed(b, t, frames, i),
    decreases frames.len() - i,
{
    if i < frames.len() {
        if let Some(e) = entry_of_bytes(frames[i as int].payload) {
            lemma_applied_same(a, b, t, e);
            let (next, held) = applied(a, t, e);
            if held {
                lemma_replayed_same(a, b, next, frames, i + 1);
            }
        }
    }
}

/// Every frame a scan finds leaves the ring inside its bounds, and only the
/// last can carry the last seq there is.
proof fn lemma_scan_positions(b: Seq<u8>, start: int, size: int, pos: int, seq: u64, floor: u64, travelled: int)
    requires
        0 <= start <= pos <= start + size <= u64::MAX,
    ensures
        forall|k: int|
            0 <= k < scan(b, start, size, pos, seq, floor, travelled).len() ==> start <= (#[trigger] scan(b, start, size, pos, seq, floor, travelled)[k]).cursor_after
                <= start + size,
        forall|k: int|
            0 <= k < scan(b, start, size, pos, seq, floor, travelled).len() - 1 ==> (#[trigger] scan(b, start, size, pos, seq, floor, travelled)[k]).seq < u64::MAX,
    decreases size - travelled,
{
    let all = scan(b, start, size, pos, seq, floor, travelled);
    if let Some(at) = crate::wal::next_at(b, start, start + size, pos, seq, floor) {
        let after = travelled + crate::wal::advance(b, start + size, pos, at);
        let next = at + crate::wal::frame_span(b, at);
        if after < size && after > travelled {
            if seq < u64::MAX {
                let epoch = crate::format::u64_at(b, at + 16);
                lemma_scan_positions(b, start, size, next, (seq + 1) as u64, epoch, after);
                let rest = scan(b, start, size, next, (seq + 1) as u64, epoch, after);
                assert forall|k: int| 0 <= k < all.len() implies start <= (#[trigger] all[k]).cursor_after <= start + size && (k < all.len() - 1 ==> all[k].seq < u64::MAX) by {
                    if k > 0 {
                        assert(all[k] == rest[k - 1]);
                    }
                }
            }
        }
    }
}

/// Replaying the entry a create logs gives the table the create gave.
pub proof fn law_replay_agrees_with_create<D: Disk>(pool: &Pool<D>, t: Tables, id: u64, size_bytes: u64, tier: u8)
    requires
        super::vdisk::create_fault(pool, id, size_bytes, tier) is None,
        t.vdisks == pool.vdisk_map(),
    ensures
        applied(pool, t, WalEntry::CreateVdisk { id, size_bytes, tier }) == (
            Tables {
                vdisks: pool.vdisk_map().insert(id, VdiskView { size_bytes, tier, root: None, dirty: Map::empty() }),
                leases: t.leases,
            },
            true,
        ),
{
}

/// Replaying the entry a write logs, against a store that still holds the
/// block, gives the table the write gave.
pub proof fn law_replay_agrees_with_write<D: Disk>(pool: &Pool<D>, t: Tables, vdisk: u64, index: u64, hash: BlockHash)
    requires
        t.vdisks.contains_key(vdisk),
        index < capacity(pool.unit(), t.vdisks[vdisk].size_bytes),
        pool.holds(t.vdisks[vdisk].tier).contains(hash),
    ensures
        applied(pool, t, WalEntry::MapWrite { vdisk, index, hash }) == (
            Tables { vdisks: t.vdisks.insert(vdisk, with_dirty(t.vdisks[vdisk], index, Some(hash))), leases: t.leases },
            true,
        ),
{
}

/// Replaying the entry a trim logs gives the table the trim gave.
pub proof fn law_replay_agrees_with_trim<D: Disk>(pool: &Pool<D>, t: Tables, vdisk: u64, index: u64)
    requires
        t.vdisks.contains_key(vdisk),
        index < capacity(pool.unit(), t.vdisks[vdisk].size_bytes),
    ensures
        applied(pool, t, WalEntry::TrimBlock { vdisk, index }) == (
            Tables { vdisks: t.vdisks.insert(vdisk, with_dirty(t.vdisks[vdisk], index, None)), leases: t.leases },
            true,
        ),
{
}

/// Replaying the entries a delete and a lease log gives the tables they
/// gave.
pub proof fn law_replay_agrees_with_delete_and_lease<D: Disk>(pool: &Pool<D>, t: Tables, id: u64, lease: Lease)
    requires
        t.vdisks.contains_key(id),
    ensures
        applied(pool, t, WalEntry::DeleteVdisk { id }) == (
            Tables { vdisks: t.vdisks.remove(id), leases: t.leases.remove(id) },
            true,
        ),
        applied(pool, t, WalEntry::SetLease { vdisk: id, lease }) == (
            Tables { vdisks: t.vdisks, leases: t.leases.insert(id, lease) },
            true,
        ),
{
}

/// A run of logged entries replays to the tables their operations gave: if
/// every frame spells an entry that applies, replay accepts them all, one
/// after the other.
pub proof fn law_replay_is_the_run_of_its_entries<D: Disk>(pool: &Pool<D>, t: Tables, frames: Seq<FrameView>, e: WalEntry, next: Tables)
    requires
        frames.len() > 0,
        entry_of_bytes(frames.last().payload) == Some(e),
        replayed(pool, t, frames.drop_last(), 0).1 == frames.len() - 1,
        applied(pool, replayed(pool, t, frames.drop_last(), 0).0, e) == (next, true),
    ensures
        replayed(pool, t, frames, 0) == (next, frames.len()),
{
    lemma_replay_push(pool, t, frames, 0);
}

proof fn lemma_replay_push<D: Disk>(pool: &Pool<D>, t: Tables, frames: Seq<FrameView>, i: nat)
    requires
        frames.len() > 0,
        i < frames.len(),
        entry_of_bytes(frames.last().payload) is Some,
        replayed(pool, t, frames.drop_last(), i).1 == frames.len() - 1,
        applied(pool, replayed(pool, t, frames.drop_last(), i).0, entry_of_bytes(frames.last().payload)->Some_0).1,
    ensures
        replayed(pool, t, frames, i) == (
            applied(pool, replayed(pool, t, frames.drop_last(), i).0, entry_of_bytes(frames.last().payload)->Some_0).0,
            frames.len(),
        ),
    decreases frames.len() - i,
{
    let short = frames.drop_last();
    if i < short.len() {
        assert(short[i as int] == frames[i as int]);
        let e = entry_of_bytes(frames[i as int].payload)->Some_0;
        let (next, held) = applied(pool, t, e);
        lemma_replay_push(pool, next, frames, i + 1);
    } else {
        assert(frames[i as int] == frames.last());
        let (next, held) = applied(pool, t, entry_of_bytes(frames.last().payload)->Some_0);
        assert(replayed(pool, next, frames, i + 1) == (next, (i + 1) as nat));
    }
}

} // verus!
