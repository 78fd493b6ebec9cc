//! Vdisks: making, writing, trimming, reading and forgetting them.

use super::entry::{entry_bytes, WalEntry};
use super::{
    capacity, dirty_in_range, lemma_grew_twice, lemma_put_grew, lemma_same_grew, mapped, stock_grew, stock_same, tree_depth, views_of, Pool,
    SnapshotState, VdiskState, VdiskView,
};
use crate::brick_set::ops::{holds_same, lemma_holds_same, put_verdict, tier_exists};
use crate::brick_set::{roomed, tier_blocks, tier_claims, tier_held, BrickSet};
use crate::codec::splice;
use crate::disk::{same_outside, Disk};
use crate::error::{FsError, Result};
use crate::hash::{address_of, BlockHash};
use crate::map::{lookup, tree_get};
use crate::table::{SnapshotId, SortedMap};
use crate::format::{ANCHOR_AREA_START, WAL_AREA_START};
use crate::wal::{between, frame_bytes, frame_size, law_an_append_spares_the_history, Wal};
use vstd::prelude::*;

verus! {

/// The manifest of so many vdisks and snapshots fits its one block. Every
/// vdisk may carry a lease, and a placed pool's manifest always carries the
/// map.
pub open spec fn fits(bs: u32, placed: bool, vdisks: int, snapshots: int) -> bool {
    24 + (if placed { 520int } else { 0int }) + vdisks * 80 + snapshots * 56 <= bs
}

/// What logging an entry comes to.
pub open spec fn log_outcome<T>(ring: Wal, reliable: bool, e: WalEntry, r: Result<T>) -> bool {
    &&& !ring.has_room(entry_bytes(e).len()) ==> r == Err::<T, FsError>(FsError::WalFull)
    &&& ring.has_room(entry_bytes(e).len()) && reliable ==> r is Ok
}

/// The ring and its area after an entry has been logged.
pub open spec fn logged(ring: Wal, area: Seq<u8>, e: WalEntry, ring_after: Wal, area_after: Seq<u8>) -> bool {
    let len = frame_size(entry_bytes(e).len()) as int;
    let at = ring.next_place(len);
    &&& ring.has_room(entry_bytes(e).len())
    &&& ring_after == (Wal { cursor: (at + len) as u64, next_seq: (ring.next_seq + 1) as u64, ..ring })
    &&& area_after == splice(area, at, frame_bytes(ring.next_seq, ring.epoch, entry_bytes(e)))
}

/// What a read answers for an index that leads to `found`.
pub open spec fn read_answer<D: Disk>(pool: &Pool<D>, tier: u8, found: Option<Option<BlockHash>>, r: Result<Option<Vec<u8>>>) -> bool {
    match found {
        None => r is Err && r->Err_0 is Corrupt,
        Some(None) => r == Ok::<Option<Vec<u8>>, FsError>(None),
        Some(Some(h)) => if pool.shelf(tier).contains_key(h) {
            r is Ok && r->Ok_0 is Some && r->Ok_0->Some_0@ == pool.shelf(tier)[h]
        } else if pool.holds(tier).contains(h) {
            r is Err && r->Err_0 is Corrupt
        } else if !pool.serves(h) {
            r == Err::<Option<Vec<u8>>, FsError>(FsError::BlockElsewhere { tier, hash: h })
        } else {
            r == Err::<Option<Vec<u8>>, FsError>(
                FsError::Corrupt("a mapped block is missing from the store"),
            )
        },
    }
}

/// A byte that recovery rests on: one of the anchors, or of the ring's live
/// history.
pub open spec fn shielded(ring: Wal, i: int) -> bool {
    ANCHOR_AREA_START <= i < WAL_AREA_START || between(
        ring.start as int,
        ring.size as int,
        ring.replay_start as int,
        ring.cursor as int,
        i,
    )
}

/// No byte that recovery rested on has changed or is newly at risk, and
/// recovery rests on all of them still.
pub open spec fn history_kept<D: Disk>(before: &Pool<D>, after: &Pool<D>) -> bool {
    before.ring().unwound() ==> {
        &&& after.ring().unwound()
        &&& forall|i: int| #[trigger] shielded(before.ring(), i) ==> {
            &&& shielded(after.ring(), i)
            &&& after.stock().wal_area()[i] == before.stock().wal_area()[i]
            &&& after.stock().wal_risks(i) ==> before.stock().wal_risks(i)
        }
    }
}

/// Recovery rests on bytes before the segment area alone.
pub proof fn lemma_shielded<D: Disk>(pool: &Pool<D>, i: int)
    requires
        pool.inv(),
        shielded(pool.ring(), i),
    ensures
        0 <= i < pool.stock().wal_super().segment_area_start,
        pool.stock().wal_area().len() == pool.stock().wal_super().segment_area_start,
        pool.ring().start >= WAL_AREA_START,
{
    pool.stock().lemma_set();
    pool.stock().members()[pool.stock().holder_at()].lemma_model();
}

/// A store that writes segments alone keeps the history.
pub proof fn lemma_calm_keeps<D: Disk>(before: &Pool<D>, after: &Pool<D>)
    requires
        before.inv(),
        after.ring() == before.ring(),
        after.stock().wal_area() == before.stock().wal_area(),
        after.stock().members()[after.stock().holder_at()].calm(&before.stock().members()[before.stock().holder_at()]),
    ensures
        history_kept(before, after),
{
    assert forall|i: int| #[trigger] shielded(before.ring(), i) && after.stock().wal_risks(i) implies before.stock().wal_risks(i) by {
        lemma_shielded(before, i);
    }
}

/// Two steps that keep the history are one that does.
pub proof fn lemma_history_twice<D: Disk>(before: &Pool<D>, mid: &Pool<D>, after: &Pool<D>)
    requires
        history_kept(before, mid),
        history_kept(mid, after),
    ensures
        history_kept(before, after),
{
    assert forall|i: int| before.ring().unwound() && #[trigger] shielded(before.ring(), i) implies shielded(after.ring(), i) && after.stock().wal_area()[i]
        == before.stock().wal_area()[i] && (after.stock().wal_risks(i) ==> before.stock().wal_risks(i)) by {
        assert(shielded(mid.ring(), i));
    }
}

/// A successful read is never wrong, even on a disk that fails.
pub open spec fn read_honest<D: Disk>(pool: &Pool<D>, tier: u8, found: Option<Option<BlockHash>>, r: Result<Option<Vec<u8>>>) -> bool {
    r matches Ok(got) ==> match got {
        None => found == Some(None::<BlockHash>),
        Some(p) => found matches Some(Some(h)) && pool.shelf(tier).contains_key(h) && p@ == pool.shelf(tier)[h],
    }
}

impl<D: Disk> Pool<D> {
    /// Append one entry to the ring.
    pub(super) fn log(&mut self, e: &WalEntry) -> (r: Result<()>)
        requires
            old(self).inv(),
        ensures
            final(self).inv(),
            final(self).vdisks == old(self).vdisks,
            final(self).snapshots == old(self).snapshots,
            final(self).leases == old(self).leases,
            final(self).anchor_generation == old(self).anchor_generation,
            final(self).era == old(self).era,
            final(self).session_pins == old(self).session_pins,
            final(self).placement == old(self).placement,
            final(self).pending_map == old(self).pending_map,
            stock_same(&old(self).store, &final(self).store),
            log_outcome(old(self).wal, old(self).store.reliable(), *e, r),
            r is Err ==> final(self).wal == old(self).wal,
            history_kept(old(self), final(self)),
            r is Ok ==> logged(
                old(self).wal,
                old(self).store.wal_area(),
                *e,
                final(self).wal,
                final(self).store.wal_area(),
            ),
    {
        let bytes = e.encode();
        let ghost a = self.store;
        proof {
            a.lemma_set();
        }
        let r = self.wal.append(self.store.wal_brick_mut(), bytes.as_slice());
        proof {
            let b = self.store;
            let at = a.holder_at();
            assert(b.members() == a.members().update(at, b.members()[at]));
            assert forall|i: int| 0 <= i < a.members().len() implies holds_same(a.members()[i], #[trigger] b.members()[i]) by {}
            lemma_holds_same(a.members(), b.members());
            lemma_set_like(&a, &b);
            if a.reliable() {
                assert(a.members()[at].reliable());
            }
            assert forall|i: int| old(self).wal.unwound() && #[trigger] shielded(old(self).wal, i) implies shielded(self.wal, i) && b.wal_area()[i]
                == a.wal_area()[i] && (b.wal_risks(i) ==> a.wal_risks(i)) by {
                lemma_shielded(old(self), i);
                a.members()[at].lemma_model();
                b.members()[at].lemma_model();
                assert(b.holder_at() == at);
                if old(self).wal.has_room(bytes@.len()) {
                    law_an_append_spares_the_history(old(self).wal, bytes@.len(), i);
                    let len = frame_size(bytes@.len()) as int;
                    let place = old(self).wal.next_place(len);
                    assert(!(place <= i < place + len));
                    assert(same_outside(a.wal_area(), b.wal_area(), place, len));
                }
                assert(b.wal_area()[i] == a.wal_area()[i]);
                assert(b.wal_risks(i) ==> a.wal_risks(i));
                assert(shielded(self.wal, i));
            }
            if old(self).wal.unwound() && old(self).wal.has_room(bytes@.len()) {
                law_an_append_spares_the_history(old(self).wal, bytes@.len(), 0);
            }
        }
        match r {
            Ok(_) => Ok(()),
            Err(e) => Err(e),
        }
    }

    /// Record a mutation of a vdisk.
    pub(super) fn set_dirty(&mut self, vdisk: u64, index: u64, value: Option<BlockHash>)
        requires
            old(self).inv(),
            old(self).vdisks@.contains_key(vdisk),
            index < capacity(old(self).store.unit_size(), old(self).vdisks@[vdisk].size_bytes),
        ensures
            final(self).inv(),
            final(self).store == old(self).store,
            final(self).wal == old(self).wal,
            final(self).snapshots == old(self).snapshots,
            final(self).leases == old(self).leases,
            final(self).anchor_generation == old(self).anchor_generation,
            final(self).era == old(self).era,
            final(self).session_pins == old(self).session_pins,
            final(self).placement == old(self).placement,
            final(self).pending_map == old(self).pending_map,
            final(self).vdisk_map() == old(self).vdisk_map().insert(
                vdisk,
                with_dirty(old(self).vdisk_map()[vdisk], index, value),
            ),
    {
        let ghost before = self.vdisks@;
        if let Some(mut state) = self.vdisks.take(&vdisk) {
            state.dirty.insert(index, value);
            self.vdisks.insert(vdisk, state);
            proof {
                let after = self.vdisks@;
                assert(views_of(after) =~= views_of(before).insert(vdisk, with_dirty(views_of(before)[vdisk], index, value)));
                assert forall|id: u64| #[trigger] self.vdisks@.contains_key(id) implies self.vdisks@[id].dirty.wf() by {
                    if id != vdisk {
                        assert(before.contains_key(id));
                    }
                }
                let bs = self.store.unit_size();
                assert(dirty_in_range(bs, views_of(before)));
                assert forall|id: u64, k: u64| #[trigger] views_of(after).contains_key(id) && #[trigger] views_of(after)[id].dirty.contains_key(k) implies k < capacity(bs, views_of(after)[id].size_bytes) by {
                    if id == vdisk && k == index {
                    } else {
                        assert(views_of(before).contains_key(id));
                        assert(views_of(before)[id].dirty.contains_key(k));
                    }
                }
            }
        }
    }

    pub(super) fn manifest_fits(&self, vdisk_count: usize, snapshot_count: usize) -> (r: bool)
        requires
            self.inv(),
        ensures
            r == fits(self.unit(), self.seat() is Some, vdisk_count as int, snapshot_count as int),
    {
        let map_len: u128 = if self.placement.is_some() {
            520
        } else {
            0
        };
        24 + map_len + vdisk_count as u128 * 80 + snapshot_count as u128 * 56 <= self.store.block_size() as u128
    }

    /// Create a vdisk on a tier. Durable at the next flush, like any write.
    pub fn create_vdisk(&mut self, id: u64, size_bytes: u64, tier: u8) -> (r: Result<()>)
        requires
            old(self).inv(),
        ensures
            created(old(self), final(self), id, size_bytes, tier, r),
    {
        proof {
            self.lemma_still();
        }
        if self.vdisks.contains(&id) {
            return Err(FsError::VdiskExists(id));
        }
        if size_bytes == 0 {
            return Err(FsError::BadGeometry("a vdisk must hold at least one block"));
        }
        if !self.store.has_tier(tier) {
            return Err(FsError::NoSuchTier(tier));
        }
        let count: usize = self.vdisks.len();
        if count == usize::MAX || !self.manifest_fits(count + 1, self.snapshots.len()) {
            proof {
                self.lemma_domains();
            }
            return Err(FsError::ManifestFull);
        }
        proof {
            self.lemma_domains();
        }
        let entry = WalEntry::CreateVdisk { id, size_bytes, tier };
        match self.log(&entry) {
            Ok(()) => {},
            Err(e) => {
                return Err(e);
            },
        }
        let ghost before = self.vdisks@;
        self.vdisks.insert(id, VdiskState { size_bytes, tier, root: None, dirty: SortedMap::new() });
        proof {
            self.lemma_new_vdisk(before, id);
            assert(views_of(self.vdisks@) =~= views_of(before).insert(id, VdiskView { size_bytes, tier, root: None, dirty: Map::empty() }));
        }
        Ok(())
    }

    /// An untouched pool's stock is its own.
    pub(super) proof fn lemma_still(&self)
        requires
            self.inv(),
        ensures
            stock_same(&self.store, &self.store),
            stock_grew(&self.store, &self.store),
    {
        lemma_same_grew(&self.store, &self.store);
    }

    /// The view has as many vdisks as the table.
    pub(super) proof fn lemma_domains(&self)
        requires
            self.inv(),
        ensures
            self.vdisk_map().dom() == self.vdisks@.dom(),
            self.vdisk_map().dom().finite(),
            self.snapshot_map().dom().finite(),
    {
        self.vdisks.lemma_listing();
        self.snapshots.lemma_listing();
        assert(self.vdisk_map().dom() =~= self.vdisks@.dom());
    }

    /// A vdisk with no mutations joins in order.
    pub(super) proof fn lemma_new_vdisk(&self, before: Map<u64, VdiskState>, id: u64)
        requires
            self.vdisks@ == before.insert(id, self.vdisks@[id]),
            self.vdisks@[id].dirty.wf(),
            self.vdisks@[id].dirty@ == Map::<u64, Option<BlockHash>>::empty(),
            forall|x: u64| #[trigger] before.contains_key(x) ==> before[x].dirty.wf(),
            dirty_in_range(self.store.unit_size(), views_of(before)),
        ensures
            forall|x: u64| #[trigger] self.vdisks@.contains_key(x) ==> self.vdisks@[x].dirty.wf(),
            dirty_in_range(self.store.unit_size(), views_of(self.vdisks@)),
    {
        assert forall|x: u64| #[trigger] self.vdisks@.contains_key(x) implies self.vdisks@[x].dirty.wf() by {
            if x != id {
                assert(before.contains_key(x));
            }
        }
        let bs = self.store.unit_size();
        let after = self.vdisks@;
        assert forall|x: u64, k: u64| #[trigger] views_of(after).contains_key(x) && #[trigger] views_of(after)[x].dirty.contains_key(k) implies k < capacity(bs, views_of(after)[x].size_bytes) by {
            assert(x != id);
            assert(views_of(before).contains_key(x));
            assert(views_of(before)[x].dirty.contains_key(k));
        }
    }

    /// Write one block of a vdisk: the payload lands under a content
    /// address, and the map flips to it or does not.
    pub fn write_block(&mut self, vdisk: u64, index: u64, payload: &[u8]) -> (r: Result<()>)
        requires
            old(self).inv(),
        ensures
            block_wrote(old(self), final(self), vdisk, index, payload@, r),
    {
        proof {
            self.lemma_still();
        }
        let (tier, capacity) = match self.vdisks.get_ref(&vdisk) {
            Some(state) => (state.tier, self.capacity_for(state.size_bytes)),
            None => {
                return Err(FsError::UnknownVdisk(vdisk));
            },
        };
        if index >= capacity {
            return Err(FsError::OutOfRange { index, capacity });
        }
        let ghost a = self.store;
        let put = self.store.put(tier, payload);
        let ghost b = self.store;
        let ghost verdict = match put { Ok(_) => Ok::<(), FsError>(()), Err(e) => Err(e) };
        proof {
            assert(put_verdict(a.members(), a.unit_size(), a.reliable(), tier, address_of(payload@), payload@.len(), verdict));
            assert(a == old(self).stock());
            assert(put_verdict(old(self).stock().members(), old(self).unit(), old(self).reliable(), tier, address_of(payload@), payload@.len(), verdict));
            if put is Ok {
                assert(b.stored(&a, tier, put->Ok_0, payload@));
            }
            lemma_put_grew(&a, &b, tier);
            lemma_calm_keeps(old(self), self);
        }
        let ghost stored = *self;
        let ghost whole = WalEntry::MapWrite { vdisk, index, hash: address_of(payload@) };
        let hash = match put {
            Ok(hash) => hash,
            Err(e) => {
                assert(verdict == Err::<(), FsError>(e));
                assert(write_outcome(old(self), tier, payload@, whole, Err(e)));
                return Err(e);
            },
        };
        let entry = WalEntry::MapWrite { vdisk, index, hash };
        let outcome = self.log(&entry);
        proof {
            lemma_same_grew(&b, &self.store);
            lemma_grew_twice(&a, &b, &self.store);
            lemma_history_twice(old(self), &stored, self);
            assert(verdict == Ok::<(), FsError>(()));
            assert(write_outcome(old(self), tier, payload@, whole, outcome));
        }
        match outcome {
            Ok(()) => {},
            Err(e) => {
                return Err(e);
            },
        }
        self.set_dirty(vdisk, index, Some(hash));
        Ok(())
    }

    /// Unmap one block: a guest's discard.
    pub fn trim_block(&mut self, vdisk: u64, index: u64) -> (r: Result<()>)
        requires
            old(self).inv(),
        ensures
            trimmed(old(self), final(self), vdisk, index, r),
    {
        proof {
            self.lemma_still();
        }
        let capacity: u64 = match self.vdisks.get_ref(&vdisk) {
            Some(state) => self.capacity_for(state.size_bytes),
            None => {
                return Err(FsError::UnknownVdisk(vdisk));
            },
        };
        if index >= capacity {
            return Err(FsError::OutOfRange { index, capacity });
        }
        let entry = WalEntry::TrimBlock { vdisk, index };
        match self.log(&entry) {
            Ok(()) => {},
            Err(e) => {
                return Err(e);
            },
        }
        self.set_dirty(vdisk, index, None);
        Ok(())
    }

    /// Whether a snapshot pins the vdisk.
    fn has_snapshots(&self, id: u64) -> (r: bool)
        requires
            self.inv(),
        ensures
            r == pinned(self.snapshot_map(), id),
    {
        let n: usize = self.snapshots.len();
        let ghost s = self.snapshots.listing();
        proof {
            self.snapshots.lemma_listing();
        }
        let mut i: usize = 0;
        while i < n
            invariant
                self.snapshots.wf(),
                s == self.snapshots.listing(),
                i <= n == s.len(),
                forall|k: int| 0 <= k < i ==> (#[trigger] s[k]).0.vdisk != id,
            decreases n - i,
        {
            let key = self.snapshots.key_at(i);
            if key.vdisk == id {
                assert(self.snapshot_map().contains_key(key));
                return true;
            }
            i += 1;
        }
        proof {
            if pinned(self.snapshot_map(), id) {
                let key = choose|key: SnapshotId| #[trigger] self.snapshot_map().contains_key(key) && key.vdisk == id;
                let k = choose|k: int| #[trigger] crate::table::entry_for(s, key, k);
                assert(s[k].0.vdisk == id);
            }
        }
        false
    }

    /// Forget a vdisk, and its lease with it. Refused while snapshots still
    /// pin its history.
    pub fn delete_vdisk(&mut self, id: u64) -> (r: Result<()>)
        requires
            old(self).inv(),
        ensures
            deleted(old(self), final(self), id, r),
    {
        proof {
            self.lemma_still();
        }
        if !self.vdisks.contains(&id) {
            return Err(FsError::UnknownVdisk(id));
        }
        if self.has_snapshots(id) {
            return Err(FsError::HasSnapshots(id));
        }
        let entry = WalEntry::DeleteVdisk { id };
        match self.log(&entry) {
            Ok(()) => {},
            Err(e) => {
                return Err(e);
            },
        }
        let ghost before = self.vdisks@;
        let _ = self.vdisks.remove(&id);
        let _ = self.leases.remove(&id);
        proof {
            self.lemma_fewer_vdisks(before);
            assert(views_of(self.vdisks@) =~= views_of(before).remove(id));
        }
        Ok(())
    }

    /// Dropping vdisks keeps the rest in order.
    pub(super) proof fn lemma_fewer_vdisks(&self, before: Map<u64, VdiskState>)
        requires
            forall|x: u64| #[trigger] self.vdisks@.contains_key(x) ==> before.contains_key(x) && before[x] == self.vdisks@[x],
            forall|x: u64| #[trigger] before.contains_key(x) ==> before[x].dirty.wf(),
            dirty_in_range(self.store.unit_size(), views_of(before)),
        ensures
            forall|x: u64| #[trigger] self.vdisks@.contains_key(x) ==> self.vdisks@[x].dirty.wf(),
            dirty_in_range(self.store.unit_size(), views_of(self.vdisks@)),
    {
        let after = self.vdisks@;
        let bs = self.store.unit_size();
        assert forall|x: u64, k: u64| #[trigger] views_of(after).contains_key(x) && #[trigger] views_of(after)[x].dirty.contains_key(k) implies k < capacity(bs, views_of(after)[x].size_bytes) by {
            assert(after.contains_key(x));
            assert(views_of(before).contains_key(x));
            assert(views_of(before)[x].dirty.contains_key(k));
        }
    }

    /// Resolve an index and fetch what it leads to.
    fn fetch(&self, tier: u8, found: Option<BlockHash>) -> (r: Result<Option<Vec<u8>>>)
        requires
            self.inv(),
        ensures
            self.reliable() ==> read_answer(self, tier, Some(found), r),
            read_honest(self, tier, Some(found), r),
    {
        match found {
            Some(hash) => match self.store.get(tier, &hash) {
                Ok(Some(payload)) => Ok(Some(payload)),
                Ok(None) => if !self.serves_data(&hash) {
                    Err(FsError::BlockElsewhere { tier, hash })
                } else {
                    Err(FsError::Corrupt("a mapped block is missing from the store"))
                },
                Err(e) => Err(e),
            },
            None => Ok(None),
        }
    }

    /// Read one block. `Ok(None)` is "never written": zeros, in the
    /// language of the block device this backs.
    pub fn read_block(&self, vdisk: u64, index: u64) -> (r: Result<Option<Vec<u8>>>)
        requires
            self.inv(),
        ensures
            block_read(self, vdisk, index, r),
    {
        let state = match self.vdisks.get_ref(&vdisk) {
            Some(state) => state,
            None => {
                return Err(FsError::UnknownVdisk(vdisk));
            },
        };
        let capacity: u64 = self.capacity_for(state.size_bytes);
        if index >= capacity {
            return Err(FsError::OutOfRange { index, capacity });
        }
        let found: Option<BlockHash> = match state.dirty.get(&index) {
            Some(value) => value,
            None => match state.root {
                Some(root) => {
                    let depth: u32 = self.depth_for_size(state.size_bytes);
                    match lookup(&self.store, 0, &root, depth, index) {
                        Ok(found) => found,
                        Err(e) => {
                            return Err(e);
                        },
                    }
                },
                None => None,
            },
        };
        self.fetch(state.tier, found)
    }

    /// Read one block of a snapshot: the vdisk as it was at the pin.
    pub fn read_snapshot_block(&self, vdisk: u64, snapshot: u64, index: u64) -> (r: Result<Option<Vec<u8>>>)
        requires
            self.inv(),
        ensures
            snapshot_read(self, vdisk, snapshot, index, r),
    {
        let snap = match self.snapshots.get(&SnapshotId { vdisk, snapshot }) {
            Some(snap) => snap,
            None => {
                return Err(FsError::UnknownSnapshot { vdisk, snapshot });
            },
        };
        let tier: u8 = match self.vdisks.get_ref(&vdisk) {
            Some(state) => state.tier,
            None => {
                return Err(FsError::Corrupt("a snapshot outlives its vdisk"));
            },
        };
        let capacity: u64 = self.capacity_for(snap.size_bytes);
        if index >= capacity {
            return Err(FsError::OutOfRange { index, capacity });
        }
        let found: Option<BlockHash> = match snap.root {
            Some(root) => {
                let depth: u32 = self.depth_for_size(snap.size_bytes);
                match lookup(&self.store, 0, &root, depth, index) {
                    Ok(found) => found,
                    Err(e) => {
                        return Err(e);
                    },
                }
            },
            None => None,
        };
        self.fetch(tier, found)
    }

    /// The acknowledgement barrier: every write and create before this call
    /// is durable when it returns, on every brick.
    pub fn flush(&mut self) -> (r: Result<()>)
        requires
            old(self).inv(),
        ensures
            flushed(old(self), final(self), r),
    {
        let ghost a = self.store;
        let r = self.store.flush();
        proof {
            lemma_put_grew(&a, &self.store, 0);
            lemma_calm_keeps(old(self), self);
        }
        r
    }

    /// Store a payload at a tier without mapping it anywhere.
    pub fn put_block(&mut self, tier: u8, payload: &[u8]) -> (r: Result<BlockHash>)
        requires
            old(self).inv(),
        ensures
            block_stored(old(self), final(self), tier, payload@, r),
    {
        let ghost a = self.store;
        let r = self.store.put(tier, payload);
        proof {
            if r is Ok {
                assert(self.store.stored(&a, tier, r->Ok_0, payload@));
            }
            lemma_put_grew(&a, &self.store, tier);
            lemma_calm_keeps(old(self), self);
        }
        r
    }

    /// The same store, for a caller that already computed the address. Of a
    /// payload that is not what the address names, only the address is
    /// promised to be known afterwards.
    pub fn put_block_prehashed(&mut self, tier: u8, hash: BlockHash, payload: &[u8]) -> (r: Result<()>)
        requires
            old(self).inv(),
        ensures
            stored_under(old(self), final(self), tier, hash, payload@, r),
    {
        let ghost a = self.store;
        proof {
            a.lemma_set();
        }
        let r = self.store.put_prehashed(tier, hash, payload);
        proof {
            if hash == address_of(payload@) {
                if r is Ok {
                    assert(self.store.stored(&a, tier, hash, payload@));
                }
                lemma_put_grew(&a, &self.store, tier);
            }
            self.store.lemma_set();
            assert(self.store.members()[0].same_shape(&a.members()[0]));
            assert(self.store.members()[a.holder_at()].same_shape(&a.members()[a.holder_at()]));
            assert(a.members()[0].superblock().block_size == a.unit_size());
            assert(self.store.members()[0].superblock().block_size == self.store.unit_size());
            lemma_calm_keeps(old(self), self);
        }
        r
    }

    /// A run of prehashed blocks, stored one by one; the first refusal ends
    /// the run.
    pub fn put_blocks_prehashed(&mut self, tier: u8, items: &Vec<(BlockHash, Vec<u8>)>) -> (r: Result<()>)
        requires
            old(self).inv(),
        ensures
            final(self).inv(),
            final(self).same_rest(old(self)),
            final(self).vdisk_map() == old(self).vdisk_map(),
            final(self).ring() == old(self).ring(),
            final(self).stock().others_alone(&old(self).stock(), tier),
            exists|steps: Seq<Pool<D>>| #[trigger] run_stored(steps, old(self), final(self), tier, items@, r),
            r is Ok ==> final(self).holds(tier) == old(self).holds(tier).union(addresses_in(items@)),
            (forall|i: int| 0 <= i < items@.len() ==> (#[trigger] items@[i]).0 == address_of(items@[i].1@)) ==> {
                &&& stock_grew(&old(self).stock(), &final(self).stock())
                &&& old(self).stock().intact() ==> final(self).stock().intact()
                &&& r is Ok ==> forall|i: int| 0 <= i < items@.len() ==> final(self).promised(tier).contains(((#[trigger] items@[i]).0, items@[i].1@))
            },
    {
        proof {
            self.lemma_still();
        }
        let ghost honest = forall|i: int| 0 <= i < items@.len() ==> (#[trigger] items@[i]).0 == address_of(items@[i].1@);
        let ghost mut steps: Seq<Pool<D>> = seq![*self];
        let mut k: usize = 0;
        proof {
            assert(items@.take(0) =~= Seq::empty());
            assert(self.holds(tier) =~= old(self).holds(tier).union(addresses_in(items@.take(0))));
        }
        while k < items.len()
            invariant
                k <= items@.len(),
                self.inv(),
                self.same_rest(old(self)),
                self.vdisk_map() == old(self).vdisk_map(),
                self.ring() == old(self).ring(),
                self.stock().others_alone(&old(self).stock(), tier),
                steps.len() == k + 1,
                steps[0] == *old(self),
                steps.last() == *self,
                forall|i: int| 0 <= i < k ==> one_stored(&steps[i], &steps[i + 1], tier, #[trigger] items@[i]),
                self.holds(tier) == old(self).holds(tier).union(addresses_in(items@.take(k as int))),
                honest == (forall|i: int| 0 <= i < items@.len() ==> (#[trigger] items@[i]).0 == address_of(items@[i].1@)),
                honest ==> stock_grew(&old(self).stock(), &self.stock()),
                honest && old(self).stock().intact() ==> self.stock().intact(),
                honest ==> forall|i: int| 0 <= i < k ==> self.promised(tier).contains(((#[trigger] items@[i]).0, items@[i].1@)),
            decreases items@.len() - k,
        {
            let ghost mid = *self;
            let outcome = self.put_block_prehashed(tier, items[k].0, items[k].1.as_slice());
            proof {
                assert(self.stock().others_alone(&old(self).stock(), tier)) by {
                    assert(mid.stock().others_alone(&old(self).stock(), tier));
                    assert(self.stock().others_alone(&mid.stock(), tier));
                    lemma_others_alone_twice(&old(self).stock(), &mid.stock(), &self.stock(), tier);
                }
                if honest {
                    assert(items@[k as int].0 == address_of(items@[k as int].1@));
                    lemma_grew_twice(&old(self).stock(), &mid.stock(), &self.stock());
                    assert(tier_claims(mid.stock().members(), tier).subset_of(tier_claims(self.stock().members(), tier)));
                }
            }
            if let Err(e) = outcome {
                assert(run_stored(steps, old(self), self, tier, items@, outcome));
                return outcome;
            }
            proof {
                let before = steps;
                steps = steps.push(*self);
                assert(one_stored(&mid, self, tier, items@[k as int]));
                assert forall|i: int| 0 <= i < k + 1 implies one_stored(&steps[i], &steps[i + 1], tier, #[trigger] items@[i]) by {
                    assert(steps[i] == before[i]);
                    if i < k {
                        assert(steps[i + 1] == before[i + 1]);
                    }
                }
                let (few, more) = (items@.take(k as int), items@.take(k + 1));
                assert(addresses_in(more) =~= addresses_in(few).insert(items@[k as int].0)) by {
                    assert forall|h: BlockHash| addresses_in(more).contains(h) <==> addresses_in(few).contains(h) || h == items@[k as int].0 by {
                        if addresses_in(more).contains(h) {
                            let i = choose|i: int| 0 <= i < more.len() && (#[trigger] more[i]).0 == h;
                            if i < k {
                                assert(few[i].0 == h);
                            }
                        }
                        if addresses_in(few).contains(h) {
                            let i = choose|i: int| 0 <= i < few.len() && (#[trigger] few[i]).0 == h;
                            assert(more[i].0 == h);
                        }
                        if h == items@[k as int].0 {
                            assert(more[k as int].0 == h);
                        }
                    }
                }
                assert(self.holds(tier) =~= old(self).holds(tier).union(addresses_in(more)));
            }
            k += 1;
        }
        assert(items@.take(k as int) =~= items@);
        let done: Result<()> = Ok(());
        assert(run_stored(steps, old(self), self, tier, items@, done));
        done
    }

    /// Whether the store knows a block, by tier and address.
    pub fn has_block(&self, tier: u8, hash: &BlockHash) -> (r: bool)
        requires
            self.inv(),
        ensures
            r == self.holds(tier).contains(*hash),
    {
        self.store.contains(tier, hash)
    }

    /// A stored block's payload, by tier and address.
    pub fn block_payload(&self, tier: u8, hash: &BlockHash) -> (r: Result<Option<Vec<u8>>>)
        requires
            self.inv(),
        ensures
            !self.holds(tier).contains(*hash) ==> r == Ok::<Option<Vec<u8>>, FsError>(None),
            self.holds(tier).contains(*hash) ==> match r {
                Ok(got) => got is Some && self.shelf(tier).contains_key(*hash) && got->Some_0@ == self.shelf(tier)[*hash],
                Err(e) => self.reliable() ==> e is Corrupt && !self.shelf(tier).contains_key(*hash),
            },
    {
        self.store.get(tier, hash)
    }

    /// A map write whose payload is already in the store. A home refuses a
    /// block it does not hold; any other member maps it without holding it.
    pub fn write_block_prehashed(&mut self, vdisk: u64, index: u64, hash: BlockHash) -> (r: Result<()>)
        requires
            old(self).inv(),
        ensures
            mapped_to(old(self), final(self), vdisk, index, hash, r),
    {
        proof {
            self.lemma_still();
        }
        let (tier, capacity) = match self.vdisks.get_ref(&vdisk) {
            Some(state) => (state.tier, self.capacity_for(state.size_bytes)),
            None => {
                return Err(FsError::UnknownVdisk(vdisk));
            },
        };
        if index >= capacity {
            return Err(FsError::OutOfRange { index, capacity });
        }
        if self.holds_data(&hash) && !self.store.contains(tier, &hash) {
            return Err(FsError::Corrupt("a replicated write names a block the store does not hold"));
        }
        let entry = WalEntry::MapWrite { vdisk, index, hash };
        match self.log(&entry) {
            Ok(()) => {},
            Err(e) => {
                return Err(e);
            },
        }
        self.set_dirty(vdisk, index, Some(hash));
        Ok(())
    }
}

proof fn lemma_others_alone_twice<D: Disk>(a: &BrickSet<D>, b: &BrickSet<D>, c: &BrickSet<D>, tier: u8)
    requires
        b.others_alone(a, tier),
        c.others_alone(b, tier),
    ensures
        c.others_alone(a, tier),
{
    assert forall|t: u8| t != tier implies #[trigger] tier_held(c.members(), t) == tier_held(a.members(), t) by {
        assert(tier_held(b.members(), t) == tier_held(a.members(), t));
    }
    assert forall|t: u8| t != tier implies #[trigger] tier_blocks(c.members(), t) == tier_blocks(a.members(), t) by {
        assert(tier_blocks(b.members(), t) == tier_blocks(a.members(), t));
    }
    assert forall|t: u8| t != tier implies #[trigger] tier_claims(c.members(), t) == tier_claims(a.members(), t) by {
        assert(tier_claims(b.members(), t) == tier_claims(a.members(), t));
    }
}

/// What a flush comes to: nothing changes, and on success everything is on
/// stable storage.
pub open spec fn flushed<D: Disk>(before: &Pool<D>, after: &Pool<D>, r: Result<()>) -> bool {
    &&& after.inv()
    &&& history_kept(before, after)
    &&& after.same_rest(before)
    &&& after.vdisk_map() == before.vdisk_map()
    &&& after.ring() == before.ring()
    &&& stock_same(&before.stock(), &after.stock())
    &&& after.stock().wal_area() == before.stock().wal_area()
    &&& forall|i: int| 0 <= i < before.stock().members().len() ==> (#[trigger] after.stock().members()[i]).disk_bytes() == before.stock().members()[i].disk_bytes()
    &&& r is Ok ==> after.stock().durable()
    &&& r is Ok ==> forall|i: int| 0 <= i < after.stock().members().len() ==> (#[trigger] after.stock().members()[i]).at_rest()
    &&& before.reliable() ==> r is Ok
}

/// The addresses of some blocks.
pub open spec fn addresses_in(items: Seq<(BlockHash, Vec<u8>)>) -> Set<BlockHash> {
    Set::new(|h: BlockHash| exists|i: int| 0 <= i < items.len() && (#[trigger] items[i]).0 == h)
}

/// One block of a run was stored.
pub open spec fn one_stored<D: Disk>(before: &Pool<D>, after: &Pool<D>, tier: u8, item: (BlockHash, Vec<u8>)) -> bool {
    exists|c: Result<()>| #[trigger] stored_under(before, after, tier, item.0, item.1@, c) && c is Ok
}

/// Where a run of blocks got to, one state after each that was stored: to
/// its end, or to the first that was refused.
pub open spec fn run_stored<D: Disk>(
    steps: Seq<Pool<D>>,
    before: &Pool<D>,
    after: &Pool<D>,
    tier: u8,
    items: Seq<(BlockHash, Vec<u8>)>,
    r: Result<()>,
) -> bool {
    &&& 1 <= steps.len() <= items.len() + 1
    &&& steps[0] == *before
    &&& forall|i: int| 0 <= i < steps.len() - 1 ==> one_stored(&steps[i], &steps[i + 1], tier, #[trigger] items[i])
    &&& match r {
        Ok(_) => steps.len() == items.len() + 1 && steps.last() == *after,
        Err(_) => steps.len() <= items.len() && stored_under(
            &steps.last(),
            after,
            tier,
            items[steps.len() - 1].0,
            items[steps.len() - 1].1@,
            r,
        ),
    }
}

/// What writing a block comes to.
pub open spec fn block_wrote<D: Disk>(before: &Pool<D>, after: &Pool<D>, vdisk: u64, index: u64, payload: Seq<u8>, r: Result<()>) -> bool {
    &&& after.inv()
    &&& history_kept(before, after)
    &&& after.same_rest(before)
    &&& stock_grew(&before.stock(), &after.stock())
    &&& before.stock().intact() ==> after.stock().intact()
    &&& index_fault(before, vdisk, index) matches Some(e) ==> r == Err::<(), FsError>(e)
    &&& r is Err ==> after.vdisk_map() == before.vdisk_map() && after.ring() == before.ring()
    &&& index_fault(before, vdisk, index) is None ==> {
        let tier = before.vdisk_map()[vdisk].tier;
        let hash = address_of(payload);
        let e = WalEntry::MapWrite { vdisk, index, hash };
        &&& r is Ok ==> {
            &&& after.vdisk_map() == before.vdisk_map().insert(vdisk, with_dirty(before.vdisk_map()[vdisk], index, Some(hash)))
            &&& after.holds(tier) == before.holds(tier).insert(hash)
            &&& after.promised(tier) == before.promised(tier).insert((hash, payload))
            &&& after.shelf(tier) == if before.holds(tier).contains(hash) {
                before.shelf(tier)
            } else {
                before.shelf(tier).insert(hash, payload)
            }
            &&& logged(before.ring(), before.stock().wal_area(), e, after.ring(), after.stock().wal_area())
        }
        &&& write_outcome(before, tier, payload, e, r)
    }
}

/// What writing a payload and logging the write come to: the put's refusal,
/// else the ring's.
pub open spec fn write_outcome<D: Disk>(pool: &Pool<D>, tier: u8, payload: Seq<u8>, e: WalEntry, r: Result<()>) -> bool {
    exists|put: Result<()>| #[trigger]
        put_verdict(
            pool.stock().members(),
            pool.unit(),
            pool.reliable(),
            tier,
            address_of(payload),
            payload.len(),
            put,
        ) && match put {
            Err(refusal) => r == Err::<(), FsError>(refusal),
            Ok(()) => log_outcome(pool.ring(), pool.reliable(), e, r),
        }
}

/// A vdisk with one more mutation.
pub open spec fn with_dirty(v: VdiskView, index: u64, value: Option<BlockHash>) -> VdiskView {
    VdiskView { dirty: v.dirty.insert(index, value), ..v }
}

/// Some snapshot of the vdisk exists.
pub open spec fn pinned(snapshots: Map<SnapshotId, SnapshotState>, id: u64) -> bool {
    exists|key: SnapshotId| #[trigger] snapshots.contains_key(key) && key.vdisk == id
}

/// Why a vdisk is not created, if it is not.
pub open spec fn create_fault<D: Disk>(pool: &Pool<D>, id: u64, size_bytes: u64, tier: u8) -> Option<FsError> {
    if pool.vdisk_map().contains_key(id) {
        Some(FsError::VdiskExists(id))
    } else if size_bytes == 0 {
        Some(FsError::BadGeometry("a vdisk must hold at least one block"))
    } else if !tier_exists(pool.stock().members(), tier) {
        Some(FsError::NoSuchTier(tier))
    } else if !fits(
        pool.unit(),
        pool.seat() is Some,
        pool.vdisk_map().dom().len() as int + 1,
        pool.snapshot_map().dom().len() as int,
    ) {
        Some(FsError::ManifestFull)
    } else {
        None
    }
}

/// Why an index of a vdisk is refused, if it is.
pub open spec fn index_fault<D: Disk>(pool: &Pool<D>, vdisk: u64, index: u64) -> Option<FsError> {
    if !pool.vdisk_map().contains_key(vdisk) {
        Some(FsError::UnknownVdisk(vdisk))
    } else {
        let cap = capacity(pool.unit(), pool.vdisk_map()[vdisk].size_bytes);
        if index >= cap {
            Some(FsError::OutOfRange { index, capacity: cap })
        } else {
            None
        }
    }
}

/// Why an index of a snapshot is refused, if it is.
pub open spec fn snapshot_fault<D: Disk>(pool: &Pool<D>, vdisk: u64, snapshot: u64, index: u64) -> Option<FsError> {
    let key = SnapshotId { vdisk, snapshot };
    if !pool.snapshot_map().contains_key(key) {
        Some(FsError::UnknownSnapshot { vdisk, snapshot })
    } else if !pool.vdisk_map().contains_key(vdisk) {
        Some(FsError::Corrupt("a snapshot outlives its vdisk"))
    } else {
        let cap = capacity(pool.unit(), pool.snapshot_map()[key].size_bytes);
        if index >= cap {
            Some(FsError::OutOfRange { index, capacity: cap })
        } else {
            None
        }
    }
}

/// A set whose bricks hold the same, keep their identity and stay reliable
/// is the same stock.
pub(super) proof fn lemma_set_like<D: Disk>(a: &BrickSet<D>, b: &BrickSet<D>)
    requires
        a.inv(),
        b.inv(),
        b.holder_at() == a.holder_at(),
        b.members().len() == a.members().len(),
        forall|i: int| 0 <= i < a.members().len() ==> holds_same(a.members()[i], #[trigger] b.members()[i]),
        forall|i: int| 0 <= i < a.members().len() ==> (#[trigger] b.members()[i]).reliable() == a.members()[i].reliable(),
        forall|i: int| 0 <= i < a.members().len() && a.members()[i].intact() ==> (#[trigger] b.members()[i]).intact(),
        roomed(a.members(), b.members()),
    ensures
        stock_same(a, b),
{
    a.lemma_set();
    b.lemma_set();
    lemma_holds_same(a.members(), b.members());
    assert forall|i: int| 0 <= i < a.members().len() implies (#[trigger] b.members()[i]).superblock() == a.members()[i].superblock() by {
        assert(holds_same(a.members()[i], b.members()[i]));
    }
    assert(holds_same(a.members()[0], b.members()[0]));
    assert(a.members()[0].superblock().block_size == a.unit_size());
    assert(b.members()[0].superblock().block_size == b.unit_size());
    assert(holds_same(a.members()[a.holder_at()], b.members()[a.holder_at()]));
    if a.reliable() {
        assert forall|i: int| 0 <= i < b.members().len() implies (#[trigger] b.members()[i]).reliable() by {
            assert(a.members()[i].reliable());
        }
    }
    if b.reliable() {
        assert forall|i: int| 0 <= i < a.members().len() implies (#[trigger] a.members()[i]).reliable() by {
            assert(b.members()[i].reliable());
        }
    }
    if a.intact() {
        assert forall|i: int| 0 <= i < b.members().len() implies (#[trigger] b.members()[i]).intact() by {
            assert(a.members()[i].intact());
        }
    }
}

/// A block just written reads back as written, wherever the tier keeps its
/// promises.
pub proof fn law_write_then_read<D: Disk>(before: &Pool<D>, after: &Pool<D>, vdisk: u64, index: u64, payload: Seq<u8>, r: Result<Option<Vec<u8>>>)
    requires
        before.vdisk_map().contains_key(vdisk),
        after.vdisk_map() == before.vdisk_map().insert(vdisk, with_dirty(before.vdisk_map()[vdisk], index, Some(address_of(payload)))),
        after.promised(before.vdisk_map()[vdisk].tier) == before.promised(before.vdisk_map()[vdisk].tier).insert((address_of(payload), payload)),
        after.faithful(before.vdisk_map()[vdisk].tier),
        read_answer(after, after.vdisk_map()[vdisk].tier, mapped(after.shelf(0), after.unit(), after.vdisk_map()[vdisk], index), r),
    ensures
        r is Ok && r->Ok_0 is Some && r->Ok_0->Some_0@ == payload,
{
    assert(after.promised(before.vdisk_map()[vdisk].tier).contains((address_of(payload), payload)));
}

/// A write changes what no other index, and no other vdisk, leads to.
pub proof fn law_write_leaves_the_rest<D: Disk>(before: &Pool<D>, after: &Pool<D>, vdisk: u64, index: u64, value: Option<BlockHash>, other: u64, k: u64)
    requires
        before.vdisk_map().contains_key(vdisk),
        before.vdisk_map().contains_key(other),
        other != vdisk || k != index,
        after.vdisk_map() == before.vdisk_map().insert(vdisk, with_dirty(before.vdisk_map()[vdisk], index, value)),
        stock_grew(&before.stock(), &after.stock()),
        mapped(before.shelf(0), before.unit(), before.vdisk_map()[other], k) is Some,
    ensures
        mapped(after.shelf(0), after.unit(), after.vdisk_map()[other], k) == mapped(before.shelf(0), before.unit(), before.vdisk_map()[other], k),
{
    let (a, b) = (before.shelf(0), after.shelf(0));
    assert(crate::store::grew(tier_held(before.stock().members(), 0), a, tier_held(after.stock().members(), 0), b));
    let v = before.vdisk_map()[other];
    if !v.dirty.contains_key(k) {
        if let Some(root) = v.root {
            crate::map::lemma_tree_grows(a, b, before.unit(), root, tree_depth(before.unit(), v.size_bytes), k);
        }
    }
}

/// A trimmed index reads as never written.
pub proof fn law_trim_then_read<D: Disk>(before: &Pool<D>, after: &Pool<D>, vdisk: u64, index: u64, r: Result<Option<Vec<u8>>>)
    requires
        before.vdisk_map().contains_key(vdisk),
        after.vdisk_map() == before.vdisk_map().insert(vdisk, with_dirty(before.vdisk_map()[vdisk], index, None)),
        read_answer(after, after.vdisk_map()[vdisk].tier, mapped(after.shelf(0), after.unit(), after.vdisk_map()[vdisk], index), r),
    ensures
        r == Ok::<Option<Vec<u8>>, FsError>(None),
{
}

/// What creating a vdisk comes to.
pub open spec fn created<D: Disk>(before: &Pool<D>, after: &Pool<D>, id: u64, size_bytes: u64, tier: u8, r: Result<()>) -> bool {
    &&& after.inv()
    &&& history_kept(before, after)
    &&& after.same_rest(before)
    &&& stock_same(&before.stock(), &after.stock())
    &&& match create_fault(before, id, size_bytes, tier) {
        Some(e) => r == Err::<(), FsError>(e) && after.ring() == before.ring(),
        None => log_outcome(
            before.ring(),
            before.reliable(),
            WalEntry::CreateVdisk { id, size_bytes, tier },
            r,
        ),
    }
    &&& r is Err ==> after.vdisk_map() == before.vdisk_map() && after.ring() == before.ring()
    &&& r is Ok ==> after.vdisk_map() == before.vdisk_map().insert(
        id,
        VdiskView { size_bytes, tier, root: None, dirty: Map::empty() },
    ) && logged(
        before.ring(),
        before.stock().wal_area(),
        WalEntry::CreateVdisk { id, size_bytes, tier },
        after.ring(),
        after.stock().wal_area(),
    )
}

/// What trimming a block comes to.
pub open spec fn trimmed<D: Disk>(before: &Pool<D>, after: &Pool<D>, vdisk: u64, index: u64, r: Result<()>) -> bool {
    &&& after.inv()
    &&& history_kept(before, after)
    &&& after.same_rest(before)
    &&& stock_same(&before.stock(), &after.stock())
    &&& match index_fault(before, vdisk, index) {
        Some(e) => r == Err::<(), FsError>(e),
        None => log_outcome(before.ring(), before.reliable(), WalEntry::TrimBlock { vdisk, index }, r),
    }
    &&& r is Err ==> after.vdisk_map() == before.vdisk_map() && after.ring() == before.ring()
    &&& r is Ok ==> after.vdisk_map() == before.vdisk_map().insert(
        vdisk,
        with_dirty(before.vdisk_map()[vdisk], index, None),
    ) && logged(
        before.ring(),
        before.stock().wal_area(),
        WalEntry::TrimBlock { vdisk, index },
        after.ring(),
        after.stock().wal_area(),
    )
}

/// What deleting a vdisk comes to.
pub open spec fn deleted<D: Disk>(before: &Pool<D>, after: &Pool<D>, id: u64, r: Result<()>) -> bool {
    &&& after.inv()
    &&& history_kept(before, after)
    &&& stock_same(&before.stock(), &after.stock())
    &&& after.snapshot_map() == before.snapshot_map()
    &&& after.era_now() == before.era_now()
    &&& after.generation() == before.generation()
    &&& after.seat() == before.seat()
    &&& after.pending() == before.pending()
    &&& after.pin_map() == before.pin_map()
    &&& !before.vdisk_map().contains_key(id) ==> r == Err::<(), FsError>(FsError::UnknownVdisk(id))
    &&& before.vdisk_map().contains_key(id) && pinned(before.snapshot_map(), id) ==> r == Err::<(), FsError>(FsError::HasSnapshots(id))
    &&& before.vdisk_map().contains_key(id) && !pinned(before.snapshot_map(), id) ==> log_outcome(before.ring(), before.reliable(), WalEntry::DeleteVdisk { id }, r)
    &&& r is Err ==> after.vdisk_map() == before.vdisk_map() && after.lease_map() == before.lease_map()
        && after.ring() == before.ring()
    &&& r is Ok ==> after.vdisk_map() == before.vdisk_map().remove(id) && after.lease_map()
        == before.lease_map().remove(id) && logged(
        before.ring(),
        before.stock().wal_area(),
        WalEntry::DeleteVdisk { id },
        after.ring(),
        after.stock().wal_area(),
    )
}

/// What mapping an index to a block comes to.
pub open spec fn mapped_to<D: Disk>(before: &Pool<D>, after: &Pool<D>, vdisk: u64, index: u64, hash: BlockHash, r: Result<()>) -> bool {
    &&& after.inv()
    &&& history_kept(before, after)
    &&& after.same_rest(before)
    &&& stock_same(&before.stock(), &after.stock())
    &&& match index_fault(before, vdisk, index) {
        Some(e) => r == Err::<(), FsError>(e),
        None => if before.keeps(hash) && !before.holds(before.vdisk_map()[vdisk].tier).contains(hash) {
            r == Err::<(), FsError>(FsError::Corrupt("a replicated write names a block the store does not hold"))
        } else {
            log_outcome(before.ring(), before.reliable(), WalEntry::MapWrite { vdisk, index, hash }, r)
        },
    }
    &&& r is Err ==> after.vdisk_map() == before.vdisk_map() && after.ring() == before.ring()
    &&& r is Ok ==> after.vdisk_map() == before.vdisk_map().insert(
        vdisk,
        with_dirty(before.vdisk_map()[vdisk], index, Some(hash)),
    ) && logged(
        before.ring(),
        before.stock().wal_area(),
        WalEntry::MapWrite { vdisk, index, hash },
        after.ring(),
        after.stock().wal_area(),
    )
}

/// What storing a block under an address comes to.
pub open spec fn stored_under<D: Disk>(before: &Pool<D>, after: &Pool<D>, tier: u8, hash: BlockHash, payload: Seq<u8>, r: Result<()>) -> bool {
    &&& after.inv()
    &&& history_kept(before, after)
    &&& after.same_rest(before)
    &&& after.vdisk_map() == before.vdisk_map()
    &&& after.ring() == before.ring()
    &&& after.holds(tier) == if r is Ok { before.holds(tier).insert(hash) } else { before.holds(tier) }
    &&& after.stock().others_alone(&before.stock(), tier)
    &&& hash == address_of(payload) ==> {
        &&& stock_grew(&before.stock(), &after.stock())
        &&& before.stock().intact() ==> after.stock().intact()
        &&& r is Ok ==> after.stock().stored(&before.stock(), tier, hash, payload)
    }
    &&& put_verdict(before.stock().members(), before.unit(), before.reliable(), tier, hash, payload.len(), r)
}

/// What storing a block comes to.
pub open spec fn block_stored<D: Disk>(before: &Pool<D>, after: &Pool<D>, tier: u8, payload: Seq<u8>, r: Result<BlockHash>) -> bool {
    &&& after.inv()
    &&& history_kept(before, after)
    &&& after.same_rest(before)
    &&& after.vdisk_map() == before.vdisk_map()
    &&& after.ring() == before.ring()
    &&& after.stock().wal_area() == before.stock().wal_area()
    &&& stock_grew(&before.stock(), &after.stock())
    &&& before.stock().intact() ==> after.stock().intact()
    &&& after.stock().others_alone(&before.stock(), tier)
    &&& r is Err ==> stock_same(&before.stock(), &after.stock())
    &&& r matches Ok(h) ==> h == address_of(payload) && after.stock().stored(&before.stock(), tier, h, payload)
    &&& put_verdict(
        before.stock().members(),
        before.unit(),
        before.reliable(),
        tier,
        address_of(payload),
        payload.len(),
        match r { Ok(_) => Ok::<(), FsError>(()), Err(e) => Err(e) },
    )
}

/// What reading a block comes to.
pub open spec fn block_read<D: Disk>(pool: &Pool<D>, vdisk: u64, index: u64, r: Result<Option<Vec<u8>>>) -> bool {
    &&& index_fault(pool, vdisk, index) matches Some(e) ==> r == Err::<Option<Vec<u8>>, FsError>(e)
    &&& index_fault(pool, vdisk, index) is None ==> {
        let v = pool.vdisk_map()[vdisk];
        let found = mapped(pool.shelf(0), pool.unit(), v, index);
        &&& pool.reliable() ==> read_answer(pool, v.tier, found, r)
        &&& read_honest(pool, v.tier, found, r)
    }
}

/// What reading a block of a snapshot comes to.
pub open spec fn snapshot_read<D: Disk>(pool: &Pool<D>, vdisk: u64, snapshot: u64, index: u64, r: Result<Option<Vec<u8>>>) -> bool {
    &&& snapshot_fault(pool, vdisk, snapshot, index) matches Some(e) ==> r == Err::<Option<Vec<u8>>, FsError>(e)
    &&& snapshot_fault(pool, vdisk, snapshot, index) is None ==> {
        let snap = pool.snapshot_map()[SnapshotId { vdisk, snapshot }];
        let tier = pool.vdisk_map()[vdisk].tier;
        let found = tree_get(pool.shelf(0), pool.unit(), snap.root, tree_depth(pool.unit(), snap.size_bytes), index);
        &&& pool.reliable() ==> read_answer(pool, tier, found, r)
        &&& read_honest(pool, tier, found, r)
    }
}

} // verus!
