//! Reading a brick: blocks, the aux area, anchors, and what the brick says
//! of itself.

use super::{
    best_anchor, found_at, header_agrees, header_at, header_parses, kept_region, lemma_segments, lemma_span_positive, lemma_tiled_reaches, lemma_untouched, payload_at, placed, readable, record_present, seg_base, seg_end, seg_of, slot_lost, untouched, Brick, BrickStats, ByteSpace, Location,
};
use crate::codec::{lemma_array_view_injective, pad_zeros, padded, splice};
use crate::disk::{may_remain, out_of_bounds, read_vec, same_outside, Disk};
use crate::error::{FsError, Result};
use crate::format::{
    anchor_bytes, anchor_slot, record_span, span_of, Anchor, RecordHeader, RosterEntry, Superblock, ANCHOR_AREA_START, ROSTER_CAP, SECTOR_SIZE,
};
use crate::hash::{address_of, hash_block, BlockHash};
use crate::table::{ascending, entry_for, has_entry, SortKey};
use vstd::prelude::*;

verus! {

/// Why a read of `hash` at `loc` is refused, if it is.
pub open spec fn read_fault(b: Seq<u8>, block_size: u32, hash: BlockHash, loc: Location) -> Option<FsError> {
    if !header_parses(b, block_size, loc) {
        Some(FsError::Corrupt("record header no longer parses"))
    } else if !header_agrees(b, hash, loc) {
        Some(FsError::Corrupt("record header contradicts the index"))
    } else if address_of(payload_at(b, loc.offset as int, loc.length as int)) != hash {
        Some(FsError::Corrupt("payload fails its content address"))
    } else {
        None
    }
}

/// An address stands among the first `i` entries of a listing.
spec fn listed_before(s: Seq<(BlockHash, Location)>, i: int, h: BlockHash) -> bool {
    exists|j: int| 0 <= j < i && (#[trigger] s[j]).0 == h
}

/// The sum of the payload lengths of a listing.
pub open spec fn total_length(s: Seq<(BlockHash, Location)>) -> nat
    decreases s.len(),
{
    if s.len() == 0 {
        0
    } else {
        total_length(s.drop_last()) + s.last().1.length as nat
    }
}

/// A total as far as a word can hold it.
pub open spec fn capped(n: nat) -> u64 {
    if n <= u64::MAX {
        n as u64
    } else {
        u64::MAX
    }
}

/// Payload bytes one segment can hold in full blocks.
pub open spec fn segment_payload(sb: Superblock) -> int {
    (sb.segment_size - SECTOR_SIZE) / (span_of(sb.block_size) as int) * sb.block_size
}

/// The space a brick has, by its geometry and its free segments.
pub open spec fn space_of(sb: Superblock, reserve: u64, free: nat, payload: u64) -> ByteSpace {
    let usable = if sb.segment_count < reserve { 0 } else { sb.segment_count - reserve };
    let left = if free < reserve { 0 } else { free - reserve };
    ByteSpace {
        usable_bytes: (usable * segment_payload(sb)) as u64,
        free_bytes: (left * segment_payload(sb)) as u64,
        payload_bytes: payload,
    }
}

proof fn lemma_segment_payload(sb: Superblock, n: int, size: int)
    requires
        super::sound(sb, size),
        0 <= n <= sb.segment_count,
    ensures
        0 <= segment_payload(sb) <= sb.segment_size,
        0 <= n * segment_payload(sb) <= size,
{
    let span = span_of(sb.block_size) as int;
    let room = sb.segment_size - SECTOR_SIZE;
    lemma_span_positive(sb.block_size);
    let k = room / span;
    vstd::arithmetic::div_mod::lemma_fundamental_div_mod(room, span);
    assert(k >= 0 && k * sb.block_size <= room) by (nonlinear_arith)
        requires room == span * k + room % span, 0 <= room % span, sb.block_size <= span, room >= 0, span > 0, 0 <= room % span < span;
    let s = segment_payload(sb);
    assert(0 <= k * sb.block_size) by (nonlinear_arith) requires k >= 0, sb.block_size >= 0;
    assert(0 <= n * s <= sb.segment_count * sb.segment_size) by (nonlinear_arith)
        requires 0 <= n <= sb.segment_count, 0 <= s <= sb.segment_size;
}

impl<D: Disk> Brick<D> {
    /// The addresses held, in order, each with where it lives.
    pub closed spec fn catalogue(&self) -> Seq<(BlockHash, Location)> {
        self.index.listing()
    }

    /// Segments kept back for collection.
    pub open spec fn kept_back(&self) -> u64 {
        super::reserve_of(self.superblock().segment_count)
    }

    /// The catalogue lists what is held, each with where it lives, by
    /// ascending address.
    pub proof fn law_catalogue_lists_what_is_held(&self)
        requires
            self.inv(),
        ensures
            self.catalogue().len() == self.held().len(),
            forall|h: BlockHash| #[trigger] self.held().contains(h) <==> has_entry(self.catalogue(), h),
            forall|i: int| 0 <= i < self.catalogue().len() ==> self.held().contains((#[trigger] self.catalogue()[i]).0) && self.catalogue()[i].1
                == self.location(self.catalogue()[i].0),
            forall|i: int, j: int| 0 <= i < j < self.catalogue().len() ==> (#[trigger] self.catalogue()[i]).0.lt((#[trigger] self.catalogue()[j]).0),
    {
        self.index.lemma_listing();
    }

    /// A block's payload, verified against its address. `None` is "not
    /// held"; a held block whose bytes fail is corruption.
    pub fn get(&self, hash: &BlockHash) -> (r: Result<Option<Vec<u8>>>)
        requires
            self.inv(),
        ensures
            r matches Ok(Some(payload)) ==> address_of(payload@) == *hash,
            !self.held().contains(*hash) ==> r == Ok::<Option<Vec<u8>>, FsError>(None),
            self.held().contains(*hash) ==> match r {
                Ok(got) => got is Some && self.blocks().contains_key(*hash) && got->Some_0@
                    == self.blocks()[*hash],
                Err(_) => true,
            },
            self.held().contains(*hash) && self.reliable() ==> match read_fault(
                self.disk_bytes(),
                self.superblock().block_size,
                *hash,
                self.location(*hash),
            ) {
                Some(e) => r == Err::<Option<Vec<u8>>, FsError>(e) && !self.blocks().contains_key(*hash),
                None => r is Ok && self.blocks().contains_key(*hash),
            },
    {
        match self.index.get(hash) {
            Some(location) => match self.read_location(hash, &location) {
                Ok(payload) => Ok(Some(payload)),
                Err(e) => Err(e),
            },
            None => Ok(None),
        }
    }

    pub(super) fn read_location(&self, hash: &BlockHash, location: &Location) -> (r: Result<Vec<u8>>)
        requires
            self.inv(),
            placed(self.sb, *location),
        ensures
            r matches Ok(v) ==> readable(self.disk.bytes(), self.sb.block_size, *hash, *location) && v@
                == payload_at(self.disk.bytes(), location.offset as int, location.length as int)
                && v@.len() == location.length,
            self.disk.faultless() ==> match read_fault(
                self.disk.bytes(),
                self.sb.block_size,
                *hash,
                *location,
            ) {
                Some(e) => r == Err::<Vec<u8>, FsError>(e),
                None => r is Ok,
            },
    {
        let ghost b = self.disk.bytes();
        proof {
            lemma_segments(self.sb, b.len() as int, seg_of(self.sb, location.offset as int));
            lemma_span_positive(location.length);
        }
        let head = read_vec(&self.disk, location.offset, 64)?;
        assert(head@ =~= header_at(b, location.offset as int));
        match RecordHeader::decode(head.as_slice(), location.seq, self.sb.block_size) {
            Some(record) => {
                let same = record.hash.same(hash);
                proof {
                    if record.hash.0@ == hash.0@ {
                        lemma_array_view_injective(record.hash.0, hash.0);
                    }
                }
                if record.length != location.length || !same {
                    return Err(FsError::Corrupt("record header contradicts the index"));
                }
            },
            None => {
                return Err(FsError::Corrupt("record header no longer parses"));
            },
        }
        let payload = read_vec(&self.disk, location.offset + 64, location.length as usize)?;
        assert(payload@ =~= payload_at(b, location.offset as int, location.length as int));
        let actual = hash_block(payload.as_slice());
        if !actual.same(hash) {
            return Err(FsError::Corrupt("payload fails its content address"));
        }
        Ok(payload)
    }

    /// Whether the index knows an address.
    pub fn contains(&self, hash: &BlockHash) -> (r: bool)
        requires
            self.inv(),
        ensures
            r == self.held().contains(*hash),
    {
        self.index.contains(hash)
    }

    pub fn block_size(&self) -> (r: u32)
        ensures
            r == self.superblock().block_size,
    {
        self.sb.block_size
    }

    pub fn tier(&self) -> (r: u8)
        ensures
            r == self.superblock().tier,
    {
        self.sb.tier
    }

    pub fn wal_holder(&self) -> (r: bool)
        ensures
            r == self.superblock().wal_holder,
    {
        self.sb.wal_holder
    }

    /// This brick as a roster names it.
    pub fn roster_entry(&self) -> (r: RosterEntry)
        ensures
            r == (RosterEntry {
                brick_uuid: self.superblock().brick_uuid,
                tier: self.superblock().tier,
            }),
    {
        RosterEntry { brick_uuid: self.sb.brick_uuid, tier: self.sb.tier }
    }

    pub fn pool_uuid(&self) -> (r: [u8; 16])
        ensures
            r == self.superblock().pool_uuid,
    {
        self.sb.pool_uuid
    }

    /// Every held address, ascending.
    pub fn indexed_hashes(&self) -> (r: Vec<BlockHash>)
        requires
            self.inv(),
        ensures
            r@.no_duplicates(),
            ascending(r@),
            r@.len() == self.held().len(),
            forall|h: BlockHash| #[trigger] self.held().contains(h) <==> r@.contains(h),
    {
        let keys = self.index.keys();
        assert forall|h: BlockHash| #[trigger] self.held().contains(h) <==> keys@.contains(h) by {
            assert(self.held().contains(h) == self.index@.contains_key(h));
        }
        keys
    }

    pub fn free_segments(&self) -> (r: u64)
        requires
            self.inv(),
        ensures
            r == self.free_list().len(),
    {
        self.free.len() as u64
    }

    /// How the brick's space stands.
    pub fn stats(&self) -> (r: BrickStats)
        requires
            self.inv(),
        ensures
            r.blocks == self.held().len(),
            r.segments_total == self.superblock().segment_count,
            r.segments_free == self.free_list().len(),
            r.segments_live == self.superblock().segment_count - self.free_list().len(),
            r.payload_bytes == capped(total_length(self.catalogue())),
    {
        proof {
            self.index.lemma_listing();
            lemma_distinct_below(self.free@, self.sb.segment_count);
        }
        let blocks: usize = self.index.len();
        let mut payload_bytes: u64 = 0;
        let mut i: usize = 0;
        let ghost s = self.index.listing();
        assert(s.subrange(0, 0) =~= Seq::<(BlockHash, Location)>::empty());
        while i < blocks
            invariant
                self.index.wf(),
                s == self.index.listing(),
                i <= blocks == s.len(),
                payload_bytes == capped(total_length(s.subrange(0, i as int))),
            decreases blocks - i,
        {
            let (_, location) = self.index.entry_at(i);
            payload_bytes = payload_bytes.saturating_add(location.length as u64);
            proof {
                assert(s.subrange(0, i + 1).drop_last() =~= s.subrange(0, i as int));
            }
            i += 1;
        }
        assert(s.subrange(0, i as int) =~= s);
        BrickStats {
            blocks: blocks as u64,
            segments_total: self.sb.segment_count,
            segments_free: self.free.len() as u64,
            segments_live: self.sb.segment_count - self.free.len() as u64,
            payload_bytes,
        }
    }

    /// The same in bytes a caller can store.
    pub fn byte_space(&self) -> (r: ByteSpace)
        requires
            self.inv(),
        ensures
            r == space_of(
                self.superblock(),
                self.kept_back(),
                self.free_list().len(),
                capped(total_length(self.catalogue())),
            ),
            r.usable_bytes <= self.disk_bytes().len(),
            r.free_bytes <= r.usable_bytes,
    {
        let ghost size = self.disk.bytes().len() as int;
        proof {
            lemma_distinct_below(self.free@, self.sb.segment_count);
            lemma_span_positive(self.sb.block_size);
        }
        let stats = self.stats();
        let blocks_per_segment: u64 = (self.sb.segment_size - SECTOR_SIZE) / record_span(
            self.sb.block_size,
        );
        let usable_segments: u64 = self.sb.segment_count.saturating_sub(self.reserve);
        let free_segments: u64 = (self.free.len() as u64).saturating_sub(self.reserve);
        proof {
            lemma_segment_payload(self.sb, 1, size);
            lemma_segment_payload(self.sb, usable_segments as int, size);
            lemma_segment_payload(self.sb, free_segments as int, size);
        }
        let segment_payload: u64 = blocks_per_segment * self.sb.block_size as u64;
        assert(free_segments * segment_payload <= usable_segments * segment_payload) by (nonlinear_arith)
            requires free_segments <= usable_segments, segment_payload >= 0;
        ByteSpace {
            usable_bytes: usable_segments * segment_payload,
            free_bytes: free_segments * segment_payload,
            payload_bytes: stats.payload_bytes,
        }
    }

    /// Verify every held block against its address: how many pass, and
    /// which fail, ascending.
    pub fn scrub(&self) -> (r: Result<(u64, Vec<BlockHash>)>)
        requires
            self.inv(),
        ensures
            self.reliable() ==> r is Ok,
            r matches Ok((verified, corrupt)) ==> {
                &&& verified + corrupt@.len() == self.held().len()
                &&& corrupt@.no_duplicates()
                &&& ascending(corrupt@)
                &&& self.reliable() ==> forall|h: BlockHash| #[trigger] corrupt@.contains(h) <==> self.held().contains(h) && !self.blocks().contains_key(h)
                &&& self.reliable() ==> verified == self.blocks().dom().len()
                &&& forall|h: BlockHash| self.held().contains(h) && !#[trigger] self.blocks().contains_key(h) ==> corrupt@.contains(h)
            },
    {
        let total: usize = self.index.len();
        let mut verified: u64 = 0;
        let mut corrupt: Vec<BlockHash> = Vec::new();
        let mut i: usize = 0;
        let ghost s = self.index.listing();
        proof {
            self.index.lemma_listing();
        }
        while i < total
            invariant
                self.inv(),
                s == self.index.listing(),
                i <= total == s.len(),
                self.held() == self.index@.dom(),
                verified + corrupt@.len() == i,
                forall|k: int| 0 <= k < s.len() ==> self.index@.contains_pair((#[trigger] s[k]).0, s[k].1),
                forall|a: int, c: int|
                    0 <= a < c < s.len() ==> (#[trigger] s[a]).0.lt((#[trigger] s[c]).0) && s[a].0 != s[c].0,
                forall|k: int| 0 <= k < corrupt@.len() ==> listed_before(s, i as int, #[trigger] corrupt@[k]),
                forall|a: int, c: int| 0 <= a < c < corrupt@.len() ==> (#[trigger] corrupt@[a]).lt(#[trigger] corrupt@[c]) && corrupt@[a] != corrupt@[c],
                self.disk.faultless() ==> forall|k: int| 0 <= k < corrupt@.len() ==> !self.blocks().contains_key(#[trigger] corrupt@[k]),
                forall|j: int| 0 <= j < i && !self.blocks().contains_key((#[trigger] s[j]).0) ==> corrupt@.contains(s[j].0),
            decreases total - i,
        {
            let (hash, location) = self.index.entry_at(i);
            assert(self.index@.contains_key(hash));
            match self.read_location(&hash, &location) {
                Ok(_) => {
                    verified += 1;
                },
                Err(FsError::Corrupt(_)) => {
                    let ghost before = corrupt@;
                    corrupt.push(hash);
                    proof {
                        assert forall|a: int, c: int| 0 <= a < c < corrupt@.len() implies (#[trigger] corrupt@[a]).lt(#[trigger] corrupt@[c]) && corrupt@[a] != corrupt@[c] by {
                            if c == before.len() {
                                let j = choose|j: int| 0 <= j < i && #[trigger] s[j].0 == before[a];
                                assert(s[i as int].0 == hash);
                            }
                        }
                        assert forall|k: int| 0 <= k < corrupt@.len() implies listed_before(s, i + 1, #[trigger] corrupt@[k]) by {
                            if k == before.len() {
                                assert(s[i as int].0 == hash);
                            } else {
                                let j = choose|j: int| 0 <= j < i && #[trigger] s[j].0 == before[k];
                                assert(s[j].0 == corrupt@[k]);
                            }
                        }
                        assert forall|j: int| 0 <= j < i + 1 && !self.blocks().contains_key((#[trigger] s[j]).0) implies corrupt@.contains(s[j].0) by {
                            if j == i {
                                assert(corrupt@[before.len() as int] == hash);
                            } else {
                                let k = choose|k: int| 0 <= k < before.len() && before[k] == s[j].0;
                                assert(corrupt@[k] == s[j].0);
                            }
                        }
                    }
                },
                Err(other) => {
                    return Err(other);
                },
            }
            i += 1;
        }
        proof {
            assert forall|h: BlockHash| self.held().contains(h) && !#[trigger] self.blocks().contains_key(h) implies corrupt@.contains(h) by {
                assert(self.index@.contains_key(h));
                let j = choose|j: int| #[trigger] entry_for(s, h, j);
                assert(s[j].0 == h);
            }
            if self.disk.faultless() {
                self.lemma_model();
                let bad = corrupt@.to_set();
                let good = self.blocks().dom();
                corrupt@.unique_seq_to_set();
                assert forall|h: BlockHash| #[trigger] corrupt@.contains(h) implies self.held().contains(h) by {
                    let k = choose|k: int| 0 <= k < corrupt@.len() && corrupt@[k] == h;
                    assert(listed_before(s, i as int, corrupt@[k]));
                    let j = choose|j: int| 0 <= j < i && (#[trigger] s[j]).0 == h;
                    assert(self.index@.contains_key(s[j].0));
                }
                assert(good =~= self.held().difference(bad));
                assert(bad.subset_of(self.held()));
                vstd::set_lib::lemma_len_subset(bad, self.held());
                vstd::set_lib::lemma_len_difference(self.held(), bad);
                assert(self.held() =~= good.union(bad));
                vstd::set_lib::lemma_set_disjoint_lens(good, bad);
            }
        }
        Ok((verified, corrupt))
    }

    /// Where the WAL area lies: its start and its size.
    pub fn wal_bounds(&self) -> (r: (u64, u64))
        ensures
            r == (self.superblock().wal_start, self.superblock().wal_size),
    {
        (self.sb.wal_start, self.sb.wal_size)
    }

    fn check_aux(&self, offset: u64, len: usize) -> (r: Result<()>)
        ensures
            r is Ok <==> ANCHOR_AREA_START <= offset && offset + len <= self.sb.segment_area_start,
            r is Err ==> r == Err::<(), FsError>(
                out_of_bounds(offset, len as nat, self.sb.segment_area_start as nat),
            ),
    {
        match offset.checked_add(len as u64) {
            Some(end) if offset >= ANCHOR_AREA_START && end <= self.sb.segment_area_start => Ok(()),
            _ => Err(
                FsError::OutOfBounds {
                    offset,
                    len: len as u64,
                    disk_size: self.sb.segment_area_start,
                },
            ),
        }
    }

    /// Read from the anchor and WAL areas, and from nowhere else.
    pub fn aux_read(&self, offset: u64, buf: &mut [u8]) -> (r: Result<()>)
        requires
            self.inv(),
        ensures
            final(buf)@.len() == old(buf)@.len(),
            !aux_range(self.superblock(), offset, old(buf)@.len()) ==> r == Err::<(), FsError>(
                out_of_bounds(offset, old(buf)@.len(), self.superblock().segment_area_start as nat),
            ),
            r is Ok ==> final(buf)@ == self.aux().subrange(offset as int, offset + old(buf)@.len()),
            aux_range(self.superblock(), offset, old(buf)@.len()) && self.reliable() ==> r is Ok,
    {
        proof {
            lemma_segments(self.sb, self.disk.bytes().len() as int, 0);
        }
        let _len: usize = buf.len();
        self.check_aux(offset, buf.len())?;
        let r = self.disk.read_at(offset, buf);
        assert(r is Ok ==> buf@ =~= self.aux().subrange(offset as int, offset + old(buf)@.len()));
        r
    }

    /// Write to the anchor and WAL areas, and nowhere else.
    pub fn aux_write(&mut self, offset: u64, data: &[u8]) -> (r: Result<()>)
        requires
            old(self).inv(),
        ensures
            final(self).inv(),
            final(self).superblock() == old(self).superblock(),
            final(self).reliable() == old(self).reliable(),
            final(self).reserve_is_open() == old(self).reserve_is_open(),
            final(self).disk_bytes().len() == old(self).disk_bytes().len(),
            final(self).held() == old(self).held(),
            final(self).blocks() == old(self).blocks(),
            final(self).claims() == old(self).claims(),
            final(self).free_list() == old(self).free_list(),
            final(self).catalogue() == old(self).catalogue(),
            old(self).intact() ==> final(self).intact(),
            final(self).same_room(old(self)),
            final(self).kept_to_room(old(self)),
            forall|h: BlockHash| final(self).location(h) == old(self).location(h),
            !aux_range(old(self).superblock(), offset, data@.len()) ==> r == Err::<(), FsError>(
                out_of_bounds(offset, data@.len(), old(self).superblock().segment_area_start as nat),
            ) && final(self).disk_bytes() == old(self).disk_bytes(),
            r is Ok ==> final(self).aux() == splice(old(self).aux(), offset as int, data@),
            same_outside(old(self).aux(), final(self).aux(), offset as int, data@.len() as int),
            final(self).calm_but(old(self), offset as int, data@.len() as int),
            aux_range(old(self).superblock(), offset, data@.len()) && old(self).reliable() ==> r is Ok,
    {
        let ghost b = self.disk.bytes();
        proof {
            lemma_segments(self.sb, b.len() as int, 0);
        }
        self.check_aux(offset, data.len())?;
        let r = self.disk.write_at(offset, data);
        proof {
            let c = self.disk.bytes();
            assert(untouched(b, c, self.sb, self.index@, self.open)) by {
                assert(b.subrange(0, 2 * SECTOR_SIZE) =~= c.subrange(0, 2 * SECTOR_SIZE));
                assert forall|h: BlockHash, i: int| #[trigger] self.index@.contains_key(h) && kept_region(self.sb, self.open, seg_of(self.sb, self.index@[h].offset as int), i) implies #[trigger] c[i] == b[i] by {
                    lemma_segments(self.sb, b.len() as int, seg_of(self.sb, self.index@[h].offset as int));
                    if self.open is Some {
                        lemma_segments(self.sb, b.len() as int, self.open->Some_0.index as int);
                    }
                }
                if let Some(o) = self.open {
                    lemma_segments(self.sb, b.len() as int, o.index as int);
                }
            }
            lemma_untouched(b, c, self.sb, self.index@, self.free@, self.open);
            assert forall|x: int| !#[trigger] old(self).roams(x) implies !self.roams(x) && (self.risks(x) ==> old(self).risks(x)) && (0 <= x < c.len()
                ==> c[x] == b[x]) by {}
            assert(r is Ok ==> self.aux() =~= splice(old(self).aux(), offset as int, data@));
            assert forall|i: int| 0 <= i < old(self).aux().len() && !(offset <= i < offset + data@.len()) implies #[trigger] self.aux()[i] == old(self).aux()[i] by {
                assert(c[i] == b[i]);
            }
        }
        r
    }

    /// The valid anchor of the highest generation.
    pub fn read_best_anchor(&self) -> (r: Result<Option<Anchor>>)
        requires
            self.inv(),
        ensures
            self.reliable() ==> r is Ok,
            r matches Ok(best) ==> best_anchor(self.aux(), best),
            r matches Ok(Some(a)) ==> a.roster@.len() <= ROSTER_CAP,
    {
        proof {
            lemma_segments(self.sb, self.disk.bytes().len() as int, 0);
        }
        let mut first: Vec<u8> = vec![0u8; 4096];
        self.aux_read(ANCHOR_AREA_START, first.as_mut_slice())?;
        let mut second: Vec<u8> = vec![0u8; 4096];
        self.aux_read(ANCHOR_AREA_START + SECTOR_SIZE, second.as_mut_slice())?;
        assert(first@ == self.aux().subrange(ANCHOR_AREA_START as int, ANCHOR_AREA_START + SECTOR_SIZE));
        assert(second@ == self.aux().subrange(ANCHOR_AREA_START + SECTOR_SIZE, ANCHOR_AREA_START + 2 * SECTOR_SIZE));
        let best = match (Anchor::decode(first.as_slice()), Anchor::decode(second.as_slice())) {
            (Some(a), Some(b)) => if b.generation > a.generation {
                Some(b)
            } else {
                Some(a)
            },
            (Some(a), None) => Some(a),
            (None, b) => b,
        };
        Ok(best)
    }

    /// Write an anchor into the slot of its generation.
    pub fn write_anchor(&mut self, anchor: &Anchor) -> (r: Result<()>)
        requires
            old(self).inv(),
            anchor.roster@.len() <= ROSTER_CAP,
        ensures
            final(self).inv(),
            final(self).superblock() == old(self).superblock(),
            final(self).reliable() == old(self).reliable(),
            final(self).reserve_is_open() == old(self).reserve_is_open(),
            final(self).disk_bytes().len() == old(self).disk_bytes().len(),
            final(self).held() == old(self).held(),
            final(self).blocks() == old(self).blocks(),
            final(self).claims() == old(self).claims(),
            final(self).free_list() == old(self).free_list(),
            final(self).catalogue() == old(self).catalogue(),
            final(self).same_room(old(self)),
            final(self).kept_to_room(old(self)),
            old(self).intact() ==> final(self).intact(),
            forall|h: BlockHash| final(self).location(h) == old(self).location(h),
            r is Ok ==> final(self).aux() == splice(
                old(self).aux(),
                anchor_slot(anchor.generation) as int,
                padded(anchor_bytes(*anchor), SECTOR_SIZE as nat),
            ),
            same_outside(
                old(self).aux(),
                final(self).aux(),
                anchor_slot(anchor.generation) as int,
                SECTOR_SIZE as int,
            ),
            old(self).reliable() ==> r is Ok,
    {
        proof {
            lemma_segments(self.sb, self.disk.bytes().len() as int, 0);
        }
        let mut sector = anchor.encode();
        pad_zeros(&mut sector, 4096);
        self.aux_write(Anchor::slot_offset(anchor.generation), sector.as_slice())
    }

    /// The durability barrier.
    pub fn flush(&mut self) -> (r: Result<()>)
        requires
            old(self).inv(),
        ensures
            final(self).same_blocks(old(self)),
            final(self).disk_bytes() == old(self).disk_bytes(),
            final(self).free_list() == old(self).free_list(),
            final(self).catalogue() == old(self).catalogue(),
            forall|h: BlockHash| final(self).location(h) == old(self).location(h),
            final(self).kept_to_room(old(self)),
            r is Ok ==> final(self).durable() && final(self).at_rest(),
            final(self).same_room(old(self)),
            old(self).reliable() ==> r is Ok,
    {
        self.disk.flush()
    }

    /// Let puts use the segments kept back for collection.
    pub fn open_reserve(&mut self)
        requires
            old(self).inv(),
        ensures
            final(self).inv(),
            final(self).superblock() == old(self).superblock(),
            final(self).reliable() == old(self).reliable(),
            final(self).disk_bytes() == old(self).disk_bytes(),
            final(self).aux() == old(self).aux(),
            final(self).settled() == old(self).settled(),
            final(self).same_disk(old(self)),
            final(self).held() == old(self).held(),
            final(self).blocks() == old(self).blocks(),
            final(self).claims() == old(self).claims(),
            final(self).free_list() == old(self).free_list(),
            final(self).catalogue() == old(self).catalogue(),
            old(self).intact() ==> final(self).intact(),
            final(self).same_room(old(self)),
            final(self).kept_to_room(old(self)),
            final(self).reserve_is_open(),
    {
        self.reserve_open = true;
    }

    /// Keep the reserve back again.
    pub fn close_reserve(&mut self)
        requires
            old(self).inv(),
        ensures
            final(self).inv(),
            final(self).superblock() == old(self).superblock(),
            final(self).reliable() == old(self).reliable(),
            final(self).disk_bytes() == old(self).disk_bytes(),
            final(self).aux() == old(self).aux(),
            final(self).settled() == old(self).settled(),
            final(self).same_disk(old(self)),
            final(self).held() == old(self).held(),
            final(self).blocks() == old(self).blocks(),
            final(self).claims() == old(self).claims(),
            final(self).free_list() == old(self).free_list(),
            final(self).catalogue() == old(self).catalogue(),
            old(self).intact() ==> final(self).intact(),
            final(self).same_room(old(self)),
            final(self).kept_to_room(old(self)),
            !final(self).reserve_is_open(),
    {
        self.reserve_open = false;
    }

    pub fn into_disk(self) -> (disk: D)
        requires
            self.inv(),
        ensures
            disk.valid(),
            disk.bytes() == self.disk_bytes(),
            disk.durable() == self.settled(),
            forall|i: int| #[trigger] disk.at_risk(i) == self.risks(i),
            disk.faultless() == self.reliable(),
    {
        self.disk
    }

    /// Where nothing is at risk, nothing that is held is.
    pub proof fn lemma_durable_rests(&self)
        requires
            self.durable(),
        ensures
            self.at_rest(),
    {
    }

    /// A reopen of an intact brick's disk finds the same superblock and
    /// every address held.
    pub proof fn law_reopen_finds_what_was_held(&self, h: BlockHash)
        requires
            self.inv(),
            self.intact(),
            self.held().contains(h),
        ensures
            super::best_superblock(self.disk_bytes(), self.superblock()),
            record_present(self.disk_bytes(), self.superblock(), h),
    {
        assert(self.index@.contains_key(h));
        let loc = self.index@[h];
        let seg = seg_of(self.sb, loc.offset as int);
        let start = seg_base(self.sb, seg) + SECTOR_SIZE;
        if self.open is Some && self.open->Some_0.index == seg {
            lemma_tiled_reaches(
                self.disk.bytes(),
                self.sb.block_size,
                loc.seq,
                seg_end(self.sb, seg),
                start,
                loc.offset as int,
            );
        }
        assert(found_at(self.disk.bytes(), self.sb, h, seg, loc.offset as int));
    }

    /// Whatever keeps to its room, or to its shape, keeps both superblock
    /// slots.
    pub proof fn law_both_slots_stay(before: &Self, after: &Self)
        requires
            before.inv(),
            before.has_twin(),
            after.superblock() == before.superblock(),
            after.kept_to_room(before) || after.same_shape(before),
        ensures
            after.has_twin(),
    {
        let (b, c) = (before.disk_bytes(), after.disk_bytes());
        lemma_segments(before.sb, b.len() as int, 0);
        assert forall|i: int| 0 <= i < 2 * SECTOR_SIZE implies #[trigger] c[i] == b[i] by {
            if after.kept_to_room(before) {
                before.lemma_ground_is_no_room();
                assert(before.rests(i));
                assert(!before.roams(i));
            } else {
                assert(after.aux()[i] == before.aux()[i]);
            }
        }
        assert(super::slot_sector(c, 0) =~= super::slot_sector(b, 0));
        assert(super::slot_sector(c, 1) =~= super::slot_sector(b, 1));
    }

    /// One superblock slot is enough: a disk that lost the other opens as
    /// the same brick, and finds every address held.
    pub proof fn law_one_slot_is_enough(&self, image: Seq<u8>, slot: int)
        requires
            self.inv(),
            self.intact(),
            self.has_twin(),
            slot_lost(self.disk_bytes(), image, slot),
        ensures
            super::best_superblock(image, self.superblock()),
            forall|h: BlockHash| #[trigger] self.held().contains(h) ==> record_present(image, self.superblock(), h),
    {
        let b = self.disk_bytes();
        lemma_segments(self.sb, b.len() as int, 0);
        assert(super::slot_sector(image, 1 - slot) =~= super::slot_sector(b, 1 - slot));
        assert forall|h: BlockHash| #[trigger] self.held().contains(h) implies record_present(image, self.superblock(), h) by {
            self.law_reopen_finds_what_was_held(h);
            let (seg, p) = choose|seg: int, p: int| found_at(b, self.sb, h, seg, p);
            lemma_segments(self.sb, b.len() as int, seg);
            super::lemma_found_frame(b, image, self.sb, h, seg, p);
        }
    }

    /// A crash keeps what was acknowledged: whatever became of the writes
    /// since, a disk that agrees with this brick's on every byte that what
    /// it held rests on opens with the same superblock, and finds every
    /// address held.
    pub proof fn law_acknowledged_blocks_survive_a_crash(&self, image: Seq<u8>, h: BlockHash)
        requires
            self.inv(),
            self.intact(),
            self.held().contains(h),
            self.spared_by(image),
        ensures
            super::best_superblock(image, self.superblock()),
            record_present(image, self.superblock(), h),
    {
        let b = self.disk.bytes();
        let sb = self.sb;
        assert(self.index@.contains_key(h));
        let loc = self.index@[h];
        let seg = seg_of(sb, loc.offset as int);
        let start = seg_base(sb, seg) + SECTOR_SIZE;
        let one = Map::<BlockHash, Location>::empty().insert(h, loc);
        let here = self.open is Some && self.open->Some_0.index == seg;
        let open = if here {
            self.open
        } else {
            None
        };
        lemma_segments(sb, b.len() as int, seg);
        assert(b.subrange(0, 2 * SECTOR_SIZE) =~= image.subrange(0, 2 * SECTOR_SIZE)) by {
            assert forall|i: int| 0 <= i < 2 * SECTOR_SIZE implies b.subrange(0, 2 * SECTOR_SIZE)[i] == #[trigger] image.subrange(0, 2 * SECTOR_SIZE)[i] by {
                assert(self.rests(i));
            }
        }
        assert forall|i: int| kept_region(sb, open, seg, i) implies #[trigger] image[i] == b[i] by {
            assert(kept_region(sb, self.open, seg, i));
            assert(self.rests(i));
        }
        assert(untouched(b, image, sb, one, open));
        assert(super::disk_matches(b, sb, one, open));
        lemma_untouched(b, image, sb, one, self.free@, open);
        assert(one.contains_key(h));
        assert(super::entry_intact(image, sb, open, h, loc));
        if here {
            lemma_tiled_reaches(image, sb.block_size, loc.seq, seg_end(sb, seg), start, loc.offset as int);
        }
        assert(found_at(image, sb, h, seg, loc.offset as int));
    }

    /// Two steps that keep to their room are one that does.
    pub proof fn lemma_kept_twice(before: &Self, mid: &Self, after: &Self)
        requires
            mid.kept_to_room(before),
            after.kept_to_room(mid),
        ensures
            after.kept_to_room(before),
    {
        assert forall|x: int| !#[trigger] before.roams(x) implies {
            &&& !after.roams(x)
            &&& after.risks(x) ==> before.risks(x)
            &&& 0 <= x < after.disk_bytes().len() ==> after.disk_bytes()[x] == before.disk_bytes()[x]
        } by {
            assert(!mid.roams(x));
        }
    }

    /// What was guarded stays guarded through whatever keeps to its room: any
    /// number of puts, of ring and anchor writes, and of flushes.
    pub proof fn law_what_is_guarded_stays_guarded(base: &Self, before: &Self, after: &Self)
        requires
            before.guards(base),
            base.inv(),
            after.superblock() == before.superblock(),
            after.kept_to_room(before),
        ensures
            after.guards(base),
    {
        base.lemma_rests_inside();
        assert forall|i: int| #[trigger] base.rests(i) implies !after.roams(i) && !after.risks(i) && after.disk_bytes()[i]
            == base.disk_bytes()[i] by {
            assert(!before.roams(i));
        }
    }

    /// Whatever was secured before a step that keeps to its room is secured
    /// after it.
    pub proof fn law_what_is_secured_stays_secured(before: &Self, after: &Self, addresses: Set<BlockHash>)
        requires
            before.secures(addresses),
            after.superblock() == before.superblock(),
            after.kept_to_room(before),
        ensures
            after.secures(addresses),
    {
        let base = choose|base: Self| #[trigger] before.guards(&base) && base.inv() && base.intact() && addresses.subset_of(base.held());
        Self::law_what_is_guarded_stays_guarded(&base, before, after);
    }

    /// Whoever secures some addresses secures any of them.
    pub proof fn law_less_is_secured_too(&self, addresses: Set<BlockHash>, fewer: Set<BlockHash>)
        requires
            self.secures(addresses),
            fewer.subset_of(addresses),
        ensures
            self.secures(fewer),
    {
        let base = choose|base: Self| #[trigger] self.guards(&base) && base.inv() && base.intact() && addresses.subset_of(base.held());
        assert(fewer.subset_of(base.held()));
    }

    /// An intact brick at rest, as a flush leaves it, secures everything it
    /// holds.
    pub proof fn law_a_flush_secures_what_is_held(&self)
        requires
            self.inv(),
            self.intact(),
            self.at_rest(),
        ensures
            self.guards(self),
            self.secures(self.held()),
    {
        self.lemma_ground_is_no_room();
        assert(self.guards(self));
    }

    /// The durability contract: a secured block is found again by an open
    /// after any power loss, whatever that leaves of the bytes at risk.
    pub proof fn law_a_secured_block_survives_a_crash(&self, addresses: Set<BlockHash>, image: Seq<u8>, h: BlockHash)
        requires
            self.secures(addresses),
            addresses.contains(h),
            self.may_leave(image),
        ensures
            super::best_superblock(image, self.superblock()),
            record_present(image, self.superblock(), h),
    {
        let base = choose|base: Self| #[trigger] self.guards(&base) && base.inv() && base.intact() && addresses.subset_of(base.held());
        base.lemma_rests_inside();
        assert forall|i: int| #[trigger] base.rests(i) implies image[i] == base.disk_bytes()[i] by {
            assert(!self.risks(i));
        }
        base.law_acknowledged_blocks_survive_a_crash(image, h);
    }

    /// What `into_disk` hands out is left by a crash as this brick's disk is:
    /// an image that may remain of the one may be left of the other.
    pub proof fn law_the_disk_keeps_its_risks(&self, disk: &D, image: Seq<u8>)
        requires
            disk.bytes() == self.disk_bytes(),
            forall|i: int| #[trigger] disk.at_risk(i) == self.risks(i),
            may_remain(disk, image),
        ensures
            self.may_leave(image),
    {
        assert forall|i: int| 0 <= i < image.len() && !#[trigger] self.risks(i) implies image[i] == self.disk_bytes()[i] by {
            assert(!disk.at_risk(i));
        }
    }

    /// After any power loss, the disk of a brick that secures something says
    /// which brick it is.
    pub proof fn law_a_secured_brick_stays_known(&self, addresses: Set<BlockHash>, image: Seq<u8>)
        requires
            self.secures(addresses),
            self.may_leave(image),
        ensures
            super::best_superblock(image, self.superblock()),
    {
        let base = choose|base: Self| #[trigger] self.guards(&base) && base.inv() && base.intact() && addresses.subset_of(base.held());
        base.lemma_rests_inside();
        let b = base.disk.bytes();
        let none = Map::<BlockHash, Location>::empty();
        assert forall|i: int| #[trigger] base.rests(i) implies image[i] == b[i] by {
            assert(!self.risks(i));
        }
        lemma_segments(base.sb, b.len() as int, 0);
        assert(b.subrange(0, 2 * SECTOR_SIZE) =~= image.subrange(0, 2 * SECTOR_SIZE)) by {
            assert forall|i: int| 0 <= i < 2 * SECTOR_SIZE implies b.subrange(0, 2 * SECTOR_SIZE)[i] == #[trigger] image.subrange(0, 2 * SECTOR_SIZE)[i] by {
                assert(base.rests(i));
            }
        }
        assert(untouched(b, image, base.sb, none, None));
        assert(super::disk_matches(b, base.sb, none, None));
        lemma_untouched(b, image, base.sb, none, base.free@, None);
    }

    /// Put, flush, any number of further puts and ring or anchor writes,
    /// then a crash and an open: every block held at the flush is held
    /// again, and reads back under its address. What was not flushed may be
    /// there or not, and is never wrong.
    pub proof fn law_a_flushed_block_survives_a_crash(flushed: &Self, later: &Self, reopened: &Self, h: BlockHash)
        requires
            flushed.inv(),
            flushed.intact(),
            flushed.durable(),
            flushed.held().contains(h),
            later.superblock() == flushed.superblock(),
            later.kept_to_room(flushed),
            reopened.came_back(later),
        ensures
            reopened.superblock() == flushed.superblock(),
            reopened.held().contains(h),
            reopened.blocks().contains_key(h),
            forall|k: BlockHash| #[trigger] reopened.blocks().contains_key(k) ==> address_of(reopened.blocks()[k]) == k,
    {
        let image = reopened.disk_bytes();
        flushed.law_a_flush_secures_what_is_held();
        Self::law_what_is_secured_stays_secured(flushed, later, flushed.held());
        later.law_a_secured_block_survives_a_crash(flushed.held(), image, h);
        super::lemma_best_superblock_unique(image);
        reopened.law_intact_means_readable(h);
        reopened.lemma_model();
    }

    /// Where its address stands for one payload alone, such a block reads
    /// back as the bytes that were put.
    pub proof fn law_a_flushed_block_reads_back_after_a_crash(flushed: &Self, later: &Self, reopened: &Self, h: BlockHash)
        requires
            flushed.inv(),
            flushed.intact(),
            flushed.durable(),
            flushed.held().contains(h),
            later.superblock() == flushed.superblock(),
            later.kept_to_room(flushed),
            reopened.came_back(later),
            forall|p: Seq<u8>, q: Seq<u8>| #[trigger] address_of(p) == h && #[trigger] address_of(q) == h ==> p == q,
        ensures
            flushed.blocks().contains_key(h),
            reopened.blocks().contains_key(h),
            reopened.blocks()[h] == flushed.blocks()[h],
    {
        Self::law_a_flushed_block_survives_a_crash(flushed, later, reopened, h);
        flushed.law_intact_means_readable(h);
        assert(address_of(flushed.blocks()[h]) == h && address_of(reopened.blocks()[h]) == h);
    }

    /// A crash right after a flush leaves everything: the same bytes, and at
    /// least the same addresses.
    pub proof fn law_a_crash_after_a_flush_changes_nothing(flushed: &Self, reopened: &Self)
        requires
            flushed.inv(),
            flushed.intact(),
            flushed.durable(),
            reopened.came_back(flushed),
        ensures
            reopened.disk_bytes() == flushed.disk_bytes(),
            reopened.superblock() == flushed.superblock(),
            reopened.aux() == flushed.aux(),
            flushed.held().subset_of(reopened.held()),
            reopened.held() == reopened.blocks().dom(),
    {
        assert forall|i: int| 0 <= i < flushed.disk_bytes().len() implies reopened.disk_bytes()[i] == flushed.disk_bytes()[i] by {
            assert(!flushed.risks(i));
        }
        assert(reopened.disk_bytes() =~= flushed.disk_bytes());
        super::lemma_best_superblock_unique(flushed.disk_bytes());
        flushed.lemma_model();
        reopened.lemma_model();
        assert(super::best_superblock(flushed.disk_bytes(), flushed.superblock()));
        assert forall|h: BlockHash| flushed.held().contains(h) implies reopened.held().contains(h) by {
            flushed.law_reopen_finds_what_was_held(h);
        }
        assert forall|h: BlockHash| reopened.held().contains(h) implies reopened.blocks().contains_key(h) by {
            reopened.law_intact_means_readable(h);
        }
        assert(reopened.held() =~= reopened.blocks().dom());
    }

    /// Every block an intact brick holds reads back under its address.
    pub proof fn law_intact_means_readable(&self, h: BlockHash)
        requires
            self.inv(),
            self.intact(),
            self.held().contains(h),
        ensures
            self.blocks().contains_key(h),
            address_of(self.blocks()[h]) == h,
    {
        assert(self.index@.contains_key(h));
    }
}

impl<D: Disk> Brick<D> {
    /// What is held rests on bytes of the disk.
    pub(super) proof fn lemma_rests_inside(&self)
        requires
            self.inv(),
        ensures
            forall|i: int| #[trigger] self.rests(i) ==> 0 <= i < self.disk_bytes().len(),
    {
        let size = self.disk.bytes().len() as int;
        assert forall|i: int| #[trigger] self.rests(i) implies 0 <= i < size by {
            if !(0 <= i < 2 * SECTOR_SIZE) {
                let h = choose|h: BlockHash| #[trigger] self.index@.contains_key(h) && kept_region(
                    self.sb,
                    self.open,
                    seg_of(self.sb, self.index@[h].offset as int),
                    i,
                );
                lemma_segments(self.sb, size, seg_of(self.sb, self.index@[h].offset as int));
            } else {
                lemma_segments(self.sb, size, 0);
            }
        }
    }
}

impl<D: Disk> Brick<D> {
    /// What is held rests on no byte that later writes may touch.
    pub(super) proof fn lemma_ground_is_no_room(&self)
        requires
            self.inv(),
        ensures
            forall|i: int| #[trigger] self.rests(i) ==> !self.roams(i),
    {
        let sb = self.sb;
        let size = self.disk.bytes().len() as int;
        assert forall|i: int| #[trigger] self.rests(i) implies !self.roams(i) by {
            lemma_segments(sb, size, 0);
            if self.open is Some {
                lemma_segments(sb, size, self.open->Some_0.index as int);
            }
            if 0 <= i < 2 * SECTOR_SIZE {
                assert forall|seg: u64| #[trigger] self.free@.contains(seg) implies !(seg_base(sb, seg as int) <= i) by {
                    lemma_segments(sb, size, seg as int);
                }
            } else {
                let h = choose|h: BlockHash| #[trigger] self.index@.contains_key(h) && kept_region(
                    sb,
                    self.open,
                    seg_of(sb, self.index@[h].offset as int),
                    i,
                );
                let mine = seg_of(sb, self.index@[h].offset as int);
                lemma_segments(sb, size, mine);
                assert forall|seg: u64| #[trigger] self.free@.contains(seg) implies !(seg_base(sb, seg as int) <= i < seg_end(sb, seg as int)) by {
                    assert(seg != mine as u64);
                    lemma_segments(sb, size, seg as int);
                    if seg < mine {
                        super::lemma_segments_apart(sb, seg as int, mine);
                    } else {
                        super::lemma_segments_apart(sb, mine, seg as int);
                    }
                }
                if let Some(o) = self.open {
                    if o.index < mine {
                        super::lemma_segments_apart(sb, o.index as int, mine);
                    } else if mine < o.index {
                        super::lemma_segments_apart(sb, mine, o.index as int);
                    }
                }
            }
        }
    }
}

/// A range lies in the anchor and WAL areas.
pub open spec fn aux_range(sb: Superblock, offset: u64, len: nat) -> bool {
    ANCHOR_AREA_START <= offset && offset + len <= sb.segment_area_start
}

/// Distinct numbers below `n` are at most `n` many.
pub proof fn lemma_distinct_below(s: Seq<u64>, n: u64)
    requires
        s.no_duplicates(),
        forall|i: int| 0 <= i < s.len() ==> #[trigger] s[i] < n,
    ensures
        s.len() <= n,
{
    s.unique_seq_to_set();
    let ints = s.to_set().map(|x: u64| x as int);
    vstd::set_lib::lemma_int_range(0, n as int);
    let all = vstd::set_lib::set_int_range(0, n as int);
    vstd::set_lib::lemma_map_size(s.to_set(), ints, |x: u64| x as int);
    assert(ints.subset_of(all)) by {
        assert forall|x: int| ints.contains(x) implies all.contains(x) by {
            let y = choose|y: u64| s.to_set().contains(y) && y as int == x;
            let i = choose|i: int| 0 <= i < s.len() && s[i] == y;
            assert(s[i] < n);
        }
    }
    vstd::set_lib::lemma_len_subset(ints, all);
}

} // verus!
