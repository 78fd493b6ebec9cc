//! Writing a brick: puts, and the collection that makes room for more.

use super::{
    block_map, disk_matches, entry_intact, good_at, header_at, index_placed, kept_region, lemma_close_segment, lemma_seg_of, lemma_segments, lemma_segments_apart, lemma_span_monotone, lemma_tiled_step, lemma_untouched, lowest_at, open_intact, open_placed, payload_at, placed, readable, seg_base, seg_end, seg_of, seg_sector, untouched, Brick, Location, OpenSegment,
};
use crate::codec::{pad_zeros, push_bytes, zeros};
use crate::disk::{same_outside, Disk};
use crate::error::{FsError, Result};
use crate::format::{
    law_record_header_round_trip, law_segment_header_round_trip, record_bytes, record_span, segment_bytes, span_of, RecordHeader, SegmentHeader, Superblock, SECTOR_SIZE,
};
use crate::hash::{address_of, hash_block, BlockHash};
use vstd::prelude::*;

verus! {

/// The refusal of a payload no brick of this block size can take.
pub open spec fn payload_fault(len: nat, block_size: u32) -> Option<FsError> {
    if len == 0 {
        Some(FsError::EmptyPayload)
    } else if len > block_size {
        Some(FsError::PayloadTooLarge { len: len as usize, block_size })
    } else {
        None
    }
}

/// `loc` is where `payload` was just appended under `hash`.
pub(super) open(super) spec fn appended(
    b: Seq<u8>,
    sb: Superblock,
    o: OpenSegment,
    hash: BlockHash,
    payload: Seq<u8>,
    loc: Location,
) -> bool {
    &&& seg_of(sb, loc.offset as int) == o.index
    &&& placed(sb, loc)
    &&& loc.offset + span_of(loc.length) == o.cursor
    &&& loc.length == payload.len()
    &&& payload_at(b, loc.offset as int, loc.length as int) == payload
    &&& hash == address_of(payload) ==> readable(b, sb.block_size, hash, loc)
}

/// What entering a freshly appended record into the index does.
pub(super) proof fn lemma_insert_entry(
    b: Seq<u8>,
    sb: Superblock,
    index: Map<BlockHash, Location>,
    free: Seq<u64>,
    o: OpenSegment,
    h: BlockHash,
    payload: Seq<u8>,
    loc: Location,
)
    requires
        index_placed(sb, index, free, Some(o)),
        open_placed(sb, free, o),
        appended(b, sb, o, h, payload, loc),
    ensures
        index_placed(sb, index.insert(h, loc), free, Some(o)),
        h == address_of(payload) ==> block_map(b, sb, index.insert(h, loc)) == block_map(
            b,
            sb,
            index,
        ).insert(h, payload),
        disk_matches(b, sb, index, Some(o)) && entry_intact(b, sb, Some(o), h, loc) ==> disk_matches(
            b,
            sb,
            index.insert(h, loc),
            Some(o),
        ),
{
    let after = index.insert(h, loc);
    assert forall|k: BlockHash| #[trigger] after.contains_key(k) implies placed(sb, after[k]) && !free.contains(
        seg_of(sb, after[k].offset as int) as u64,
    ) by {
        if k != h {
            assert(index.contains_key(k));
        }
    }
    assert forall|k: BlockHash| #[trigger] after.contains_key(k) && seg_of(sb, after[k].offset as int)
        == o.index implies after[k].offset + span_of(after[k].length) <= o.cursor by {
        if k != h {
            assert(index.contains_key(k));
        }
    }
    if h == address_of(payload) {
        assert(block_map(b, sb, after) =~= block_map(b, sb, index).insert(h, payload));
    }
    if disk_matches(b, sb, index, Some(o)) && entry_intact(b, sb, Some(o), h, loc) {
        assert forall|k: BlockHash| #[trigger] after.contains_key(k) implies entry_intact(
            b,
            sb,
            Some(o),
            k,
            after[k],
        ) by {
            if k != h {
                assert(index.contains_key(k));
            }
        }
    }
}

impl<D: Disk> Brick<D> {
    /// Everything but the open segment, the free list and the bytes no
    /// entry rests on is as it was.
    pub(super) open(super) spec fn moved_on(&self, before: &Self) -> bool {
        &&& self.inv()
        &&& self.sb == before.sb
        &&& self.index == before.index
        &&& self.claims == before.claims
        &&& self.reserve == before.reserve
        &&& self.reserve_open == before.reserve_open
        &&& self.disk.faultless() == before.disk.faultless()
        &&& self.disk.bytes().len() == before.disk.bytes().len()
        &&& self.aux() == before.aux()
        &&& self.calm(before)
        &&& self.blocks() == before.blocks()
        &&& before.intact() ==> self.intact()
        &&& self.kept_to_room(before)
        &&& forall|x: u64| #[trigger] self.free@.contains(x) ==> before.free@.contains(x)
        &&& self.open matches Some(o) ==> (before.open is Some && before.open->Some_0.index == o.index)
            || before.free@.contains(o.index)
    }

    /// The segment that takes the next `span` bytes: the open one while it
    /// has room, else the lowest free one beyond the reserve.
    fn writable_segment(&mut self, span: u64) -> (r: Result<OpenSegment>)
        requires
            old(self).inv(),
            SECTOR_SIZE + span <= old(self).sb.segment_size,
        ensures
            final(self).moved_on(old(self)),
            r matches Ok(o) ==> final(self).open == Some(o) && o.cursor + span <= seg_end(
                final(self).sb,
                o.index as int,
            ),
            ({
                let fits = old(self).open matches Some(o) && o.cursor + span <= seg_end(
                    old(self).sb,
                    o.index as int,
                );
                &&& fits ==> *final(self) == *old(self)
                &&& !fits ==> (r matches Ok(o) ==> final(self).opened_lowest(old(self), SECTOR_SIZE as int))
                &&& r == Err::<OpenSegment, FsError>(FsError::Full) ==> final(self).disk == old(self).disk
                &&& r == Err::<OpenSegment, FsError>(FsError::Full) ==> !fits && !old(self).may_open() && final(self).free@ == old(self).free@
                    && final(self).max_seq == old(self).max_seq
                &&& !fits && r is Err ==> final(self).open is None && ((final(self).free@ == old(self).free@ && final(self).max_seq == old(self).max_seq)
                    || (!old(self).disk.faultless() && exists|at: int| #[trigger] lowest_at(old(self).free@, at) && final(self).free@ == old(self).free@.remove(at)))
                &&& old(self).disk.faultless() && (fits || old(self).may_open()) ==> r is Ok
                &&& !fits && !old(self).may_open() ==> r == Err::<OpenSegment, FsError>(FsError::Full)
            }),
    {
        let ghost b = self.disk.bytes();
        let ghost sb = self.sb;
        let ghost size = b.len() as int;
        if let Some(open) = self.open {
            proof {
                lemma_segments(sb, size, open.index as int);
            }
            let end: u64 = self.sb.segment_offset(open.index) + self.sb.segment_size;
            if span <= end - open.cursor {
                return Ok(open);
            }
            self.open = None;
            proof {
                if disk_matches(b, sb, self.index@, Some(open)) {
                    lemma_close_segment(b, sb, self.index@, Some(open));
                }
            }
        }
        let floor: u64 = if self.reserve_open {
            0
        } else {
            self.reserve
        };
        if self.free.len() as u64 <= floor || self.max_seq == u64::MAX {
            return Err(FsError::Full);
        }
        let mut at: usize = 0;
        let mut i: usize = 1;
        while i < self.free.len()
            invariant
                i <= self.free@.len(),
                at < i,
                forall|k: int| 0 <= k < i ==> self.free@[at as int] <= #[trigger] self.free@[k],
            decreases self.free@.len() - i,
        {
            if self.free[i] < self.free[at] {
                at = i;
            }
            i += 1;
        }
        let ghost free_before = self.free@;
        assert(lowest_at(free_before, at as int));
        let index: u64 = self.free.remove(at);
        proof {
            lemma_remove_free(free_before, at as int);
            lemma_segments(sb, size, index as int);
            assert(free_before.contains(index));
            assert(self.index@ == old(self).index@);
            assert forall|h: BlockHash| #[trigger] self.index@.contains_key(h) implies !self.free@.contains(
                seg_of(sb, self.index@[h].offset as int) as u64,
            ) by {
                assert(!free_before.contains(seg_of(sb, self.index@[h].offset as int) as u64));
            }
        }
        self.max_seq = self.max_seq + 1;
        let header = SegmentHeader {
            seq: self.max_seq,
            segment_index: index,
            brick_uuid: self.sb.brick_uuid,
        };
        let base: u64 = self.sb.segment_offset(index);
        let mut sector = header.encode();
        let ghost encoded = sector@;
        pad_zeros(&mut sector, 4096);
        let written = self.disk.write_at(base, sector.as_slice());
        let ghost c = self.disk.bytes();
        proof {
            assert(same_outside(b, c, base as int, SECTOR_SIZE as int));
            self.lemma_segment_write(b, c, index as int, base as int, SECTOR_SIZE as int);
            lemma_untouched(b, c, sb, self.index@, self.free@, None);
            assert(old(self).free@.contains(index));
            assert forall|x: int| !#[trigger] old(self).roams(x) implies !self.roams(x) && (self.risks(x) ==> old(self).risks(x)) && (0 <= x < c.len()
                ==> c[x] == b[x]) by {}
            lemma_aux_kept(b, c, sb, index as int, base as int, SECTOR_SIZE as int);
        }
        match written {
            Ok(()) => {},
            Err(e) => {
                return Err(e);
            },
        }
        let open = OpenSegment { index, seq: self.max_seq, cursor: base + SECTOR_SIZE };
        self.open = Some(open);
        proof {
            let tail = zeros((4096 - encoded.len()) as nat);
            law_segment_header_round_trip(header, tail, index, sb.brick_uuid);
            assert(seg_sector(c, sb, index as int) =~= segment_bytes(header) + tail);
            assert(open_intact(c, sb, open));
            assert forall|x: int| !#[trigger] old(self).roams(x) implies !self.roams(x) && (self.risks(x) ==> old(self).risks(x)) && (0 <= x < c.len()
                ==> c[x] == b[x]) by {}
            if disk_matches(c, sb, self.index@, None) {
                assert forall|h: BlockHash| #[trigger] self.index@.contains_key(h) implies entry_intact(
                    c,
                    sb,
                    Some(open),
                    h,
                    self.index@[h],
                ) by {
                    assert(entry_intact(c, sb, None, h, self.index@[h]));
                    assert(!free_before.contains(seg_of(sb, self.index@[h].offset as int) as u64));
                }
            }
            assert forall|h: BlockHash| #[trigger] self.index@.contains_key(h) && seg_of(
                sb,
                self.index@[h].offset as int,
            ) == index implies false by {
                assert(!free_before.contains(seg_of(sb, self.index@[h].offset as int) as u64));
            }
        }
        proof {
            assert(lowest_at(old(self).free_list(), at as int));
            assert(self.opened_lowest(old(self), SECTOR_SIZE as int));
        }
        Ok(open)
    }

    /// A write inside a segment that no entry rests on, or inside the open
    /// one beyond its cursor, touches nothing.
    proof fn lemma_segment_write(&self, b: Seq<u8>, c: Seq<u8>, seg: int, at: int, len: int)
        requires
            sound_here(self.sb, b.len() as int),
            index_placed(self.sb, self.index@, self.free@, self.open),
            self.open matches Some(o) ==> open_placed(self.sb, self.free@, o),
            same_outside(b, c, at, len),
            0 <= seg < self.sb.segment_count,
            seg_base(self.sb, seg) <= at,
            at + len <= seg_end(self.sb, seg),
            if self.open is Some && self.open->Some_0.index == seg {
                self.open->Some_0.cursor <= at
            } else {
                forall|h: BlockHash| #[trigger] self.index@.contains_key(h) ==> seg_of(self.sb, self.index@[h].offset as int) != seg
            },
        ensures
            untouched(b, c, self.sb, self.index@, self.open),
    {
        let sb = self.sb;
        let size = b.len() as int;
        lemma_segments(sb, size, seg);
        assert(b.subrange(0, 2 * SECTOR_SIZE) =~= c.subrange(0, 2 * SECTOR_SIZE));
        assert forall|h: BlockHash, i: int| #[trigger] self.index@.contains_key(h) && kept_region(
            sb,
            self.open,
            seg_of(sb, self.index@[h].offset as int),
            i,
        ) implies #[trigger] c[i] == b[i] by {
            let other = seg_of(sb, self.index@[h].offset as int);
            lemma_segments(sb, size, other);
            if other < seg {
                lemma_segments_apart(sb, other, seg);
            } else if seg < other {
                lemma_segments_apart(sb, seg, other);
            }
        }
        if let Some(o) = self.open {
            let other = o.index as int;
            lemma_segments(sb, size, other);
            if other < seg {
                lemma_segments_apart(sb, other, seg);
            } else if seg < other {
                lemma_segments_apart(sb, seg, other);
            }
        }
    }

    /// Append one record, without indexing it.
    pub(super) fn append_record(&mut self, hash: BlockHash, payload: &[u8]) -> (r: Result<Location>)
        requires
            old(self).inv(),
            0 < payload@.len() <= old(self).sb.block_size,
        ensures
            r is Err ==> final(self).moved_on(old(self)) && final(self).kept_room(old(self), payload@.len()),
            r matches Ok(loc) ==> {
                &&& final(self).inv()
                &&& final(self).sb == old(self).sb
                &&& final(self).index == old(self).index
                &&& final(self).claims == old(self).claims
                &&& final(self).reserve == old(self).reserve
                &&& final(self).reserve_open == old(self).reserve_open
                &&& final(self).disk.faultless() == old(self).disk.faultless()
                &&& final(self).disk.bytes().len() == old(self).disk.bytes().len()
                &&& final(self).aux() == old(self).aux()
                &&& final(self).calm(old(self))
                &&& final(self).blocks() == old(self).blocks()
                &&& old(self).intact() && hash == address_of(payload@) ==> final(self).intact() && entry_intact(
                    final(self).disk.bytes(),
                    final(self).sb,
                    final(self).open,
                    hash,
                    loc,
                )
                &&& forall|x: u64| #[trigger] final(self).free@.contains(x) ==> old(self).free@.contains(x)
                &&& final(self).kept_to_room(old(self))
                &&& final(self).open is Some
                &&& final(self).took_record(old(self), payload@.len())
                &&& (old(self).open is Some && old(self).open->Some_0.index == final(self).open->Some_0.index)
                    || old(self).free@.contains(final(self).open->Some_0.index)
                &&& appended(
                    final(self).disk.bytes(),
                    final(self).sb,
                    final(self).open->Some_0,
                    hash,
                    payload@,
                    loc,
                )
            },
            old(self).disk.faultless() && (old(self).fits_open(payload@.len()) || old(self).may_open()) ==> r is Ok,
            r == Err::<Location, FsError>(FsError::Full) <==> !old(self).fits_open(payload@.len()) && !old(self).may_open(),
            r == Err::<Location, FsError>(FsError::Full) ==> final(self).disk == old(self).disk,
            r == Err::<Location, FsError>(FsError::Full) ==> final(self).free@ == old(self).free@ && !final(self).fits_open(payload@.len())
                && !final(self).may_open(),
    {
        let length: u32 = payload.len() as u32;
        let span: u64 = record_span(length);
        proof {
            lemma_span_monotone(length, self.sb.block_size);
        }
        let open = self.writable_segment(span)?;
        let ghost mid = *self;
        let ghost b = self.disk.bytes();
        let ghost sb = self.sb;
        let ghost size = b.len() as int;
        let ghost seg = open.index as int;
        let ghost end = seg_end(sb, seg);
        let ghost was_intact = self.intact();
        proof {
            lemma_segments(sb, size, seg);
        }
        let header = RecordHeader { seq: open.seq, length, hash };
        let mut record = header.encode();
        push_bytes(&mut record, payload);
        let ghost body = record@;
        pad_zeros(&mut record, span);
        let written = self.disk.write_at(open.cursor, record.as_slice());
        let ghost c = self.disk.bytes();
        proof {
            self.lemma_segment_write(b, c, seg, open.cursor as int, span as int);
            lemma_untouched(b, c, sb, self.index@, self.free@, self.open);
            lemma_aux_kept(b, c, sb, seg, open.cursor as int, span as int);
            assert forall|x: int| !#[trigger] old(self).roams(x) implies !self.roams(x) && (self.risks(x) ==> old(self).risks(x)) && (0 <= x < c.len()
                ==> c[x] == old(self).disk.bytes()[x]) by {
                assert(!mid.roams(x));
            }
            assert forall|x: int| x < sb.segment_area_start && #[trigger] self.risks(x) implies old(self).risks(x) by {
                assert(mid.risks(x));
            }
        }
        match written {
            Ok(()) => {},
            Err(e) => {
                return Err(e);
            },
        }
        self.open = Some(OpenSegment { index: open.index, seq: open.seq, cursor: open.cursor + span });
        let location = Location { offset: open.cursor, length, seq: open.seq };
        proof {
            let at = open.cursor as int;
            assert forall|x: int| !#[trigger] old(self).roams(x) implies !self.roams(x) && (self.risks(x) ==> old(self).risks(x)) && (0 <= x < c.len()
                ==> c[x] == old(self).disk.bytes()[x]) by {
                assert(!mid.roams(x));
            }
            assert forall|x: int| x < sb.segment_area_start && #[trigger] self.risks(x) implies old(self).risks(x) by {
                assert(mid.risks(x));
            }
            law_record_header_round_trip(header, Seq::empty(), open.seq, sb.block_size);
            assert(record_bytes(header) + Seq::<u8>::empty() =~= record_bytes(header));
            assert(header_at(c, at) =~= record_bytes(header));
            assert(payload_at(c, at, length as int) =~= payload@);
            lemma_seg_of(sb, seg, at);
            if hash == address_of(payload@) {
                assert(good_at(c, sb.block_size, open.seq, end, at));
                if was_intact {
                    lemma_tiled_step(c, sb.block_size, open.seq, end, seg_base(sb, seg) + SECTOR_SIZE, at);
                    assert forall|h: BlockHash| #[trigger] self.index@.contains_key(h) implies entry_intact(
                        c,
                        sb,
                        self.open,
                        h,
                        self.index@[h],
                    ) by {
                        assert(entry_intact(c, sb, Some(open), h, self.index@[h]));
                    }
                }
            }
        }
        Ok(location)
    }

    /// Store a payload under its content address. Storing what is already
    /// held changes nothing.
    pub fn put(&mut self, payload: &[u8]) -> (r: Result<BlockHash>)
        requires
            old(self).inv(),
        ensures
            final(self).same_shape(old(self)),
            final(self).kept_to_room(old(self)),
            old(self).intact() ==> final(self).intact(),
            payload_fault(payload@.len(), old(self).superblock().block_size) matches Some(e) ==> r == Err::<
                BlockHash,
                FsError,
            >(e),
            r is Err ==> final(self).same_blocks(old(self)),
            r is Err ==> final(self).kept_room(old(self), payload@.len()),
            r == Err::<BlockHash, FsError>(FsError::Full) ==> !old(self).fits_open(payload@.len()) && !old(self).may_open() && !final(self).fits_open(payload@.len())
                && !final(self).may_open(),
            r is Ok && old(self).held().contains(address_of(payload@)) ==> final(self).same_room(old(self)) && final(self).same_disk(old(self)),
            r is Ok && !old(self).held().contains(address_of(payload@)) ==> final(self).took_record(old(self), payload@.len()),
            r matches Ok(h) ==> {
                &&& h == address_of(payload@)
                &&& final(self).held() == old(self).held().insert(h)
                &&& final(self).claims() == old(self).claims().insert((h, payload@))
                &&& final(self).blocks() == if old(self).held().contains(h) {
                    old(self).blocks()
                } else {
                    old(self).blocks().insert(h, payload@)
                }
            },
            payload_fault(payload@.len(), old(self).superblock().block_size) is None ==> {
                let known = old(self).held().contains(address_of(payload@));
                let room = old(self).fits_open(payload@.len()) || old(self).may_open();
                &&& known || (room && old(self).reliable()) ==> r is Ok
                &&& !known && !room ==> r == Err::<BlockHash, FsError>(FsError::Full)
            },
    {
        if payload.len() == 0 {
            return Err(FsError::EmptyPayload);
        }
        if payload.len() > self.sb.block_size as usize {
            return Err(
                FsError::PayloadTooLarge { len: payload.len(), block_size: self.sb.block_size },
            );
        }
        let hash = hash_block(payload);
        match self.put_hashed(hash, payload) {
            Ok(()) => Ok(hash),
            Err(e) => Err(e),
        }
    }

    /// Store a payload under an address the caller has already computed.
    pub fn put_hashed(&mut self, hash: BlockHash, payload: &[u8]) -> (r: Result<()>)
        requires
            old(self).inv(),
        ensures
            final(self).same_shape(old(self)),
            final(self).kept_to_room(old(self)),
            old(self).intact() && hash == address_of(payload@) ==> final(self).intact(),
            payload_fault(payload@.len(), old(self).superblock().block_size) matches Some(e) ==> r == Err::<
                (),
                FsError,
            >(e),
            r is Err ==> final(self).same_blocks(old(self)),
            r is Err ==> final(self).kept_room(old(self), payload@.len()),
            r == Err::<(), FsError>(FsError::Full) ==> final(self).same_disk(old(self)) && final(self).settled() == old(self).settled(),
            r == Err::<(), FsError>(FsError::Full) ==> !old(self).fits_open(payload@.len()) && !old(self).may_open() && !final(self).fits_open(payload@.len())
                && !final(self).may_open(),
            r is Ok && old(self).held().contains(hash) ==> final(self).same_room(old(self)) && final(self).same_disk(old(self)),
            r is Ok && !old(self).held().contains(hash) ==> final(self).took_record(old(self), payload@.len()),
            r is Ok ==> {
                &&& final(self).held() == old(self).held().insert(hash)
                &&& final(self).claims() == old(self).claims().insert((hash, payload@))
                &&& old(self).held().contains(hash) ==> final(self).same_free(old(self))
                &&& old(self).held().contains(hash) ==> final(self).blocks() == old(self).blocks()
                &&& !old(self).held().contains(hash) && hash == address_of(payload@)
                    ==> final(self).blocks() == old(self).blocks().insert(hash, payload@)
                &&& forall|h: BlockHash| #[trigger] old(self).blocks().contains_key(h) ==> final(self).blocks().contains_key(h)
                    && final(self).blocks()[h] == old(self).blocks()[h]
                &&& forall|h: BlockHash| h != hash && #[trigger] final(self).blocks().contains_key(h) ==> old(self).blocks().contains_key(h)
            },
            payload_fault(payload@.len(), old(self).superblock().block_size) is None ==> {
                let known = old(self).held().contains(hash);
                let room = old(self).fits_open(payload@.len()) || old(self).may_open();
                &&& known || (room && old(self).reliable()) ==> r is Ok
                &&& !known && !room ==> r == Err::<(), FsError>(FsError::Full)
            },
    {
        if payload.len() == 0 {
            return Err(FsError::EmptyPayload);
        }
        if payload.len() > self.sb.block_size as usize {
            return Err(
                FsError::PayloadTooLarge { len: payload.len(), block_size: self.sb.block_size },
            );
        }
        if self.index.contains(&hash) {
            proof {
                self.claims@ = self.claims@.insert((hash, payload@));
                assert(self.held() =~= old(self).held().insert(hash));
            }
            return Ok(());
        }
        let location = match self.append_record(hash, payload) {
            Ok(location) => location,
            Err(e) => {
                return Err(e);
            },
        };
        proof {
            lemma_insert_entry(
                self.disk.bytes(),
                self.sb,
                self.index@,
                self.free@,
                self.open->Some_0,
                hash,
                payload@,
                location,
            );
        }
        let ghost mid = *self;
        self.index.insert(hash, location);
        proof {
            assert forall|x: int| #[trigger] mid.roams(x) == self.roams(x) by {}
            self.claims@ = self.claims@.insert((hash, payload@));
            assert forall|x: int| #[trigger] self.risks(x) implies mid.risks(x) by {}
            assert(self.held() =~= old(self).held().insert(hash));
            assert forall|h: BlockHash| #[trigger] old(self).blocks().contains_key(h) implies self.blocks().contains_key(h)
                    && self.blocks()[h] == old(self).blocks()[h] by {
                assert(mid.blocks().contains_key(h));
                assert(h != hash);
            }
            assert forall|h: BlockHash| h != hash && #[trigger] self.blocks().contains_key(h) implies old(self).blocks().contains_key(h) by {
                assert(mid.blocks().contains_key(h));
            }
        }
        Ok(())
    }

    /// Record that a held address has been handed out once more.
    pub(crate) fn promise(&mut self, hash: BlockHash, payload: &[u8])
        requires
            old(self).inv(),
            old(self).held().contains(hash),
        ensures
            final(self).same_shape(old(self)),
            final(self).disk_bytes() == old(self).disk_bytes(),
            final(self).held() == old(self).held(),
            final(self).blocks() == old(self).blocks(),
            final(self).claims() == old(self).claims().insert((hash, payload@)),
            final(self).same_free(old(self)),
            final(self).same_room(old(self)),
            final(self).same_disk(old(self)),
            final(self).settled() == old(self).settled(),
            final(self).kept_to_room(old(self)),
            old(self).intact() ==> final(self).intact(),
    {
        proof {
            assert(self.index@.contains_key(hash));
            self.claims@ = self.claims@.insert((hash, payload@));
        }
    }

    /// The free list is as in `before`.
    pub open spec fn same_free(&self, before: &Self) -> bool {
        self.free_list() == before.free_list()
    }

    pub(super) fn segment_of(&self, offset: u64) -> (seg: u64)
        requires
            offset >= self.sb.segment_area_start,
            self.sb.segment_size > 0,
        ensures
            seg == seg_of(self.sb, offset as int),
    {
        (offset - self.sb.segment_area_start) / self.sb.segment_size
    }

    /// Nothing outside the room there was in `before` and the segment `seg`
    /// has changed, is newly at risk, or has become room.
    pub(super) open(super) spec fn kept_but(&self, before: &Self, seg: int) -> bool {
        &&& self.disk_bytes().len() == before.disk_bytes().len()
        &&& forall|i: int| !#[trigger] before.roams(i) && !(seg_base(self.sb, seg) <= i < seg_end(self.sb, seg)) ==> {
            &&& !self.roams(i)
            &&& self.risks(i) ==> before.risks(i)
            &&& 0 <= i < self.disk_bytes().len() ==> self.disk_bytes()[i] == before.disk_bytes()[i]
        }
    }

    /// Give an empty segment back.
    pub(super) fn release_segment(&mut self, segment: u64) -> (r: Result<()>)
        requires
            old(self).inv(),
            segment < old(self).sb.segment_count,
            !old(self).free@.contains(segment),
            old(self).open matches Some(o) ==> o.index != segment,
            forall|h: BlockHash| #[trigger] old(self).index@.contains_key(h) ==> seg_of(old(self).sb, old(self).index@[h].offset as int) != segment,
        ensures
            final(self).inv(),
            final(self).sb == old(self).sb,
            final(self).index == old(self).index,
            final(self).claims == old(self).claims,
            final(self).max_seq == old(self).max_seq,
            final(self).open == old(self).open,
            final(self).reserve == old(self).reserve,
            final(self).reserve_open == old(self).reserve_open,
            final(self).disk.faultless() == old(self).disk.faultless(),
            final(self).disk.bytes().len() == old(self).disk.bytes().len(),
            final(self).aux() == old(self).aux(),
            final(self).calm(old(self)),
            final(self).blocks() == old(self).blocks(),
            old(self).intact() ==> final(self).intact(),
            final(self).kept_but(old(self), segment as int),
            r is Ok ==> final(self).free@ == old(self).free@.push(segment),
            r is Err ==> final(self).free@ == old(self).free@,
            old(self).disk.faultless() ==> r is Ok,
    {
        let ghost b = self.disk.bytes();
        let ghost sb = self.sb;
        proof {
            lemma_segments(sb, b.len() as int, segment as int);
        }
        let mut zero: Vec<u8> = Vec::new();
        pad_zeros(&mut zero, 4096);
        let base: u64 = self.sb.segment_offset(segment);
        let written = self.disk.write_at(base, zero.as_slice());
        proof {
            let c = self.disk.bytes();
            self.lemma_segment_write(b, c, segment as int, base as int, SECTOR_SIZE as int);
            lemma_untouched(b, c, sb, self.index@, self.free@, self.open);
            lemma_aux_kept(b, c, sb, segment as int, base as int, SECTOR_SIZE as int);
        }
        match written {
            Ok(()) => {},
            Err(e) => {
                return Err(e);
            },
        }
        self.free.push(segment);
        proof {
            lemma_push_distinct(old(self).free@, segment);
            assert forall|i: int| !#[trigger] old(self).roams(i) && !(seg_base(sb, segment as int) <= i < seg_end(sb, segment as int)) implies !self.roams(i) by {
                assert forall|x: u64| #[trigger] self.free@.contains(x) && x != segment implies old(self).free@.contains(x) by {
                    let k = choose|k: int| 0 <= k < self.free@.len() && self.free@[k] == x;
                    assert(old(self).free@[k] == x);
                }
            }
            assert forall|h: BlockHash| #[trigger] self.index@.contains_key(h) implies !self.free@.contains(
                seg_of(sb, self.index@[h].offset as int) as u64,
            ) by {
                assert(old(self).index@.contains_key(h));
                let s = seg_of(sb, self.index@[h].offset as int);
                assert(placed(sb, self.index@[h]));
                assert(!old(self).free@.contains(s as u64));
            }
        }
        Ok(())
    }
}

/// The geometry fits a disk of `size` bytes.
spec fn sound_here(sb: Superblock, size: int) -> bool {
    super::sound(sb, size)
}

proof fn lemma_aux_kept(b: Seq<u8>, c: Seq<u8>, sb: Superblock, seg: int, at: int, len: int)
    requires
        super::sound(sb, b.len() as int),
        same_outside(b, c, at, len),
        0 <= seg < sb.segment_count,
        seg_base(sb, seg) <= at,
    ensures
        c.subrange(0, sb.segment_area_start as int) == b.subrange(0, sb.segment_area_start as int),
{
    lemma_segments(sb, b.len() as int, seg);
    assert(c.subrange(0, sb.segment_area_start as int) =~= b.subrange(0, sb.segment_area_start as int));
}

proof fn lemma_remove_free(free: Seq<u64>, at: int)
    requires
        free.no_duplicates(),
        0 <= at < free.len(),
    ensures
        free.remove(at).no_duplicates(),
        !free.remove(at).contains(free[at]),
        forall|x: u64| #[trigger] free.remove(at).contains(x) ==> free.contains(x),
{
    let rest = free.remove(at);
    assert forall|x: u64| #[trigger] rest.contains(x) implies free.contains(x) && x != free[at] by {
        let k = choose|k: int| 0 <= k < rest.len() && rest[k] == x;
        let j = if k < at { k } else { k + 1 };
        assert(free[j] == x);
    }
    assert forall|i: int, j: int| 0 <= i < rest.len() && 0 <= j < rest.len() && i != j implies rest[i] != rest[j] by {
        let a = if i < at { i } else { i + 1 };
        let c = if j < at { j } else { j + 1 };
        assert(free[a] != free[c]);
    }
}

pub(super) proof fn lemma_push_distinct(free: Seq<u64>, segment: u64)
    requires
        free.no_duplicates(),
        !free.contains(segment),
    ensures
        free.push(segment).no_duplicates(),
        forall|x: u64| #[trigger] free.push(segment).contains(x) <==> free.contains(x) || x == segment,
{
    let after = free.push(segment);
    assert forall|x: u64| #[trigger] after.contains(x) implies free.contains(x) || x == segment by {
        let k = choose|k: int| 0 <= k < after.len() && after[k] == x;
        if k < free.len() {
            assert(free[k] == x);
        }
    }
    assert forall|x: u64| free.contains(x) || x == segment implies #[trigger] after.contains(x) by {
        if free.contains(x) {
            let k = choose|k: int| 0 <= k < free.len() && free[k] == x;
            assert(after[k] == x);
        } else {
            assert(after[free.len() as int] == x);
        }
    }
    assert forall|i: int, j: int| 0 <= i < after.len() && 0 <= j < after.len() && i != j implies after[i] != after[j] by {
        if i == free.len() {
            assert(free.contains(free[j]));
        } else if j == free.len() {
            assert(free.contains(free[i]));
        }
    }
}

} // verus!
