//! One brick: the extent store on one disk.
//!
//! Blocks are records appended to segments; an in-memory index, rebuilt at
//! open by scanning every segment, says where each address lives. A read
//! verifies what it returns against the address it was asked for.

use crate::codec::{lemma_array_view_injective, pad_zeros, same16, zeros};
use crate::disk::{counted, out_of_bounds, read_vec, Disk};
use crate::error::{FsError, Result};
use crate::format::{
    anchor_reads, anchor_valid, record_span, record_valid, segment_valid, span_of, superblock_present, superblock_reads, superblock_valid, u32_at, u64_at, Anchor, RecordHeader, RosterEntry, SegmentHeader, Superblock, lemma_anchor_layout, lemma_superblock_layout, ANCHOR_AREA_START, FORMAT_VERSION, RECORD_HEADER_LEN, ROSTER_CAP, SECTOR_SIZE, WAL_AREA_START,
};
use crate::hash::{address_of, blake3_256, hash_block, BlockHash};
use crate::table::BlockTable;
use crate::wal::{lemma_zeros_hold_no_frame, scan, FrameView};
use vstd::prelude::*;

pub mod collect;
pub mod read;
pub mod shape;
pub mod write;

verus! {

/// What a new brick is to be.
#[derive(Debug, Clone, Copy)]
pub struct BrickParams {
    pub pool_uuid: [u8; 16],
    pub brick_uuid: [u8; 16],
    /// Most payload bytes one block can hold.
    pub block_size: u32,
    pub segment_size: u64,
    /// Zero unless this brick holds the WAL.
    pub wal_size: u64,
    pub tier: u8,
    pub wal_holder: bool,
}

/// Where a block lives.
#[derive(Debug, Clone, Copy)]
pub struct Location {
    pub offset: u64,
    pub length: u32,
    pub seq: u64,
}

/// The segment that takes the next record.
#[derive(Debug, Clone, Copy)]
pub struct OpenSegment {
    pub index: u64,
    pub seq: u64,
    pub cursor: u64,
}

#[derive(Debug, Clone, Copy, PartialEq, Eq)]
pub struct BrickStats {
    pub blocks: u64,
    pub segments_total: u64,
    pub segments_live: u64,
    pub segments_free: u64,
    pub payload_bytes: u64,
}

/// Space in payload bytes.
#[derive(Debug, Clone, Copy, PartialEq, Eq)]
pub struct ByteSpace {
    pub usable_bytes: u64,
    pub free_bytes: u64,
    pub payload_bytes: u64,
}

impl Default for ByteSpace {
    fn default() -> (space: ByteSpace)
        ensures
            space == (ByteSpace { usable_bytes: 0, free_bytes: 0, payload_bytes: 0 }),
    {
        ByteSpace { usable_bytes: 0, free_bytes: 0, payload_bytes: 0 }
    }
}

impl ByteSpace {
    /// Add another's figures, each as far as a word can hold it.
    pub fn add(&mut self, other: &ByteSpace)
        ensures
            *final(self) == space_sum(*old(self), *other),
    {
        self.usable_bytes = self.usable_bytes.saturating_add(other.usable_bytes);
        self.free_bytes = self.free_bytes.saturating_add(other.free_bytes);
        self.payload_bytes = self.payload_bytes.saturating_add(other.payload_bytes);
    }
}

/// A sum as far as a word can hold it.
pub open spec fn capped_sum(a: u64, b: u64) -> u64 {
    if a + b <= u64::MAX {
        (a + b) as u64
    } else {
        u64::MAX
    }
}

/// Two sets of figures added.
pub open spec fn space_sum(a: ByteSpace, b: ByteSpace) -> ByteSpace {
    ByteSpace {
        usable_bytes: capped_sum(a.usable_bytes, b.usable_bytes),
        free_bytes: capped_sum(a.free_bytes, b.free_bytes),
        payload_bytes: capped_sum(a.payload_bytes, b.payload_bytes),
    }
}

#[derive(Debug, Clone, Copy, PartialEq, Eq)]
pub struct GcStats {
    pub blocks_dropped: u64,
    pub blocks_moved: u64,
    pub segments_freed: u64,
    pub segments_compacted: u64,
}

impl Default for GcStats {
    fn default() -> (stats: GcStats)
        ensures
            stats == (GcStats {
                blocks_dropped: 0,
                blocks_moved: 0,
                segments_freed: 0,
                segments_compacted: 0,
            }),
    {
        GcStats { blocks_dropped: 0, blocks_moved: 0, segments_freed: 0, segments_compacted: 0 }
    }
}

/// The segments only a collection may use: a sixteenth, at least one, and
/// never all of them.
pub open spec fn reserve_of(segment_count: u64) -> u64 {
    let share = if segment_count / 16 < 1 {
        1
    } else {
        segment_count / 16
    };
    let most = if segment_count == 0 {
        0
    } else {
        (segment_count - 1) as u64
    };
    if share < most {
        share
    } else {
        most
    }
}

fn reserve_segments(segment_count: u64) -> (n: u64)
    ensures
        n == reserve_of(segment_count),
{
    let sixteenth: u64 = segment_count / 16;
    let share: u64 = if sixteenth < 1 {
        1
    } else {
        sixteenth
    };
    let most: u64 = if segment_count == 0 {
        0
    } else {
        segment_count - 1
    };
    if share < most {
        share
    } else {
        most
    }
}

// ---------------------------------------------------------------------
// The layout of a brick, and what its bytes mean

/// The geometry is one that a format lays out on a disk of `size` bytes.
pub open spec fn sound(sb: Superblock, size: int) -> bool {
    &&& sb.block_size > 0
    &&& sb.block_size as u64 % SECTOR_SIZE == 0
    &&& sb.segment_size % SECTOR_SIZE == 0
    &&& SECTOR_SIZE + span_of(sb.block_size) <= sb.segment_size
    &&& sb.segment_count > 0
    &&& sb.wal_start == WAL_AREA_START
    &&& sb.segment_area_start == WAL_AREA_START + sb.wal_size
    &&& sb.segment_area_start + sb.segment_count * sb.segment_size <= size
    &&& if sb.wal_holder {
        sb.wal_size % SECTOR_SIZE == 0 && sb.wal_size >= 2 * SECTOR_SIZE
    } else {
        sb.wal_size == 0
    }
}

/// Where a segment starts.
pub open spec fn seg_base(sb: Superblock, seg: int) -> int {
    sb.segment_area_start + seg * sb.segment_size
}

/// Where a segment ends.
pub open spec fn seg_end(sb: Superblock, seg: int) -> int {
    seg_base(sb, seg) + sb.segment_size
}

/// The segment an offset lies in.
pub open spec fn seg_of(sb: Superblock, offset: int) -> int {
    (offset - sb.segment_area_start) / (sb.segment_size as int)
}

/// A record's place is inside the payload part of an existing segment.
pub open spec fn placed(sb: Superblock, loc: Location) -> bool {
    let seg = seg_of(sb, loc.offset as int);
    &&& 0 <= seg < sb.segment_count
    &&& seg_base(sb, seg) + SECTOR_SIZE <= loc.offset
    &&& loc.offset + span_of(loc.length) <= seg_end(sb, seg)
    &&& 0 < loc.length <= sb.block_size
}

pub open spec fn header_at(b: Seq<u8>, offset: int) -> Seq<u8> {
    b.subrange(offset, offset + RECORD_HEADER_LEN)
}

pub open spec fn payload_at(b: Seq<u8>, offset: int, length: int) -> Seq<u8> {
    b.subrange(offset + RECORD_HEADER_LEN, offset + RECORD_HEADER_LEN + length)
}

/// The record header at `loc` still parses.
pub open spec fn header_parses(b: Seq<u8>, block_size: u32, loc: Location) -> bool {
    record_valid(header_at(b, loc.offset as int), loc.seq, block_size)
}

/// The record header at `loc` says what the index says.
pub open spec fn header_agrees(b: Seq<u8>, hash: BlockHash, loc: Location) -> bool {
    &&& u32_at(header_at(b, loc.offset as int), 16) == loc.length
    &&& header_at(b, loc.offset as int).subrange(24, 56) == hash.0@
}

/// A read of `hash` at `loc` finds the block intact.
pub open spec fn readable(b: Seq<u8>, block_size: u32, hash: BlockHash, loc: Location) -> bool {
    &&& header_parses(b, block_size, loc)
    &&& header_agrees(b, hash, loc)
    &&& address_of(payload_at(b, loc.offset as int, loc.length as int)) == hash
}

/// A scan of a segment of incarnation `seq` that ends at `end` finds a
/// whole record at `p`.
pub open spec fn good_at(b: Seq<u8>, block_size: u32, seq: u64, end: int, p: int) -> bool {
    let header = header_at(b, p);
    &&& p + RECORD_HEADER_LEN <= end
    &&& record_valid(header, seq, block_size)
    &&& p + span_of(u32_at(header, 16)) <= end
    &&& blake3_256(payload_at(b, p, u32_at(header, 16) as int))@ == header.subrange(24, 56)
}

/// Where the scan goes from `p`: past a whole record, else one sector on.
pub open spec fn scan_next(b: Seq<u8>, block_size: u32, seq: u64, end: int, p: int) -> int {
    if good_at(b, block_size, seq, end, p) {
        p + span_of(u32_at(header_at(b, p), 16))
    } else {
        p + SECTOR_SIZE
    }
}

/// A scan that stands at `p` comes to stand at `q`.
pub open spec fn reaches(b: Seq<u8>, block_size: u32, seq: u64, end: int, p: int, q: int) -> bool
    decreases q - p,
{
    p == q || (p < q && p + RECORD_HEADER_LEN <= end && p < scan_next(b, block_size, seq, end, p) <= q
        && reaches(b, block_size, seq, end, scan_next(b, block_size, seq, end, p), q))
}

/// Whole records follow one another from `p` to `q` without a gap.
pub open spec fn tiled(b: Seq<u8>, block_size: u32, seq: u64, end: int, p: int, q: int) -> bool
    decreases q - p,
{
    p == q || (p < q && good_at(b, block_size, seq, end, p) && p < scan_next(b, block_size, seq, end, p) <= q
        && tiled(b, block_size, seq, end, scan_next(b, block_size, seq, end, p), q))
}

/// A segment's header sector.
pub open spec fn seg_sector(b: Seq<u8>, sb: Superblock, seg: int) -> Seq<u8> {
    b.subrange(seg_base(sb, seg), seg_base(sb, seg) + SECTOR_SIZE)
}

/// The segment carries a valid header.
pub open spec fn seg_live(b: Seq<u8>, sb: Superblock, seg: int) -> bool {
    segment_valid(seg_sector(b, sb, seg), seg as u64, sb.brick_uuid)
}

/// The incarnation a segment's header names.
pub open spec fn seg_seq(b: Seq<u8>, sb: Superblock, seg: int) -> u64 {
    u64_at(seg_sector(b, sb, seg), 8)
}

/// A scan of segment `seg` comes upon a whole record of `hash` at `p`.
pub open spec fn found_at(b: Seq<u8>, sb: Superblock, hash: BlockHash, seg: int, p: int) -> bool {
    let seq = seg_seq(b, sb, seg);
    let end = seg_end(sb, seg);
    &&& 0 <= seg < sb.segment_count
    &&& seg_live(b, sb, seg)
    &&& reaches(b, sb.block_size, seq, end, seg_base(sb, seg) + SECTOR_SIZE, p)
    &&& good_at(b, sb.block_size, seq, end, p)
    &&& header_at(b, p).subrange(24, 56) == hash.0@
}

/// Of the records of `hash` that scans of the segments below `below` come
/// upon, the one at `loc` is the last.
pub open spec fn found_last(b: Seq<u8>, sb: Superblock, hash: BlockHash, loc: Location, below: int) -> bool {
    let seg = seg_of(sb, loc.offset as int);
    &&& seg < below
    &&& found_at(b, sb, hash, seg, loc.offset as int)
    &&& loc.seq == seg_seq(b, sb, seg)
    &&& loc.length == u32_at(header_at(b, loc.offset as int), 16)
    &&& forall|s: int, p: int| s < below && #[trigger] found_at(b, sb, hash, s, p) ==> s < seg || (s == seg && p <= loc.offset)
}

/// Some segment's scan comes upon `hash`.
pub open spec fn record_present(b: Seq<u8>, sb: Superblock, hash: BlockHash) -> bool {
    exists|seg: int, p: int| found_at(b, sb, hash, seg, p)
}

/// A superblock slot's sector.
pub open spec fn slot_sector(b: Seq<u8>, slot: int) -> Seq<u8> {
    b.subrange(slot * SECTOR_SIZE, slot * SECTOR_SIZE + SECTOR_SIZE)
}

/// `sb` is the valid superblock of the highest generation, the first slot
/// winning a tie.
pub open spec fn best_superblock(b: Seq<u8>, sb: Superblock) -> bool {
    let (first, second) = (slot_sector(b, 0), slot_sector(b, 1));
    if superblock_valid(first) && !(superblock_valid(second) && u64_at(second, 40) > u64_at(
        first,
        40,
    )) {
        superblock_reads(first, sb)
    } else {
        superblock_valid(second) && superblock_reads(second, sb)
    }
}

/// Both superblock slots are valid and say the same.
pub open spec fn twinned(b: Seq<u8>, sb: Superblock) -> bool {
    &&& superblock_valid(slot_sector(b, 0)) && superblock_reads(slot_sector(b, 0), sb)
    &&& superblock_valid(slot_sector(b, 1)) && superblock_reads(slot_sector(b, 1), sb)
}

/// `after` is `before` but for one superblock slot, which holds nothing
/// valid any more.
pub open spec fn slot_lost(before: Seq<u8>, after: Seq<u8>, slot: int) -> bool {
    &&& before.len() == after.len()
    &&& slot == 0 || slot == 1
    &&& !superblock_valid(slot_sector(after, slot))
    &&& forall|i: int| 0 <= i < before.len() && !(slot * SECTOR_SIZE <= i < slot * SECTOR_SIZE + SECTOR_SIZE) ==> #[trigger] after[i] == before[i]
}

/// The index entry `hash` at `loc` is one that a scan of the disk gives
/// back: its segment's header names its incarnation and the scan stops at
/// it. In the open segment nothing but whole records lies before it.
pub open spec fn entry_intact(
    b: Seq<u8>,
    sb: Superblock,
    open: Option<OpenSegment>,
    hash: BlockHash,
    loc: Location,
) -> bool {
    let seg = seg_of(sb, loc.offset as int);
    let start = seg_base(sb, seg) + SECTOR_SIZE;
    let end = seg_end(sb, seg);
    &&& seg_live(b, sb, seg)
    &&& seg_seq(b, sb, seg) == loc.seq
    &&& good_at(b, sb.block_size, loc.seq, end, loc.offset as int)
    &&& readable(b, sb.block_size, hash, loc)
    &&& if open is Some && open->Some_0.index == seg {
        tiled(b, sb.block_size, loc.seq, end, start, loc.offset as int)
    } else {
        reaches(b, sb.block_size, loc.seq, end, start, loc.offset as int)
    }
}

/// The open segment's header is in place and whole records fill it up to
/// the cursor.
pub open spec fn open_intact(b: Seq<u8>, sb: Superblock, open: OpenSegment) -> bool {
    let seg = open.index as int;
    &&& seg_live(b, sb, seg)
    &&& seg_seq(b, sb, seg) == open.seq
    &&& tiled(
        b,
        sb.block_size,
        open.seq,
        seg_end(sb, seg),
        seg_base(sb, seg) + SECTOR_SIZE,
        open.cursor as int,
    )
}

/// What a reopen would find is at least what the index holds.
pub open spec fn disk_matches(
    b: Seq<u8>,
    sb: Superblock,
    index: Map<BlockHash, Location>,
    open: Option<OpenSegment>,
) -> bool {
    &&& best_superblock(b, sb)
    &&& forall|h: BlockHash| #[trigger] index.contains_key(h) ==> entry_intact(b, sb, open, h, index[h])
    &&& open matches Some(o) ==> open_intact(b, sb, o)
}

/// `after` agrees with `before` on everything the index and the open
/// segment rest on.
pub open spec fn untouched(
    before: Seq<u8>,
    after: Seq<u8>,
    sb: Superblock,
    index: Map<BlockHash, Location>,
    open: Option<OpenSegment>,
) -> bool {
    &&& before.len() == after.len()
    &&& before.subrange(0, 2 * SECTOR_SIZE) == after.subrange(0, 2 * SECTOR_SIZE)
    &&& forall|h: BlockHash, i: int| #[trigger] index.contains_key(h) && kept_region(sb, open, seg_of(sb, index[h].offset as int), i) ==> #[trigger] after[i] == before[i]
    &&& open matches Some(o) ==> forall|i: int|
        seg_base(sb, o.index as int) <= i < o.cursor ==> #[trigger] after[i] == before[i]
}

/// The part of a segment that index entries in it rest on.
pub open spec fn kept_region(sb: Superblock, open: Option<OpenSegment>, seg: int, i: int) -> bool {
    if open is Some && open->Some_0.index == seg {
        seg_base(sb, seg) <= i < open->Some_0.cursor
    } else {
        seg_base(sb, seg) <= i < seg_end(sb, seg)
    }
}

/// A position that what is held rests on: in the superblocks, or in the part
/// of a segment that an index entry in it rests on.
pub open spec fn rests_on(sb: Superblock, index: Map<BlockHash, Location>, open: Option<OpenSegment>, i: int) -> bool {
    0 <= i < 2 * SECTOR_SIZE || exists|h: BlockHash| #[trigger]
        index.contains_key(h) && kept_region(sb, open, seg_of(sb, index[h].offset as int), i)
}

/// A position that puts and ring or anchor writes may write to: before the
/// segments but for the superblocks, in a free segment, or in the open one
/// from its cursor on.
pub open spec fn room_at(sb: Superblock, free: Seq<u64>, open: Option<OpenSegment>, i: int) -> bool {
    ||| 2 * SECTOR_SIZE <= i < sb.segment_area_start
    ||| exists|seg: u64| #[trigger] free.contains(seg) && seg_base(sb, seg as int) <= i < seg_end(sb, seg as int)
    ||| open is Some && open->Some_0.cursor <= i < seg_end(sb, open->Some_0.index as int)
}

/// The lowest of these segments is the `at`-th.
pub open spec fn lowest_at(free: Seq<u64>, at: int) -> bool {
    0 <= at < free.len() && forall|k: int| 0 <= k < free.len() ==> free[at] <= #[trigger] free[k]
}

/// A scan of the segment comes upon some record.
pub open spec fn seg_holds_any(b: Seq<u8>, sb: Superblock, seg: int) -> bool {
    exists|h: BlockHash, p: int| found_at(b, sb, h, seg, p)
}

/// The segments below `below` in which a scan comes upon no record,
/// ascending.
pub open spec fn vacant(b: Seq<u8>, sb: Superblock, below: nat) -> Seq<u64>
    decreases below,
{
    if below == 0 {
        Seq::empty()
    } else {
        let before = vacant(b, sb, (below - 1) as nat);
        if seg_holds_any(b, sb, below - 1) {
            before
        } else {
            before.push((below - 1) as u64)
        }
    }
}

/// The highest incarnation among the segments below `below` that have a
/// header, zero where none has.
pub open spec fn top_seq(b: Seq<u8>, sb: Superblock, below: nat) -> u64
    decreases below,
{
    if below == 0 {
        0
    } else {
        let before = top_seq(b, sb, (below - 1) as nat);
        if seg_live(b, sb, below - 1) && seg_seq(b, sb, below - 1) > before {
            seg_seq(b, sb, below - 1)
        } else {
            before
        }
    }
}

/// The index is one the geometry can hold.
pub open spec fn index_placed(
    sb: Superblock,
    index: Map<BlockHash, Location>,
    free: Seq<u64>,
    open: Option<OpenSegment>,
) -> bool {
    &&& forall|h: BlockHash| #[trigger] index.contains_key(h) ==> placed(sb, index[h]) && !free.contains(seg_of(sb, index[h].offset as int) as u64)
    &&& open matches Some(o) ==> forall|h: BlockHash| #[trigger] index.contains_key(h) && seg_of(sb, index[h].offset as int) == o.index ==> index[h].offset + span_of(index[h].length) <= o.cursor
}

/// The open segment exists, is not free, and its cursor lies in it.
pub open spec fn open_placed(sb: Superblock, free: Seq<u64>, o: OpenSegment) -> bool {
    &&& o.index < sb.segment_count
    &&& !free.contains(o.index)
    &&& seg_base(sb, o.index as int) + SECTOR_SIZE <= o.cursor <= seg_end(sb, o.index as int)
}

// ---------------------------------------------------------------------
// Lemmas on layout

pub proof fn lemma_segments(sb: Superblock, size: int, seg: int)
    requires
        sound(sb, size),
        0 <= seg < sb.segment_count,
    ensures
        WAL_AREA_START <= sb.segment_area_start <= seg_base(sb, seg),
        seg_end(sb, seg) <= size,
        seg_end(sb, seg) == seg_base(sb, seg + 1),
        seg_base(sb, seg) + SECTOR_SIZE < seg_end(sb, seg),
{
    let n = sb.segment_count as int;
    let s = sb.segment_size as int;
    assert(seg * s >= 0) by (nonlinear_arith)
        requires seg >= 0, s >= 0;
    assert((seg + 1) * s == seg * s + s) by (nonlinear_arith);
    assert((seg + 1) * s <= n * s) by (nonlinear_arith)
        requires seg + 1 <= n, s >= 0;
}

pub proof fn lemma_segments_apart(sb: Superblock, a: int, b: int)
    requires
        0 <= a < b,
    ensures
        seg_end(sb, a) <= seg_base(sb, b),
{
    let s = sb.segment_size as int;
    assert((a + 1) * s == a * s + s) by (nonlinear_arith);
    assert((a + 1) * s <= b * s) by (nonlinear_arith)
        requires a + 1 <= b, s >= 0;
}

pub proof fn lemma_seg_of(sb: Superblock, seg: int, offset: int)
    requires
        sb.segment_size > 0,
        seg_base(sb, seg) <= offset < seg_end(sb, seg),
    ensures
        seg_of(sb, offset) == seg,
{
    let s = sb.segment_size as int;
    let x = offset - sb.segment_area_start;
    vstd::arithmetic::div_mod::lemma_fundamental_div_mod_converse(x, s, seg, x - seg * s);
}

pub proof fn lemma_span_positive(len: u32)
    ensures
        span_of(len) >= SECTOR_SIZE,
        span_of(len) >= RECORD_HEADER_LEN + len,
        span_of(len) % SECTOR_SIZE == 0,
{
}

proof fn lemma_span_monotone(a: u32, b: u32)
    requires
        a <= b,
    ensures
        span_of(a) <= span_of(b),
{
}

/// A scan has one path: of two places it comes to, the earlier leads to the
/// later.
proof fn lemma_reaches_linear(b: Seq<u8>, bs: u32, seq: u64, end: int, p: int, m: int, q: int)
    requires
        reaches(b, bs, seq, end, p, m),
        reaches(b, bs, seq, end, p, q),
        m <= q,
    ensures
        reaches(b, bs, seq, end, m, q),
    decreases m - p,
{
    if p < m {
        let n = scan_next(b, bs, seq, end, p);
        lemma_reaches_forward(b, bs, seq, end, n, m);
        lemma_reaches_linear(b, bs, seq, end, n, m, q);
    }
}

proof fn lemma_reaches_forward(b: Seq<u8>, bs: u32, seq: u64, end: int, p: int, q: int)
    requires
        reaches(b, bs, seq, end, p, q),
    ensures
        p <= q,
{
}

/// One more scan step.
proof fn lemma_reaches_step(b: Seq<u8>, bs: u32, seq: u64, end: int, p: int, q: int)
    requires
        reaches(b, bs, seq, end, p, q),
        q + RECORD_HEADER_LEN <= end,
    ensures
        q < scan_next(b, bs, seq, end, q),
        reaches(b, bs, seq, end, p, scan_next(b, bs, seq, end, q)),
    decreases q - p,
{
    lemma_span_positive(u32_at(header_at(b, q), 16));
    let n = scan_next(b, bs, seq, end, q);
    assert(reaches(b, bs, seq, end, n, n));
    if p == q {
        assert(reaches(b, bs, seq, end, q, n));
    } else {
        let m = scan_next(b, bs, seq, end, p);
        lemma_reaches_step(b, bs, seq, end, m, q);
        lemma_reaches_forward(b, bs, seq, end, m, q);
    }
}

proof fn lemma_tiled_reaches(b: Seq<u8>, bs: u32, seq: u64, end: int, p: int, q: int)
    requires
        tiled(b, bs, seq, end, p, q),
    ensures
        reaches(b, bs, seq, end, p, q),
        p <= q,
    decreases q - p,
{
    if p < q {
        lemma_tiled_reaches(b, bs, seq, end, scan_next(b, bs, seq, end, p), q);
    }
}

proof fn lemma_tiled_step(b: Seq<u8>, bs: u32, seq: u64, end: int, p: int, q: int)
    requires
        tiled(b, bs, seq, end, p, q),
        good_at(b, bs, seq, end, q),
    ensures
        tiled(b, bs, seq, end, p, scan_next(b, bs, seq, end, q)),
    decreases q - p,
{
    lemma_span_positive(u32_at(header_at(b, q), 16));
    let n = scan_next(b, bs, seq, end, q);
    assert(tiled(b, bs, seq, end, n, n));
    if p == q {
        assert(tiled(b, bs, seq, end, q, n));
    } else {
        let m = scan_next(b, bs, seq, end, p);
        lemma_tiled_step(b, bs, seq, end, m, q);
    }
}

/// Whether a whole record stands at `p` rests on the bytes of that record.
proof fn lemma_good_frame(b: Seq<u8>, c: Seq<u8>, bs: u32, seq: u64, end: int, p: int)
    requires
        good_at(b, bs, seq, end, p),
        0 <= p,
        end <= b.len(),
        b.len() == c.len(),
        forall|i: int| p <= i < scan_next(b, bs, seq, end, p) ==> #[trigger] c[i] == b[i],
    ensures
        good_at(c, bs, seq, end, p),
        scan_next(c, bs, seq, end, p) == scan_next(b, bs, seq, end, p),
        header_at(c, p) == header_at(b, p),
        payload_at(c, p, u32_at(header_at(b, p), 16) as int) == payload_at(
            b,
            p,
            u32_at(header_at(b, p), 16) as int,
        ),
{
    let len = u32_at(header_at(b, p), 16);
    lemma_span_positive(len);
    assert(header_at(c, p) =~= header_at(b, p));
    assert(payload_at(c, p, len as int) =~= payload_at(b, p, len as int));
}

proof fn lemma_tiled_frame(b: Seq<u8>, c: Seq<u8>, bs: u32, seq: u64, end: int, p: int, q: int)
    requires
        tiled(b, bs, seq, end, p, q),
        0 <= p,
        end <= b.len(),
        b.len() == c.len(),
        forall|i: int| p <= i < q ==> #[trigger] c[i] == b[i],
    ensures
        tiled(c, bs, seq, end, p, q),
    decreases q - p,
{
    if p < q {
        let n = scan_next(b, bs, seq, end, p);
        lemma_tiled_reaches(b, bs, seq, end, n, q);
        lemma_good_frame(b, c, bs, seq, end, p);
        lemma_tiled_frame(b, c, bs, seq, end, n, q);
    }
}

proof fn lemma_scan_frame(b: Seq<u8>, c: Seq<u8>, bs: u32, seq: u64, end: int, p: int)
    requires
        0 <= p,
        end <= b.len(),
        b.len() == c.len(),
        forall|i: int| p <= i < end ==> #[trigger] c[i] == b[i],
    ensures
        good_at(c, bs, seq, end, p) == good_at(b, bs, seq, end, p),
        scan_next(c, bs, seq, end, p) == scan_next(b, bs, seq, end, p),
{
    if p + RECORD_HEADER_LEN <= end {
        assert(header_at(c, p) =~= header_at(b, p));
        let len = u32_at(header_at(b, p), 16);
        lemma_span_positive(len);
        if p + span_of(len) <= end {
            assert(payload_at(c, p, len as int) =~= payload_at(b, p, len as int));
        }
    }
}

proof fn lemma_reaches_frame(b: Seq<u8>, c: Seq<u8>, bs: u32, seq: u64, end: int, p: int, q: int)
    requires
        reaches(b, bs, seq, end, p, q),
        0 <= p,
        end <= b.len(),
        b.len() == c.len(),
        forall|i: int| p <= i < end ==> #[trigger] c[i] == b[i],
    ensures
        reaches(c, bs, seq, end, p, q),
    decreases q - p,
{
    if p < q {
        let n = scan_next(b, bs, seq, end, p);
        lemma_scan_frame(b, c, bs, seq, end, p);
        lemma_reaches_frame(b, c, bs, seq, end, n, q);
    }
}

proof fn lemma_seg_frame(b: Seq<u8>, c: Seq<u8>, sb: Superblock, seg: int)
    requires
        b.len() == c.len(),
        forall|i: int| seg_base(sb, seg) <= i < seg_base(sb, seg) + SECTOR_SIZE ==> #[trigger] c[i] == b[i],
        0 <= seg_base(sb, seg),
        seg_base(sb, seg) + SECTOR_SIZE <= b.len(),
    ensures
        seg_sector(c, sb, seg) == seg_sector(b, sb, seg),
{
    assert(seg_sector(c, sb, seg) =~= seg_sector(b, sb, seg));
}

proof fn lemma_readable_frame(b: Seq<u8>, c: Seq<u8>, sb: Superblock, h: BlockHash, loc: Location)
    requires
        b.len() == c.len(),
        loc.offset + span_of(loc.length) <= b.len(),
        forall|i: int| loc.offset <= i < loc.offset + span_of(loc.length) ==> #[trigger] c[i] == b[i],
    ensures
        readable(c, sb.block_size, h, loc) == readable(b, sb.block_size, h, loc),
        payload_at(c, loc.offset as int, loc.length as int) == payload_at(
            b,
            loc.offset as int,
            loc.length as int,
        ),
{
    lemma_span_positive(loc.length);
    assert(header_at(c, loc.offset as int) =~= header_at(b, loc.offset as int));
    assert(payload_at(c, loc.offset as int, loc.length as int) =~= payload_at(
        b,
        loc.offset as int,
        loc.length as int,
    ));
}

/// What touches nothing the index rests on changes no readable block, and
/// leaves the disk as good for a reopen as it was.
/// What a scan of a segment comes upon rests on the segment's bytes.
proof fn lemma_found_frame(b: Seq<u8>, c: Seq<u8>, sb: Superblock, h: BlockHash, seg: int, p: int)
    requires
        sound(sb, b.len() as int),
        b.len() == c.len(),
        found_at(b, sb, h, seg, p),
        forall|i: int| seg_base(sb, seg) <= i < seg_end(sb, seg) ==> #[trigger] c[i] == b[i],
    ensures
        found_at(c, sb, h, seg, p),
{
    let seq = seg_seq(b, sb, seg);
    let end = seg_end(sb, seg);
    let start = seg_base(sb, seg) + SECTOR_SIZE;
    lemma_segments(sb, b.len() as int, seg);
    lemma_seg_frame(b, c, sb, seg);
    lemma_good_frame(b, c, sb.block_size, seq, end, p);
    lemma_reaches_frame(b, c, sb.block_size, seq, end, start, p);
    assert(header_at(c, p) =~= header_at(b, p));
}

proof fn lemma_untouched(
    b: Seq<u8>,
    c: Seq<u8>,
    sb: Superblock,
    index: Map<BlockHash, Location>,
    free: Seq<u64>,
    open: Option<OpenSegment>,
)
    requires
        sound(sb, b.len() as int),
        index_placed(sb, index, free, open),
        open matches Some(o) ==> open_placed(sb, free, o),
        untouched(b, c, sb, index, open),
    ensures
        block_map(c, sb, index) == block_map(b, sb, index),
        disk_matches(b, sb, index, open) ==> disk_matches(c, sb, index, open),
{
    assert forall|h: BlockHash| #[trigger] index.contains_key(h) implies readable(
        c,
        sb.block_size,
        h,
        index[h],
    ) == readable(b, sb.block_size, h, index[h]) && payload_at(
        c,
        index[h].offset as int,
        index[h].length as int,
    ) == payload_at(b, index[h].offset as int, index[h].length as int) by {
        let loc = index[h];
        let seg = seg_of(sb, loc.offset as int);
        lemma_segments(sb, b.len() as int, seg);
        assert forall|i: int| loc.offset <= i < loc.offset + span_of(loc.length) implies #[trigger] c[i]
            == b[i] by {
            assert(kept_region(sb, open, seg, i));
        }
        lemma_readable_frame(b, c, sb, h, loc);
    }
    assert(block_map(c, sb, index) =~= block_map(b, sb, index));
    if disk_matches(b, sb, index, open) {
        assert(slot_sector(c, 0) =~= c.subrange(0, 2 * SECTOR_SIZE).subrange(0, SECTOR_SIZE as int));
        assert(slot_sector(b, 0) =~= b.subrange(0, 2 * SECTOR_SIZE).subrange(0, SECTOR_SIZE as int));
        assert(slot_sector(c, 1) =~= c.subrange(0, 2 * SECTOR_SIZE).subrange(SECTOR_SIZE as int, 2 * SECTOR_SIZE));
        assert(slot_sector(b, 1) =~= b.subrange(0, 2 * SECTOR_SIZE).subrange(SECTOR_SIZE as int, 2 * SECTOR_SIZE));
        assert forall|h: BlockHash| #[trigger] index.contains_key(h) implies entry_intact(
            c,
            sb,
            open,
            h,
            index[h],
        ) by {
            let loc = index[h];
            let seg = seg_of(sb, loc.offset as int);
            let start = seg_base(sb, seg) + SECTOR_SIZE;
            let end = seg_end(sb, seg);
            lemma_segments(sb, b.len() as int, seg);
            lemma_span_positive(loc.length);
            assert forall|i: int| kept_region(sb, open, seg, i) implies #[trigger] c[i] == b[i] by {}
            assert forall|i: int| loc.offset <= i < loc.offset + span_of(loc.length) implies #[trigger] c[i]
                == b[i] by {
                assert(kept_region(sb, open, seg, i));
            }
            assert forall|i: int| seg_base(sb, seg) <= i < start implies #[trigger] c[i] == b[i] by {
                assert(kept_region(sb, open, seg, i));
            }
            lemma_seg_frame(b, c, sb, seg);
            lemma_good_frame(b, c, sb.block_size, loc.seq, end, loc.offset as int);
            if open is Some && open->Some_0.index == seg {
                assert forall|i: int| start <= i < loc.offset implies #[trigger] c[i] == b[i] by {
                    assert(kept_region(sb, open, seg, i));
                }
                lemma_tiled_frame(b, c, sb.block_size, loc.seq, end, start, loc.offset as int);
            } else {
                assert forall|i: int| start <= i < end implies #[trigger] c[i] == b[i] by {
                    assert(kept_region(sb, open, seg, i));
                }
                lemma_reaches_frame(b, c, sb.block_size, loc.seq, end, start, loc.offset as int);
            }
        }
        if let Some(o) = open {
            let seg = o.index as int;
            lemma_segments(sb, b.len() as int, seg);
            lemma_seg_frame(b, c, sb, seg);
            lemma_tiled_frame(
                b,
                c,
                sb.block_size,
                o.seq,
                seg_end(sb, seg),
                seg_base(sb, seg) + SECTOR_SIZE,
                o.cursor as int,
            );
        }
    }
}

/// Closing the open segment changes nothing a reopen would find.
proof fn lemma_close_segment(b: Seq<u8>, sb: Superblock, index: Map<BlockHash, Location>, open: Option<OpenSegment>)
    requires
        disk_matches(b, sb, index, open),
    ensures
        disk_matches(b, sb, index, None),
{
    assert forall|h: BlockHash| #[trigger] index.contains_key(h) implies entry_intact(
        b,
        sb,
        None,
        h,
        index[h],
    ) by {
        let loc = index[h];
        let seg = seg_of(sb, loc.offset as int);
        assert(entry_intact(b, sb, open, h, loc));
        if open is Some && open->Some_0.index == seg {
            lemma_tiled_reaches(
                b,
                sb.block_size,
                loc.seq,
                seg_end(sb, seg),
                seg_base(sb, seg) + SECTOR_SIZE,
                loc.offset as int,
            );
        }
    }
}

/// The blocks an index makes readable.
pub open spec fn block_map(b: Seq<u8>, sb: Superblock, index: Map<BlockHash, Location>) -> Map<BlockHash, Seq<u8>> {
    Map::new(
        |h: BlockHash| index.contains_key(h) && readable(b, sb.block_size, h, index[h]),
        |h: BlockHash| payload_at(b, index[h].offset as int, index[h].length as int),
    )
}

/// The lower of two slots' anchors that is read: the valid one of the
/// highest generation, the first slot winning a tie.
pub open spec fn best_anchor(b: Seq<u8>, best: Option<Anchor>) -> bool {
    let first = b.subrange(ANCHOR_AREA_START as int, ANCHOR_AREA_START + SECTOR_SIZE);
    let second = b.subrange(ANCHOR_AREA_START + SECTOR_SIZE, ANCHOR_AREA_START + 2 * SECTOR_SIZE);
    match best {
        None => !anchor_valid(first) && !anchor_valid(second),
        Some(a) => if anchor_valid(first) && !(anchor_valid(second) && u64_at(second, 8) > u64_at(
            first,
            8,
        )) {
            anchor_reads(first, a)
        } else {
            anchor_valid(second) && anchor_reads(second, a)
        },
    }
}

/// Why a geometry cannot be laid out on a disk of `size` bytes, if it
/// cannot.
pub open spec fn geometry_fault(params: BrickParams, size: int) -> Option<FsError> {
    let start = WAL_AREA_START + params.wal_size;
    if params.block_size == 0 {
        Some(FsError::BadGeometry("block size must be non-zero"))
    } else if params.block_size as u64 % SECTOR_SIZE != 0 {
        Some(FsError::BadGeometry("block size must be a sector multiple"))
    } else if params.segment_size % SECTOR_SIZE != 0 {
        Some(FsError::BadGeometry("segment size must be a sector multiple"))
    } else if SECTOR_SIZE + span_of(params.block_size) > params.segment_size {
        Some(FsError::BadGeometry("a segment must hold its header and one maximal block"))
    } else if params.wal_holder && (params.wal_size % SECTOR_SIZE != 0 || params.wal_size < 2
        * SECTOR_SIZE) {
        Some(
            FsError::BadGeometry("the WAL area must be a sector multiple of at least two sectors"),
        )
    } else if !params.wal_holder && params.wal_size != 0 {
        Some(FsError::BadGeometry("only the WAL holder carries a WAL area"))
    } else if size - start < params.segment_size {
        Some(FsError::BadGeometry("disk too small for one segment"))
    } else {
        None
    }
}

/// The superblock a format writes.
pub open spec fn formatted(params: BrickParams, size: int) -> Superblock {
    Superblock {
        block_size: params.block_size,
        segment_size: params.segment_size,
        segment_area_start: (WAL_AREA_START + params.wal_size) as u64,
        segment_count: ((size - (WAL_AREA_START + params.wal_size)) / params.segment_size as int) as u64,
        generation: 1,
        wal_start: WAL_AREA_START,
        wal_size: params.wal_size,
        pool_uuid: params.pool_uuid,
        brick_uuid: params.brick_uuid,
        tier: params.tier,
        wal_holder: params.wal_holder,
    }
}

/// The anchor a fresh WAL holder starts from.
pub open spec fn first_anchor(a: Anchor, roster: Seq<RosterEntry>) -> bool {
    &&& a.generation == 1
    &&& a.wal_replay_offset == WAL_AREA_START
    &&& a.wal_replay_seq == 1
    &&& a.wal_epoch == 1
    &&& a.era == 1
    &&& a.manifest_hash@ == zeros(32)
    &&& a.roster@ == roster
}

/// A replay from the first anchor finds nothing in the ring.
pub open spec fn ring_unused(aux: Seq<u8>, wal_size: u64) -> bool {
    scan(aux, WAL_AREA_START as int, wal_size as int, WAL_AREA_START as int, 1, 1, 0) == Seq::<FrameView>::empty()
}

/// What a format writes: the superblock twice, no anchor or the first one,
/// and, for a WAL holder, a ring in which a replay finds nothing.
pub open spec fn laid_out(b: Seq<u8>, params: BrickParams, roster: Seq<RosterEntry>) -> bool {
    let sb = formatted(params, b.len() as int);
    let aux = b.subrange(0, sb.segment_area_start as int);
    &&& twinned(b, sb)
    &&& !params.wal_holder ==> best_anchor(aux, None)
    &&& params.wal_holder ==> exists|a: Anchor| #[trigger] first_anchor(a, roster) && best_anchor(aux, Some(a))
    &&& params.wal_holder ==> ring_unused(aux, params.wal_size)
}

/// Where what a format writes ends: before the ring, or after the ring's
/// first sector.
pub open spec fn laid_up_to(params: BrickParams) -> int {
    if params.wal_holder {
        WAL_AREA_START + SECTOR_SIZE
    } else {
        WAL_AREA_START as int
    }
}

/// A format leaves everything behind that alone.
pub open spec fn left_behind(before: Seq<u8>, after: Seq<u8>, params: BrickParams) -> bool {
    forall|i: int| laid_up_to(params) <= i < before.len() ==> #[trigger] after[i] == before[i]
}

/// Whether the roster names this brick.
pub open spec fn rostered(roster: Seq<RosterEntry>, params: BrickParams) -> bool {
    exists|i: int|
        0 <= i < roster.len() && (#[trigger] roster[i]).brick_uuid == params.brick_uuid
            && roster[i].tier == params.tier
}

pub struct Brick<D: Disk> {
    disk: D,
    sb: Superblock,
    /// Where each block lives.
    index: BlockTable<Location>,
    /// Segments with nothing in them.
    free: Vec<u64>,
    /// The highest incarnation any segment has had.
    max_seq: u64,
    open: Option<OpenSegment>,
    /// Segments kept back for collection.
    reserve: u64,
    reserve_open: bool,
    /// What puts have promised: each address handed out with the payload it
    /// was handed out for.
    claims: Ghost<Set<(BlockHash, Seq<u8>)>>,
}

impl<D: Disk> Brick<D> {
    /// The in-memory state fits the geometry, and the geometry the disk.
    pub closed spec fn inv(&self) -> bool {
        &&& self.disk.bytes().len() <= u64::MAX
        &&& self.disk.valid()
        &&& sound(self.sb, self.disk.bytes().len() as int)
        &&& self.index.wf()
        &&& index_placed(self.sb, self.index@, self.free@, self.open)
        &&& self.open matches Some(o) ==> open_placed(self.sb, self.free@, o)
        &&& self.free@.no_duplicates()
        &&& forall|i: int| 0 <= i < self.free@.len() ==> #[trigger] self.free@[i] < self.sb.segment_count
        &&& self.reserve == reserve_of(self.sb.segment_count)
        &&& forall|h: BlockHash, p: Seq<u8>| #[trigger] self.claims@.contains((h, p)) ==> self.index@.contains_key(h)
    }

    /// Each address a put has handed out and that is still held, with the
    /// payload it was handed out for.
    pub closed spec fn claims(&self) -> Set<(BlockHash, Seq<u8>)> {
        self.claims@
    }

    /// Where a held address lives.
    pub closed spec fn location(&self, h: BlockHash) -> Location {
        self.index@[h]
    }

    /// Everything but the segments and what they hold is as in `before`.
    pub open spec fn same_shape(&self, before: &Self) -> bool {
        &&& self.inv()
        &&& self.superblock() == before.superblock()
        &&& self.reliable() == before.reliable()
        &&& self.disk_bytes().len() == before.disk_bytes().len()
        &&& self.aux() == before.aux()
        &&& self.calm(before)
        &&& self.reserve_is_open() == before.reserve_is_open()
    }

    /// The same blocks are held and read back as in `before`.
    pub open spec fn same_blocks(&self, before: &Self) -> bool {
        &&& self.same_shape(before)
        &&& self.held() == before.held()
        &&& self.blocks() == before.blocks()
        &&& self.claims() == before.claims()
        &&& before.intact() ==> self.intact()
    }

    pub closed spec fn superblock(&self) -> Superblock {
        self.sb
    }

    /// Every address the index knows.
    pub closed spec fn held(&self) -> Set<BlockHash> {
        self.index@.dom()
    }

    /// The blocks a read can produce.
    pub closed spec fn blocks(&self) -> Map<BlockHash, Seq<u8>> {
        block_map(self.disk.bytes(), self.sb, self.index@)
    }

    /// The disk's bytes before the segment area.
    pub closed spec fn aux(&self) -> Seq<u8> {
        self.disk.bytes().subrange(0, self.sb.segment_area_start as int)
    }

    /// Everything a read of the disk sees.
    pub closed spec fn disk_bytes(&self) -> Seq<u8> {
        self.disk.bytes()
    }

    /// The disk fails on nothing but a range out of bounds.
    pub closed spec fn reliable(&self) -> bool {
        self.disk.faultless()
    }

    /// A byte of the disk that what is held rests on.
    pub closed spec fn rests(&self, i: int) -> bool {
        rests_on(self.sb, self.index@, self.open, i)
    }

    /// A byte of the disk that puts and ring or anchor writes may write to.
    pub closed spec fn roams(&self, i: int) -> bool {
        room_at(self.sb, self.free@, self.open, i)
    }

    /// What a power loss would leave of the disk.
    pub closed spec fn settled(&self) -> Seq<u8> {
        self.disk.durable()
    }

    /// A byte of the disk whose fate a power loss decides.
    pub closed spec fn risks(&self, i: int) -> bool {
        self.disk.at_risk(i)
    }

    /// How often a flush of the disk was called for.
    pub closed spec fn barriers(&self) -> u64 {
        self.disk.barriers()
    }

    /// Everything a read sees is on stable storage.
    pub open spec fn durable(&self) -> bool {
        self.settled() == self.disk_bytes() && forall|i: int| !#[trigger] self.risks(i)
    }

    /// No byte before the segment area is newly at risk.
    pub open spec fn calm(&self, before: &Self) -> bool {
        forall|i: int| i < before.superblock().segment_area_start && #[trigger] self.risks(i) ==> before.risks(i)
    }

    /// No byte before the segment area is newly at risk, but for `len` bytes
    /// at `at`.
    pub open spec fn calm_but(&self, before: &Self, at: int, len: int) -> bool {
        forall|i: int| i < before.superblock().segment_area_start && !(at <= i < at + len) && #[trigger] self.risks(i) ==> before.risks(i)
    }

    /// Nothing outside the room there was in `before` has changed, is newly
    /// at risk, or has become room.
    pub open spec fn kept_to_room(&self, before: &Self) -> bool {
        &&& self.disk_bytes().len() == before.disk_bytes().len()
        &&& forall|i: int| !#[trigger] before.roams(i) ==> {
            &&& !self.roams(i)
            &&& self.risks(i) ==> before.risks(i)
            &&& 0 <= i < self.disk_bytes().len() ==> self.disk_bytes()[i] == before.disk_bytes()[i]
        }
    }

    /// Every byte that what `base` holds rests on is as it was there, is not
    /// at risk, and is no room for later writes.
    pub open spec fn guards(&self, base: &Self) -> bool {
        &&& self.superblock() == base.superblock()
        &&& self.disk_bytes().len() == base.disk_bytes().len()
        &&& forall|i: int| #[trigger] base.rests(i) ==> !self.roams(i) && !self.risks(i) && self.disk_bytes()[i] == base.disk_bytes()[i]
    }

    /// No byte that what is held rests on is at risk.
    pub open spec fn at_rest(&self) -> bool {
        forall|i: int| #[trigger] self.rests(i) ==> !self.risks(i)
    }

    /// These addresses are all held in some intact state of this brick that
    /// it still guards.
    pub open spec fn secures(&self, addresses: Set<BlockHash>) -> bool {
        exists|base: Self| #[trigger] self.guards(&base) && base.inv() && base.intact() && addresses.subset_of(base.held())
    }

    /// An image of the disk that a power loss may leave.
    pub open spec fn may_leave(&self, image: Seq<u8>) -> bool {
        &&& image.len() == self.disk_bytes().len()
        &&& forall|i: int| 0 <= i < image.len() && !#[trigger] self.risks(i) ==> image[i] == self.disk_bytes()[i]
    }

    /// This brick is what an open found on a disk that a power loss left of
    /// `before`'s.
    pub open spec fn came_back(&self, before: &Self) -> bool {
        &&& self.inv()
        &&& self.intact()
        &&& before.may_leave(self.disk_bytes())
        &&& best_superblock(self.disk_bytes(), self.superblock())
        &&& forall|h: BlockHash| #[trigger] self.held().contains(h) <==> record_present(self.disk_bytes(), self.superblock(), h)
    }

    /// A disk image that agrees with this brick's disk on every byte that
    /// what is held rests on.
    pub open spec fn spared_by(&self, image: Seq<u8>) -> bool {
        &&& image.len() == self.disk_bytes().len()
        &&& forall|i: int| #[trigger] self.rests(i) ==> image[i] == self.disk_bytes()[i]
    }

    /// A reopen would find at least what is held.
    pub closed spec fn intact(&self) -> bool {
        disk_matches(self.disk.bytes(), self.sb, self.index@, self.open)
    }

    /// Both superblock slots on the disk are this brick's.
    pub open spec fn has_twin(&self) -> bool {
        twinned(self.disk_bytes(), self.superblock())
    }

    /// The free segments.
    pub closed spec fn free_list(&self) -> Seq<u64> {
        self.free@
    }

    pub closed spec fn reserve_is_open(&self) -> bool {
        self.reserve_open
    }

    /// The segment that takes the next record, if one is open.
    pub closed spec fn writing(&self) -> Option<OpenSegment> {
        self.open
    }

    /// The highest incarnation any segment has had.
    pub closed spec fn last_seq(&self) -> u64 {
        self.max_seq
    }

    /// The open segment takes a record of `len` payload bytes.
    pub open spec fn fits_open(&self, len: nat) -> bool {
        self.writing() matches Some(o) && o.cursor + span_of(len as u32) <= seg_end(
            self.superblock(),
            o.index as int,
        )
    }

    /// A new segment may be opened.
    pub open spec fn may_open(&self) -> bool {
        &&& self.free_list().len() > (if self.reserve_is_open() { 0 } else { reserve_of(self.superblock().segment_count) as int })
        &&& self.last_seq() < u64::MAX
    }

    /// The same room as in `before`.
    pub open spec fn same_room(&self, before: &Self) -> bool {
        &&& self.free_list() == before.free_list()
        &&& self.writing() == before.writing()
        &&& self.last_seq() == before.last_seq()
    }

    /// Nothing has been written.
    pub open spec fn same_disk(&self, before: &Self) -> bool {
        &&& self.disk_bytes() == before.disk_bytes()
        &&& forall|i: int| #[trigger] self.risks(i) == before.risks(i)
    }

    /// The lowest free segment was opened, and its first `cursor` bytes are
    /// taken.
    pub open spec fn opened_lowest(&self, before: &Self, cursor: int) -> bool {
        exists|at: int| #[trigger] lowest_at(before.free_list(), at) && {
            &&& self.free_list() == before.free_list().remove(at)
            &&& self.last_seq() == before.last_seq() + 1
            &&& self.writing() matches Some(o) && o.index == before.free_list()[at] && o.seq == self.last_seq()
                && o.cursor == seg_base(self.superblock(), o.index as int) + cursor
        }
    }

    /// The room that is left once a record of `len` payload bytes was taken
    /// in: the open segment is fuller, or the lowest free one was opened.
    pub open spec fn took_record(&self, before: &Self, len: nat) -> bool {
        if before.fits_open(len) {
            &&& self.free_list() == before.free_list()
            &&& self.last_seq() == before.last_seq()
            &&& self.writing() == Some(
                OpenSegment { cursor: (before.writing()->Some_0.cursor + span_of(len as u32)) as u64, ..before.writing()->Some_0 },
            )
        } else {
            self.opened_lowest(before, SECTOR_SIZE + span_of(len as u32))
        }
    }

    /// The room that is left where a record was refused: no segment is lost
    /// but to a disk that failed after one was taken from the free list.
    pub open spec fn kept_room(&self, before: &Self, len: nat) -> bool {
        ||| self.same_room(before)
        ||| !before.fits_open(len) && self.free_list() == before.free_list() && self.last_seq() == before.last_seq() && self.writing() is None
        ||| !before.fits_open(len) && !before.reliable() && exists|at: int| #[trigger]
            lowest_at(before.free_list(), at) && self.free_list() == before.free_list().remove(at)
    }

    /// What `held`, `blocks` and the rest say of one another.
    pub proof fn lemma_model(&self)
        requires
            self.inv(),
        ensures
            self.held().finite(),
            self.free_list().no_duplicates(),
            forall|i: int| 0 <= i < self.free_list().len() ==> #[trigger] self.free_list()[i] < self.superblock().segment_count,
            forall|h: BlockHash| #[trigger] self.held().contains(h) ==> !self.free_list().contains(
                seg_of(self.superblock(), self.location(h).offset as int) as u64,
            ),
            self.blocks().dom().subset_of(self.held()),
            sound(self.superblock(), self.disk_bytes().len() as int),
            self.aux() == self.disk_bytes().subrange(0, self.superblock().segment_area_start as int),
            self.aux().len() == self.superblock().segment_area_start,
            forall|h: BlockHash, p: Seq<u8>| #[trigger] self.claims().contains((h, p)) ==> self.held().contains(h),
            forall|h: BlockHash| #[trigger] self.blocks().contains_key(h) ==> address_of(self.blocks()[h]) == h
                && 0 < self.blocks()[h].len() <= self.superblock().block_size,
    {
        self.index.lemma_listing();
        assert(self.blocks().dom().subset_of(self.held()));
        lemma_segments(self.sb, self.disk.bytes().len() as int, 0);
        assert forall|h: BlockHash| #[trigger] self.blocks().contains_key(h) implies address_of(self.blocks()[h]) == h
                && 0 < self.blocks()[h].len() <= self.superblock().block_size by {
            let loc = self.index@[h];
            let seg = seg_of(self.sb, loc.offset as int);
            lemma_segments(self.sb, self.disk.bytes().len() as int, seg);
            lemma_span_positive(loc.length);
        }
    }

    /// Lay a brick out on a disk. The result is an empty store, rostering
    /// itself when it holds the WAL.
    pub fn format(disk: D, params: BrickParams) -> (r: Result<Brick<D>>)
        requires
            disk.valid(),
        ensures
            geometry_fault(params, disk.bytes().len() as int) matches Some(e) ==> r == Err::<
                Brick<D>,
                FsError,
            >(e),
            geometry_fault(params, disk.bytes().len() as int) is None && disk.faultless() ==> r is Ok,
            r matches Ok(brick) ==> brick.is_fresh(params, disk, seq![RosterEntry {
                brick_uuid: params.brick_uuid,
                tier: params.tier,
            }]),
            params.wal_holder && params.tier == 0 ==> (r matches Ok(brick) ==> brick.fresh_alone()),
    {
        let mut roster: Vec<RosterEntry> = Vec::new();
        roster.push(RosterEntry { brick_uuid: params.brick_uuid, tier: params.tier });
        assert(roster@ =~= seq![RosterEntry { brick_uuid: params.brick_uuid, tier: params.tier }]);
        Self::format_inner(disk, params, roster)
    }

    /// The brick was laid out by itself, and nothing has happened to it: a
    /// WAL holder that holds nothing, with a ring as its first anchor says.
    pub open spec fn fresh_alone(&self) -> bool {
        let entry = RosterEntry { brick_uuid: self.superblock().brick_uuid, tier: self.superblock().tier };
        &&& self.superblock().wal_holder
        &&& self.superblock().tier == 0
        &&& self.held() == Set::<BlockHash>::empty()
        &&& self.claims() == Set::<(BlockHash, Seq<u8>)>::empty()
        &&& ring_unused(self.aux(), self.superblock().wal_size)
        &&& exists|a: Anchor| #[trigger] first_anchor(a, seq![entry]) && best_anchor(self.aux(), Some(a))
    }

    /// The state a format leaves.
    pub open spec fn is_fresh(&self, params: BrickParams, disk: D, roster: Seq<RosterEntry>) -> bool {
        &&& self.inv()
        &&& self.intact()
        &&& self.reliable() == disk.faultless()
        &&& self.durable()
        &&& self.disk_bytes().len() == disk.bytes().len()
        &&& self.writing() is None
        &&& self.last_seq() == 0
        &&& self.superblock() == formatted(params, disk.bytes().len() as int)
        &&& self.has_twin()
        &&& left_behind(disk.bytes(), self.disk_bytes(), params)
        &&& self.held() == Set::<BlockHash>::empty()
        &&& self.blocks() == Map::<BlockHash, Seq<u8>>::empty()
        &&& self.free_list() == Seq::new(
            formatted(params, disk.bytes().len() as int).segment_count as nat,
            |i: int| i as u64,
        )
        &&& !self.reserve_is_open()
        &&& self.claims() == Set::<(BlockHash, Seq<u8>)>::empty()
        &&& !params.wal_holder ==> best_anchor(self.aux(), None)
        &&& params.wal_holder ==> exists|a: Anchor| #[trigger] first_anchor(a, roster) && best_anchor(self.aux(), Some(a))
        &&& params.wal_holder ==> ring_unused(self.aux(), params.wal_size)
        &&& self.barriers() == counted(disk.barriers())
    }

    /// Where no segment on the disk carried this brick's header, a reopen of
    /// a fresh brick finds nothing either.
    pub proof fn law_a_fresh_brick_reopens_empty(&self, params: BrickParams, disk: D, roster: Seq<RosterEntry>, h: BlockHash)
        requires
            self.is_fresh(params, disk, roster),
            forall|seg: int| 0 <= seg < self.superblock().segment_count ==> !#[trigger] seg_live(disk.bytes(), self.superblock(), seg),
        ensures
            !record_present(self.disk_bytes(), self.superblock(), h),
    {
        let (b, c) = (disk.bytes(), self.disk_bytes());
        if record_present(c, self.sb, h) {
            let (seg, p) = choose|seg: int, p: int| found_at(c, self.sb, h, seg, p);
            lemma_segments(self.sb, c.len() as int, seg);
            assert(!seg_live(b, self.sb, seg));
            assert forall|i: int| seg_base(self.sb, seg) <= i < seg_base(self.sb, seg) + SECTOR_SIZE implies #[trigger] c[i] == b[i] by {}
            assert(seg_sector(c, self.sb, seg) =~= seg_sector(b, self.sb, seg));
        }
    }

    /// A format whose anchor names a whole brick set.
    pub fn format_rostered(disk: D, params: BrickParams, roster: Vec<RosterEntry>) -> (r: Result<
        Brick<D>,
    >)
        requires
            disk.valid(),
        ensures
            !params.wal_holder ==> r == Err::<Brick<D>, FsError>(
                FsError::BrickSetMismatch(
                    "only the WAL holder writes the anchor its roster lives in",
                ),
            ),
            params.wal_holder && !rostered(roster@, params) ==> r == Err::<Brick<D>, FsError>(
                FsError::BrickSetMismatch("a holder's roster must name the holder itself"),
            ),
            params.wal_holder && rostered(roster@, params) && roster@.len() > ROSTER_CAP ==> r
                == Err::<Brick<D>, FsError>(
                FsError::BrickSetMismatch("more bricks than one node's anchor can roster"),
            ),
            params.wal_holder && rostered(roster@, params) && roster@.len() <= ROSTER_CAP ==> {
                &&& geometry_fault(params, disk.bytes().len() as int) matches Some(e) ==> r == Err::<
                    Brick<D>,
                    FsError,
                >(e)
                &&& geometry_fault(params, disk.bytes().len() as int) is None && disk.faultless()
                    ==> r is Ok
                &&& r matches Ok(brick) ==> brick.is_fresh(params, disk, roster@)
            },
    {
        if !params.wal_holder {
            return Err(
                FsError::BrickSetMismatch(
                    "only the WAL holder writes the anchor its roster lives in",
                ),
            );
        }
        let mut named = false;
        let mut i: usize = 0;
        while i < roster.len()
            invariant
                i <= roster@.len(),
                named <==> exists|k: int|
                    0 <= k < i && (#[trigger] roster@[k]).brick_uuid == params.brick_uuid
                        && roster@[k].tier == params.tier,
            decreases roster@.len() - i,
        {
            if same16(&roster[i].brick_uuid, &params.brick_uuid) && roster[i].tier == params.tier {
                named = true;
            }
            i += 1;
        }
        if !named {
            return Err(
                FsError::BrickSetMismatch("a holder's roster must name the holder itself"),
            );
        }
        if roster.len() > ROSTER_CAP {
            return Err(FsError::BrickSetMismatch("more bricks than one node's anchor can roster"));
        }
        Self::format_inner(disk, params, roster)
    }

    /// Write what makes a disk a brick. A geometry that is refused leaves the
    /// disk as it was; one that is not is written whole and flushed once.
    fn lay_out(disk: &mut D, params: BrickParams, roster: Vec<RosterEntry>) -> (r: Result<Superblock>)
        requires
            old(disk).valid(),
            roster@.len() <= ROSTER_CAP,
        ensures
            final(disk).valid(),
            final(disk).faultless() == old(disk).faultless(),
            final(disk).bytes().len() == old(disk).bytes().len() <= u64::MAX,
            geometry_fault(params, old(disk).bytes().len() as int) matches Some(e) ==> r == Err::<Superblock, FsError>(e) && *final(disk) == *old(disk),
            geometry_fault(params, old(disk).bytes().len() as int) is None && old(disk).faultless() ==> r is Ok,
            r matches Ok(sb) ==> {
                &&& sb == formatted(params, old(disk).bytes().len() as int)
                &&& sound(sb, old(disk).bytes().len() as int)
                &&& laid_out(final(disk).bytes(), params, roster@)
                &&& left_behind(old(disk).bytes(), final(disk).bytes(), params)
                &&& final(disk).durable() == final(disk).bytes()
                &&& forall|i: int| !#[trigger] final(disk).at_risk(i)
                &&& final(disk).barriers() == counted(old(disk).barriers())
            },
    {
        let size: u64 = disk.size();
        if params.block_size == 0 {
            return Err(FsError::BadGeometry("block size must be non-zero"));
        }
        if params.block_size as u64 % SECTOR_SIZE != 0 {
            return Err(FsError::BadGeometry("block size must be a sector multiple"));
        }
        if params.segment_size % SECTOR_SIZE != 0 {
            return Err(FsError::BadGeometry("segment size must be a sector multiple"));
        }
        let largest: u64 = record_span(params.block_size);
        if SECTOR_SIZE + largest > params.segment_size {
            return Err(
                FsError::BadGeometry("a segment must hold its header and one maximal block"),
            );
        }
        if params.wal_holder {
            if params.wal_size % SECTOR_SIZE != 0 || params.wal_size < 2 * SECTOR_SIZE {
                return Err(
                    FsError::BadGeometry(
                        "the WAL area must be a sector multiple of at least two sectors",
                    ),
                );
            }
        } else if params.wal_size != 0 {
            return Err(FsError::BadGeometry("only the WAL holder carries a WAL area"));
        }
        if size < WAL_AREA_START || size - WAL_AREA_START < params.wal_size || size - WAL_AREA_START
            - params.wal_size < params.segment_size {
            return Err(FsError::BadGeometry("disk too small for one segment"));
        }
        let segment_area_start: u64 = WAL_AREA_START + params.wal_size;
        let segment_count: u64 = (size - segment_area_start) / params.segment_size;
        proof {
            let area = size - segment_area_start;
            let s = params.segment_size as int;
            vstd::arithmetic::div_mod::lemma_fundamental_div_mod(area, s);
            assert(segment_count * s <= area) by (nonlinear_arith)
                requires
                    area == s * segment_count + area % s,
                    area % s >= 0,
            ;
            assert(segment_count > 0) by (nonlinear_arith)
                requires
                    area == s * segment_count + area % s,
                    area % s < s,
                    area >= s,
                    segment_count >= 0,
            ;
        }
        let sb = Superblock {
            block_size: params.block_size,
            segment_size: params.segment_size,
            segment_area_start,
            segment_count,
            generation: 1,
            wal_start: WAL_AREA_START,
            wal_size: params.wal_size,
            pool_uuid: params.pool_uuid,
            brick_uuid: params.brick_uuid,
            tier: params.tier,
            wal_holder: params.wal_holder,
        };
        assert(sound(sb, size as int));
        let mut sector = sb.encode();
        let ghost sb_bytes = sector@;
        pad_zeros(&mut sector, 4096);
        proof {
            lemma_superblock_layout(sb, zeros((4096 - sb_bytes.len()) as nat));
        }
        let ghost sb_sector = sector@;
        disk.write_at(0, sector.as_slice())?;
        disk.write_at(SECTOR_SIZE, sector.as_slice())?;
        let mut zero: Vec<u8> = Vec::new();
        pad_zeros(&mut zero, 4096);
        assert(zero@ =~= zeros(4096));
        disk.write_at(ANCHOR_AREA_START, zero.as_slice())?;
        disk.write_at(ANCHOR_AREA_START + SECTOR_SIZE, zero.as_slice())?;
        let ghost blanked = disk.bytes();
        proof {
            assert(slot_sector(blanked, 0) =~= sb_sector);
            assert(slot_sector(blanked, 1) =~= sb_sector);
            assert(blanked.subrange(ANCHOR_AREA_START as int, ANCHOR_AREA_START + SECTOR_SIZE) =~= zeros(4096));
            assert(blanked.subrange(ANCHOR_AREA_START + SECTOR_SIZE, ANCHOR_AREA_START + 2 * SECTOR_SIZE) =~= zeros(4096));
            lemma_zeros_hold_no_anchor();
        }
        let ghost roster_seq = roster@;
        if params.wal_holder {
            // What an earlier ring left must not be replayed.
            disk.write_at(WAL_AREA_START, zero.as_slice())?;
            let anchor = Anchor {
                generation: 1,
                wal_replay_offset: WAL_AREA_START,
                wal_replay_seq: 1,
                wal_epoch: 1,
                era: 1,
                manifest_hash: [0u8; 32],
                roster,
            };
            let mut anchor_sector = anchor.encode();
            let ghost encoded = anchor_sector@;
            pad_zeros(&mut anchor_sector, 4096);
            disk.write_at(Anchor::slot_offset(anchor.generation), anchor_sector.as_slice())?;
            proof {
                lemma_anchor_layout(anchor, zeros((4096 - encoded.len()) as nat));
                let b = disk.bytes();
                assert(b.subrange(ANCHOR_AREA_START as int, ANCHOR_AREA_START + SECTOR_SIZE) =~= zeros(4096));
                assert(b.subrange(ANCHOR_AREA_START + SECTOR_SIZE, ANCHOR_AREA_START + 2 * SECTOR_SIZE) =~= anchor_sector@);
                assert(anchor.manifest_hash@ =~= zeros(32));
                assert(first_anchor(anchor, roster_seq));
                let aux = b.subrange(0, segment_area_start as int);
                assert(aux.subrange(ANCHOR_AREA_START as int, ANCHOR_AREA_START + SECTOR_SIZE) =~= b.subrange(ANCHOR_AREA_START as int, ANCHOR_AREA_START + SECTOR_SIZE));
                assert(aux.subrange(ANCHOR_AREA_START + SECTOR_SIZE, ANCHOR_AREA_START + 2 * SECTOR_SIZE) =~= b.subrange(ANCHOR_AREA_START + SECTOR_SIZE, ANCHOR_AREA_START + 2 * SECTOR_SIZE));
                assert(best_anchor(aux, Some(anchor)));
                assert(slot_sector(b, 0) =~= sb_sector);
                assert(slot_sector(b, 1) =~= sb_sector);
                let ring = WAL_AREA_START as int;
                assert(aux.subrange(ring, ring + 8) =~= zeros(8));
                lemma_zeros_hold_no_frame(aux, ring, ring + params.wal_size, 1, 1);
                assert(ring_unused(aux, params.wal_size));
            }
        } else {
            proof {
                let b = disk.bytes();
                let aux = b.subrange(0, segment_area_start as int);
                assert(aux.subrange(ANCHOR_AREA_START as int, ANCHOR_AREA_START + SECTOR_SIZE) =~= b.subrange(ANCHOR_AREA_START as int, ANCHOR_AREA_START + SECTOR_SIZE));
                assert(aux.subrange(ANCHOR_AREA_START + SECTOR_SIZE, ANCHOR_AREA_START + 2 * SECTOR_SIZE) =~= b.subrange(ANCHOR_AREA_START + SECTOR_SIZE, ANCHOR_AREA_START + 2 * SECTOR_SIZE));
                assert(best_anchor(aux, None));
            }
        }
        disk.flush()?;
        proof {
            let b = disk.bytes();
            assert(sb == formatted(params, b.len() as int));
            assert(twinned(b, sb));
            assert(laid_out(b, params, roster_seq));
        }
        Ok(sb)
    }

    fn format_inner(mut disk: D, params: BrickParams, roster: Vec<RosterEntry>) -> (r: Result<
        Brick<D>,
    >)
        requires
            disk.valid(),
            roster@.len() <= ROSTER_CAP,
        ensures
            geometry_fault(params, disk.bytes().len() as int) matches Some(e) ==> r == Err::<
                Brick<D>,
                FsError,
            >(e),
            geometry_fault(params, disk.bytes().len() as int) is None && disk.faultless() ==> r is Ok,
            r matches Ok(brick) ==> brick.is_fresh(params, disk, roster@),
    {
        let sb = Self::lay_out(&mut disk, params, roster)?;
        let segment_count: u64 = sb.segment_count;
        let mut free: Vec<u64> = Vec::new();
        let mut segment: u64 = 0;
        while segment < segment_count
            invariant
                segment <= segment_count,
                free@ == Seq::new(segment as nat, |i: int| i as u64),
            decreases segment_count - segment,
        {
            free.push(segment);
            segment += 1;
            assert(free@ =~= Seq::new(segment as nat, |i: int| i as u64));
        }
        let brick = Brick {
            disk,
            sb,
            index: BlockTable::new(),
            free,
            max_seq: 0,
            open: None,
            reserve: reserve_segments(segment_count),
            reserve_open: false,
            claims: Ghost(Set::empty()),
        };
        proof {
            assert(brick.held() =~= Set::<BlockHash>::empty());
            assert(brick.blocks() =~= Map::<BlockHash, Seq<u8>>::empty());
            assert(best_superblock(brick.disk.bytes(), sb));
        }
        Ok(brick)
    }

    /// Open a brick: the best superblock says what it is, and a scan of
    /// every segment says what it holds.
    pub fn open(disk: D) -> (r: Result<Brick<D>>)
        requires
            disk.valid(),
        ensures
            r matches Ok(brick) ==> {
                &&& brick.inv()
                &&& brick.intact()
                &&& brick.disk_bytes() == disk.bytes()
                &&& brick.reliable() == disk.faultless()
                &&& best_superblock(disk.bytes(), brick.superblock())
                &&& !brick.reserve_is_open()
                &&& brick.claims() == Set::<(BlockHash, Seq<u8>)>::empty()
                &&& forall|h: BlockHash| #[trigger] brick.held().contains(h) <==> record_present(disk.bytes(), brick.superblock(), h)
                &&& forall|h: BlockHash| #[trigger] brick.held().contains(h) ==> found_last(
                    disk.bytes(),
                    brick.superblock(),
                    h,
                    brick.location(h),
                    brick.superblock().segment_count as int,
                )
                &&& brick.settled() == disk.durable()
                &&& forall|i: int| #[trigger] brick.risks(i) == disk.at_risk(i)
                &&& brick.free_list() == vacant(disk.bytes(), brick.superblock(), brick.superblock().segment_count as nat)
                &&& brick.writing() is None
                &&& brick.last_seq() == top_seq(disk.bytes(), brick.superblock(), brick.superblock().segment_count as nat)
            },
            disk.bytes().len() < SECTOR_SIZE ==> r == Err::<Brick<D>, FsError>(out_of_bounds(0, SECTOR_SIZE as nat, disk.bytes().len())),
            SECTOR_SIZE <= disk.bytes().len() < 2 * SECTOR_SIZE && disk.faultless() ==> r == Err::<Brick<D>, FsError>(
                out_of_bounds(SECTOR_SIZE, SECTOR_SIZE as nat, disk.bytes().len()),
            ),
            disk.bytes().len() >= 2 * SECTOR_SIZE && disk.faultless() ==> open_verdict(disk.bytes(), r),
    {
        let size: u64 = disk.size();
        let first = read_vec(&disk, 0, 4096)?;
        let second = read_vec(&disk, SECTOR_SIZE, 4096)?;
        assert(first@ =~= slot_sector(disk.bytes(), 0));
        assert(second@ =~= slot_sector(disk.bytes(), 1));
        let first = Superblock::decode(first.as_slice());
        let second = Superblock::decode(second.as_slice());
        let sb = match (first, second) {
            (Ok(Some(a)), Ok(Some(b))) => if b.generation > a.generation {
                b
            } else {
                a
            },
            (Ok(Some(a)), _) => a,
            (_, Ok(Some(b))) => b,
            (_, Err(e)) => {
                return Err(e);
            },
            (Err(e), _) => {
                return Err(e);
            },
            _ => {
                return Err(FsError::NotFormatted);
            },
        };
        assert(best_superblock(disk.bytes(), sb));
        proof {
            lemma_best_superblock_unique(disk.bytes());
        }
        match check_geometry(&sb, size) {
            Ok(()) => {},
            Err(e) => {
                return Err(e);
            },
        }
        let segment_count: u64 = sb.segment_count;
        let mut brick = Brick {
            disk,
            sb,
            index: BlockTable::new(),
            free: Vec::new(),
            max_seq: 0,
            open: None,
            reserve: reserve_segments(segment_count),
            reserve_open: false,
            claims: Ghost(Set::empty()),
        };
        let ghost b = disk.bytes();
        let ghost image = sb;
        let mut segment: u64 = 0;
        while segment < segment_count
            invariant
                segment <= segment_count == brick.sb.segment_count,
                brick.inv(),
                brick.intact(),
                brick.open is None,
                brick.sb == image,
                brick.disk == disk,
                disk.bytes() == b,
                !brick.reserve_open,
                brick.claims@ == Set::<(BlockHash, Seq<u8>)>::empty(),
                forall|k: int| 0 <= k < brick.free@.len() ==> #[trigger] brick.free@[k] < segment,
                forall|h: BlockHash| #[trigger] brick.index@.contains_key(h) ==> seg_of(image, brick.index@[h].offset as int) < segment,
                forall|h: BlockHash| #[trigger] brick.index@.contains_key(h) <==> found_below(b, image, h, segment as int),
                forall|h: BlockHash| #[trigger] brick.index@.contains_key(h) ==> found_last(b, image, h, brick.index@[h], segment as int),
                brick.free@ == vacant(b, image, segment as nat),
                brick.max_seq == top_seq(b, image, segment as nat),
                best_superblock(b, image),
                sound(image, b.len() as int),
            decreases segment_count - segment,
        {
            match brick.recover_segment(segment) {
                Ok(()) => {},
                Err(e) => {
                    return Err(e);
                },
            }
            segment += 1;
        }
        proof {
            assert forall|h: BlockHash| found_below(b, image, h, segment as int) == record_present(b, image, h) by {
                if record_present(b, image, h) {
                    let (seg, p) = choose|seg: int, p: int| found_at(b, image, h, seg, p);
                    assert(found_at(b, image, h, seg, p));
                    assert(found_below(b, image, h, segment as int));
                }
            }
        }
        Ok(brick)
    }

    /// Index every whole record that a scan of one segment comes upon; a
    /// segment with none is free.
    #[verifier::rlimit(40)]
    fn recover_segment(&mut self, segment: u64) -> (r: Result<()>)
        requires
            old(self).inv(),
            old(self).intact(),
            old(self).open is None,
            segment < old(self).sb.segment_count,
            forall|k: int| 0 <= k < old(self).free@.len() ==> #[trigger] old(self).free@[k] < segment,
            forall|h: BlockHash| #[trigger] old(self).index@.contains_key(h) ==> seg_of(old(self).sb, old(self).index@[h].offset as int) < segment,
            forall|h: BlockHash| #[trigger] old(self).index@.contains_key(h) <==> found_below(old(self).disk.bytes(), old(self).sb, h, segment as int),
            forall|h: BlockHash| #[trigger] old(self).index@.contains_key(h) ==> found_last(
                old(self).disk.bytes(),
                old(self).sb,
                h,
                old(self).index@[h],
                segment as int,
            ),
        ensures
            final(self).disk == old(self).disk,
            final(self).sb == old(self).sb,
            final(self).reserve_open == old(self).reserve_open,
            final(self).claims == old(self).claims,
            final(self).disk.faultless() ==> r is Ok,
            r is Ok ==> {
                &&& final(self).inv()
                &&& final(self).intact()
                &&& final(self).open is None
                &&& final(self).free@ == if seg_holds_any(final(self).disk.bytes(), final(self).sb, segment as int) {
                    old(self).free@
                } else {
                    old(self).free@.push(segment)
                }
                &&& final(self).max_seq == if seg_live(final(self).disk.bytes(), final(self).sb, segment as int) && seg_seq(
                    final(self).disk.bytes(),
                    final(self).sb,
                    segment as int,
                ) > old(self).max_seq {
                    seg_seq(final(self).disk.bytes(), final(self).sb, segment as int)
                } else {
                    old(self).max_seq
                }
                &&& forall|k: int| 0 <= k < final(self).free@.len() ==> #[trigger] final(self).free@[k] < segment + 1
                &&& forall|h: BlockHash| #[trigger] final(self).index@.contains_key(h) ==> seg_of(final(self).sb, final(self).index@[h].offset as int) < segment + 1
                &&& forall|h: BlockHash| #[trigger] final(self).index@.contains_key(h) <==> found_below(final(self).disk.bytes(), final(self).sb, h, segment + 1)
                &&& forall|h: BlockHash| #[trigger] final(self).index@.contains_key(h) ==> found_last(
                    final(self).disk.bytes(),
                    final(self).sb,
                    h,
                    final(self).index@[h],
                    segment + 1,
                )
            },
    {
        let ghost b = self.disk.bytes();
        let ghost sb = self.sb;
        let ghost seg = segment as int;
        let ghost size = b.len() as int;
        proof {
            lemma_segments(sb, size, seg);
        }
        let base: u64 = self.sb.segment_offset(segment);
        let sector = read_vec(&self.disk, base, 4096)?;
        assert(sector@ =~= seg_sector(b, sb, seg));
        let header = match SegmentHeader::decode(sector.as_slice(), segment, &self.sb.brick_uuid) {
            Some(header) => header,
            None => {
                self.free.push(segment);
                proof {
                    assert forall|h: BlockHash| found_below(b, sb, h, seg) == found_below(b, sb, h, seg + 1) by {
                        if found_below(b, sb, h, seg + 1) {
                            let (s, p) = choose|s: int, p: int| s < seg + 1 && #[trigger] found_at(b, sb, h, s, p);
                            assert(s != seg);
                        }
                        if found_below(b, sb, h, seg) {
                            let (s, p) = choose|s: int, p: int| s < seg && #[trigger] found_at(b, sb, h, s, p);
                            assert(found_at(b, sb, h, s, p));
                        }
                    }
                    lemma_push_free(old(self).free@, segment);
                }
                return Ok(());
            },
        };
        let seq: u64 = header.seq;
        if seq > self.max_seq {
            self.max_seq = seq;
        }
        let end: u64 = base + self.sb.segment_size;
        let mut cursor: u64 = base + SECTOR_SIZE;
        let mut records: u64 = 0;
        let ghost bs = sb.block_size;
        let ghost start = seg_base(sb, seg) + SECTOR_SIZE;
        while end >= 64 && cursor <= end - 64
            invariant
                self.disk == old(self).disk,
                self.disk.valid(),
                self.disk.bytes() == b,
                b.len() == size,
                self.sb == sb,
                old(self).sb == sb,
                self.free == old(self).free,
                self.open is None,
                old(self).open is None,
                self.reserve == old(self).reserve,
                self.reserve_open == old(self).reserve_open,
                self.claims == old(self).claims,
                self.max_seq == if seq > old(self).max_seq { seq } else { old(self).max_seq },
                records > 0 ==> seg_holds_any(b, sb, seg),
                old(self).inv(),
                old(self).intact(),
                self.index.wf(),
                sound(sb, size),
                segment < sb.segment_count,
                seg == segment,
                bs == sb.block_size,
                base == seg_base(sb, seg),
                end == seg_end(sb, seg),
                end <= size <= u64::MAX,
                start == base + SECTOR_SIZE,
                start <= cursor,
                seg_live(b, sb, seg),
                seg_seq(b, sb, seg) == seq,
                reaches(b, bs, seq, end as int, start, cursor as int),
                records == 0 ==> self.index@ == old(self).index@,
                records <= cursor,
                forall|h: BlockHash| #[trigger] old(self).index@.contains_key(h) ==> seg_of(sb, old(self).index@[h].offset as int) < segment,
                forall|h: BlockHash| #[trigger] self.index@.contains_key(h) ==> (old(self).index@.contains_key(h) && self.index@[h] == old(self).index@[h]) || (
                    records > 0 && found_at(b, sb, h, seg, self.index@[h].offset as int) && self.index@[h].seq == seq
                    && self.index@[h].length == u32_at(header_at(b, self.index@[h].offset as int), 16)
                    && start <= self.index@[h].offset),
                forall|h: BlockHash| #[trigger] old(self).index@.contains_key(h) ==> self.index@.contains_key(h),
                forall|h: BlockHash, p: int| p < cursor && #[trigger] found_at(b, sb, h, seg, p) ==> self.index@.contains_key(h) && p <= self.index@[h].offset
                    && start <= self.index@[h].offset && found_at(b, sb, h, seg, self.index@[h].offset as int) && self.index@[h].seq == seq
                    && self.index@[h].length == u32_at(header_at(b, self.index@[h].offset as int), 16),
                records == 0 ==> forall|h: BlockHash, p: int| p < cursor ==> !#[trigger] found_at(b, sb, h, seg, p),
            decreases end - cursor,
        {
            let ghost here = cursor as int;
            let head = read_vec(&self.disk, cursor, 64)?;
            assert(head@ =~= header_at(b, here));
            let mut next: u64 = cursor;
            let ghost mut landed: Option<BlockHash> = None;
            let mut whole = false;
            match RecordHeader::decode(head.as_slice(), seq, self.sb.block_size) {
                Some(record) => {
                    let span: u64 = record_span(record.length);
                    if span <= end - cursor {
                        let payload = read_vec(&self.disk, cursor + 64, record.length as usize)?;
                        assert(payload@ =~= payload_at(b, here, record.length as int));
                        let hash = hash_block(payload.as_slice());
                        proof {
                            if hash.0@ == record.hash.0@ {
                                lemma_array_view_injective(hash.0, record.hash.0);
                            }
                        }
                        if hash.same(&record.hash) {
                            assert(good_at(b, bs, seq, end as int, here));
                            assert(found_at(b, sb, hash, seg, here));
                            self.index.insert(
                                record.hash,
                                Location { offset: cursor, length: record.length, seq },
                            );
                            proof {
                                landed = Some(hash);
                            }
                            records += 1;
                            next = cursor + span;
                            whole = true;
                        } else {
                            assert(!good_at(b, bs, seq, end as int, here));
                        }
                    } else {
                        assert(!good_at(b, bs, seq, end as int, here));
                    }
                },
                None => {
                    assert(!good_at(b, bs, seq, end as int, here));
                },
            }
            if !whole {
                proof {
                    lemma_sector_room(sb, seg, size, here, b, seq, start);
                }
                next = cursor + SECTOR_SIZE;
            }
            proof {
                lemma_reaches_step(b, bs, seq, end as int, start, here);
                assert(next == scan_next(b, bs, seq, end as int, here));
                assert forall|h: BlockHash, p: int| p < next && #[trigger] found_at(b, sb, h, seg, p) implies self.index@.contains_key(h) && (whole || p < here)
                    && p <= self.index@[h].offset && start <= self.index@[h].offset && found_at(b, sb, h, seg, self.index@[h].offset as int)
                    && self.index@[h].seq == seq && self.index@[h].length == u32_at(header_at(b, self.index@[h].offset as int), 16) by {
                    if p >= here {
                        lemma_reaches_linear(b, bs, seq, end as int, start, here, p);
                        if p > here {
                            lemma_reaches_forward(b, bs, seq, end as int, next as int, p);
                        }
                        assert(p == here);
                        assert(whole);
                        let k = landed->Some_0;
                        assert(found_at(b, sb, k, seg, here));
                        assert(header_at(b, here).subrange(24, 56) == h.0@);
                        lemma_array_view_injective(h.0, k.0);
                    }
                }
            }
            cursor = next;
        }
        proof {
            assert forall|h: BlockHash, p: int| #[trigger] found_at(b, sb, h, seg, p) implies p < cursor by {
                if p >= cursor {
                    lemma_reaches_linear(b, bs, seq, end as int, start, cursor as int, p);
                }
            }
            assert forall|h: BlockHash| #[trigger] self.index@.contains_key(h) <==> found_below(b, sb, h, seg + 1) by {
                if self.index@.contains_key(h) {
                    if old(self).index@.contains_key(h) {
                        assert(found_below(b, sb, h, seg));
                        let (s, p) = choose|s: int, p: int| s < seg && #[trigger] found_at(b, sb, h, s, p);
                        assert(found_at(b, sb, h, s, p));
                    } else {
                        assert(found_at(b, sb, h, seg, self.index@[h].offset as int));
                    }
                }
                if found_below(b, sb, h, seg + 1) {
                    let (s, p) = choose|s: int, p: int| s < seg + 1 && #[trigger] found_at(b, sb, h, s, p);
                    if s < seg {
                        assert(found_at(b, sb, h, s, p));
                        assert(found_below(b, sb, h, seg));
                        assert(old(self).index@.contains_key(h));
                    }
                }
            }
            assert forall|h: BlockHash| #[trigger] self.index@.contains_key(h) implies found_last(b, sb, h, self.index@[h], seg + 1) by {
                let loc = self.index@[h];
                if old(self).index@.contains_key(h) && loc == old(self).index@[h] {
                    assert(found_last(b, sb, h, loc, seg));
                    assert forall|s: int, p: int| s < seg + 1 && #[trigger] found_at(b, sb, h, s, p) implies s < seg_of(sb, loc.offset as int) || (s == seg_of(
                        sb,
                        loc.offset as int,
                    ) && p <= loc.offset) by {
                        if s == seg {
                            assert(found_at(b, sb, h, seg, loc.offset as int));
                            lemma_seg_of(sb, seg, loc.offset as int);
                        }
                    }
                } else {
                    assert(found_at(b, sb, h, seg, loc.offset as int));
                    lemma_seg_of(sb, seg, loc.offset as int);
                }
            }
            assert forall|h: BlockHash| #[trigger] self.index@.contains_key(h) implies placed(sb, self.index@[h])
                && entry_intact(b, sb, None, h, self.index@[h])
                && seg_of(sb, self.index@[h].offset as int) < segment + 1
                && (records == 0 ==> seg_of(sb, self.index@[h].offset as int) < segment)
                && !old(self).free@.contains(seg_of(sb, self.index@[h].offset as int) as u64) by {
                let loc = self.index@[h];
                if old(self).index@.contains_key(h) && loc == old(self).index@[h] {
                    assert(placed(sb, old(self).index@[h]));
                    assert(entry_intact(b, sb, old(self).open, h, loc));
                } else {
                    assert(found_at(b, sb, h, seg, loc.offset as int));
                    lemma_span_positive(loc.length);
                    lemma_seg_of(sb, seg, loc.offset as int);
                    lemma_found_readable(b, sb, h, seg, loc);
                }
            }
        }
        if records == 0 {
            self.free.push(segment);
            proof {
                lemma_push_free(old(self).free@, segment);
            }
        }
        Ok(())
    }
}

/// A scan of some segment before `below` comes upon `hash`.
pub open spec fn found_below(b: Seq<u8>, sb: Superblock, hash: BlockHash, below: int) -> bool {
    exists|seg: int, p: int| seg < below && #[trigger] found_at(b, sb, hash, seg, p)
}

proof fn lemma_push_free(free: Seq<u64>, segment: u64)
    requires
        free.no_duplicates(),
        forall|k: int| 0 <= k < free.len() ==> #[trigger] free[k] < segment,
    ensures
        free.push(segment).no_duplicates(),
        forall|x: u64| #[trigger] free.push(segment).contains(x) <==> free.contains(x) || x == segment,
        !free.contains(segment),
{
    assert forall|x: u64| #[trigger] free.push(segment).contains(x) implies free.contains(x) || x == segment by {
        let k = choose|k: int| 0 <= k < free.push(segment).len() && free.push(segment)[k] == x;
        if k < free.len() {
            assert(free[k] == x);
        }
    }
    assert forall|x: u64| free.contains(x) || x == segment implies #[trigger] free.push(segment).contains(x) by {
        if free.contains(x) {
            let k = choose|k: int| 0 <= k < free.len() && free[k] == x;
            assert(free.push(segment)[k] == x);
        } else {
            assert(free.push(segment)[free.len() as int] == x);
        }
    }
}

/// A record that a scan comes upon reads back.
proof fn lemma_found_readable(b: Seq<u8>, sb: Superblock, h: BlockHash, seg: int, loc: Location)
    requires
        found_at(b, sb, h, seg, loc.offset as int),
        loc.seq == seg_seq(b, sb, seg),
        loc.length == u32_at(header_at(b, loc.offset as int), 16),
    ensures
        readable(b, sb.block_size, h, loc),
        0 < loc.length <= sb.block_size,
{
    lemma_array_view_injective(
        blake3_256(payload_at(b, loc.offset as int, loc.length as int)),
        h.0,
    );
}

/// A scan inside a segment always has a whole sector before the end.
proof fn lemma_sector_room(sb: Superblock, seg: int, size: int, here: int, b: Seq<u8>, seq: u64, start: int)
    requires
        sound(sb, size),
        0 <= seg < sb.segment_count,
        start == seg_base(sb, seg) + SECTOR_SIZE,
        reaches(b, sb.block_size, seq, seg_end(sb, seg), start, here),
        here + RECORD_HEADER_LEN <= seg_end(sb, seg),
    ensures
        here + SECTOR_SIZE <= seg_end(sb, seg),
{
    lemma_reaches_aligned(b, sb.block_size, seq, seg_end(sb, seg), start, here);
    assert(seg_end(sb, seg) - start == sb.segment_size - SECTOR_SIZE);
    assert((here - start) % (SECTOR_SIZE as int) == 0);
    assert((seg_end(sb, seg) - start) % (SECTOR_SIZE as int) == 0);
}

proof fn lemma_reaches_aligned(b: Seq<u8>, bs: u32, seq: u64, end: int, p: int, q: int)
    requires
        reaches(b, bs, seq, end, p, q),
    ensures
        (q - p) % (SECTOR_SIZE as int) == 0,
    decreases q - p,
{
    if p < q {
        let n = scan_next(b, bs, seq, end, p);
        lemma_span_positive(u32_at(header_at(b, p), 16));
        lemma_reaches_aligned(b, bs, seq, end, n, q);
        assert((n - p) % (SECTOR_SIZE as int) == 0);
    }
}

proof fn lemma_zeros_hold_no_anchor()
    ensures
        !anchor_valid(zeros(4096)),
{
    vstd::bytes::lemma_auto_spec_u64_to_from_le_bytes();
    if u64_at(zeros(4096), 0) == crate::format::ANCHOR_MAGIC {
        let w = zeros(4096).subrange(0, 8);
        assert(w =~= zeros(8));
        vstd::bytes::spec_u64_to_le_bytes_to_open(crate::format::ANCHOR_MAGIC);
        assert(vstd::bytes::spec_u64_to_le_bytes(crate::format::ANCHOR_MAGIC) == w);
        assert(w[0] == 0);
        assert(((crate::format::ANCHOR_MAGIC & 0xff) as u8) == 0x4Cu8) by (bit_vector)
            requires crate::format::ANCHOR_MAGIC == 0x0000_434E_4153_464Cu64;
    }
}

/// A segment that is blank carries no header.
pub proof fn law_a_blank_segment_is_no_ones(b: Seq<u8>, sb: Superblock, seg: int)
    requires
        seg_sector(b, sb, seg) == zeros(4096),
    ensures
        !seg_live(b, sb, seg),
{
    vstd::bytes::lemma_auto_spec_u64_to_from_le_bytes();
    if u64_at(zeros(4096), 0) == crate::format::SEGMENT_MAGIC {
        let w = zeros(4096).subrange(0, 8);
        assert(w =~= zeros(8));
        vstd::bytes::spec_u64_to_le_bytes_to_open(crate::format::SEGMENT_MAGIC);
        assert(vstd::bytes::spec_u64_to_le_bytes(crate::format::SEGMENT_MAGIC) == w);
        assert(w[0] == 0);
        assert(((crate::format::SEGMENT_MAGIC & 0xff) as u8) == 0x4Cu8) by (bit_vector)
            requires crate::format::SEGMENT_MAGIC == 0x0000_4745_5353_464Cu64;
    }
}

/// No two superblocks are both the best of one disk.
pub proof fn lemma_best_superblock_unique(b: Seq<u8>)
    ensures
        forall|x: Superblock, y: Superblock| #![trigger best_superblock(b, x), best_superblock(b, y)] best_superblock(b, x) && best_superblock(b, y) ==> x == y,
{
    assert forall|x: Superblock, y: Superblock| #![trigger best_superblock(b, x), best_superblock(b, y)] best_superblock(b, x) && best_superblock(b, y) implies x == y by {
        lemma_array_view_injective(x.pool_uuid, y.pool_uuid);
        lemma_array_view_injective(x.brick_uuid, y.brick_uuid);
    }
}

/// Why a superblock's geometry is refused, if it is.
pub open spec fn mount_fault(sb: Superblock, size: int) -> Option<FsError> {
    if sb.segment_area_start + sb.segment_count * sb.segment_size > size {
        Some(FsError::BadGeometry("superblock geometry exceeds the disk"))
    } else if !sound(sb, size) {
        Some(FsError::BadGeometry("superblock geometry is not one a format lays out"))
    } else {
        None
    }
}

fn check_geometry(sb: &Superblock, size: u64) -> (r: Result<()>)
    ensures
        match mount_fault(*sb, size as int) {
            Some(e) => r == Err::<(), FsError>(e),
            None => r is Ok,
        },
{
    assert(sb.segment_count as int * sb.segment_size as int <= 0xFFFF_FFFF_FFFF_FFFF * 0xFFFF_FFFF_FFFF_FFFF) by (nonlinear_arith)
        requires
            0 <= sb.segment_count <= 0xFFFF_FFFF_FFFF_FFFF,
            0 <= sb.segment_size <= 0xFFFF_FFFF_FFFF_FFFF,
    ;
    let area: u128 = sb.segment_count as u128 * sb.segment_size as u128;
    if sb.segment_area_start as u128 + area > size as u128 {
        return Err(FsError::BadGeometry("superblock geometry exceeds the disk"));
    }
    let wal_ok = if sb.wal_holder {
        sb.wal_size % SECTOR_SIZE == 0 && sb.wal_size >= 2 * SECTOR_SIZE
    } else {
        sb.wal_size == 0
    };
    if sb.block_size > 0 && sb.block_size as u64 % SECTOR_SIZE == 0 && sb.segment_size % SECTOR_SIZE == 0 && SECTOR_SIZE + record_span(
        sb.block_size,
    ) <= sb.segment_size && sb.segment_count > 0 && sb.wal_start == WAL_AREA_START
        && sb.segment_area_start as u128 == WAL_AREA_START as u128 + sb.wal_size as u128 && wal_ok {
        Ok(())
    } else {
        Err(FsError::BadGeometry("superblock geometry is not one a format lays out"))
    }
}

/// What an open of a faultless disk comes to.
pub open spec fn open_verdict<D: Disk>(b: Seq<u8>, r: Result<Brick<D>>) -> bool {
    let (first, second) = (slot_sector(b, 0), slot_sector(b, 1));
    if superblock_valid(first) || superblock_valid(second) {
        exists|sb: Superblock| #[trigger] best_superblock(b, sb) && match mount_fault(sb, b.len() as int) {
            Some(e) => r == Err::<Brick<D>, FsError>(e),
            None => r is Ok,
        }
    } else if superblock_present(second) && u32_at(second, 8) != FORMAT_VERSION {
        r == Err::<Brick<D>, FsError>(FsError::UnsupportedVersion(u32_at(second, 8)))
    } else if superblock_present(first) && u32_at(first, 8) != FORMAT_VERSION {
        r == Err::<Brick<D>, FsError>(FsError::UnsupportedVersion(u32_at(first, 8)))
    } else {
        r == Err::<Brick<D>, FsError>(FsError::NotFormatted)
    }
}

} // verus!
