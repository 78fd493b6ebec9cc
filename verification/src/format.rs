//! The on-disk format: superblock, anchor, segment header, record header.
//!
//! Everything is fixed little-endian, and everything carries a digest of the
//! bytes before it: a structure that fails its digest does not exist.

use crate::codec::{
    get_16, get_32, get_u32, get_u64, lemma_array_view_injective, push_bytes, put_u32, put_u64, same_bytes, zeros,
    pad_zeros,
};
use crate::error::{FsError, Result};
use crate::hash::{blake3_256, full_check, header_check, header_digest, BlockHash};
use vstd::bytes::*;
use vstd::prelude::*;
use vstd::slice::*;

verus! {

/// The unit the layout aligns to.
pub const SECTOR_SIZE: u64 = 4096;

/// Two superblock copies, so one torn superblock write cannot orphan a brick.
pub const SUPERBLOCK_SLOTS: u64 = 2;

/// The format version this build writes and reads.
pub const FORMAT_VERSION: u32 = 2;

/// Two anchor copies right behind them, same reasoning.
pub const ANCHOR_SLOTS: u64 = 2;

/// `"LUMENFS\0"` as a little-endian word.
pub const SUPERBLOCK_MAGIC: u64 = 0x0053_464E_454D_554C;

/// `"LFSANC\0\0"` as a little-endian word.
pub const ANCHOR_MAGIC: u64 = 0x0000_434E_4153_464C;

/// `"LFSSEG\0\0"` as a little-endian word.
pub const SEGMENT_MAGIC: u64 = 0x0000_4745_5353_464C;

/// `"LFSBLK\0\0"` as a little-endian word.
pub const RECORD_MAGIC: u64 = 0x0000_4B4C_4253_464C;

/// Where the anchor slots begin: right after the superblock slots.
pub const ANCHOR_AREA_START: u64 = 8192;

/// Where the WAL area begins: right after the anchor slots. It ends where
/// the superblock says the segment area starts.
pub const WAL_AREA_START: u64 = 16384;

/// Encoded sizes. The structures occupy the front of their sector; the rest
/// is zeros.
pub const SUPERBLOCK_LEN: usize = 168;

pub const SEGMENT_HEADER_LEN: usize = 72;

pub const RECORD_HEADER_LEN: usize = 64;

/// How many bricks one anchor can name.
pub const ROSTER_CAP: usize = 128;

/// The `u32` at an offset.
pub open spec fn u32_at(b: Seq<u8>, at: int) -> u32 {
    spec_u32_from_le_bytes(b.subrange(at, at + 4))
}

/// The `u64` at an offset.
pub open spec fn u64_at(b: Seq<u8>, at: int) -> u64 {
    spec_u64_from_le_bytes(b.subrange(at, at + 8))
}

/// A prefix followed by its digest.
pub open spec fn sealed(body: Seq<u8>) -> Seq<u8> {
    body + blake3_256(body)@
}

/// The digest after the first `at` bytes is theirs.
pub open spec fn seal_holds(b: Seq<u8>, at: int) -> bool {
    blake3_256(b.subrange(0, at))@ == b.subrange(at, at + 32)
}

/// Whether `at` bytes are followed by their digest.
fn check_seal(buf: &[u8], at: usize) -> (ok: bool)
    requires
        at + 32 <= buf@.len(),
    ensures
        ok == seal_holds(buf@, at as int),
{
    let len: usize = buf.len();
    let check = full_check(slice_subrange(buf, 0, at));
    same_bytes(check.as_slice(), slice_subrange(buf, at, at + 32))
}

/// A flag as a byte.
pub open spec fn flag_byte(flag: bool) -> u8 {
    if flag {
        1
    } else {
        0
    }
}

// ---------------------------------------------------------------------
// Superblock

/// The brick's identity and geometry. Written at format time and thereafter
/// only when the geometry story changes (never, in this version).
///
/// Layout (little-endian):
/// ```text
///   0..8     magic "LUMENFS\0"
///   8..12    version                u32
///   12..16   block_size             u32   max payload bytes per block
///   16..24   segment_size           u64   bytes per segment, sector multiple
///   24..32   segment_area_start     u64
///   32..40   segment_count          u64
///   40..48   generation             u64   highest valid generation wins
///   48..56   wal_start              u64
///   56..64   wal_size               u64
///   64..80   pool_uuid              16 bytes
///   80..96   brick_uuid             16 bytes
///   96..128  checksum               BLAKE3 of bytes 0..96
///   128      tier                   u8
///   129      wal_holder             u8    0 or 1
///   130..136 pad
///   136..168 checksum               BLAKE3 of bytes 0..136
/// ```
///
/// The first checksum closes the part every version shares, so a brick of
/// another version is told apart from a blank disk.
#[derive(Debug, Clone, PartialEq, Eq)]
pub struct Superblock {
    pub block_size: u32,
    pub segment_size: u64,
    pub segment_area_start: u64,
    pub segment_count: u64,
    pub generation: u64,
    pub wal_start: u64,
    pub wal_size: u64,
    pub pool_uuid: [u8; 16],
    pub brick_uuid: [u8; 16],
    pub tier: u8,
    pub wal_holder: bool,
}

/// The part of a superblock under the first checksum.
pub open spec fn superblock_core(sb: Superblock) -> Seq<u8> {
    spec_u64_to_le_bytes(SUPERBLOCK_MAGIC) + spec_u32_to_le_bytes(FORMAT_VERSION)
        + spec_u32_to_le_bytes(sb.block_size) + spec_u64_to_le_bytes(sb.segment_size)
        + spec_u64_to_le_bytes(sb.segment_area_start) + spec_u64_to_le_bytes(sb.segment_count)
        + spec_u64_to_le_bytes(sb.generation) + spec_u64_to_le_bytes(sb.wal_start)
        + spec_u64_to_le_bytes(sb.wal_size) + sb.pool_uuid@ + sb.brick_uuid@
}

/// A superblock's bytes.
pub open spec fn superblock_bytes(sb: Superblock) -> Seq<u8> {
    sealed(sealed(superblock_core(sb)) + seq![sb.tier, flag_byte(sb.wal_holder)] + zeros(6))
}

/// The part every version shares is there and intact.
pub open spec fn superblock_present(b: Seq<u8>) -> bool {
    b.len() >= 128 && u64_at(b, 0) == SUPERBLOCK_MAGIC && seal_holds(b, 96)
}

/// A superblock of this build's version is there and intact.
pub open spec fn superblock_valid(b: Seq<u8>) -> bool {
    &&& superblock_present(b)
    &&& u32_at(b, 8) == FORMAT_VERSION
    &&& b.len() >= SUPERBLOCK_LEN
    &&& seal_holds(b, 136)
    &&& b[129] <= 1
}

/// `sb` is what the fields in `b` say.
pub open spec fn superblock_reads(b: Seq<u8>, sb: Superblock) -> bool {
    &&& sb.block_size == u32_at(b, 12)
    &&& sb.segment_size == u64_at(b, 16)
    &&& sb.segment_area_start == u64_at(b, 24)
    &&& sb.segment_count == u64_at(b, 32)
    &&& sb.generation == u64_at(b, 40)
    &&& sb.wal_start == u64_at(b, 48)
    &&& sb.wal_size == u64_at(b, 56)
    &&& sb.pool_uuid@ == b.subrange(64, 80)
    &&& sb.brick_uuid@ == b.subrange(80, 96)
    &&& sb.tier == b[128]
    &&& sb.wal_holder == (b[129] == 1)
}

impl Superblock {
    pub fn encode(&self) -> (buf: Vec<u8>)
        ensures
            buf@ == superblock_bytes(*self),
            buf@.len() == SUPERBLOCK_LEN,
    {
        proof {
            lemma_auto_spec_u32_to_from_le_bytes();
            lemma_auto_spec_u64_to_from_le_bytes();
        }
        let mut buf: Vec<u8> = Vec::new();
        put_u64(&mut buf, SUPERBLOCK_MAGIC);
        assert(buf@ =~= spec_u64_to_le_bytes(SUPERBLOCK_MAGIC));
        put_u32(&mut buf, FORMAT_VERSION);
        put_u32(&mut buf, self.block_size);
        put_u64(&mut buf, self.segment_size);
        put_u64(&mut buf, self.segment_area_start);
        put_u64(&mut buf, self.segment_count);
        put_u64(&mut buf, self.generation);
        put_u64(&mut buf, self.wal_start);
        put_u64(&mut buf, self.wal_size);
        push_bytes(&mut buf, self.pool_uuid.as_slice());
        push_bytes(&mut buf, self.brick_uuid.as_slice());
        assert(buf@ == superblock_core(*self));
        let check = full_check(buf.as_slice());
        push_bytes(&mut buf, check.as_slice());
        assert(buf@ == sealed(superblock_core(*self)));
        buf.push(self.tier);
        buf.push(if self.wal_holder { 1 } else { 0 });
        assert(buf@ =~= sealed(superblock_core(*self)) + seq![self.tier, flag_byte(self.wal_holder)]);
        pad_zeros(&mut buf, 136);
        let check = full_check(buf.as_slice());
        push_bytes(&mut buf, check.as_slice());
        buf
    }

    /// Decode one slot. `Ok(None)` is "this slot holds no valid superblock":
    /// an ordinary answer during open. A version mismatch is an error,
    /// because a valid superblock of another version must stop the mount,
    /// not read as blank.
    pub fn decode(buf: &[u8]) -> (r: Result<Option<Superblock>>)
        ensures
            !superblock_present(buf@) ==> r == Ok::<Option<Superblock>, FsError>(None),
            superblock_present(buf@) && u32_at(buf@, 8) != FORMAT_VERSION ==> r == Err::<
                Option<Superblock>,
                FsError,
            >(FsError::UnsupportedVersion(u32_at(buf@, 8))),
            superblock_present(buf@) && u32_at(buf@, 8) == FORMAT_VERSION ==> r is Ok && (
            r->Ok_0 is Some <==> superblock_valid(buf@)),
            r matches Ok(Some(sb)) ==> superblock_reads(buf@, sb),
    {
        if buf.len() < 128 {
            return Ok(None);
        }
        if get_u64(buf, 0) != SUPERBLOCK_MAGIC || !check_seal(buf, 96) {
            return Ok(None);
        }
        let version: u32 = get_u32(buf, 8);
        if version != FORMAT_VERSION {
            return Err(FsError::UnsupportedVersion(version));
        }
        if buf.len() < SUPERBLOCK_LEN {
            return Ok(None);
        }
        if !check_seal(buf, 136) || buf[129] > 1 {
            return Ok(None);
        }
        Ok(
            Some(
                Superblock {
                    block_size: get_u32(buf, 12),
                    segment_size: get_u64(buf, 16),
                    segment_area_start: get_u64(buf, 24),
                    segment_count: get_u64(buf, 32),
                    generation: get_u64(buf, 40),
                    wal_start: get_u64(buf, 48),
                    wal_size: get_u64(buf, 56),
                    pool_uuid: get_16(buf, 64),
                    brick_uuid: get_16(buf, 80),
                    tier: buf[128],
                    wal_holder: buf[129] == 1,
                },
            ),
        )
    }

    /// Byte offset of a segment's first sector.
    pub fn segment_offset(&self, index: u64) -> (offset: u64)
        requires
            self.segment_area_start + index * self.segment_size <= u64::MAX,
        ensures
            offset == self.segment_area_start + index * self.segment_size,
    {
        assert(index * self.segment_size <= u64::MAX) by (nonlinear_arith)
            requires
                self.segment_area_start + index * self.segment_size <= u64::MAX,
                self.segment_area_start >= 0,
        ;
        self.segment_area_start + index * self.segment_size
    }
}

/// A superblock's bytes hold the superblock, whatever follows them.
pub proof fn lemma_superblock_layout(sb: Superblock, tail: Seq<u8>)
    ensures
        ({
            let b = superblock_bytes(sb) + tail;
            &&& superblock_bytes(sb).len() == SUPERBLOCK_LEN
            &&& superblock_valid(b)
            &&& superblock_reads(b, sb)
        }),
{
    lemma_auto_spec_u32_to_from_le_bytes();
    lemma_auto_spec_u64_to_from_le_bytes();
    let core = superblock_core(sb);
    let body = sealed(core) + seq![sb.tier, flag_byte(sb.wal_holder)] + zeros(6);
    let b = superblock_bytes(sb) + tail;
    assert(core.len() == 96);
    assert(body.len() == 136);
    assert(b.subrange(0, 96) =~= core);
    assert(b.subrange(96, 128) =~= blake3_256(core)@);
    assert(b.subrange(0, 136) =~= body);
    assert(b.subrange(136, 168) =~= blake3_256(body)@);
    assert(b.subrange(0, 8) =~= spec_u64_to_le_bytes(SUPERBLOCK_MAGIC));
    assert(b.subrange(8, 12) =~= spec_u32_to_le_bytes(FORMAT_VERSION));
    assert(b.subrange(12, 16) =~= spec_u32_to_le_bytes(sb.block_size));
    assert(b.subrange(16, 24) =~= spec_u64_to_le_bytes(sb.segment_size));
    assert(b.subrange(24, 32) =~= spec_u64_to_le_bytes(sb.segment_area_start));
    assert(b.subrange(32, 40) =~= spec_u64_to_le_bytes(sb.segment_count));
    assert(b.subrange(40, 48) =~= spec_u64_to_le_bytes(sb.generation));
    assert(b.subrange(48, 56) =~= spec_u64_to_le_bytes(sb.wal_start));
    assert(b.subrange(56, 64) =~= spec_u64_to_le_bytes(sb.wal_size));
    assert(b.subrange(64, 80) =~= sb.pool_uuid@);
    assert(b.subrange(80, 96) =~= sb.brick_uuid@);
}

/// What a superblock encodes to decodes to the same superblock, whatever
/// follows it in its sector.
pub proof fn law_superblock_round_trip(sb: Superblock, tail: Seq<u8>, decoded: Superblock)
    requires
        superblock_reads(superblock_bytes(sb) + tail, decoded),
    ensures
        superblock_valid(superblock_bytes(sb) + tail),
        decoded == sb,
{
    lemma_superblock_layout(sb, tail);
    lemma_array_view_injective(sb.pool_uuid, decoded.pool_uuid);
    lemma_array_view_injective(sb.brick_uuid, decoded.brick_uuid);
}

// ---------------------------------------------------------------------
// Anchor

/// One brick of a node's set, as the anchor names it.
#[derive(Debug, Clone, Copy, PartialEq, Eq)]
pub struct RosterEntry {
    pub brick_uuid: [u8; 16],
    pub tier: u8,
}

/// The durable root of everything above the extent store: which manifest
/// block describes the vdisks, and where WAL replay begins. Written by a
/// checkpoint (alternating slots, rising generation) and at format; read at
/// open. The superblock is who the brick *is*; the anchor is where its
/// state *starts*.
///
/// Layout (little-endian):
/// ```text
///   0..8    magic "LFSANC\0\0"
///   8..16   generation          u64   highest valid generation wins
///   16..24  wal_replay_offset   u64   absolute; where replay begins
///   24..32  wal_replay_seq      u64   the seq expected there
///   32..40  wal_epoch           u64   the epoch floor for replay
///   40..48  era                 u64   the data generation (replication)
///   48..80  manifest_hash       the vdisk manifest block; all-zeros = none
///   80..84  roster count        u32
///   84..    roster              17 bytes each: brick uuid, tier
///   then    checksum            BLAKE3 of everything before it
/// ```
#[derive(Debug, Clone, PartialEq, Eq)]
pub struct Anchor {
    pub generation: u64,
    pub wal_replay_offset: u64,
    pub wal_replay_seq: u64,
    pub wal_epoch: u64,
    pub era: u64,
    pub manifest_hash: [u8; 32],
    pub roster: Vec<RosterEntry>,
}

/// Roster entries one after the other.
pub open spec fn roster_bytes(roster: Seq<RosterEntry>) -> Seq<u8>
    decreases roster.len(),
{
    if roster.len() == 0 {
        Seq::empty()
    } else {
        roster_bytes(roster.drop_last()) + roster.last().brick_uuid@ + seq![roster.last().tier]
    }
}

/// The fixed part of an anchor.
pub open spec fn anchor_core(a: Anchor) -> Seq<u8> {
    spec_u64_to_le_bytes(ANCHOR_MAGIC) + spec_u64_to_le_bytes(a.generation) + spec_u64_to_le_bytes(
        a.wal_replay_offset,
    ) + spec_u64_to_le_bytes(a.wal_replay_seq) + spec_u64_to_le_bytes(a.wal_epoch)
        + spec_u64_to_le_bytes(a.era) + a.manifest_hash@ + spec_u32_to_le_bytes(
        a.roster@.len() as u32,
    )
}

/// An anchor's bytes.
pub open spec fn anchor_bytes(a: Anchor) -> Seq<u8> {
    sealed(anchor_core(a) + roster_bytes(a.roster@))
}

/// An anchor is there and intact.
pub open spec fn anchor_valid(b: Seq<u8>) -> bool {
    &&& b.len() >= 116
    &&& u64_at(b, 0) == ANCHOR_MAGIC
    &&& u32_at(b, 80) <= ROSTER_CAP
    &&& b.len() >= 116 + 17 * u32_at(b, 80)
    &&& seal_holds(b, 84 + 17 * u32_at(b, 80))
}

/// `a` is what the fields in `b` say.
pub open spec fn anchor_reads(b: Seq<u8>, a: Anchor) -> bool {
    &&& a.generation == u64_at(b, 8)
    &&& a.wal_replay_offset == u64_at(b, 16)
    &&& a.wal_replay_seq == u64_at(b, 24)
    &&& a.wal_epoch == u64_at(b, 32)
    &&& a.era == u64_at(b, 40)
    &&& a.manifest_hash@ == b.subrange(48, 80)
    &&& a.roster@.len() == u32_at(b, 80)
    &&& forall|i: int|
        0 <= i < a.roster@.len() ==> (#[trigger] a.roster@[i]).brick_uuid@ == b.subrange(
            84 + 17 * i,
            100 + 17 * i,
        ) && a.roster@[i].tier == b[100 + 17 * i]
}

impl Anchor {
    pub fn encode(&self) -> (buf: Vec<u8>)
        requires
            self.roster@.len() <= ROSTER_CAP,
        ensures
            buf@ == anchor_bytes(*self),
            buf@.len() == 116 + 17 * self.roster@.len(),
    {
        proof {
            lemma_auto_spec_u32_to_from_le_bytes();
            lemma_auto_spec_u64_to_from_le_bytes();
        }
        let mut buf: Vec<u8> = Vec::new();
        put_u64(&mut buf, ANCHOR_MAGIC);
        assert(buf@ =~= spec_u64_to_le_bytes(ANCHOR_MAGIC));
        put_u64(&mut buf, self.generation);
        put_u64(&mut buf, self.wal_replay_offset);
        put_u64(&mut buf, self.wal_replay_seq);
        put_u64(&mut buf, self.wal_epoch);
        put_u64(&mut buf, self.era);
        push_bytes(&mut buf, self.manifest_hash.as_slice());
        put_u32(&mut buf, self.roster.len() as u32);
        assert(buf@ == anchor_core(*self));
        let mut i: usize = 0;
        assert(self.roster@.subrange(0, 0) =~= Seq::<RosterEntry>::empty());
        assert(buf@ =~= anchor_core(*self) + roster_bytes(self.roster@.subrange(0, 0)));
        while i < self.roster.len()
            invariant
                i <= self.roster@.len() <= ROSTER_CAP,
                anchor_core(*self).len() == 84,
                buf@ == anchor_core(*self) + roster_bytes(self.roster@.subrange(0, i as int)),
                buf@.len() == 84 + 17 * i,
            decreases self.roster@.len() - i,
        {
            let entry = &self.roster[i];
            push_bytes(&mut buf, entry.brick_uuid.as_slice());
            buf.push(entry.tier);
            proof {
                let now = self.roster@.subrange(0, i + 1);
                assert(now.drop_last() =~= self.roster@.subrange(0, i as int));
                assert(buf@ =~= anchor_core(*self) + roster_bytes(now));
            }
            i += 1;
        }
        assert(self.roster@.subrange(0, i as int) =~= self.roster@);
        let check = full_check(buf.as_slice());
        push_bytes(&mut buf, check.as_slice());
        buf
    }

    /// `None` for a slot that holds no valid anchor: a torn checkpoint write
    /// reads this way, and its twin carries the previous state.
    pub fn decode(buf: &[u8]) -> (r: Option<Anchor>)
        ensures
            r is Some <==> anchor_valid(buf@),
            r matches Some(a) ==> anchor_reads(buf@, a),
    {
        if buf.len() < 116 {
            return None;
        }
        if get_u64(buf, 0) != ANCHOR_MAGIC {
            return None;
        }
        let count: usize = get_u32(buf, 80) as usize;
        if count > ROSTER_CAP || buf.len() < 116 + 17 * count {
            return None;
        }
        if !check_seal(buf, 84 + 17 * count) {
            return None;
        }
        let mut roster: Vec<RosterEntry> = Vec::new();
        let mut i: usize = 0;
        while i < count
            invariant
                i <= count <= ROSTER_CAP,
                buf@.len() >= 116 + 17 * count,
                roster@.len() == i,
                forall|k: int|
                    0 <= k < i ==> (#[trigger] roster@[k]).brick_uuid@ == buf@.subrange(
                        84 + 17 * k,
                        100 + 17 * k,
                    ) && roster@[k].tier == buf@[100 + 17 * k],
            decreases count - i,
        {
            let at: usize = 84 + 17 * i;
            roster.push(RosterEntry { brick_uuid: get_16(buf, at), tier: buf[at + 16] });
            i += 1;
        }
        Some(
            Anchor {
                generation: get_u64(buf, 8),
                wal_replay_offset: get_u64(buf, 16),
                wal_replay_seq: get_u64(buf, 24),
                wal_epoch: get_u64(buf, 32),
                era: get_u64(buf, 40),
                manifest_hash: get_32(buf, 48),
                roster,
            },
        )
    }

    /// The slot a generation lands in: alternating, so a torn write can
    /// only ever hurt the generation being written, never the survivor.
    pub fn slot_offset(generation: u64) -> (offset: u64)
        ensures
            offset == anchor_slot(generation),
    {
        ANCHOR_AREA_START + (generation % ANCHOR_SLOTS) * SECTOR_SIZE
    }
}

/// Where the anchor of a generation lies.
pub open spec fn anchor_slot(generation: u64) -> u64 {
    (ANCHOR_AREA_START + (generation % ANCHOR_SLOTS) * SECTOR_SIZE) as u64
}

/// Consecutive generations never share a slot.
pub proof fn law_anchor_slots_alternate(generation: u64)
    requires
        generation < u64::MAX,
    ensures
        anchor_slot(generation) != anchor_slot((generation + 1) as u64),
        anchor_slot(generation) == ANCHOR_AREA_START || anchor_slot(generation) == ANCHOR_AREA_START
            + SECTOR_SIZE,
{
}

proof fn lemma_roster_layout(roster: Seq<RosterEntry>)
    ensures
        roster_bytes(roster).len() == 17 * roster.len(),
        forall|i: int|
            0 <= i < roster.len() ==> (#[trigger] roster[i]).brick_uuid@ == roster_bytes(
                roster,
            ).subrange(17 * i, 17 * i + 16) && roster[i].tier == roster_bytes(roster)[17 * i + 16],
    decreases roster.len(),
{
    if roster.len() != 0 {
        let rest = roster.drop_last();
        lemma_roster_layout(rest);
        let b = roster_bytes(roster);
        assert forall|i: int| 0 <= i < roster.len() implies (#[trigger] roster[i]).brick_uuid@
            == b.subrange(17 * i, 17 * i + 16) && roster[i].tier == b[17 * i + 16] by {
            if i < rest.len() {
                assert(rest[i] == roster[i]);
                assert(b.subrange(17 * i, 17 * i + 16) =~= roster_bytes(rest).subrange(
                    17 * i,
                    17 * i + 16,
                ));
            } else {
                assert(b.subrange(17 * i, 17 * i + 16) =~= roster[i].brick_uuid@);
            }
        }
    }
}

/// An anchor's bytes hold the anchor, whatever follows them.
pub proof fn lemma_anchor_layout(a: Anchor, tail: Seq<u8>)
    requires
        a.roster@.len() <= ROSTER_CAP,
    ensures
        anchor_bytes(a).len() == 116 + 17 * a.roster@.len(),
        anchor_valid(anchor_bytes(a) + tail),
        anchor_reads(anchor_bytes(a) + tail, a),
{
    lemma_auto_spec_u32_to_from_le_bytes();
    lemma_auto_spec_u64_to_from_le_bytes();
    lemma_roster_layout(a.roster@);
    let core = anchor_core(a);
    let roster = roster_bytes(a.roster@);
    let n = 17 * a.roster@.len() as int;
    let b = anchor_bytes(a) + tail;
    assert(core.len() == 84);
    assert(b.subrange(0, 84 + n) =~= core + roster);
    assert(b.subrange(84 + n, 116 + n) =~= blake3_256(core + roster)@);
    assert(b.subrange(0, 8) =~= spec_u64_to_le_bytes(ANCHOR_MAGIC));
    assert(b.subrange(8, 16) =~= spec_u64_to_le_bytes(a.generation));
    assert(b.subrange(16, 24) =~= spec_u64_to_le_bytes(a.wal_replay_offset));
    assert(b.subrange(24, 32) =~= spec_u64_to_le_bytes(a.wal_replay_seq));
    assert(b.subrange(32, 40) =~= spec_u64_to_le_bytes(a.wal_epoch));
    assert(b.subrange(40, 48) =~= spec_u64_to_le_bytes(a.era));
    assert(b.subrange(48, 80) =~= a.manifest_hash@);
    assert(b.subrange(80, 84) =~= spec_u32_to_le_bytes(a.roster@.len() as u32));
    assert forall|i: int| 0 <= i < a.roster@.len() implies (#[trigger] a.roster@[i]).brick_uuid@
        == b.subrange(84 + 17 * i, 100 + 17 * i) && a.roster@[i].tier == b[100 + 17 * i] by {
        assert(b.subrange(84 + 17 * i, 100 + 17 * i) =~= roster.subrange(17 * i, 17 * i + 16));
        assert(b[100 + 17 * i] == roster[17 * i + 16]);
    }
}

/// Two anchors say the same.
pub open spec fn same_anchor(a: Anchor, b: Anchor) -> bool {
    &&& a.generation == b.generation
    &&& a.wal_replay_offset == b.wal_replay_offset
    &&& a.wal_replay_seq == b.wal_replay_seq
    &&& a.wal_epoch == b.wal_epoch
    &&& a.era == b.era
    &&& a.manifest_hash == b.manifest_hash
    &&& a.roster@ == b.roster@
}

/// What an anchor encodes to decodes to the same anchor, whatever follows
/// it in its sector.
pub proof fn law_anchor_round_trip(a: Anchor, tail: Seq<u8>, decoded: Anchor)
    requires
        a.roster@.len() <= ROSTER_CAP,
        anchor_reads(anchor_bytes(a) + tail, decoded),
    ensures
        anchor_valid(anchor_bytes(a) + tail),
        same_anchor(a, decoded),
{
    lemma_anchor_layout(a, tail);
    lemma_array_view_injective(a.manifest_hash, decoded.manifest_hash);
    assert forall|i: int| 0 <= i < a.roster@.len() implies a.roster@[i] == decoded.roster@[i] by {
        lemma_array_view_injective(a.roster@[i].brick_uuid, decoded.roster@[i].brick_uuid);
    }
    assert(a.roster@ =~= decoded.roster@);
}

// ---------------------------------------------------------------------
// Segment header

/// One segment incarnation. Written when the segment is opened for writing;
/// every record inside repeats `seq`.
///
/// Layout (little-endian):
/// ```text
///   0..8    magic "LFSSEG\0\0"
///   8..16   seq            u64   incarnation, monotonic per brick, at least 1
///   16..24  segment_index  u64   must match the position it was read from
///   24..40  brick_uuid     16 bytes; a foreign or pre-reformat header fails
///   40..72  checksum       BLAKE3 of bytes 0..40
/// ```
#[derive(Debug, Clone, PartialEq, Eq)]
pub struct SegmentHeader {
    pub seq: u64,
    pub segment_index: u64,
    pub brick_uuid: [u8; 16],
}

/// A segment header's bytes.
pub open spec fn segment_bytes(h: SegmentHeader) -> Seq<u8> {
    sealed(
        spec_u64_to_le_bytes(SEGMENT_MAGIC) + spec_u64_to_le_bytes(h.seq) + spec_u64_to_le_bytes(
            h.segment_index,
        ) + h.brick_uuid@,
    )
}

/// A header of this brick at this position is there and intact.
pub open spec fn segment_valid(b: Seq<u8>, index: u64, brick_uuid: [u8; 16]) -> bool {
    &&& b.len() >= SEGMENT_HEADER_LEN
    &&& u64_at(b, 0) == SEGMENT_MAGIC
    &&& seal_holds(b, 40)
    &&& u64_at(b, 8) != 0
    &&& u64_at(b, 16) == index
    &&& b.subrange(24, 40) == brick_uuid@
}

impl SegmentHeader {
    pub fn encode(&self) -> (buf: Vec<u8>)
        ensures
            buf@ == segment_bytes(*self),
            buf@.len() == SEGMENT_HEADER_LEN,
    {
        proof {
            lemma_auto_spec_u64_to_from_le_bytes();
        }
        let mut buf: Vec<u8> = Vec::new();
        put_u64(&mut buf, SEGMENT_MAGIC);
        assert(buf@ =~= spec_u64_to_le_bytes(SEGMENT_MAGIC));
        put_u64(&mut buf, self.seq);
        put_u64(&mut buf, self.segment_index);
        push_bytes(&mut buf, self.brick_uuid.as_slice());
        let check = full_check(buf.as_slice());
        push_bytes(&mut buf, check.as_slice());
        buf
    }

    /// `None` for anything that is not a valid header for *this* brick at
    /// *this* position: torn, stale, foreign, or blank all read the same
    /// way, and the segment is unused.
    pub fn decode(buf: &[u8], expect_index: u64, brick_uuid: &[u8; 16]) -> (r: Option<
        SegmentHeader,
    >)
        ensures
            r is Some <==> segment_valid(buf@, expect_index, *brick_uuid),
            r matches Some(h) ==> h.seq == u64_at(buf@, 8) && h.segment_index == expect_index
                && h.brick_uuid == *brick_uuid,
    {
        if buf.len() < SEGMENT_HEADER_LEN {
            return None;
        }
        if get_u64(buf, 0) != SEGMENT_MAGIC || !check_seal(buf, 40) {
            return None;
        }
        let seq: u64 = get_u64(buf, 8);
        let segment_index: u64 = get_u64(buf, 16);
        if seq == 0 || segment_index != expect_index || !same_bytes(
            slice_subrange(buf, 24, 40),
            brick_uuid.as_slice(),
        ) {
            return None;
        }
        Some(SegmentHeader { seq, segment_index, brick_uuid: *brick_uuid })
    }
}

/// What a segment header encodes to is a valid header at its own position
/// and for its own brick, with its own seq, and at no other position.
pub proof fn law_segment_header_round_trip(
    h: SegmentHeader,
    tail: Seq<u8>,
    index: u64,
    brick_uuid: [u8; 16],
)
    requires
        h.seq != 0,
    ensures
        segment_valid(segment_bytes(h) + tail, index, brick_uuid) <==> index == h.segment_index
            && brick_uuid == h.brick_uuid,
        u64_at(segment_bytes(h) + tail, 8) == h.seq,
{
    lemma_auto_spec_u64_to_from_le_bytes();
    let b = segment_bytes(h) + tail;
    let body = spec_u64_to_le_bytes(SEGMENT_MAGIC) + spec_u64_to_le_bytes(h.seq)
        + spec_u64_to_le_bytes(h.segment_index) + h.brick_uuid@;
    assert(body.len() == 40);
    assert(b.subrange(0, 40) =~= body);
    assert(b.subrange(40, 72) =~= blake3_256(body)@);
    assert(b.subrange(0, 8) =~= spec_u64_to_le_bytes(SEGMENT_MAGIC));
    assert(b.subrange(8, 16) =~= spec_u64_to_le_bytes(h.seq));
    assert(b.subrange(16, 24) =~= spec_u64_to_le_bytes(h.segment_index));
    assert(b.subrange(24, 40) =~= h.brick_uuid@);
    if h.brick_uuid@ == brick_uuid@ {
        lemma_array_view_injective(h.brick_uuid, brick_uuid);
    }
}

// ---------------------------------------------------------------------
// Record header

/// One stored block: a 64-byte header followed by the payload, zero-padded
/// to the next sector boundary.
///
/// Layout (little-endian):
/// ```text
///   0..8    magic "LFSBLK\0\0"
///   8..16   seq           u64   must equal the segment header's seq
///   16..20  length        u32   payload bytes, 1..=block_size
///   20      flags         u8    reserved, 0
///   21      codec         u8    reserved for compression; 0 = raw
///   22..24  pad
///   24..56  hash          the content address; also the payload checksum
///   56..64  header_check  first 8 bytes of BLAKE3 of bytes 0..56
/// ```
#[derive(Debug, Clone, PartialEq, Eq)]
pub struct RecordHeader {
    pub seq: u64,
    pub length: u32,
    pub hash: BlockHash,
}

/// The part of a record header under its check.
pub open spec fn record_core(h: RecordHeader) -> Seq<u8> {
    spec_u64_to_le_bytes(RECORD_MAGIC) + spec_u64_to_le_bytes(h.seq) + spec_u32_to_le_bytes(h.length)
        + zeros(4) + h.hash.0@
}

/// A record header's bytes.
pub open spec fn record_bytes(h: RecordHeader) -> Seq<u8> {
    record_core(h) + header_digest(record_core(h))
}

/// A record header written under `seq` is there and intact.
pub open spec fn record_valid(b: Seq<u8>, seq: u64, block_size: u32) -> bool {
    &&& b.len() >= RECORD_HEADER_LEN
    &&& u64_at(b, 0) == RECORD_MAGIC
    &&& header_digest(b.subrange(0, 56)) == b.subrange(56, 64)
    &&& u64_at(b, 8) == seq
    &&& 0 < u32_at(b, 16) <= block_size
}

/// `h` is what the fields in `b` say.
pub open spec fn record_reads(b: Seq<u8>, h: RecordHeader) -> bool {
    &&& h.seq == u64_at(b, 8)
    &&& h.length == u32_at(b, 16)
    &&& h.hash.0@ == b.subrange(24, 56)
}

impl RecordHeader {
    pub fn encode(&self) -> (buf: Vec<u8>)
        ensures
            buf@ == record_bytes(*self),
            buf@.len() == RECORD_HEADER_LEN,
    {
        proof {
            lemma_auto_spec_u32_to_from_le_bytes();
            lemma_auto_spec_u64_to_from_le_bytes();
        }
        let mut buf: Vec<u8> = Vec::new();
        put_u64(&mut buf, RECORD_MAGIC);
        assert(buf@ =~= spec_u64_to_le_bytes(RECORD_MAGIC));
        put_u64(&mut buf, self.seq);
        put_u32(&mut buf, self.length);
        pad_zeros(&mut buf, 24);
        push_bytes(&mut buf, self.hash.0.as_slice());
        assert(buf@ == record_core(*self));
        let check = header_check(buf.as_slice());
        push_bytes(&mut buf, check.as_slice());
        buf
    }

    /// `None` for anything that is not a valid record header written under
    /// `expect_seq`.
    pub fn decode(buf: &[u8], expect_seq: u64, block_size: u32) -> (r: Option<RecordHeader>)
        ensures
            r is Some <==> record_valid(buf@, expect_seq, block_size),
            r matches Some(h) ==> record_reads(buf@, h),
    {
        if buf.len() < RECORD_HEADER_LEN {
            return None;
        }
        if get_u64(buf, 0) != RECORD_MAGIC {
            return None;
        }
        let check = header_check(slice_subrange(buf, 0, 56));
        if !same_bytes(check.as_slice(), slice_subrange(buf, 56, 64)) {
            return None;
        }
        let seq: u64 = get_u64(buf, 8);
        let length: u32 = get_u32(buf, 16);
        if seq != expect_seq || length == 0 || length > block_size {
            return None;
        }
        Some(RecordHeader { seq, length, hash: BlockHash(get_32(buf, 24)) })
    }
}

/// What a record header encodes to decodes to the same header, under its
/// own seq and any block size its length fits, and under no other.
pub proof fn law_record_header_round_trip(h: RecordHeader, tail: Seq<u8>, seq: u64, block_size: u32)
    ensures
        record_valid(record_bytes(h) + tail, seq, block_size) <==> seq == h.seq && 0 < h.length
            <= block_size,
        record_reads(record_bytes(h) + tail, h),
        record_bytes(h).len() == RECORD_HEADER_LEN,
{
    lemma_auto_spec_u32_to_from_le_bytes();
    lemma_auto_spec_u64_to_from_le_bytes();
    let core = record_core(h);
    let b = record_bytes(h) + tail;
    assert(core.len() == 56);
    assert(b.subrange(0, 56) =~= core);
    assert(b.subrange(56, 64) =~= header_digest(core));
    assert(b.subrange(0, 8) =~= spec_u64_to_le_bytes(RECORD_MAGIC));
    assert(b.subrange(8, 16) =~= spec_u64_to_le_bytes(h.seq));
    assert(b.subrange(16, 20) =~= spec_u32_to_le_bytes(h.length));
    assert(b.subrange(24, 56) =~= h.hash.0@);
}

/// The bytes a record of `payload_len` bytes occupies.
pub open spec fn span_of(payload_len: u32) -> u64 {
    (((RECORD_HEADER_LEN + payload_len + SECTOR_SIZE - 1) / SECTOR_SIZE as int) * SECTOR_SIZE) as u64
}

/// Bytes a record occupies on disk: header plus payload, rounded up to the
/// sector boundary the next record starts on.
pub fn record_span(payload_len: u32) -> (span: u64)
    ensures
        span == span_of(payload_len),
        span % SECTOR_SIZE == 0,
        RECORD_HEADER_LEN + payload_len <= span < RECORD_HEADER_LEN + payload_len + SECTOR_SIZE,
{
    let raw: u64 = RECORD_HEADER_LEN as u64 + payload_len as u64;
    ((raw + SECTOR_SIZE - 1) / SECTOR_SIZE) * SECTOR_SIZE
}

/// A span is the least sector multiple that holds header and payload.
pub proof fn law_record_span_is_aligned_and_minimal(payload_len: u32)
    ensures
        span_of(payload_len) % SECTOR_SIZE == 0,
        RECORD_HEADER_LEN + payload_len <= span_of(payload_len) < RECORD_HEADER_LEN + payload_len
            + SECTOR_SIZE,
{
}

} // verus!
