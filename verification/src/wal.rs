//! The write-ahead ring: where a vdisk write becomes durable before any
//! tree knows about it.
//!
//! Frames are packed back to back, each self-validating: a torn frame is
//! just bytes that fail their check, and replay stops at the first frame
//! that fails, whose seq breaks the run, or whose epoch is older than one
//! already accepted. Frames never split across the ring's end; when one does
//! not fit, the writer jumps to the start, and the reader discovers the jump
//! the same way it discovers the tail.
//!
//! Space before the anchor's replay position is dead and reusable; the ring
//! is full when an append would lap into live history, and `WalFull` is the
//! pool's cue to checkpoint.

use crate::brick::{sound, Brick};
use crate::codec::{get_u32, get_u64, pad_zeros, push_bytes, put_u32, put_u64, same_bytes, splice, zeros};
use crate::disk::{same_outside, Disk};
use crate::error::{FsError, Result};
use crate::format::{sealed, u32_at, u64_at};
use crate::hash::{blake3_256, full_check};
use vstd::bytes::*;
use vstd::prelude::*;
use vstd::slice::*;

verus! {

/// `"LFSWAL\0\0"` as a little-endian word.
pub const FRAME_MAGIC: u64 = 0x0000_4C41_5753_464C;

/// magic 8 + seq 8 + epoch 8 + length 4 + pad 4.
pub const FRAME_HEADER_LEN: usize = 32;

/// BLAKE3 over header + payload, appended after the payload.
pub const FRAME_CHECK_LEN: usize = 32;

/// The largest payload a frame may carry: generous for map entries, and a
/// hard bound so a corrupt length can never send the scanner on a tour.
pub const MAX_WAL_PAYLOAD: usize = 4096;

/// The bytes a frame takes.
pub open spec fn frame_size(payload_len: nat) -> nat {
    (FRAME_HEADER_LEN + payload_len + FRAME_CHECK_LEN) as nat
}

pub fn frame_len(payload_len: usize) -> (len: u64)
    requires
        payload_len <= MAX_WAL_PAYLOAD,
    ensures
        len == frame_size(payload_len as nat),
{
    FRAME_HEADER_LEN as u64 + payload_len as u64 + FRAME_CHECK_LEN as u64
}

/// The part of a frame before its check.
pub open spec fn frame_body(seq: u64, epoch: u64, payload: Seq<u8>) -> Seq<u8> {
    spec_u64_to_le_bytes(FRAME_MAGIC) + spec_u64_to_le_bytes(seq) + spec_u64_to_le_bytes(epoch)
        + spec_u32_to_le_bytes(payload.len() as u32) + zeros(4) + payload
}

/// A frame's bytes.
pub open spec fn frame_bytes(seq: u64, epoch: u64, payload: Seq<u8>) -> Seq<u8> {
    sealed(frame_body(seq, epoch, payload))
}

fn encode_frame(seq: u64, epoch: u64, payload: &[u8]) -> (buf: Vec<u8>)
    requires
        payload@.len() <= MAX_WAL_PAYLOAD,
    ensures
        buf@ == frame_bytes(seq, epoch, payload@),
        buf@.len() == frame_size(payload@.len()),
{
    proof {
        lemma_auto_spec_u32_to_from_le_bytes();
        lemma_auto_spec_u64_to_from_le_bytes();
    }
    let mut buf: Vec<u8> = Vec::new();
    put_u64(&mut buf, FRAME_MAGIC);
    assert(buf@ =~= spec_u64_to_le_bytes(FRAME_MAGIC));
    put_u64(&mut buf, seq);
    put_u64(&mut buf, epoch);
    put_u32(&mut buf, payload.len() as u32);
    pad_zeros(&mut buf, 32);
    push_bytes(&mut buf, payload);
    let check = full_check(buf.as_slice());
    push_bytes(&mut buf, check.as_slice());
    buf
}

/// One frame as a scan sees it.
pub struct FrameView {
    pub payload: Seq<u8>,
    pub seq: u64,
    pub epoch: u64,
    pub cursor_after: u64,
}

/// A valid frame with `seq`, of epoch `floor` or later, lies at `pos`.
pub open spec fn frame_at(b: Seq<u8>, pos: int, end: int, seq: u64, floor: u64) -> bool {
    let len = u32_at(b, pos + 24);
    &&& pos + frame_size(0) <= end
    &&& u64_at(b, pos) == FRAME_MAGIC
    &&& u64_at(b, pos + 8) == seq
    &&& u64_at(b, pos + 16) >= floor
    &&& len <= MAX_WAL_PAYLOAD
    &&& pos + frame_size(len as nat) <= end
    &&& blake3_256(b.subrange(pos, pos + FRAME_HEADER_LEN + len))@ == b.subrange(
        pos + FRAME_HEADER_LEN + len,
        pos + frame_size(len as nat),
    )
}

/// Where there are zeros, there is no frame.
pub proof fn lemma_zeros_hold_no_frame(b: Seq<u8>, pos: int, end: int, seq: u64, floor: u64)
    requires
        b.subrange(pos, pos + 8) == zeros(8),
    ensures
        !frame_at(b, pos, end, seq, floor),
{
    lemma_auto_spec_u64_to_from_le_bytes();
    if u64_at(b, pos) == FRAME_MAGIC {
        let w = zeros(8);
        spec_u64_to_le_bytes_to_open(FRAME_MAGIC);
        assert(spec_u64_to_le_bytes(FRAME_MAGIC) == w);
        assert(w[0] == 0);
        assert(((FRAME_MAGIC & 0xff) as u8) == 0x4Cu8) by (bit_vector)
            requires FRAME_MAGIC == 0x0000_4C41_5753_464Cu64;
    }
}

/// The payload of the frame at `pos`.
pub open spec fn frame_payload(b: Seq<u8>, pos: int) -> Seq<u8> {
    b.subrange(pos + FRAME_HEADER_LEN, pos + FRAME_HEADER_LEN + u32_at(b, pos + 24))
}

/// The bytes the frame at `pos` takes.
pub open spec fn frame_span(b: Seq<u8>, pos: int) -> int {
    frame_size(u32_at(b, pos + 24) as nat) as int
}

/// Where the scan finds the next frame: here, or, past the writer's jump, at
/// the start of the ring.
pub open spec fn next_at(b: Seq<u8>, start: int, end: int, pos: int, seq: u64, floor: u64) -> Option<int> {
    if frame_at(b, pos, end, seq, floor) {
        Some(pos)
    } else if pos != start && frame_at(b, start, end, seq, floor) {
        Some(start)
    } else {
        None
    }
}

/// How far the ring advances over a frame found at `at` from `pos`.
pub open spec fn advance(b: Seq<u8>, end: int, pos: int, at: int) -> int {
    frame_span(b, at) + if at == pos {
        0
    } else {
        end - pos
    }
}

/// Every frame a scan finds, never going all the way round.
pub open spec fn scan(
    b: Seq<u8>,
    start: int,
    size: int,
    pos: int,
    seq: u64,
    floor: u64,
    travelled: int,
) -> Seq<FrameView>
    decreases size - travelled,
{
    match next_at(b, start, start + size, pos, seq, floor) {
        None => Seq::empty(),
        Some(at) => {
            let after = travelled + advance(b, start + size, pos, at);
            if after >= size || after <= travelled {
                Seq::empty()
            } else {
                let frame = FrameView {
                    payload: frame_payload(b, at),
                    seq,
                    epoch: u64_at(b, at + 16),
                    cursor_after: (at + frame_span(b, at)) as u64,
                };
                seq![frame] + if seq == u64::MAX {
                    Seq::empty()
                } else {
                    scan(b, start, size, at + frame_span(b, at), (seq + 1) as u64, frame.epoch, after)
                }
            }
        },
    }
}

/// One recovered frame, with the position the ring would stand at if replay
/// accepts it.
#[derive(Debug, Clone)]
pub struct RecoveredFrame {
    pub payload: Vec<u8>,
    pub seq: u64,
    pub epoch: u64,
    pub cursor_after: u64,
}

impl RecoveredFrame {
    pub open spec fn view(&self) -> FrameView {
        FrameView {
            payload: self.payload@,
            seq: self.seq,
            epoch: self.epoch,
            cursor_after: self.cursor_after,
        }
    }
}

/// The ring's in-memory position. All offsets are absolute disk offsets
/// inside the WAL area.
#[derive(Debug, Clone, Copy)]
pub struct Wal {
    pub start: u64,
    pub size: u64,
    /// Where the next frame goes.
    pub cursor: u64,
    /// The next frame's seq.
    pub next_seq: u64,
    /// Where live history begins: the anchor's replay position. Everything
    /// from here to the cursor must survive; everything else is dead.
    pub replay_start: u64,
    /// The epoch new frames are written under.
    pub epoch: u64,
}

/// The distance from `a` forward to `b` around a ring.
pub open spec fn ring_distance(start: int, size: int, a: int, b: int) -> int {
    (b - start + size - (a - start)) % size
}

impl Wal {
    /// The positions lie in the ring.
    pub open spec fn wf(&self) -> bool {
        &&& self.size > 0
        &&& self.start + self.size <= u64::MAX
        &&& self.start <= self.cursor <= self.start + self.size
        &&& self.start <= self.replay_start <= self.start + self.size
    }

    /// The ring is the one a brick carries.
    pub open spec fn of<D: Disk>(&self, brick: &Brick<D>) -> bool {
        &&& self.start == brick.superblock().wal_start
        &&& self.size == brick.superblock().wal_size
    }

    /// Distance from `a` forward to `b` around the ring.
    fn distance(&self, a: u64, b: u64) -> (d: u64)
        requires
            self.wf(),
            self.start <= a <= self.start + self.size,
            self.start <= b <= self.start + self.size,
        ensures
            d == ring_distance(self.start as int, self.size as int, a as int, b as int),
            d < self.size,
    {
        let x: u128 = (a - self.start) as u128;
        let y: u128 = (b - self.start) as u128;
        ((y + self.size as u128 - x) % self.size as u128) as u64
    }

    /// A ring with no live history, positioned by the anchor at format time
    /// or after every checkpoint.
    pub fn empty(start: u64, size: u64, cursor: u64, next_seq: u64, epoch: u64) -> (wal: Wal)
        ensures
            wal == (Wal { start, size, cursor, next_seq, replay_start: cursor, epoch }),
    {
        Wal { start, size, cursor, next_seq, replay_start: cursor, epoch }
    }

    /// Scan live history from the anchor's position, returning every frame
    /// that decodes in sequence. The caller applies its own validation on
    /// top and truncates; [`Wal::adopt`] then fixes the ring's position.
    pub fn recover<D: Disk>(brick: &Brick<D>, replay_offset: u64, replay_seq: u64, epoch: u64) -> (r: Result<
        Vec<RecoveredFrame>,
    >)
        requires
            brick.inv(),
            brick.superblock().wal_start <= replay_offset <= brick.superblock().wal_start
                + brick.superblock().wal_size,
        ensures
            brick.reliable() ==> r is Ok,
            r matches Ok(frames) ==> views(frames@) == scan(
                brick.aux(),
                brick.superblock().wal_start as int,
                brick.superblock().wal_size as int,
                replay_offset as int,
                replay_seq,
                epoch,
                0,
            ),
    {
        proof {
            brick.lemma_model();
        }
        let (start, size) = brick.wal_bounds();
        let end: u64 = start + size;
        let ghost b = brick.aux();
        let mut frames: Vec<RecoveredFrame> = Vec::new();
        let mut pos: u64 = replay_offset;
        let mut seq: u64 = replay_seq;
        let mut floor: u64 = epoch;
        let mut travelled: u64 = 0;
        let mut done = false;
        let ghost whole = scan(b, start as int, size as int, replay_offset as int, replay_seq, epoch, 0);
        assert(views(frames@) + whole =~= whole);
        while !done
            invariant
                brick.inv(),
                b == brick.aux(),
                start == brick.superblock().wal_start,
                size == brick.superblock().wal_size,
                end == start + size,
                sound(brick.superblock(), brick.disk_bytes().len() as int),
                b.len() == end,
                start <= pos <= end,
                travelled < size || (size == 0 && travelled == 0),
                !done ==> views(frames@) + scan(b, start as int, size as int, pos as int, seq, floor, travelled as int)
                    == whole,
                done ==> views(frames@) == whole,
            decreases size - travelled, (if done { 0int } else { 1int }),
        {
            let here = Self::decode_at(brick, pos, end, seq, floor)?;
            let (at, found) = match here {
                Some(found) => (pos, Some(found)),
                None => if pos != start {
                    (start, Self::decode_at(brick, start, end, seq, floor)?)
                } else {
                    (pos, None)
                },
            };
            match found {
                None => {
                    done = true;
                    assert(views(frames@) =~= whole);
                },
                Some((payload, frame_epoch, len)) => {
                    let jump: u64 = if at == pos {
                        0
                    } else {
                        end - pos
                    };
                    let spent: u128 = travelled as u128 + len as u128 + jump as u128;
                    if spent >= size as u128 {
                        done = true;
                        assert(views(frames@) =~= whole);
                    } else {
                        let ghost before = frames@;
                        let ghost rest = scan(b, start as int, size as int, pos as int, seq, floor, travelled as int);
                        let frame = RecoveredFrame { payload, seq, epoch: frame_epoch, cursor_after: at + len };
                        let ghost frame_view = frame@;
                        frames.push(frame);
                        proof {
                            assert(views(frames@) =~= views(before).push(frame_view));
                        }
                        travelled = spent as u64;
                        pos = at + len;
                        floor = frame_epoch;
                        if seq == u64::MAX {
                            done = true;
                            assert(views(frames@) =~= whole);
                        } else {
                            seq = seq + 1;
                            proof {
                                let further = scan(b, start as int, size as int, pos as int, seq, floor, travelled as int);
                                assert(rest == seq![frame_view] + further);
                                assert(views(frames@) + further =~= views(before) + rest);
                            }
                        }
                    }
                },
            }
        }
        Ok(frames)
    }

    /// Decode one frame at `pos` if a valid one with `seq` lies there.
    fn decode_at<D: Disk>(brick: &Brick<D>, pos: u64, end: u64, seq: u64, floor: u64) -> (r: Result<
        Option<(Vec<u8>, u64, u64)>,
    >)
        requires
            brick.inv(),
            brick.superblock().wal_start <= pos <= end,
            end == brick.aux().len(),
            sound(brick.superblock(), brick.disk_bytes().len() as int),
        ensures
            brick.reliable() ==> r is Ok,
            r matches Ok(None) ==> !frame_at(brick.aux(), pos as int, end as int, seq, floor),
            r matches Ok(Some((payload, epoch, len))) ==> frame_at(brick.aux(), pos as int, end as int, seq, floor)
                && payload@ == frame_payload(brick.aux(), pos as int) && epoch == u64_at(brick.aux(), pos + 16) && len
                == frame_span(brick.aux(), pos as int) && pos + len <= end,
    {
        proof {
            brick.lemma_model();
        }
        let ghost b = brick.aux();
        if end - pos < 64 {
            return Ok(None);
        }
        let mut header: Vec<u8> = vec![0u8; 32];
        brick.aux_read(pos, header.as_mut_slice())?;
        assert(header@ =~= b.subrange(pos as int, pos + 32));
        proof {
            assert(header@.subrange(0, 8) =~= b.subrange(pos as int, pos + 8));
            assert(header@.subrange(8, 16) =~= b.subrange(pos + 8, pos + 16));
            assert(header@.subrange(16, 24) =~= b.subrange(pos + 16, pos + 24));
            assert(header@.subrange(24, 28) =~= b.subrange(pos + 24, pos + 28));
        }
        if get_u64(header.as_slice(), 0) != FRAME_MAGIC {
            return Ok(None);
        }
        if get_u64(header.as_slice(), 8) != seq {
            return Ok(None);
        }
        let epoch: u64 = get_u64(header.as_slice(), 16);
        if epoch < floor {
            return Ok(None);
        }
        let length: usize = get_u32(header.as_slice(), 24) as usize;
        if length > MAX_WAL_PAYLOAD || frame_len(length) > end - pos {
            return Ok(None);
        }
        let mut rest: Vec<u8> = vec![0u8; length + 32];
        brick.aux_read(pos + 32, rest.as_mut_slice())?;
        let payload = slice_to_vec(slice_subrange(rest.as_slice(), 0, length));
        let mut covered = header;
        push_bytes(&mut covered, payload.as_slice());
        proof {
            assert(covered@ =~= b.subrange(pos as int, pos + 32 + length));
            assert(payload@ =~= frame_payload(b, pos as int));
            assert(rest@.subrange(length as int, length + 32) =~= b.subrange(pos + 32 + length, pos + 64 + length));
        }
        let check = full_check(covered.as_slice());
        if !same_bytes(check.as_slice(), slice_subrange(rest.as_slice(), length, length + 32)) {
            return Ok(None);
        }
        Ok(Some((payload, epoch, frame_len(length))))
    }

    /// Adopt the position after a validated replay: the ring continues from
    /// exactly where the accepted run ended, and everything from the
    /// anchor's position to there is live.
    pub fn adopt(&mut self, cursor: u64, next_seq: u64, replay_start: u64)
        ensures
            *final(self) == (Wal { cursor, next_seq, replay_start, ..*old(self) }),
    {
        self.cursor = cursor;
        self.next_seq = next_seq;
        self.replay_start = replay_start;
    }

    /// Where the next frame of `len` bytes goes.
    pub open spec fn next_place(&self, len: int) -> int {
        if self.cursor + len > self.start + self.size {
            self.start as int
        } else {
            self.cursor as int
        }
    }

    /// The live history does not take the whole ring.
    pub open spec fn unwound(&self) -> bool {
        !(self.replay_start == self.start && self.cursor == self.start + self.size)
    }

    /// What it would take of the ring, live history counted in.
    pub open spec fn spent_with(&self, len: int) -> int {
        ring_distance(self.start as int, self.size as int, self.replay_start as int, self.cursor as int) + len
            + if self.cursor + len > self.start + self.size {
            self.start + self.size - self.cursor
        } else {
            0
        }
    }

    /// A frame of `payload_len` bytes fits without lapping live history.
    pub open spec fn has_room(&self, payload_len: nat) -> bool {
        self.spent_with(frame_size(payload_len) as int) < self.size && self.next_seq < u64::MAX
    }

    /// Append one entry. Not durable until the brick flushes. `WalFull`
    /// means live history would be lapped: the pool's cue to checkpoint.
    pub fn append<D: Disk>(&mut self, brick: &mut Brick<D>, payload: &[u8]) -> (r: Result<u64>)
        requires
            old(self).wf(),
            old(brick).inv(),
            old(self).of(old(brick)),
            payload@.len() <= MAX_WAL_PAYLOAD,
        ensures
            final(self).wf(),
            final(self).of(final(brick)),
            final(brick).inv(),
            final(brick).superblock() == old(brick).superblock(),
            final(brick).reliable() == old(brick).reliable(),
            final(brick).reserve_is_open() == old(brick).reserve_is_open(),
            final(brick).disk_bytes().len() == old(brick).disk_bytes().len(),
            final(brick).held() == old(brick).held(),
            final(brick).blocks() == old(brick).blocks(),
            final(brick).claims() == old(brick).claims(),
            final(brick).free_list() == old(brick).free_list(),
            final(brick).catalogue() == old(brick).catalogue(),
            old(brick).intact() ==> final(brick).intact(),
            final(brick).kept_to_room(old(brick)),
            same_outside(
                old(brick).aux(),
                final(brick).aux(),
                old(self).start as int,
                old(self).size as int,
            ),
            !old(self).has_room(payload@.len()) ==> r == Err::<u64, FsError>(FsError::WalFull)
                && final(brick).disk_bytes() == old(brick).disk_bytes() && final(brick).calm(old(brick)),
            old(self).has_room(payload@.len()) ==> {
                let len = frame_size(payload@.len()) as int;
                let at = old(self).next_place(len);
                &&& same_outside(old(brick).aux(), final(brick).aux(), at, len)
                &&& final(brick).calm_but(old(brick), at, len)
            },
            old(self).has_room(payload@.len()) && old(brick).reliable() ==> r is Ok,
            r is Err ==> *final(self) == *old(self),
            r matches Ok(seq) ==> {
                let len = frame_size(payload@.len()) as int;
                let at = old(self).next_place(len);
                &&& seq == old(self).next_seq
                &&& *final(self) == (Wal {
                    cursor: (at + len) as u64,
                    next_seq: (old(self).next_seq + 1) as u64,
                    ..*old(self)
                })
                &&& final(brick).aux() == splice(
                    old(brick).aux(),
                    at,
                    frame_bytes(old(self).next_seq, old(self).epoch, payload@),
                )
            },
    {
        proof {
            brick.lemma_model();
        }
        let end: u64 = self.start + self.size;
        let len: u64 = frame_len(payload.len());
        let mut at: u64 = self.cursor;
        let mut spent: u128 = self.distance(self.replay_start, self.cursor) as u128;
        if len > end - at {
            // Does not fit before the ring's end: jump to the start, the
            // wasted tail counting against live space like anything else.
            spent = spent + (end - at) as u128;
            at = self.start;
        }
        if spent + len as u128 >= self.size as u128 || self.next_seq == u64::MAX {
            return Err(FsError::WalFull);
        }
        let frame = encode_frame(self.next_seq, self.epoch, payload);
        match brick.aux_write(at, frame.as_slice()) {
            Ok(()) => {},
            Err(e) => {
                return Err(e);
            },
        }
        let seq: u64 = self.next_seq;
        self.cursor = at + len;
        self.next_seq = seq + 1;
        Ok(seq)
    }

    /// A checkpoint has made everything up to the cursor redundant: live
    /// history restarts here. The caller writes the anchor carrying these
    /// positions; this only moves the in-memory fence.
    pub fn retire_to_cursor(&mut self)
        ensures
            *final(self) == (Wal { replay_start: old(self).cursor, ..*old(self) }),
    {
        self.replay_start = self.cursor;
    }

    /// The same for a position captured earlier.
    pub fn retire_to(&mut self, cursor: u64)
        ensures
            *final(self) == (Wal { replay_start: cursor, ..*old(self) }),
    {
        self.replay_start = cursor;
    }

    /// What the anchor should record as the replay position and seq.
    pub fn position(&self) -> (r: (u64, u64))
        ensures
            r == (self.cursor, self.next_seq),
    {
        (self.cursor, self.next_seq)
    }

    /// The epoch new frames are written under.
    pub fn epoch(&self) -> (r: u64)
        ensures
            r == self.epoch,
    {
        self.epoch
    }

    pub fn set_epoch(&mut self, epoch: u64)
        ensures
            *final(self) == (Wal { epoch, ..*old(self) }),
    {
        self.epoch = epoch;
    }
}

/// Recovered frames as a scan sees them.
pub open spec fn views(frames: Seq<RecoveredFrame>) -> Seq<FrameView> {
    Seq::new(frames.len(), |i: int| frames[i]@)
}

// ---------------------------------------------------------------------
// What was appended is what a scan finds

/// From `pos` a scan finds exactly the frames of `log` and then stands at
/// `to`, expecting `seq_to`.
pub open spec fn leads(
    b: Seq<u8>,
    start: int,
    size: int,
    pos: int,
    seq: u64,
    floor: u64,
    travelled: int,
    log: Seq<FrameView>,
    to: int,
    travelled_to: int,
) -> bool
    decreases log.len(),
{
    if log.len() == 0 {
        pos == to && travelled == travelled_to
    } else {
        match next_at(b, start, start + size, pos, seq, floor) {
            None => false,
            Some(at) => {
                let after = travelled + advance(b, start + size, pos, at);
                let next = at + frame_span(b, at);
                &&& after < size
                &&& travelled < after
                &&& log[0] == (FrameView {
                    payload: frame_payload(b, at),
                    seq,
                    epoch: u64_at(b, at + 16),
                    cursor_after: next as u64,
                })
                &&& next <= start + size
                &&& log.len() > 1 ==> seq < u64::MAX
                &&& leads(b, start, size, next, (seq + 1) as u64, log[0].epoch, after, log.drop_first(), to, travelled_to)
            },
        }
    }
}

/// The byte at `i` belongs to the stretch from `from` around to `to`.
pub open spec fn between(start: int, size: int, from: int, to: int, i: int) -> bool {
    if from <= to {
        from <= i < to
    } else {
        from <= i < start + size || start <= i < to
    }
}

/// How the distance a scan has gone fixes where it stands.
proof fn lemma_leads_shape(
    b: Seq<u8>,
    start: int,
    size: int,
    pos: int,
    seq: u64,
    floor: u64,
    travelled: int,
    log: Seq<FrameView>,
    to: int,
    travelled_to: int,
)
    requires
        leads(b, start, size, pos, seq, floor, travelled, log, to, travelled_to),
        start <= pos <= start + size,
        0 <= travelled < size,
    ensures
        start <= to <= start + size,
        travelled <= travelled_to < size,
        travelled_to - travelled == to - pos || travelled_to - travelled == start + size - pos + to - start,
        log.len() > 0 ==> to > start,
    decreases log.len(),
{
    if log.len() > 0 {
        let at = next_at(b, start, start + size, pos, seq, floor)->Some_0;
        let next = at + frame_span(b, at);
        let after = travelled + advance(b, start + size, pos, at);
        lemma_leads_shape(b, start, size, next, (seq + 1) as u64, log[0].epoch, after, log.drop_first(), to, travelled_to);
        assert(at == pos || at == start);
        assert(frame_span(b, at) > 0);
        if log.len() == 1 {
            assert(log.drop_first().len() == 0);
            assert(leads(b, start, size, next, (seq + 1) as u64, log[0].epoch, after, log.drop_first(), to, travelled_to));
            assert(to == next);
        } else {
            assert(log.drop_first().len() > 0);
        }
    }
}

/// Whether a frame lies at `pos` rests on the bytes from there on.
proof fn lemma_frame_frame(b: Seq<u8>, c: Seq<u8>, pos: int, end: int, upto: int, seq: u64, floor: u64)
    requires
        b.len() == c.len(),
        0 <= pos,
        end <= b.len(),
        forall|i: int| pos <= i < upto ==> #[trigger] c[i] == b[i],
        upto == end || (frame_at(b, pos, end, seq, floor) && pos + frame_span(b, pos) <= upto),
    ensures
        frame_at(c, pos, end, seq, floor) == frame_at(b, pos, end, seq, floor),
        frame_at(b, pos, end, seq, floor) ==> frame_payload(c, pos) == frame_payload(b, pos) && frame_span(c, pos)
            == frame_span(b, pos) && u64_at(c, pos + 16) == u64_at(b, pos + 16),
{
    if pos + frame_size(0) <= end {
        assert(c.subrange(pos, pos + 8) =~= b.subrange(pos, pos + 8));
        assert(c.subrange(pos + 8, pos + 16) =~= b.subrange(pos + 8, pos + 16));
        assert(c.subrange(pos + 16, pos + 24) =~= b.subrange(pos + 16, pos + 24));
        assert(c.subrange(pos + 24, pos + 28) =~= b.subrange(pos + 24, pos + 28));
        let len = u32_at(b, pos + 24);
        if len <= MAX_WAL_PAYLOAD && pos + frame_size(len as nat) <= end {
            if upto == end || pos + frame_span(b, pos) <= upto {
                assert(c.subrange(pos, pos + FRAME_HEADER_LEN + len) =~= b.subrange(pos, pos + FRAME_HEADER_LEN + len));
                assert(c.subrange(pos + FRAME_HEADER_LEN + len, pos + frame_size(len as nat)) =~= b.subrange(
                    pos + FRAME_HEADER_LEN + len,
                    pos + frame_size(len as nat),
                ));
                assert(frame_payload(c, pos) =~= frame_payload(b, pos));
            }
        }
    }
}

/// A scan to `to` rests on the bytes it passes.
proof fn lemma_leads_frame(
    b: Seq<u8>,
    c: Seq<u8>,
    start: int,
    size: int,
    pos: int,
    seq: u64,
    floor: u64,
    travelled: int,
    log: Seq<FrameView>,
    to: int,
    travelled_to: int,
)
    requires
        leads(b, start, size, pos, seq, floor, travelled, log, to, travelled_to),
        0 <= start <= pos <= start + size,
        start + size <= b.len(),
        b.len() == c.len(),
        0 <= travelled < size,
        forall|i: int| between(start, size, pos, to, i) ==> #[trigger] c[i] == b[i],
    ensures
        leads(c, start, size, pos, seq, floor, travelled, log, to, travelled_to),
    decreases log.len(),
{
    if log.len() > 0 {
        let end = start + size;
        let at = next_at(b, start, end, pos, seq, floor)->Some_0;
        let next = at + frame_span(b, at);
        let after = travelled + advance(b, end, pos, at);
        lemma_leads_shape(b, start, size, pos, seq, floor, travelled, log, to, travelled_to);
        lemma_leads_shape(b, start, size, next, (seq + 1) as u64, log[0].epoch, after, log.drop_first(), to, travelled_to);
        if at == pos {
            assert forall|i: int| pos <= i < next implies #[trigger] c[i] == b[i] by {
                assert(between(start, size, pos, to, i));
            }
            lemma_frame_frame(b, c, pos, end, next, seq, floor);
        } else {
            assert(to < pos);
            assert forall|i: int| pos <= i < end implies #[trigger] c[i] == b[i] by {
                assert(between(start, size, pos, to, i));
            }
            assert forall|i: int| start <= i < next implies #[trigger] c[i] == b[i] by {
                assert(between(start, size, pos, to, i));
            }
            lemma_frame_frame(b, c, pos, end, end, seq, floor);
            lemma_frame_frame(b, c, start, end, next, seq, floor);
        }
        assert(next_at(c, start, end, pos, seq, floor) == Some(at));
        assert forall|i: int| between(start, size, next, to, i) implies #[trigger] c[i] == b[i] by {
            assert(between(start, size, pos, to, i));
        }
        lemma_leads_frame(b, c, start, size, next, (seq + 1) as u64, log[0].epoch, after, log.drop_first(), to, travelled_to);
    }
}

/// One more frame at the end of a scan.
proof fn lemma_leads_push(
    b: Seq<u8>,
    start: int,
    size: int,
    pos: int,
    seq: u64,
    floor: u64,
    travelled: int,
    log: Seq<FrameView>,
    to: int,
    travelled_to: int,
    frame: FrameView,
    at: int,
)
    requires
        leads(b, start, size, pos, seq, floor, travelled, log, to, travelled_to),
        frame.seq == seq + log.len(),
        next_at(b, start, start + size, to, frame.seq, if log.len() == 0 { floor } else { log.last().epoch }) == Some(at),
        frame == (FrameView {
            payload: frame_payload(b, at),
            seq: frame.seq,
            epoch: u64_at(b, at + 16),
            cursor_after: (at + frame_span(b, at)) as u64,
        }),
        at + frame_span(b, at) <= start + size,
        travelled_to + advance(b, start + size, to, at) < size,
        travelled_to < travelled_to + advance(b, start + size, to, at),
    ensures
        leads(
            b,
            start,
            size,
            pos,
            seq,
            floor,
            travelled,
            log.push(frame),
            at + frame_span(b, at),
            travelled_to + advance(b, start + size, to, at),
        ),
    decreases log.len(),
{
    let longer = log.push(frame);
    let next = at + frame_span(b, at);
    let after = travelled_to + advance(b, start + size, to, at);
    if log.len() == 0 {
        assert(longer.drop_first().len() == 0);
        assert(leads(b, start, size, next, (seq + 1) as u64, frame.epoch, after, longer.drop_first(), next, after));
    } else {
        let first = next_at(b, start, start + size, pos, seq, floor)->Some_0;
        let n = first + frame_span(b, first);
        let a = travelled + advance(b, start + size, pos, first);
        assert(longer.drop_first() =~= log.drop_first().push(frame));
        if log.len() > 1 {
            assert(log.drop_first().last() == log.last());
        }
        lemma_leads_push(b, start, size, n, (seq + 1) as u64, log[0].epoch, a, log.drop_first(), to, travelled_to, frame, at);
    }
}

/// A scan from where a path starts finds the path's frames first.
proof fn lemma_leads_scan(
    b: Seq<u8>,
    start: int,
    size: int,
    pos: int,
    seq: u64,
    floor: u64,
    travelled: int,
    log: Seq<FrameView>,
    to: int,
    travelled_to: int,
)
    requires
        leads(b, start, size, pos, seq, floor, travelled, log, to, travelled_to),
    ensures
        log.is_prefix_of(scan(b, start, size, pos, seq, floor, travelled)),
    decreases log.len(),
{
    let all = scan(b, start, size, pos, seq, floor, travelled);
    if log.len() > 0 {
        let at = next_at(b, start, start + size, pos, seq, floor)->Some_0;
        let next = at + frame_span(b, at);
        let after = travelled + advance(b, start + size, pos, at);
        let rest = scan(b, start, size, next, (seq + 1) as u64, log[0].epoch, after);
        lemma_leads_scan(b, start, size, next, (seq + 1) as u64, log[0].epoch, after, log.drop_first(), to, travelled_to);
        if seq < u64::MAX {
            assert(all == seq![log[0]] + rest);
            assert(log =~= seq![log[0]] + log.drop_first());
            assert(log =~= all.subrange(0, log.len() as int)) by {
                assert forall|i: int| 0 <= i < log.len() implies log[i] == all[i] by {
                    if i > 0 {
                        assert(log.drop_first()[i - 1] == rest[i - 1]);
                    }
                }
            }
        } else {
            assert(log.len() == 1);
        }
    }
}

/// The ring's live history is `log`, as a scan from the replay position
/// under `seq` and `floor` finds it.
pub open spec fn tracks(wal: Wal, b: Seq<u8>, seq: u64, floor: u64, log: Seq<FrameView>) -> bool {
    &&& wal.wf()
    &&& seq + log.len() == wal.next_seq
    &&& leads(
        b,
        wal.start as int,
        wal.size as int,
        wal.replay_start as int,
        seq,
        floor,
        0,
        log,
        wal.cursor as int,
        ring_distance(wal.start as int, wal.size as int, wal.replay_start as int, wal.cursor as int),
    )
    &&& (if log.len() == 0 { floor } else { log.last().epoch }) <= wal.epoch
}

/// An append adds its frame to the ring's live history: nothing before it is
/// disturbed, and a scan goes on to find it. When the frame goes to the
/// start of the ring, no stale frame may pass for it where the cursor stood.
pub proof fn law_append_extends_history(
    wal: Wal,
    b: Seq<u8>,
    seq: u64,
    floor: u64,
    log: Seq<FrameView>,
    payload: Seq<u8>,
    after: Wal,
    c: Seq<u8>,
)
    requires
        tracks(wal, b, seq, floor, log),
        payload.len() <= MAX_WAL_PAYLOAD,
        wal.has_room(payload.len()),
        wal.start + wal.size <= b.len(),
        ({
            let len = frame_size(payload.len()) as int;
            let at = wal.next_place(len);
            &&& after == (Wal { cursor: (at + len) as u64, next_seq: (wal.next_seq + 1) as u64, ..wal })
            &&& c == splice(b, at, frame_bytes(wal.next_seq, wal.epoch, payload))
            &&& at != wal.cursor ==> !frame_at(
                b,
                wal.cursor as int,
                wal.start + wal.size,
                wal.next_seq,
                if log.len() == 0 { floor } else { log.last().epoch },
            )
        }),
    ensures
        tracks(
            after,
            c,
            seq,
            floor,
            log.push(FrameView { payload, seq: wal.next_seq, epoch: wal.epoch, cursor_after: after.cursor }),
        ),
{
    let start = wal.start as int;
    let size = wal.size as int;
    let end = start + size;
    let len = frame_size(payload.len()) as int;
    let at = wal.next_place(len);
    let from = wal.replay_start as int;
    let to = wal.cursor as int;
    let gone = ring_distance(start, size, from, to);
    let last_epoch = if log.len() == 0 { floor } else { log.last().epoch };
    let bytes = frame_bytes(wal.next_seq, wal.epoch, payload);
    lemma_leads_shape(b, start, size, from, seq, floor, 0, log, to, gone);
    lemma_frame_layout(wal.next_seq, wal.epoch, payload);
    assert(gone == if to >= from && to - from < size { to - from } else { to - from + size }) by {
        lemma_ring_distance(start, size, from, to);
    }
    assert forall|i: int| between(start, size, from, to, i) implies #[trigger] c[i] == b[i] by {
        assert(!(at <= i < at + len));
    }
    lemma_leads_frame(b, c, start, size, from, seq, floor, 0, log, to, gone);
    assert(c.subrange(at, at + len) =~= bytes);
    lemma_placed_frame(c, at, end, wal.next_seq, wal.epoch, last_epoch, payload);
    if at != to {
        assert forall|i: int| to <= i < end implies #[trigger] c[i] == b[i] by {
            assert(!(at <= i < at + len));
        }
        lemma_frame_frame(b, c, to, end, end, wal.next_seq, last_epoch);
    }
    let frame = FrameView { payload, seq: wal.next_seq, epoch: wal.epoch, cursor_after: after.cursor };
    lemma_leads_push(c, start, size, from, seq, floor, 0, log, to, gone, frame, at);
    assert(ring_distance(start, size, from, at + len) == gone + advance(c, end, to, at)) by {
        lemma_ring_distance(start, size, from, at + len);
    }
    assert(log.push(frame).last() == frame);
}

/// Where the history starts at the ring's start, an append has room while
/// what was appended and its own frame leave some of the ring.
pub proof fn law_a_young_ring_has_room(wal: Wal, payload: nat)
    requires
        wal.wf(),
        wal.unwound(),
        wal.replay_start == wal.start,
        wal.next_seq < u64::MAX,
        wal.cursor + frame_size(payload) < wal.start + wal.size,
    ensures
        wal.has_room(payload),
{
    lemma_ring_distance(wal.start as int, wal.size as int, wal.replay_start as int, wal.cursor as int);
}

/// An append writes outside the live history, and only adds to it.
pub proof fn law_an_append_spares_the_history(wal: Wal, payload: nat, i: int)
    requires
        wal.wf(),
        wal.unwound(),
        wal.has_room(payload),
    ensures
        ({
            let len = frame_size(payload) as int;
            let at = wal.next_place(len);
            let after = Wal { cursor: (at + len) as u64, ..wal };
            &&& after.wf()
            &&& after.unwound()
            &&& between(wal.start as int, wal.size as int, wal.replay_start as int, wal.cursor as int, i) ==> !(at <= i < at + len) && between(
                wal.start as int,
                wal.size as int,
                wal.replay_start as int,
                after.cursor as int,
                i,
            )
        }),
{
    lemma_ring_distance(wal.start as int, wal.size as int, wal.replay_start as int, wal.cursor as int);
}

/// A ring that tracks a history is not wound all the way round by it.
pub proof fn law_a_history_leaves_room(wal: Wal, b: Seq<u8>, seq: u64, floor: u64, log: Seq<FrameView>)
    requires
        tracks(wal, b, seq, floor, log),
    ensures
        wal.unwound(),
{
    let (start, size) = (wal.start as int, wal.size as int);
    let (from, to) = (wal.replay_start as int, wal.cursor as int);
    lemma_ring_distance(start, size, from, to);
    lemma_leads_shape(b, start, size, from, seq, floor, 0, log, to, ring_distance(start, size, from, to));
}

proof fn lemma_ring_distance(start: int, size: int, a: int, b: int)
    requires
        size > 0,
        start <= a <= start + size,
        start <= b <= start + size,
    ensures
        ring_distance(start, size, a, b) == if b - a == size {
            0
        } else if b >= a {
            b - a
        } else {
            b - a + size
        },
{
    let x = b - a + size;
    if x >= 2 * size {
        vstd::arithmetic::div_mod::lemma_fundamental_div_mod_converse(x, size, 2, x - 2 * size);
    } else if x >= size {
        vstd::arithmetic::div_mod::lemma_fundamental_div_mod_converse(x, size, 1, x - size);
    } else {
        vstd::arithmetic::div_mod::lemma_fundamental_div_mod_converse(x, size, 0, x);
    }
}

proof fn lemma_frame_layout(seq: u64, epoch: u64, payload: Seq<u8>)
    requires
        payload.len() <= MAX_WAL_PAYLOAD,
    ensures
        frame_bytes(seq, epoch, payload).len() == frame_size(payload.len()),
{
    lemma_auto_spec_u32_to_from_le_bytes();
    lemma_auto_spec_u64_to_from_le_bytes();
}

/// A frame written somewhere is found there.
proof fn lemma_placed_frame(c: Seq<u8>, at: int, end: int, seq: u64, epoch: u64, floor: u64, payload: Seq<u8>)
    requires
        payload.len() <= MAX_WAL_PAYLOAD,
        0 <= at,
        at + frame_size(payload.len()) <= end <= c.len(),
        c.subrange(at, at + frame_size(payload.len())) == frame_bytes(seq, epoch, payload),
        epoch >= floor,
    ensures
        frame_at(c, at, end, seq, floor),
        frame_payload(c, at) == payload,
        frame_span(c, at) == frame_size(payload.len()),
        u64_at(c, at + 16) == epoch,
{
    lemma_auto_spec_u32_to_from_le_bytes();
    lemma_auto_spec_u64_to_from_le_bytes();
    let w = frame_bytes(seq, epoch, payload);
    let body = frame_body(seq, epoch, payload);
    let n = payload.len() as int;
    assert(body.len() == 32 + n);
    assert forall|x: int, y: int| 0 <= x <= y <= w.len() implies #[trigger] c.subrange(at + x, at + y) == w.subrange(x, y) by {
        assert(c.subrange(at + x, at + y) =~= w.subrange(x, y)) by {
            assert forall|i: int| 0 <= i < y - x implies c.subrange(at + x, at + y)[i] == w.subrange(x, y)[i] by {
                assert(c.subrange(at, at + frame_size(payload.len()))[x + i] == w[x + i]);
            }
        }
    }
    assert(w.subrange(0, 8) =~= spec_u64_to_le_bytes(FRAME_MAGIC));
    assert(w.subrange(8, 16) =~= spec_u64_to_le_bytes(seq));
    assert(w.subrange(16, 24) =~= spec_u64_to_le_bytes(epoch));
    assert(w.subrange(24, 28) =~= spec_u32_to_le_bytes(payload.len() as u32));
    assert(w.subrange(32, 32 + n) =~= payload);
    assert(w.subrange(0, 32 + n) =~= body);
    assert(w.subrange(32 + n, 64 + n) =~= blake3_256(body)@);
    assert(c.subrange(at + 0, at + 8) == w.subrange(0, 8));
    assert(c.subrange(at + 8, at + 16) == w.subrange(8, 16));
    assert(c.subrange(at + 16, at + 24) == w.subrange(16, 24));
    assert(c.subrange(at + 24, at + 28) == w.subrange(24, 28));
    assert(c.subrange(at + 32, at + (32 + n)) == w.subrange(32, 32 + n));
    assert(c.subrange(at + 0, at + (32 + n)) == w.subrange(0, 32 + n));
    assert(c.subrange(at + (32 + n), at + (64 + n)) == w.subrange(32 + n, 64 + n));
}

/// A recovery from the anchored position finds the whole live history, in
/// order, before anything else.
pub proof fn law_recovery_finds_history(wal: Wal, b: Seq<u8>, seq: u64, floor: u64, log: Seq<FrameView>)
    requires
        tracks(wal, b, seq, floor, log),
    ensures
        log.is_prefix_of(scan(b, wal.start as int, wal.size as int, wal.replay_start as int, seq, floor, 0)),
{
    lemma_leads_scan(
        b,
        wal.start as int,
        wal.size as int,
        wal.replay_start as int,
        seq,
        floor,
        0,
        log,
        wal.cursor as int,
        ring_distance(wal.start as int, wal.size as int, wal.replay_start as int, wal.cursor as int),
    );
}

/// A crash keeps the acknowledged history: whatever became of frames appended
/// since, in the part of the ring between the cursor and the replay position,
/// a recovery finds every frame of the history that was live at the flush, in
/// order, before anything else.
pub proof fn law_a_crash_keeps_the_flushed_history(wal: Wal, b: Seq<u8>, seq: u64, floor: u64, log: Seq<FrameView>, image: Seq<u8>)
    requires
        tracks(wal, b, seq, floor, log),
        wal.start + wal.size <= b.len(),
        image.len() == b.len(),
        forall|i: int| between(wal.start as int, wal.size as int, wal.replay_start as int, wal.cursor as int, i) ==> #[trigger] image[i] == b[i],
    ensures
        log.is_prefix_of(scan(image, wal.start as int, wal.size as int, wal.replay_start as int, seq, floor, 0)),
{
    lemma_leads_frame(
        b,
        image,
        wal.start as int,
        wal.size as int,
        wal.replay_start as int,
        seq,
        floor,
        0,
        log,
        wal.cursor as int,
        ring_distance(wal.start as int, wal.size as int, wal.replay_start as int, wal.cursor as int),
    );
    law_recovery_finds_history(wal, image, seq, floor, log);
}

/// Bytes outside the live history have no part in it.
pub proof fn law_the_history_alone_counts(wal: Wal, b: Seq<u8>, seq: u64, floor: u64, log: Seq<FrameView>, image: Seq<u8>)
    requires
        tracks(wal, b, seq, floor, log),
        wal.start + wal.size <= b.len(),
        image.len() == b.len(),
        forall|i: int| between(wal.start as int, wal.size as int, wal.replay_start as int, wal.cursor as int, i) ==> #[trigger] image[i] == b[i],
    ensures
        tracks(wal, image, seq, floor, log),
{
    let (start, size) = (wal.start as int, wal.size as int);
    let (from, to) = (wal.replay_start as int, wal.cursor as int);
    lemma_leads_frame(b, image, start, size, from, seq, floor, 0, log, to, ring_distance(start, size, from, to));
}

/// Along a history, epochs never fall, and seqs go up by one.
proof fn lemma_leads_order(
    b: Seq<u8>,
    start: int,
    size: int,
    pos: int,
    seq: u64,
    floor: u64,
    travelled: int,
    log: Seq<FrameView>,
    to: int,
    travelled_to: int,
)
    requires
        leads(b, start, size, pos, seq, floor, travelled, log, to, travelled_to),
        seq + log.len() <= u64::MAX,
    ensures
        forall|i: int| 0 <= i < log.len() ==> floor <= (#[trigger] log[i]).epoch <= log.last().epoch && log[i].seq == seq + i,
    decreases log.len(),
{
    if log.len() > 0 {
        let at = next_at(b, start, start + size, pos, seq, floor)->Some_0;
        let next = at + frame_span(b, at);
        let after = travelled + advance(b, start + size, pos, at);
        let rest = log.drop_first();
        lemma_leads_order(b, start, size, next, (seq + 1) as u64, log[0].epoch, after, rest, to, travelled_to);
        assert forall|i: int| 0 <= i < log.len() implies floor <= (#[trigger] log[i]).epoch <= log.last().epoch && log[i].seq == seq + i by {
            if i > 0 {
                assert(rest[i - 1] == log[i]);
                assert(rest.last() == log.last());
            } else if rest.len() > 0 {
                assert(rest[rest.len() - 1] == log.last());
            }
        }
    }
}

/// The frames of a ring's history carry seqs below its next one, and epochs
/// no later than its own.
pub proof fn law_a_history_is_in_order(wal: Wal, b: Seq<u8>, seq: u64, floor: u64, log: Seq<FrameView>)
    requires
        tracks(wal, b, seq, floor, log),
    ensures
        floor <= wal.epoch,
        forall|i: int| 0 <= i < log.len() ==> floor <= (#[trigger] log[i]).epoch <= wal.epoch && log[i].seq == seq + i < wal.next_seq,
{
    let (start, size) = (wal.start as int, wal.size as int);
    let (from, to) = (wal.replay_start as int, wal.cursor as int);
    lemma_leads_order(b, start, size, from, seq, floor, 0, log, to, ring_distance(start, size, from, to));
    if log.len() > 0 {
        assert(floor <= log[0].epoch);
    }
}

/// A scan that follows a path to where nothing passes for the next frame
/// finds the path and nothing else.
proof fn lemma_leads_scan_ends(
    b: Seq<u8>,
    start: int,
    size: int,
    pos: int,
    seq: u64,
    floor: u64,
    travelled: int,
    log: Seq<FrameView>,
    to: int,
    travelled_to: int,
)
    requires
        leads(b, start, size, pos, seq, floor, travelled, log, to, travelled_to),
        seq + log.len() <= u64::MAX,
        next_at(b, start, start + size, to, (seq + log.len()) as u64, if log.len() == 0 { floor } else { log.last().epoch }) is None,
    ensures
        scan(b, start, size, pos, seq, floor, travelled) == log,
    decreases log.len(),
{
    let all = scan(b, start, size, pos, seq, floor, travelled);
    if log.len() == 0 {
        assert(all =~= log);
    } else {
        let at = next_at(b, start, start + size, pos, seq, floor)->Some_0;
        let next = at + frame_span(b, at);
        let after = travelled + advance(b, start + size, pos, at);
        let rest = log.drop_first();
        if rest.len() > 0 {
            assert(rest.last() == log.last());
        }
        lemma_leads_scan_ends(b, start, size, next, (seq + 1) as u64, log[0].epoch, after, rest, to, travelled_to);
        assert(all =~= log);
    }
}

/// Where nothing behind the cursor passes for the next frame, a recovery
/// after a crash finds exactly the history that was live at the flush.
pub proof fn law_a_crash_keeps_exactly_the_flushed_history(wal: Wal, b: Seq<u8>, seq: u64, floor: u64, log: Seq<FrameView>, image: Seq<u8>)
    requires
        tracks(wal, b, seq, floor, log),
        wal.start + wal.size <= b.len(),
        image.len() == b.len(),
        forall|i: int| between(wal.start as int, wal.size as int, wal.replay_start as int, wal.cursor as int, i) ==> #[trigger] image[i] == b[i],
        next_at(
            image,
            wal.start as int,
            wal.start + wal.size,
            wal.cursor as int,
            wal.next_seq,
            if log.len() == 0 { floor } else { log.last().epoch },
        ) is None,
    ensures
        scan(image, wal.start as int, wal.size as int, wal.replay_start as int, seq, floor, 0) == log,
{
    let (start, size) = (wal.start as int, wal.size as int);
    let (from, to) = (wal.replay_start as int, wal.cursor as int);
    let gone = ring_distance(start, size, from, to);
    lemma_leads_frame(b, image, start, size, from, seq, floor, 0, log, to, gone);
    lemma_leads_scan_ends(image, start, size, from, seq, floor, 0, log, to, gone);
}

/// The first `n` frames of a scan are a path of their own, to where the last
/// of them ends.
proof fn lemma_scan_leads(b: Seq<u8>, start: int, size: int, pos: int, seq: u64, floor: u64, travelled: int, n: int) -> (travelled_to: int)
    requires
        0 <= start <= pos <= start + size <= u64::MAX,
        0 <= n <= scan(b, start, size, pos, seq, floor, travelled).len(),
    ensures
        leads(
            b,
            start,
            size,
            pos,
            seq,
            floor,
            travelled,
            scan(b, start, size, pos, seq, floor, travelled).subrange(0, n),
            if n == 0 { pos } else { scan(b, start, size, pos, seq, floor, travelled)[n - 1].cursor_after as int },
            travelled_to,
        ),
        n > 0 ==> scan(b, start, size, pos, seq, floor, travelled)[n - 1].seq == seq + n - 1,
    decreases n,
{
    let all = scan(b, start, size, pos, seq, floor, travelled);
    let log = all.subrange(0, n);
    if n == 0 {
        travelled
    } else {
        let at = next_at(b, start, start + size, pos, seq, floor)->Some_0;
        let after = travelled + advance(b, start + size, pos, at);
        let next = at + frame_span(b, at);
        let epoch = u64_at(b, at + 16);
        if n == 1 {
            assert(log.drop_first() =~= Seq::<FrameView>::empty());
            assert(leads(b, start, size, next, (seq + 1) as u64, log[0].epoch, after, log.drop_first(), next, after));
            after
        } else {
            let rest = scan(b, start, size, next, (seq + 1) as u64, epoch, after);
            assert(all == seq![all[0]] + rest);
            let end = lemma_scan_leads(b, start, size, next, (seq + 1) as u64, epoch, after, n - 1);
            assert(log.drop_first() =~= rest.subrange(0, n - 1));
            assert(all[n - 1] == rest[n - 2]);
            end
        }
    }
}

/// A ring that stands where the first `n` frames of a scan lead, and writes
/// under an epoch no older than theirs, has those frames as its live history.
pub proof fn law_a_recovered_ring_tracks_its_frames(wal: Wal, b: Seq<u8>, seq: u64, floor: u64, n: int)
    requires
        wal.wf(),
        ({
            let all = scan(b, wal.start as int, wal.size as int, wal.replay_start as int, seq, floor, 0);
            &&& 0 <= n <= all.len()
            &&& wal.cursor == if n == 0 { wal.replay_start } else { all[n - 1].cursor_after }
            &&& wal.next_seq == if n == 0 { seq as int } else { all[n - 1].seq + 1 }
            &&& (if n == 0 { floor } else { all[n - 1].epoch }) <= wal.epoch
        }),
    ensures
        tracks(
            wal,
            b,
            seq,
            floor,
            scan(b, wal.start as int, wal.size as int, wal.replay_start as int, seq, floor, 0).subrange(0, n),
        ),
{
    let start = wal.start as int;
    let size = wal.size as int;
    let from = wal.replay_start as int;
    let to = wal.cursor as int;
    let log = scan(b, start, size, from, seq, floor, 0).subrange(0, n);
    let gone = lemma_scan_leads(b, start, size, from, seq, floor, 0, n);
    lemma_leads_shape(b, start, size, from, seq, floor, 0, log, to, gone);
    lemma_ring_distance(start, size, from, to);
}


/// The ring and its area at some moment.
pub struct RingState {
    pub wal: Wal,
    pub area: Seq<u8>,
}

/// The `i`-th payload was appended, and nothing where the cursor stood passed
/// for its frame.
pub open spec fn appended_at(states: Seq<RingState>, payloads: Seq<Seq<u8>>, i: int) -> bool {
    let (a, b, payload) = (states[i], states[i + 1], payloads[i]);
    let len = frame_size(payload.len()) as int;
    let at = a.wal.next_place(len);
    &&& payload.len() <= MAX_WAL_PAYLOAD
    &&& a.wal.has_room(payload.len())
    &&& a.wal.start + a.wal.size <= a.area.len()
    &&& b.wal == (Wal { cursor: (at + len) as u64, next_seq: (a.wal.next_seq + 1) as u64, ..a.wal })
    &&& b.area == splice(a.area, at, frame_bytes(a.wal.next_seq, a.wal.epoch, payload))
    &&& !frame_at(a.area, a.wal.cursor as int, a.wal.start + a.wal.size, a.wal.next_seq, 0)
}

/// The frames are those of the payloads, in order, with ascending seqs, and
/// the last leads to the cursor.
pub open spec fn frames_of(log: Seq<FrameView>, payloads: Seq<Seq<u8>>, seq: u64, cursor: u64) -> bool {
    &&& log.len() == payloads.len()
    &&& forall|i: int| 0 <= i < log.len() ==> (#[trigger] log[i]).payload == payloads[i] && log[i].seq == seq + i
    &&& log.len() > 0 ==> log.last().cursor_after == cursor
}

/// After any run of appends from a retired position on, round the ring or
/// not, a history of exactly their frames is there.
proof fn lemma_appends_track(states: Seq<RingState>, payloads: Seq<Seq<u8>>, floor: u64) -> (log: Seq<FrameView>)
    requires
        states.len() == payloads.len() + 1,
        states[0].wal.wf(),
        states[0].wal.replay_start == states[0].wal.cursor,
        floor <= states[0].wal.epoch,
        forall|i: int| 0 <= i < payloads.len() ==> #[trigger] appended_at(states, payloads, i),
    ensures
        tracks(states.last().wal, states.last().area, states[0].wal.next_seq, floor, log),
        frames_of(log, payloads, states[0].wal.next_seq, states.last().wal.cursor),
        states.last().wal.start == states[0].wal.start,
        states.last().wal.size == states[0].wal.size,
        states.last().wal.replay_start == states[0].wal.replay_start,
        payloads.len() > 0 ==> states.last().area.len() == states[0].area.len(),
    decreases payloads.len(),
{
    let first = states[0].wal;
    if payloads.len() == 0 {
        lemma_ring_distance(first.start as int, first.size as int, first.replay_start as int, first.cursor as int);
        Seq::empty()
    } else {
        let (rest, fewer) = (states.drop_last(), payloads.drop_last());
        assert forall|i: int| 0 <= i < fewer.len() implies #[trigger] appended_at(rest, fewer, i) by {
            assert(appended_at(states, payloads, i));
        }
        let log = lemma_appends_track(rest, fewer, floor);
        let k = payloads.len() - 1;
        assert(appended_at(states, payloads, k));
        let (a, b) = (states[k], states[k + 1]);
        assert(rest.last() == a);
        law_append_extends_history(a.wal, a.area, first.next_seq, floor, log, payloads[k], b.wal, b.area);
        let frame = FrameView { payload: payloads[k], seq: a.wal.next_seq, epoch: a.wal.epoch, cursor_after: b.wal.cursor };
        log.push(frame)
    }
}

/// Recovery finds exactly what was appended since a retired position, in
/// order, also where the ring went round, as long as nothing on the disk
/// passes for a frame that was not appended.
pub proof fn law_recovery_finds_exactly_what_was_appended(states: Seq<RingState>, payloads: Seq<Seq<u8>>, floor: u64)
    requires
        states.len() == payloads.len() + 1,
        states[0].wal.wf(),
        states[0].wal.replay_start == states[0].wal.cursor,
        states[0].wal.start + states[0].wal.size <= states[0].area.len(),
        floor <= states[0].wal.epoch,
        forall|i: int| 0 <= i < payloads.len() ==> #[trigger] appended_at(states, payloads, i),
        ({
            let (wal, area) = (states.last().wal, states.last().area);
            &&& !frame_at(area, wal.cursor as int, wal.start + wal.size, wal.next_seq, 0)
            &&& !frame_at(area, wal.start as int, wal.start + wal.size, wal.next_seq, 0)
        }),
    ensures
        frames_of(
            scan(
                states.last().area,
                states[0].wal.start as int,
                states[0].wal.size as int,
                states[0].wal.cursor as int,
                states[0].wal.next_seq,
                floor,
                0,
            ),
            payloads,
            states[0].wal.next_seq,
            states.last().wal.cursor,
        ),
{
    let log = lemma_appends_track(states, payloads, floor);
    let last = states.last();
    law_a_crash_keeps_exactly_the_flushed_history(last.wal, last.area, states[0].wal.next_seq, floor, log, last.area);
}

} // verus!
