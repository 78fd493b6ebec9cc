//! The deterministic crash-simulation disk.
//!
//! Writes are held back until a flush makes them durable; a simulated power
//! loss keeps, drops, or tears each one independently, as a seeded generator
//! decides. The same seed and the same calls always give the same history.

use crate::codec::splice;
use crate::disk::{counted, may_remain, out_of_bounds, same_outside, Disk};
use crate::error::{FsError, Result};
use vstd::bytes::*;
use vstd::prelude::*;
use vstd::slice::*;

verus! {

/// The generator's state advanced by one step.
pub open spec fn next_state(state: u64) -> u64 {
    ((state as nat + 0x9E37_79B9_7F4A_7C15) % 0x1_0000_0000_0000_0000) as u64
}

/// A product modulo 2^64.
pub open spec fn wrapped_product(a: u64, b: u64) -> u64 {
    ((a as nat * b as nat) % 0x1_0000_0000_0000_0000) as u64
}

/// The word the generator gives in a state: three xor-shifts around two
/// multiplications.
pub open spec fn mixed(state: u64) -> u64 {
    let a = wrapped_product(state ^ (state >> 30), 0xBF58_476D_1CE4_E5B9);
    let b = wrapped_product(a ^ (a >> 27), 0x94D0_49BB_1331_11EB);
    b ^ (b >> 31)
}

/// The state after `n` words.
pub open spec fn state_after(state: u64, n: nat) -> u64
    decreases n,
{
    if n == 0 {
        state
    } else {
        next_state(state_after(state, (n - 1) as nat))
    }
}

/// A tiny deterministic generator. Not for anything secret: it exists so
/// simulations replay.
#[derive(Debug, Clone)]
pub struct SplitMix64 {
    state: u64,
}

impl SplitMix64 {
    /// The generator's state.
    pub closed spec fn at(&self) -> u64 {
        self.state
    }

    pub fn new(seed: u64) -> (rng: SplitMix64)
        ensures
            rng.at() == seed,
    {
        SplitMix64 { state: seed }
    }

    pub fn next_u64(&mut self) -> (word: u64)
        ensures
            final(self).at() == next_state(old(self).at()),
            word == mixed(final(self).at()),
    {
        self.state = self.state.wrapping_add(0x9E37_79B9_7F4A_7C15);
        let mut z: u64 = self.state;
        z = (z ^ (z >> 30)).wrapping_mul(0xBF58_476D_1CE4_E5B9);
        z = (z ^ (z >> 27)).wrapping_mul(0x94D0_49BB_1331_11EB);
        z ^ (z >> 31)
    }

    /// Uniform in `0..bound`. `bound` must be non-zero.
    pub fn next_below(&mut self, bound: u64) -> (word: u64)
        requires
            bound != 0,
        ensures
            final(self).at() == next_state(old(self).at()),
            word == mixed(final(self).at()) % bound,
            word < bound,
    {
        self.next_u64() % bound
    }

    /// True with probability `percent / 100`.
    pub fn chance(&mut self, percent: u64) -> (hit: bool)
        ensures
            final(self).at() == next_state(old(self).at()),
            hit == (mixed(final(self).at()) % 100 < percent),
    {
        self.next_below(100) < percent
    }

    /// Fill a buffer with deterministic bytes: each word gives eight, the
    /// last one as many as still fit.
    pub fn fill(&mut self, buf: &mut [u8])
        ensures
            final(buf)@.len() == old(buf)@.len(),
            final(self).at() == state_after(old(self).at(), (old(buf)@.len() as nat + 7) / 8),
            forall|i: int|
                0 <= i < old(buf)@.len() ==> #[trigger] final(buf)@[i] == spec_u64_to_le_bytes(
                    mixed(state_after(old(self).at(), (i / 8 + 1) as nat)),
                )[i % 8],
    {
        let len: usize = buf.len();
        let mut at: usize = 0;
        let mut words: Ghost<nat> = Ghost(0);
        while at < len
            invariant
                len == buf@.len() == old(buf)@.len(),
                at <= len,
                at < len ==> at == 8 * words@,
                at == len ==> words@ == (len as nat + 7) / 8,
                self.at() == state_after(old(self).at(), words@),
                forall|i: int|
                    0 <= i < at ==> #[trigger] buf@[i] == spec_u64_to_le_bytes(
                        mixed(state_after(old(self).at(), (i / 8 + 1) as nat)),
                    )[i % 8],
            decreases len - at,
        {
            let next: u64 = self.next_u64();
            let word = u64_to_le_bytes(next);
            let take: usize = if len - at < 8 {
                len - at
            } else {
                8
            };
            proof {
                words@ = words@ + 1;
                lemma_auto_spec_u64_to_from_le_bytes();
            }
            let mut k: usize = 0;
            while k < take
                invariant
                    len == buf@.len() == old(buf)@.len(),
                    at + take <= len,
                    k <= take <= 8,
                    at == 8 * (words@ - 1),
                    word@ == spec_u64_to_le_bytes(next),
                    word@.len() == 8,
                    self.at() == state_after(old(self).at(), words@),
                    next == mixed(self.at()),
                    forall|i: int|
                        0 <= i < at + k ==> #[trigger] buf@[i] == spec_u64_to_le_bytes(
                            mixed(state_after(old(self).at(), (i / 8 + 1) as nat)),
                        )[i % 8],
                decreases take - k,
            {
                assert((at + k) / 8 + 1 == words@);
                assert((at + k) % 8 == k);
                buf[at + k] = word[k];
                k += 1;
            }
            at = at + take;
        }
    }
}

/// One write that has been accepted but not yet flushed.
#[derive(Debug, Clone)]
pub struct PendingWrite {
    offset: u64,
    data: Vec<u8>,
}

impl PendingWrite {
    /// Where the write starts.
    pub closed spec fn start(&self) -> int {
        self.offset as int
    }

    /// What it writes.
    pub closed spec fn payload(&self) -> Seq<u8> {
        self.data@
    }
}

/// What a power loss did to one pending write, recorded so a failing run
/// can print the exact history that broke the engine.
#[derive(Debug, Clone, Copy, PartialEq, Eq)]
pub enum CrashFate {
    Kept,
    Dropped,
    /// Kept only the first `len` bytes of the write.
    Torn { len: usize },
}

/// `base` with the writes laid over it in issue order.
pub open spec fn overlay(base: Seq<u8>, writes: Seq<PendingWrite>) -> Seq<u8>
    decreases writes.len(),
{
    if writes.len() == 0 {
        base
    } else {
        splice(overlay(base, writes.drop_last()), writes.last().start(), writes.last().payload())
    }
}

/// The fate a write of `len` bytes meets in a generator state, and the
/// state after.
pub open spec fn drawn_fate(state: u64, len: nat) -> (CrashFate, u64) {
    let one = next_state(state);
    let two = next_state(one);
    let three = next_state(two);
    if mixed(one) % 100 < 50 {
        (CrashFate::Kept, one)
    } else if mixed(two) % 100 < 60 {
        (CrashFate::Dropped, two)
    } else {
        (CrashFate::Torn { len: (mixed(three) as int % (len + 1) as int) as usize }, three)
    }
}

/// How many bytes of a write a fate leaves.
pub open spec fn fate_keeps(fate: CrashFate, len: nat) -> int {
    match fate {
        CrashFate::Kept => len as int,
        CrashFate::Dropped => 0,
        CrashFate::Torn { len } => len as int,
    }
}

/// A power loss: what is durable afterwards, each write's fate in issue
/// order, and the generator state after the last draw.
pub open spec fn power_loss(base: Seq<u8>, writes: Seq<PendingWrite>, state: u64) -> (
    Seq<u8>,
    Seq<CrashFate>,
    u64,
)
    decreases writes.len(),
{
    if writes.len() == 0 {
        (base, Seq::empty(), state)
    } else {
        let before = power_loss(base, writes.drop_last(), state);
        let data = writes.last().payload();
        let drawn = drawn_fate(before.2, data.len());
        (
            splice(
                before.0,
                writes.last().start(),
                data.subrange(0, fate_keeps(drawn.0, data.len())),
            ),
            before.1.push(drawn.0),
            drawn.1,
        )
    }
}

proof fn lemma_overlay_len(base: Seq<u8>, writes: Seq<PendingWrite>)
    ensures
        overlay(base, writes).len() == base.len(),
    decreases writes.len(),
{
    if writes.len() != 0 {
        lemma_overlay_len(base, writes.drop_last());
    }
}

proof fn lemma_power_loss_len(base: Seq<u8>, writes: Seq<PendingWrite>, state: u64)
    ensures
        power_loss(base, writes, state).0.len() == base.len(),
        power_loss(base, writes, state).1.len() == writes.len(),
    decreases writes.len(),
{
    if writes.len() != 0 {
        lemma_power_loss_len(base, writes.drop_last(), state);
    }
}

#[derive(Debug)]
pub struct SimDisk {
    /// What survives a crash.
    durable: Vec<u8>,
    /// Writes since the last flush, in issue order.
    pending: Vec<PendingWrite>,
    rng: SplitMix64,
    /// Counters a test can assert on or print with a failure.
    pub writes: u64,
    pub flushes: u64,
    pub crashes: u64,
}

impl SimDisk {
    /// The writes no flush has settled yet.
    pub closed spec fn unsettled(&self) -> Seq<PendingWrite> {
        self.pending@
    }

    /// The state of the generator that decides fates.
    pub closed spec fn fate_state(&self) -> u64 {
        self.rng.at()
    }

    /// Writes, flushes and crashes so far.
    pub closed spec fn counters(&self) -> (u64, u64, u64) {
        (self.writes, self.flushes, self.crashes)
    }

    /// A blank disk of `size` bytes.
    pub fn new(size: u64, seed: u64) -> (disk: SimDisk)
        requires
            size <= isize::MAX,
        ensures
            disk.valid(),
            disk.faultless(),
            disk.bytes() == Seq::new(size as nat, |i: int| 0u8),
            disk.durable() == disk.bytes(),
            disk.unsettled() == Seq::<PendingWrite>::empty(),
            disk.fate_state() == seed,
            disk.counters() == (0u64, 0u64, 0u64),
    {
        let durable = vec![0u8; size as usize];
        assert(durable@ =~= Seq::new(size as nat, |i: int| 0u8));
        let disk = SimDisk {
            durable,
            pending: Vec::new(),
            rng: SplitMix64::new(seed),
            writes: 0,
            flushes: 0,
            crashes: 0,
        };
        assert(disk.pending@ =~= Seq::<PendingWrite>::empty());
        disk
    }

    fn check_bounds(&self, offset: u64, len: usize) -> (r: Result<()>)
        requires
            self.valid(),
        ensures
            r is Ok <==> offset + len <= self.bytes().len(),
            r is Err ==> r == Err::<(), FsError>(
                out_of_bounds(offset, len as nat, self.bytes().len()),
            ),
    {
        proof {
            lemma_overlay_len(self.durable@, self.pending@);
        }
        match offset.checked_add(len as u64) {
            Some(end) if end <= self.durable.len() as u64 => Ok(()),
            _ => Err(
                FsError::OutOfBounds {
                    offset,
                    len: len as u64,
                    disk_size: self.durable.len() as u64,
                },
            ),
        }
    }

    /// Power loss. Every pending write is independently kept, dropped, or
    /// torn; the pending list is gone either way. Returns each write's fate
    /// in issue order.
    pub fn crash(&mut self) -> (fates: Vec<CrashFate>)
        requires
            old(self).valid(),
        ensures
            final(self).valid(),
            final(self).faultless(),
            final(self).unsettled() == Seq::<PendingWrite>::empty(),
            final(self).bytes() == final(self).durable(),
            forall|i: int| !#[trigger] final(self).at_risk(i),
            may_remain(old(self), final(self).bytes()),
            final(self).counters() == (old(self).counters().0, old(self).counters().1, counted(old(self).counters().2)),
            (final(self).durable(), fates@, final(self).fate_state()) == power_loss(
                old(self).durable(),
                old(self).unsettled(),
                old(self).fate_state(),
            ),
    {
        self.crashes = self.crashes.wrapping_add(1);
        let mut fates: Vec<CrashFate> = Vec::new();
        let mut i: usize = 0;
        proof {
            assert(self.pending@.subrange(0, 0) =~= Seq::<PendingWrite>::empty());
            assert(fates@ =~= Seq::<CrashFate>::empty());
        }
        while i < self.pending.len()
            invariant
                i <= self.pending@.len(),
                self.pending@ == old(self).pending@,
                old(self).valid(),
                self.durable@.len() == old(self).durable@.len(),
                self.writes == old(self).writes,
                self.flushes == old(self).flushes,
                self.crashes == counted(old(self).crashes),
                (self.durable@, fates@, self.rng.at()) == power_loss(
                    old(self).durable@,
                    self.pending@.subrange(0, i as int),
                    old(self).rng.at(),
                ),
            decreases self.pending@.len() - i,
        {
            let len: usize = self.pending[i].data.len();
            let ghost before = self.rng.at();
            let fate = if self.rng.chance(50) {
                CrashFate::Kept
            } else if self.rng.chance(60) {
                CrashFate::Dropped
            } else {
                CrashFate::Torn { len: self.rng.next_below(len as u64 + 1) as usize }
            };
            assert(fate == drawn_fate(before, len as nat).0);
            let keep: usize = match fate {
                CrashFate::Kept => len,
                CrashFate::Dropped => 0,
                CrashFate::Torn { len } => len,
            };
            proof {
                lemma_overlay_len(self.durable@, self.pending@);
            }
            let ghost base = self.durable@;
            self.apply(i, keep);
            fates.push(fate);
            proof {
                let now = self.pending@.subrange(0, i + 1);
                assert(now.drop_last() =~= self.pending@.subrange(0, i as int));
                assert(now.last() == self.pending@[i as int]);
            }
            i += 1;
        }
        proof {
            assert(self.pending@.subrange(0, i as int) =~= self.pending@);
        }
        self.pending = Vec::new();
        assert(self.pending@ =~= Seq::<PendingWrite>::empty());
        proof {
            law_power_loss_spares_what_is_not_at_risk(old(self));
            assert(self.bytes() == power_loss(old(self).durable(), old(self).unsettled(), old(self).fate_state()).0);
        }
        fates
    }

    /// Lay the first `len` bytes of the `i`-th pending write over what is
    /// durable.
    fn apply(&mut self, i: usize, len: usize)
        requires
            i < old(self).pending@.len(),
            len <= old(self).pending@[i as int].data@.len(),
            old(self).pending@[i as int].offset + old(self).pending@[i as int].data@.len() <= old(self).durable@.len(),
        ensures
            final(self).durable@ == splice(
                old(self).durable@,
                old(self).pending@[i as int].offset as int,
                old(self).pending@[i as int].data@.subrange(0, len as int),
            ),
            final(self).pending == old(self).pending,
            final(self).rng == old(self).rng,
            final(self).writes == old(self).writes,
            final(self).flushes == old(self).flushes,
            final(self).crashes == old(self).crashes,
    {
        let size: usize = self.durable.len();
        let start: usize = self.pending[i].offset as usize;
        let mut k: usize = 0;
        let ghost data = self.pending@[i as int].data@;
        while k < len
            invariant
                k <= len <= data.len(),
                size == self.durable@.len() == old(self).durable@.len(),
                start + data.len() <= size,
                i < self.pending@.len(),
                data == self.pending@[i as int].data@,
                self.pending == old(self).pending,
                self.rng == old(self).rng,
                self.writes == old(self).writes,
                self.flushes == old(self).flushes,
                self.crashes == old(self).crashes,
                self.durable@ == splice(old(self).durable@, start as int, data.subrange(0, k as int)),
            decreases len - k,
        {
            let byte: u8 = self.pending[i].data[k];
            self.durable[start + k] = byte;
            k += 1;
            assert(self.durable@ =~= splice(
                old(self).durable@,
                start as int,
                data.subrange(0, k as int),
            ));
        }
        assert(self.durable@ =~= splice(
            old(self).durable@,
            start as int,
            data.subrange(0, len as int),
        ));
    }
}

/// The `k`-th of these writes covers the byte at `i`.
pub open spec fn covers(writes: Seq<PendingWrite>, k: int, i: int) -> bool {
    0 <= k < writes.len() && writes[k].start() <= i < writes[k].start() + writes[k].payload().len()
}

impl Disk for SimDisk {
    closed spec fn valid(&self) -> bool {
        &&& self.durable@.len() <= isize::MAX
        &&& forall|i: int|
            0 <= i < self.pending@.len() ==> (#[trigger] self.pending@[i]).offset
                + self.pending@[i].data@.len() <= self.durable@.len()
    }

    closed spec fn bytes(&self) -> Seq<u8> {
        overlay(self.durable@, self.pending@)
    }

    closed spec fn durable(&self) -> Seq<u8> {
        self.durable@
    }

    closed spec fn at_risk(&self, i: int) -> bool {
        exists|k: int| #[trigger] covers(self.pending@, k, i)
    }

    open spec fn faultless(&self) -> bool {
        true
    }

    open spec fn barriers(&self) -> u64 {
        self.counters().1
    }

    fn size(&self) -> (size: u64) {
        proof {
            lemma_overlay_len(self.durable@, self.pending@);
        }
        self.durable.len() as u64
    }

    fn read_at(&self, offset: u64, buf: &mut [u8]) -> (r: Result<()>) {
        self.check_bounds(offset, buf.len())?;
        let len: usize = buf.len();
        let start: usize = offset as usize;
        proof {
            lemma_overlay_len(self.durable@, self.pending@);
        }
        let mut k: usize = 0;
        while k < len
            invariant
                k <= len == buf@.len() == old(buf)@.len(),
                start + len <= self.durable@.len() <= isize::MAX,
                forall|j: int| 0 <= j < k ==> #[trigger] buf@[j] == self.durable@[start + j],
            decreases len - k,
        {
            buf[k] = self.durable[start + k];
            k += 1;
        }
        // Overlay pending writes in issue order: reads observe the latest
        // write whether or not it is durable.
        let mut i: usize = 0;
        proof {
            assert(self.pending@.subrange(0, 0) =~= Seq::<PendingWrite>::empty());
            assert(buf@ =~= overlay(self.durable@, self.pending@.subrange(0, 0)).subrange(
                start as int,
                start + len,
            ));
        }
        while i < self.pending.len()
            invariant
                i <= self.pending@.len(),
                self.valid(),
                len == buf@.len() == old(buf)@.len(),
                start + len <= self.durable@.len() <= isize::MAX,
                buf@ == overlay(self.durable@, self.pending@.subrange(0, i as int)).subrange(
                    start as int,
                    start + len,
                ),
            decreases self.pending@.len() - i,
        {
            let write = &self.pending[i];
            let at: usize = write.offset as usize;
            let write_end: usize = at + write.data.len();
            let from: usize = if at < start {
                start
            } else {
                at
            };
            let to: usize = if write_end < start + len {
                write_end
            } else {
                start + len
            };
            let ghost before = buf@;
            let mut j: usize = from;
            while j < to
                invariant
                    from <= j,
                    from < to ==> j <= to,
                    from >= to ==> j == from,
                    start <= from,
                    at <= from,
                    to <= start + len,
                    to <= at + write.data@.len(),
                    len == buf@.len() == before.len() == old(buf)@.len(),
                    start + len <= self.durable@.len() <= isize::MAX,
                    forall|m: int|
                        0 <= m < len ==> #[trigger] buf@[m] == if from <= start + m < j {
                            write.data@[start + m - at]
                        } else {
                            before[m]
                        },
                decreases to - j,
            {
                buf[j - start] = write.data[j - at];
                j += 1;
            }
            proof {
                let now = self.pending@.subrange(0, i + 1);
                assert(now.drop_last() =~= self.pending@.subrange(0, i as int));
                assert(now.last() == self.pending@[i as int]);
                lemma_overlay_len(self.durable@, now);
                lemma_overlay_len(self.durable@, now.drop_last());
                let prev = overlay(self.durable@, now.drop_last());
                assert forall|m: int| 0 <= m < len implies #[trigger] buf@[m] == overlay(
                    self.durable@,
                    now,
                )[start + m] by {
                    assert(before[m] == prev[start + m]);
                    assert(overlay(self.durable@, now) == splice(prev, at as int, write.data@));
                    if from <= start + m < j {
                    } else {
                        assert(!(at <= start + m < write_end));
                    }
                }
                assert(buf@ =~= overlay(self.durable@, now).subrange(start as int, start + len));
            }
            i += 1;
        }
        proof {
            assert(self.pending@.subrange(0, i as int) =~= self.pending@);
        }
        Ok(())
    }

    fn write_at(&mut self, offset: u64, data: &[u8]) -> (r: Result<()>)
        ensures
            final(self).durable() == old(self).durable(),
            final(self).fate_state() == old(self).fate_state(),
            r is Err ==> final(self).unsettled() == old(self).unsettled() && final(self).counters() == old(self).counters(),
            call_made(old(self), final(self), DiskCall::Write { offset, data: data@ }),
            r is Ok ==> {
                &&& final(self).unsettled().len() == old(self).unsettled().len() + 1
                &&& final(self).unsettled().drop_last() == old(self).unsettled()
                &&& final(self).unsettled().last().start() == offset
                &&& final(self).unsettled().last().payload() == data@
                &&& final(self).counters() == (counted(old(self).counters().0), old(self).counters().1, old(self).counters().2)
            },
    {
        self.check_bounds(offset, data.len())?;
        proof {
            lemma_overlay_len(self.durable@, self.pending@);
        }
        self.writes = self.writes.wrapping_add(1);
        self.pending.push(PendingWrite { offset, data: slice_to_vec(data) });
        proof {
            assert(self.pending@.drop_last() =~= old(self).pending@);
            assert forall|i: int| #[trigger] self.at_risk(i) implies old(self).at_risk(i) || offset <= i < offset + data@.len() by {
                let k = choose|k: int| #[trigger] covers(self.pending@, k, i);
                if k < old(self).pending@.len() {
                    assert(covers(old(self).pending@, k, i));
                }
            }
        }
        Ok(())
    }

    fn flush(&mut self) -> (r: Result<()>)
        ensures
            final(self).unsettled() == Seq::<PendingWrite>::empty(),
            final(self).fate_state() == old(self).fate_state(),
            final(self).counters() == (old(self).counters().0, counted(old(self).counters().1), old(self).counters().2),
            call_made(old(self), final(self), DiskCall::Flush),
    {
        self.flushes = self.flushes.wrapping_add(1);
        let mut i: usize = 0;
        proof {
            assert(self.pending@.subrange(0, 0) =~= Seq::<PendingWrite>::empty());
        }
        while i < self.pending.len()
            invariant
                i <= self.pending@.len(),
                old(self).valid(),
                self.rng == old(self).rng,
                self.writes == old(self).writes,
                self.flushes == counted(old(self).flushes),
                self.crashes == old(self).crashes,
                self.pending@ == old(self).pending@,
                self.durable@.len() == old(self).durable@.len(),
                self.durable@ == overlay(old(self).durable@, self.pending@.subrange(0, i as int)),
            decreases self.pending@.len() - i,
        {
            let len: usize = self.pending[i].data.len();
            self.apply(i, len);
            proof {
                let now = self.pending@.subrange(0, i + 1);
                assert(now.drop_last() =~= self.pending@.subrange(0, i as int));
                let data = self.pending@[i as int].data@;
                assert(data.subrange(0, len as int) =~= data);
            }
            i += 1;
        }
        proof {
            assert(self.pending@.subrange(0, i as int) =~= self.pending@);
        }
        self.pending = Vec::new();
        Ok(())
    }
}

/// A read right after an accepted write sees the write, and everything else
/// as it was.
pub proof fn law_read_sees_unflushed_write(before: SimDisk, after: SimDisk, offset: u64, data: Seq<u8>)
    requires
        offset + data.len() <= before.bytes().len(),
        after.bytes() == splice(before.bytes(), offset as int, data),
    ensures
        after.bytes().subrange(offset as int, offset + data.len()) == data,
        same_outside(before.bytes(), after.bytes(), offset as int, data.len() as int),
{
    assert(after.bytes().subrange(offset as int, offset + data.len()) =~= data);
}

/// A call on a disk.
pub enum DiskCall {
    Write { offset: u64, data: Seq<u8> },
    Flush,
}

/// What one call leaves: a write that stays in bounds lands, one that does
/// not is refused, and a flush changes nothing that a read sees.
pub open spec fn call_made(before: &SimDisk, after: &SimDisk, call: DiskCall) -> bool {
    &&& after.bytes().len() == before.bytes().len()
    &&& match call {
        DiskCall::Write { offset, data } => after.bytes() == if offset + data.len() <= before.bytes().len() {
            splice(before.bytes(), offset as int, data)
        } else {
            before.bytes()
        },
        DiskCall::Flush => after.bytes() == before.bytes(),
    }
}

/// The `i`-th call of a run was made.
pub open spec fn made_at(states: Seq<SimDisk>, calls: Seq<DiskCall>, i: int) -> bool {
    call_made(&states[i], &states[i + 1], calls[i])
}

/// The byte that some calls leave at a place: of the last write that covers
/// it and stays in bounds, or what was there.
pub open spec fn last_written(base: Seq<u8>, calls: Seq<DiskCall>, i: int) -> u8
    decreases calls.len(),
{
    if calls.len() == 0 {
        base[i]
    } else {
        match calls.last() {
            DiskCall::Write { offset, data } => if offset + data.len() <= base.len() && offset <= i < offset + data.len() {
                data[i - offset]
            } else {
                last_written(base, calls.drop_last(), i)
            },
            DiskCall::Flush => last_written(base, calls.drop_last(), i),
        }
    }
}

/// After any run of writes and flushes a read gives, at every place, what
/// the last write there wrote, and what was there before where none did.
pub proof fn law_a_read_gives_the_last_write(states: Seq<SimDisk>, calls: Seq<DiskCall>)
    requires
        states.len() == calls.len() + 1,
        forall|i: int| 0 <= i < calls.len() ==> #[trigger] made_at(states, calls, i),
    ensures
        states.last().bytes().len() == states[0].bytes().len(),
        forall|i: int| 0 <= i < states[0].bytes().len() ==> #[trigger] states.last().bytes()[i] == last_written(states[0].bytes(), calls, i),
    decreases calls.len(),
{
    if calls.len() > 0 {
        let (rest, fewer) = (states.drop_last(), calls.drop_last());
        assert forall|i: int| 0 <= i < fewer.len() implies #[trigger] made_at(rest, fewer, i) by {
            assert(made_at(states, calls, i));
        }
        law_a_read_gives_the_last_write(rest, fewer);
        let k = calls.len() - 1;
        assert(made_at(states, calls, k));
        assert(rest.last() == states[k]);
        assert forall|i: int| 0 <= i < states[0].bytes().len() implies #[trigger] states.last().bytes()[i] == last_written(states[0].bytes(), calls, i) by {
            assert(rest.last().bytes()[i] == last_written(states[0].bytes(), fewer, i));
        }
    }
}

/// What a flush has settled survives a power loss untouched, whatever the
/// generator says.
pub proof fn law_flushed_bytes_survive_a_crash(base: Seq<u8>, state: u64)
    ensures
        power_loss(base, Seq::<PendingWrite>::empty(), state).0 == base,
{
}

/// A power loss touches no byte that no pending write covers.
pub proof fn law_crash_spares_unwritten_bytes(
    base: Seq<u8>,
    writes: Seq<PendingWrite>,
    state: u64,
    at: int,
)
    requires
        0 <= at < base.len(),
        forall|i: int|
            0 <= i < writes.len() ==> !((#[trigger] writes[i]).start() <= at
                < writes[i].start() + writes[i].payload().len()),
    ensures
        power_loss(base, writes, state).0[at] == base[at],
    decreases writes.len(),
{
    if writes.len() != 0 {
        let rest = writes.drop_last();
        assert forall|i: int| 0 <= i < rest.len() implies !((#[trigger] rest[i]).start() <= at
            < rest[i].start() + rest[i].payload().len()) by {
            assert(rest[i] == writes[i]);
        }
        law_crash_spares_unwritten_bytes(base, rest, state, at);
        lemma_power_loss_len(base, rest, state);
        let before = power_loss(base, rest, state);
        let len = writes.last().payload().len();
        assert(writes.last() == writes[writes.len() - 1]);
        let fate = drawn_fate(before.2, len).0;
        assert(fate_keeps(fate, len) <= len) by {
            let three = next_state(next_state(next_state(before.2)));
            assert(0 <= (mixed(three) as int % (len + 1) as int) < len + 1);
        }
    }
}

/// A byte that no write covers is what it was beneath them.
proof fn lemma_overlay_spares(base: Seq<u8>, writes: Seq<PendingWrite>, at: int)
    requires
        0 <= at < base.len(),
        forall|k: int| !#[trigger] covers(writes, k, at),
    ensures
        overlay(base, writes)[at] == base[at],
    decreases writes.len(),
{
    if writes.len() != 0 {
        let rest = writes.drop_last();
        assert forall|k: int| !#[trigger] covers(rest, k, at) by {
            assert(!covers(writes, k, at));
        }
        lemma_overlay_spares(base, rest, at);
        lemma_overlay_len(base, rest);
        assert(!covers(writes, writes.len() - 1, at));
    }
}

/// Whatever the generator says, a power loss leaves an image that agrees
/// with what a read saw wherever nothing was at risk.
pub proof fn law_power_loss_spares_what_is_not_at_risk(disk: &SimDisk)
    requires
        disk.valid(),
    ensures
        may_remain(disk, power_loss(disk.durable(), disk.unsettled(), disk.fate_state()).0),
{
    let base = disk.durable();
    let writes = disk.unsettled();
    lemma_power_loss_len(base, writes, disk.fate_state());
    lemma_overlay_len(base, writes);
    let image = power_loss(base, writes, disk.fate_state()).0;
    assert forall|i: int| 0 <= i < image.len() && !#[trigger] disk.at_risk(i) implies image[i] == disk.bytes()[i] by {
        assert(forall|k: int| !#[trigger] covers(writes, k, i));
        lemma_overlay_spares(base, writes, i);
        assert forall|k: int| 0 <= k < writes.len() implies !((#[trigger] writes[k]).start() <= i < writes[k].start() + writes[k].payload().len()) by {
            assert(!covers(writes, k, i));
        }
        law_crash_spares_unwritten_bytes(base, writes, disk.fate_state(), i);
    }
}

} // verus!
