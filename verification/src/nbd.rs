//! The wire of a network block device server, fixed newstyle. Big-endian.
//!
//! What goes over the socket is built and taken apart here; the socket is
//! the caller's.

use crate::burn::Tried;
use crate::bytes::{bytes_read, ByteView};
use crate::codec::push_bytes;
use crate::disk::Disk;
use crate::error::{FsError, Result};
use crate::pool::vdisk::flushed;
use crate::pool::Pool;
use crate::room::{change_made, make_change, untried, Change};
use replies::law_a_flush_answered_is_durable;
use vstd::prelude::*;

pub mod replies;

verus! {

/// "IHAVEOPT".
pub const OPTS_MAGIC: u64 = 0x4948_4156_454F_5054;

pub const REPLY_MAGIC: u64 = 0x0003_e889_0455_65a9;

pub const REQUEST_MAGIC: u32 = 0x2560_9513;

pub const SIMPLE_REPLY_MAGIC: u32 = 0x6744_6698;

/// "NBDMAGIC".
pub const INIT_MAGIC: u64 = 0x4E42_444D_4147_4943;

pub const FLAG_FIXED_NEWSTYLE: u16 = 1;

pub const FLAG_NO_ZEROES: u16 = 2;

pub const OPT_EXPORT_NAME: u32 = 1;

pub const OPT_ABORT: u32 = 2;

pub const OPT_INFO: u32 = 6;

pub const OPT_GO: u32 = 7;

pub const REP_ACK: u32 = 1;

pub const REP_INFO: u32 = 3;

pub const REP_ERR_UNSUP: u32 = 0x8000_0001;

/// Has flags, takes flushes, takes trims.
pub const TRANSMISSION_FLAGS: u16 = 37;

pub const CMD_READ: u16 = 0;

pub const CMD_WRITE: u16 = 1;

pub const CMD_DISC: u16 = 2;

pub const CMD_FLUSH: u16 = 3;

pub const CMD_TRIM: u16 = 4;

pub const EIO: u32 = 5;

pub const EINVAL: u32 = 22;

/// The largest single request honored.
pub const MAX_REQUEST: u32 = 0x200_0000;

/// A number as `n` bytes, the most significant first.
pub open spec fn be_bytes(value: nat, n: nat) -> Seq<u8>
    decreases n,
{
    if n == 0 {
        Seq::empty()
    } else {
        be_bytes(value / 256, (n - 1) as nat).push((value % 256) as u8)
    }
}

/// The number that bytes spell, the most significant first.
pub open spec fn be_value(bytes: Seq<u8>) -> nat
    decreases bytes.len(),
{
    if bytes.len() == 0 {
        0
    } else {
        be_value(bytes.drop_last()) * 256 + bytes.last() as nat
    }
}

pub open spec fn power(n: nat) -> nat
    decreases n,
{
    if n == 0 {
        1
    } else {
        256 * power((n - 1) as nat)
    }
}

/// A number that fits its bytes is read back from them.
pub proof fn law_numbers_read_back(value: nat, n: nat)
    requires
        value < power(n),
    ensures
        be_bytes(value, n).len() == n,
        be_value(be_bytes(value, n)) == value,
    decreases n,
{
    if n > 0 {
        let rest = (n - 1) as nat;
        assert(value / 256 < power(rest)) by (nonlinear_arith)
            requires value < 256 * power(rest);
        law_numbers_read_back(value / 256, rest);
        assert(be_bytes(value, n).drop_last() =~= be_bytes(value / 256, rest));
        assert((value / 256) * 256 + value % 256 == value);
    }
}

proof fn lemma_be_len(value: nat, n: nat)
    ensures
        be_bytes(value, n).len() == n,
    decreases n,
{
    if n > 0 {
        lemma_be_len(value / 256, (n - 1) as nat);
    }
}

fn push_be(buf: &mut Vec<u8>, value: u64, n: usize)
    requires
        1 <= n <= 8,
    ensures
        final(buf)@ == old(buf)@ + be_bytes(value as nat, n as nat),
    decreases n,
{
    if n == 1 {
        buf.push((value % 256) as u8);
        proof {
            assert(be_bytes((value / 256) as nat, 0) =~= Seq::empty());
            assert(be_bytes(value as nat, 1) =~= seq![(value % 256) as u8]);
            assert(buf@ =~= old(buf)@ + be_bytes(value as nat, 1));
        }
    } else {
        push_be(buf, value / 256, n - 1);
        let ghost mid = buf@;
        buf.push((value % 256) as u8);
        assert(buf@ =~= old(buf)@ + be_bytes(value as nat, n as nat));
    }
}

fn read_be(buf: &[u8], at: usize, n: usize) -> (value: u64)
    requires
        at + n <= buf@.len(),
        n <= 8,
    ensures
        value == be_value(buf@.subrange(at as int, at + n)),
        n <= 4 ==> value <= u32::MAX,
        n <= 2 ==> value <= u16::MAX,
{
    let len: usize = buf.len();
    let mut value: u64 = 0;
    let mut i: usize = 0;
    assert(buf@.subrange(at as int, at as int) =~= Seq::empty());
    assert(power(0) == 1);
    while i < n
        invariant
            i <= n <= 8,
            len == buf@.len(),
            at + n <= buf@.len(),
            value == be_value(buf@.subrange(at as int, at + i)),
            value < power(i as nat),
        decreases n - i,
    {
        let ghost upto = buf@.subrange(at as int, at + i + 1);
        proof {
            assert(upto.drop_last() =~= buf@.subrange(at as int, at + i));
            lemma_power(i as nat);
            assert(power((i + 1) as nat) == 256 * power(i as nat));
        }
        value = value * 256 + buf[at + i] as u64;
        i += 1;
    }
    proof {
        lemma_power(n as nat);
    }
    value
}

proof fn lemma_power(n: nat)
    requires
        n <= 8,
    ensures
        n <= 7 ==> power(n) <= 0x100_0000_0000_0000,
        n <= 8 ==> power(n) <= 0x1_0000_0000_0000_0000,
        n <= 4 ==> power(n) <= 0x1_0000_0000,
        n <= 2 ==> power(n) <= 0x1_0000,
{
    assert(power(1) == 256 * power(0));
    assert(power(2) == 256 * power(1));
    assert(power(3) == 256 * power(2));
    assert(power(4) == 256 * power(3));
    assert(power(5) == 256 * power(4));
    assert(power(6) == 256 * power(5));
    assert(power(7) == 256 * power(6));
    assert(power(8) == 256 * power(7));
}

/// What a server opens with.
pub fn greeting() -> (r: Vec<u8>)
    ensures
        r@ == be_bytes(INIT_MAGIC as nat, 8) + be_bytes(OPTS_MAGIC as nat, 8) + be_bytes(3, 2),
{
    let mut buf: Vec<u8> = Vec::new();
    push_be(&mut buf, INIT_MAGIC, 8);
    push_be(&mut buf, OPTS_MAGIC, 8);
    push_be(&mut buf, 3, 2);
    assert(buf@ =~= be_bytes(INIT_MAGIC as nat, 8) + be_bytes(OPTS_MAGIC as nat, 8) + be_bytes(3, 2));
    buf
}

/// Whether the client asked for no padding after an export's reply.
pub fn wants_no_zeroes(client_flags: &[u8]) -> (r: bool)
    requires
        client_flags@.len() == 4,
    ensures
        r == ((be_value(client_flags@) / 2) % 2 == 1),
{
    let flags: u64 = read_be(client_flags, 0, 4);
    assert(client_flags@.subrange(0, 4) =~= client_flags@);
    (flags / 2) % 2 == 1
}

/// An option the client asks for: its code, and how much data follows.
#[derive(Debug, Clone, Copy, PartialEq, Eq, Structural)]
pub struct OptionHeader {
    pub option: u32,
    pub len: u32,
}

pub open spec fn option_in(head: Seq<u8>) -> Option<OptionHeader> {
    if be_value(head.subrange(0, 8)) != OPTS_MAGIC || be_value(head.subrange(12, 16)) > MAX_REQUEST {
        None
    } else {
        Some(OptionHeader { option: be_value(head.subrange(8, 12)) as u32, len: be_value(head.subrange(12, 16)) as u32 })
    }
}

/// Takes an option's header apart. Nothing where it is not one, or where it
/// announces more than the largest request.
pub fn read_option(head: &[u8]) -> (r: Option<OptionHeader>)
    requires
        head@.len() == 16,
    ensures
        r == option_in(head@),
{
    let magic: u64 = read_be(head, 0, 8);
    let option: u64 = read_be(head, 8, 4);
    let len: u64 = read_be(head, 12, 4);
    if magic != OPTS_MAGIC || len > MAX_REQUEST as u64 {
        None
    } else {
        Some(OptionHeader { option: option as u32, len: len as u32 })
    }
}

/// What to do about an option.
#[derive(Debug, Clone, Copy, PartialEq, Eq, Structural)]
pub enum OptionAnswer {
    /// Send the export and start.
    Export,
    /// Send the export's description; start if `go`.
    Info { go: bool },
    /// Acknowledge and leave.
    Leave,
    /// Say that it is not supported.
    Unsupported,
}

pub fn answer_option(option: u32) -> (r: OptionAnswer)
    ensures
        r == if option == OPT_EXPORT_NAME {
            OptionAnswer::Export
        } else if option == OPT_GO {
            OptionAnswer::Info { go: true }
        } else if option == OPT_INFO {
            OptionAnswer::Info { go: false }
        } else if option == OPT_ABORT {
            OptionAnswer::Leave
        } else {
            OptionAnswer::Unsupported
        },
{
    if option == OPT_EXPORT_NAME {
        OptionAnswer::Export
    } else if option == OPT_GO {
        OptionAnswer::Info { go: true }
    } else if option == OPT_INFO {
        OptionAnswer::Info { go: false }
    } else if option == OPT_ABORT {
        OptionAnswer::Leave
    } else {
        OptionAnswer::Unsupported
    }
}

/// The bytes that answer a client that asks for an export by name.
pub open spec fn export_bytes(size: u64, no_zeroes: bool) -> Seq<u8> {
    be_bytes(size as nat, 8) + be_bytes(TRANSMISSION_FLAGS as nat, 2) + if no_zeroes {
        Seq::empty()
    } else {
        crate::codec::zeros(124)
    }
}

/// The bytes that tell of an export.
pub open spec fn info_bytes(size: u64) -> Seq<u8> {
    be_bytes(0, 2) + be_bytes(size as nat, 8) + be_bytes(TRANSMISSION_FLAGS as nat, 2)
}

/// The bytes of an answer to an option.
pub open spec fn option_bytes(option: u32, reply: u32, data: Seq<u8>) -> Seq<u8> {
    be_bytes(REPLY_MAGIC as nat, 8) + be_bytes(option as nat, 4) + be_bytes(reply as nat, 4) + be_bytes(data.len() as nat, 4) + data
}

/// The reply to a request for the export by name.
pub fn export_reply(size: u64, no_zeroes: bool) -> (r: Vec<u8>)
    ensures
        r@ == export_bytes(size, no_zeroes),
{
    let mut buf: Vec<u8> = Vec::new();
    push_be(&mut buf, size, 8);
    push_be(&mut buf, TRANSMISSION_FLAGS as u64, 2);
    let ghost head = be_bytes(size as nat, 8) + be_bytes(TRANSMISSION_FLAGS as nat, 2);
    assert(buf@ =~= head);
    if !no_zeroes {
        proof {
            lemma_be_len(size as nat, 8);
            lemma_be_len(TRANSMISSION_FLAGS as nat, 2);
        }
        crate::codec::pad_zeros(&mut buf, 134);
        assert(buf@ =~= head + crate::codec::zeros(124));
    } else {
        assert(head + Seq::<u8>::empty() =~= head);
    }
    buf
}

/// The description of the export.
pub fn export_info(size: u64) -> (r: Vec<u8>)
    ensures
        r@ == info_bytes(size),
{
    let mut buf: Vec<u8> = Vec::new();
    push_be(&mut buf, 0, 2);
    push_be(&mut buf, size, 8);
    push_be(&mut buf, TRANSMISSION_FLAGS as u64, 2);
    assert(buf@ =~= be_bytes(0, 2) + be_bytes(size as nat, 8) + be_bytes(TRANSMISSION_FLAGS as nat, 2));
    buf
}

/// A reply to an option.
pub fn option_reply(option: u32, reply: u32, data: &[u8]) -> (r: Vec<u8>)
    requires
        data@.len() <= u32::MAX,
    ensures
        r@ == option_bytes(option, reply, data@),
{
    let mut buf: Vec<u8> = Vec::new();
    push_be(&mut buf, REPLY_MAGIC, 8);
    push_be(&mut buf, option as u64, 4);
    push_be(&mut buf, reply as u64, 4);
    push_be(&mut buf, data.len() as u64, 4);
    push_bytes(&mut buf, data);
    assert(buf@ =~= be_bytes(REPLY_MAGIC as nat, 8) + be_bytes(option as nat, 4) + be_bytes(reply as nat, 4) + be_bytes(data@.len() as nat, 4) + data@);
    buf
}

/// One request of a client.
#[derive(Debug, Clone, Copy, PartialEq, Eq, Structural)]
pub struct Request {
    pub kind: u16,
    pub cookie: u64,
    pub offset: u64,
    pub length: u32,
}

/// The request a header spells, if it is one.
pub open spec fn request_in(head: Seq<u8>) -> Option<Request> {
    if be_value(head.subrange(0, 4)) != REQUEST_MAGIC {
        None
    } else {
        Some(
            Request {
                kind: be_value(head.subrange(6, 8)) as u16,
                cookie: be_value(head.subrange(8, 16)) as u64,
                offset: be_value(head.subrange(16, 24)) as u64,
                length: be_value(head.subrange(24, 28)) as u32,
            },
        )
    }
}

pub fn read_request(head: &[u8]) -> (r: Option<Request>)
    requires
        head@.len() == 28,
    ensures
        r == request_in(head@),
{
    let magic: u64 = read_be(head, 0, 4);
    if magic != REQUEST_MAGIC as u64 {
        return None;
    }
    let kind: u64 = read_be(head, 6, 2);
    let cookie: u64 = read_be(head, 8, 8);
    let offset: u64 = read_be(head, 16, 8);
    let length: u64 = read_be(head, 24, 4);
    Some(Request { kind: kind as u16, cookie, offset, length: length as u32 })
}

/// What to do about a request.
#[derive(Debug, Clone, Copy, PartialEq, Eq, Structural)]
pub enum Work {
    Read,
    Write,
    Flush,
    Trim,
    /// The client leaves.
    Leave,
    /// Answer that the request makes no sense.
    Invalid,
    /// The client announces more data than will be taken: drop it.
    Drop,
}

/// The work a request asks for, as [`work_of`] tells it.
pub open spec fn work_asked(request: Request) -> Work {
    if request.kind == CMD_READ {
        if request.length > MAX_REQUEST {
            Work::Invalid
        } else {
            Work::Read
        }
    } else if request.kind == CMD_WRITE {
        if request.length > MAX_REQUEST {
            Work::Drop
        } else {
            Work::Write
        }
    } else if request.kind == CMD_FLUSH {
        Work::Flush
    } else if request.kind == CMD_TRIM {
        Work::Trim
    } else if request.kind == CMD_DISC {
        Work::Leave
    } else {
        Work::Invalid
    }
}

/// The work a request asks for. A read of too much is refused; a write of too
/// much cannot be, because its data follows.
pub fn work_of(request: &Request) -> (r: Work)
    ensures
        r == work_asked(*request),
{
    if request.kind == CMD_READ {
        if request.length > MAX_REQUEST {
            Work::Invalid
        } else {
            Work::Read
        }
    } else if request.kind == CMD_WRITE {
        if request.length > MAX_REQUEST {
            Work::Drop
        } else {
            Work::Write
        }
    } else if request.kind == CMD_FLUSH {
        Work::Flush
    } else if request.kind == CMD_TRIM {
        Work::Trim
    } else if request.kind == CMD_DISC {
        Work::Leave
    } else {
        Work::Invalid
    }
}

/// A reply's bytes.
pub open spec fn reply_bytes(error: u32, cookie: u64, data: Seq<u8>) -> Seq<u8> {
    be_bytes(SIMPLE_REPLY_MAGIC as nat, 4) + be_bytes(error as nat, 4) + be_bytes(cookie as nat, 8) + data
}

/// A reply to a request.
pub fn simple_reply(error: u32, cookie: u64, data: &[u8]) -> (r: Vec<u8>)
    ensures
        r@ == reply_bytes(error, cookie, data@),
{
    let mut buf: Vec<u8> = Vec::new();
    push_be(&mut buf, SIMPLE_REPLY_MAGIC as u64, 4);
    push_be(&mut buf, error as u64, 4);
    push_be(&mut buf, cookie, 8);
    push_bytes(&mut buf, data);
    assert(buf@ =~= be_bytes(SIMPLE_REPLY_MAGIC as nat, 4) + be_bytes(error as nat, 4) + be_bytes(cookie as nat, 8) + data@);
    buf
}

/// The error number for an engine's error.
pub open spec fn errno_of(err: FsError) -> u32 {
    if err is OutOfRange || err is OutOfBounds {
        EINVAL
    } else {
        EIO
    }
}

/// The error number a client is told: a range that does not exist is its
/// mistake, anything else is the device's.
pub fn engine_errno(err: &FsError) -> (r: u32)
    ensures
        r == errno_of(*err),
{
    match err {
        FsError::OutOfRange { .. } => EINVAL,
        FsError::OutOfBounds { .. } => EINVAL,
        _ => EIO,
    }
}

/// The reply to a request that gives no data back.
pub open spec fn outcome_bytes(outcome: Result<()>, cookie: u64) -> Seq<u8> {
    match outcome {
        Ok(_) => reply_bytes(0, cookie, Seq::empty()),
        Err(e) => reply_bytes(errno_of(e), cookie, Seq::empty()),
    }
}

fn outcome_reply(outcome: &Result<()>, cookie: u64) -> (r: Vec<u8>)
    ensures
        r@ == outcome_bytes(*outcome, cookie),
{
    let nothing: Vec<u8> = Vec::new();
    assert(nothing@ =~= Seq::empty());
    match outcome {
        Ok(()) => simple_reply(0, cookie, nothing.as_slice()),
        Err(e) => simple_reply(engine_errno(e), cookie, nothing.as_slice()),
    }
}

/// The change a request asks for.
pub open spec fn change_asked(request: Request, data: Vec<u8>) -> Change {
    if work_asked(request) == Work::Write {
        Change::Write { offset: request.offset, data }
    } else {
        Change::Trim { offset: request.offset, len: request.length as u64 }
    }
}

/// What a request comes to: the pool it leaves, and the reply, if one is
/// sent.
pub open spec fn answered<D: Disk>(a: &Pool<D>, b: &Pool<D>, vdisk: u64, request: Request, data: Vec<u8>, r: Option<Vec<u8>>) -> bool {
    match work_asked(request) {
        Work::Read => exists|got: Result<Vec<u8>>| #[trigger]
            bytes_read(a, b, vdisk, request.offset, request.length as u64, got) && r is Some && r->Some_0@ == match got {
                Ok(bytes) => reply_bytes(0, request.cookie, bytes@),
                Err(e) => reply_bytes(errno_of(e), request.cookie, Seq::empty()),
            },
        Work::Write | Work::Trim => exists|c: Result<()>| #[trigger]
            change_made(a, b, vdisk, change_asked(request, data), untried(), c) && r is Some && r->Some_0@ == outcome_bytes(c, request.cookie),
        Work::Flush => exists|c: Result<()>| #[trigger] flushed(a, b, c) && r is Some && r->Some_0@ == outcome_bytes(c, request.cookie),
        Work::Invalid => *b == *a && r is Some && r->Some_0@ == reply_bytes(EINVAL, request.cookie, Seq::empty()),
        Work::Leave | Work::Drop => *b == *a && r is None,
    }
}

/// Run a request on a pool and spell the reply. `None` when none is sent: the
/// client leaves or is dropped. `data` is what followed a write.
pub fn answer<D: Disk>(pool: &mut Pool<D>, vdisk: u64, request: &Request, data: Vec<u8>) -> (r: Option<Vec<u8>>)
    requires
        old(pool).inv(),
    ensures
        final(pool).inv(),
        answered(old(pool), final(pool), vdisk, *request, data, r),
        request.kind == CMD_FLUSH && r is Some && be_value(r->Some_0@.subrange(4, 8)) == 0 ==> final(pool).stock().durable(),
{
    let nothing: Vec<u8> = Vec::new();
    assert(nothing@ =~= Seq::empty());
    match work_of(request) {
        Work::Read => {
            let got = pool.read_bytes(vdisk, request.offset, request.length as u64);
            assert(bytes_read(old(pool), pool, vdisk, request.offset, request.length as u64, got));
            match &got {
                Ok(bytes) => Some(simple_reply(0, request.cookie, bytes.as_slice())),
                Err(e) => Some(simple_reply(engine_errno(e), request.cookie, nothing.as_slice())),
            }
        },
        Work::Write => {
            let change = Change::Write { offset: request.offset, data };
            let c = make_change(pool, vdisk, &change, Tried { checkpointed: false, collected: false });
            assert(change_made(old(pool), pool, vdisk, change_asked(*request, data), untried(), c));
            Some(outcome_reply(&c, request.cookie))
        },
        Work::Trim => {
            let change = Change::Trim { offset: request.offset, len: request.length as u64 };
            let c = make_change(pool, vdisk, &change, Tried { checkpointed: false, collected: false });
            assert(change_made(old(pool), pool, vdisk, change_asked(*request, data), untried(), c));
            Some(outcome_reply(&c, request.cookie))
        },
        Work::Flush => {
            let c = pool.flush();
            assert(flushed(old(pool), pool, c));
            let reply = outcome_reply(&c, request.cookie);
            proof {
                law_a_flush_answered_is_durable(old(pool), pool, vdisk, *request, data, Some(reply));
            }
            Some(reply)
        },
        Work::Invalid => Some(simple_reply(EINVAL, request.cookie, nothing.as_slice())),
        Work::Leave => None,
        Work::Drop => None,
    }
}

} // verus!
