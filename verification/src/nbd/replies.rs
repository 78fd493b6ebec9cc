//! What a client sees of its requests, read off the bytes of the replies.

use super::{
    answered, be_bytes, be_value, change_asked, errno_of, export_bytes, info_bytes, law_numbers_read_back, lemma_be_len, option_bytes, option_in, outcome_bytes, power, reply_bytes, request_in, work_asked,
    Request, CMD_DISC, CMD_FLUSH, CMD_READ, CMD_TRIM, CMD_WRITE, EINVAL, EIO, MAX_REQUEST, SIMPLE_REPLY_MAGIC,
};
use crate::burn::{after_remedy, remedies_left, remedy_for, Remedy, Tried};
use crate::bytes::ranges::{gives_back, law_a_trim_gives_whole_blocks_back, law_a_write_makes_its_range_readable};
use crate::bytes::{block_here, byte_at, bytes_read, bytes_trimmed, bytes_written, pool_sound, Contents};
use crate::disk::Disk;
use crate::error::{FsError, Result};
use crate::pool::vdisk::flushed;
use crate::pool::Pool;
use crate::room::{attempted, change_made, untried, Change};
use vstd::prelude::*;

verus! {

/// The error number of a reply: its second four bytes.
pub open spec fn error_in(reply: Seq<u8>) -> nat {
    be_value(reply.subrange(4, 8))
}

/// The cookie of a reply: the eight bytes after the error.
pub open spec fn cookie_in(reply: Seq<u8>) -> nat {
    be_value(reply.subrange(8, 16))
}

/// What follows the head of a reply.
pub open spec fn data_in(reply: Seq<u8>) -> Seq<u8> {
    reply.subrange(16, reply.len() as int)
}

/// The byte at a place of a number's bytes is the digit of that weight, the
/// greatest weight first.
pub proof fn law_numbers_start_with_their_top_byte(value: nat, n: nat, i: int)
    requires
        0 <= i < n,
    ensures
        be_bytes(value, n).len() == n,
        be_bytes(value, n)[i] == (value / power((n - 1 - i) as nat)) % 256,
    decreases n,
{
    lemma_be_len(value, n);
    lemma_be_len(value / 256, (n - 1) as nat);
    if i < n - 1 {
        law_numbers_start_with_their_top_byte(value / 256, (n - 1) as nat, i);
        let p = power((n - 2 - i) as nat);
        lemma_power_positive((n - 2 - i) as nat);
        vstd::arithmetic::div_mod::lemma_div_denominator(value as int, 256, p as int);
        assert(power((n - 1 - i) as nat) == 256 * p);
        assert(be_bytes(value, n)[i] == be_bytes(value / 256, (n - 1) as nat)[i]);
        assert(((value / 256) / p) == value / (256 * p));
    } else {
        assert(power(0) == 1);
        assert(value / 1 == value);
        assert(be_bytes(value, n).last() == (value % 256) as u8);
    }
}

proof fn lemma_power_positive(n: nat)
    ensures
        power(n) > 0,
    decreases n,
{
    if n > 0 {
        lemma_power_positive((n - 1) as nat);
    }
}

proof fn lemma_powers()
    ensures
        power(1) == 0x100,
        power(2) == 0x1_0000,
        power(4) == 0x1_0000_0000,
        power(8) == 0x1_0000_0000_0000_0000,
{
    reveal_with_fuel(power, 9);
}

/// A reply is taken apart as it was put together.
pub proof fn law_replies_read_back(error: u32, cookie: u64, data: Seq<u8>)
    ensures
        reply_bytes(error, cookie, data).len() == 16 + data.len(),
        be_value(reply_bytes(error, cookie, data).subrange(0, 4)) == SIMPLE_REPLY_MAGIC,
        error_in(reply_bytes(error, cookie, data)) == error,
        cookie_in(reply_bytes(error, cookie, data)) == cookie,
        data_in(reply_bytes(error, cookie, data)) == data,
{
    lemma_powers();
    let r = reply_bytes(error, cookie, data);
    law_numbers_read_back(SIMPLE_REPLY_MAGIC as nat, 4);
    law_numbers_read_back(error as nat, 4);
    law_numbers_read_back(cookie as nat, 8);
    assert(r.subrange(0, 4) =~= be_bytes(SIMPLE_REPLY_MAGIC as nat, 4));
    assert(r.subrange(4, 8) =~= be_bytes(error as nat, 4));
    assert(r.subrange(8, 16) =~= be_bytes(cookie as nat, 8));
    assert(r.subrange(16, r.len() as int) =~= data);
}

/// Only a request to leave and a write too large to take go unanswered, and
/// these leave the pool alone. Every reply has its magic and its request's
/// cookie, and its error is none, an argument that is wrong, or a failure;
/// what fails brings no data.
pub proof fn law_every_reply_names_its_request<D: Disk>(a: &Pool<D>, b: &Pool<D>, vdisk: u64, request: Request, data: Vec<u8>, r: Option<Vec<u8>>)
    requires
        answered(a, b, vdisk, request, data, r),
    ensures
        r is None <==> request.kind == CMD_DISC || (request.kind == CMD_WRITE && request.length > MAX_REQUEST),
        r is None ==> *b == *a,
        r matches Some(reply) ==> {
            &&& be_value(reply@.subrange(0, 4)) == SIMPLE_REPLY_MAGIC
            &&& cookie_in(reply@) == request.cookie
            &&& error_in(reply@) == 0 || error_in(reply@) == EINVAL || error_in(reply@) == EIO
            &&& error_in(reply@) != 0 ==> reply@.len() == 16
            &&& request.kind != CMD_READ ==> reply@.len() == 16
        },
        request.kind != CMD_READ && request.kind != CMD_WRITE && request.kind != CMD_FLUSH && request.kind != CMD_TRIM && request.kind != CMD_DISC ==> r is Some
            && error_in(r->Some_0@) == EINVAL && *b == *a,
        request.kind == CMD_READ && request.length > MAX_REQUEST ==> r is Some && error_in(r->Some_0@) == EINVAL && *b == *a,
{
    let nothing = Seq::<u8>::empty();
    law_replies_read_back(0, request.cookie, nothing);
    law_replies_read_back(EINVAL, request.cookie, nothing);
    law_replies_read_back(EIO, request.cookie, nothing);
    if work_asked(request) is Read {
        let got = choose|got: Result<Vec<u8>>| #[trigger]
            bytes_read(a, b, vdisk, request.offset, request.length as u64, got) && r is Some && r->Some_0@ == match got {
                Ok(bytes) => reply_bytes(0, request.cookie, bytes@),
                Err(e) => reply_bytes(errno_of(e), request.cookie, Seq::empty()),
            };
        if let Ok(bytes) = got {
            law_replies_read_back(0, request.cookie, bytes@);
        }
    }
}

/// A flush that is answered without an error has put everything on stable
/// storage.
pub proof fn law_a_flush_answered_is_durable<D: Disk>(a: &Pool<D>, b: &Pool<D>, vdisk: u64, request: Request, data: Vec<u8>, r: Option<Vec<u8>>)
    requires
        answered(a, b, vdisk, request, data, r),
        request.kind == CMD_FLUSH,
    ensures
        r is Some,
        error_in(r->Some_0@) == 0 ==> b.stock().durable(),
        b.vdisk_map() == a.vdisk_map(),
        b.snapshot_map() == a.snapshot_map(),
        b.lease_map() == a.lease_map(),
{
    let c = choose|c: Result<()>| #[trigger] flushed(a, b, c) && r is Some && r->Some_0@ == outcome_bytes(c, request.cookie);
    if let Err(e) = c {
        law_replies_read_back(errno_of(e), request.cookie, Seq::empty());
    }
}

/// A read that is answered without an error carries as many bytes as were
/// asked for, each the byte that stands there; reading changes nothing.
pub proof fn law_a_read_answered_carries_the_bytes<D: Disk>(
    a: &Pool<D>,
    b: &Pool<D>,
    vdisk: u64,
    request: Request,
    data: Vec<u8>,
    r: Option<Vec<u8>>,
    v: u64,
    k: u64,
)
    requires
        answered(a, b, vdisk, request, data, r),
        request.kind == CMD_READ,
    ensures
        r is Some,
        error_in(r->Some_0@) == 0 ==> {
            &&& a.vdisk_map().contains_key(vdisk)
            &&& request.offset + request.length <= a.vdisk_map()[vdisk].size_bytes
            &&& data_in(r->Some_0@).len() == request.length
            &&& forall|i: int| 0 <= i < request.length ==> #[trigger] data_in(r->Some_0@)[i] == byte_at(a, vdisk, request.offset + i)
        },
        a.vdisk_map().contains_key(vdisk) && request.offset + request.length > a.vdisk_map()[vdisk].size_bytes ==> error_in(r->Some_0@) == EINVAL,
        !a.vdisk_map().contains_key(vdisk) && request.length <= MAX_REQUEST ==> error_in(r->Some_0@) == EIO,
        block_here(b, v, k) == block_here(a, v, k),
{
    law_every_reply_names_its_request(a, b, vdisk, request, data, r);
    if request.length <= MAX_REQUEST {
        let got = choose|got: Result<Vec<u8>>| #[trigger]
            bytes_read(a, b, vdisk, request.offset, request.length as u64, got) && r is Some && r->Some_0@ == match got {
                Ok(bytes) => reply_bytes(0, request.cookie, bytes@),
                Err(e) => reply_bytes(errno_of(e), request.cookie, Seq::empty()),
            };
        assert(b.block_at(v, k) == a.block_at(v, k));
        match got {
            Ok(bytes) => {
                law_replies_read_back(0, request.cookie, bytes@);
            },
            Err(e) => {
                law_replies_read_back(errno_of(e), request.cookie, Seq::empty());
            },
        }
    }
}

/// Behind a change that was made stands an attempt that succeeded and left
/// the pool so.
pub proof fn lemma_change_was_attempted<D: Disk>(a: &Pool<D>, b: &Pool<D>, vdisk: u64, change: Change, tried: Tried, r: Result<()>) -> (c: Pool<D>)
    requires
        change_made(a, b, vdisk, change, tried, r),
        r is Ok,
    ensures
        attempted(&c, b, vdisk, change, r),
    decreases remedies_left(tried),
{
    let (mid, c) = choose|mid: Pool<D>, c: Result<()>| #[trigger]
        attempted(a, &mid, vdisk, change, c) && match c {
            Ok(_) => r is Ok && *b == mid,
            Err(e) => match remedy_for(e, tried) {
                None => r == Err::<(), FsError>(e) && *b == mid,
                Some(Remedy::Checkpoint) => exists|after: Pool<D>, d: Result<()>| #[trigger]
                    crate::pool::checkpoint::checkpointed(&mid, &after, d) && match d {
                        Err(f) => r == Err::<(), FsError>(f) && *b == after,
                        Ok(_) => change_made(&after, b, vdisk, change, after_remedy(tried, Remedy::Checkpoint), r),
                    },
                Some(Remedy::Collect) => exists|after: Pool<D>, d: Result<crate::brick::GcStats>| #[trigger]
                    crate::pool::collect::garbage_collected(&mid, &after, d) && match d {
                        Err(f) => r == Err::<(), FsError>(f) && *b == after,
                        Ok(_) => change_made(&after, b, vdisk, change, after_remedy(tried, Remedy::Collect), r),
                    },
            },
        };
    match c {
        Ok(_) => {
            match (c, r) {
                (Ok(x), Ok(y)) => {
                    assert(x == y);
                },
                _ => {},
            }
            *a
        },
        Err(e) => match remedy_for(e, tried) {
            Some(Remedy::Checkpoint) => {
                let (after, d) = choose|after: Pool<D>, d: Result<()>| #[trigger]
                    crate::pool::checkpoint::checkpointed(&mid, &after, d) && match d {
                        Err(f) => r == Err::<(), FsError>(f) && *b == after,
                        Ok(_) => change_made(&after, b, vdisk, change, after_remedy(tried, Remedy::Checkpoint), r),
                    };
                lemma_change_was_attempted(&after, b, vdisk, change, after_remedy(tried, Remedy::Checkpoint), r)
            },
            Some(Remedy::Collect) => {
                let (after, d) = choose|after: Pool<D>, d: Result<crate::brick::GcStats>| #[trigger]
                    crate::pool::collect::garbage_collected(&mid, &after, d) && match d {
                        Err(f) => r == Err::<(), FsError>(f) && *b == after,
                        Ok(_) => change_made(&after, b, vdisk, change, after_remedy(tried, Remedy::Collect), r),
                    };
                lemma_change_was_attempted(&after, b, vdisk, change, after_remedy(tried, Remedy::Collect), r)
            },
            None => *a,
        },
    }
}

/// Write, then read the same range: the bytes come back.
pub proof fn law_a_write_answered_reads_back<D: Disk>(
    a: &Pool<D>,
    b: &Pool<D>,
    c: &Pool<D>,
    vdisk: u64,
    write: Request,
    read: Request,
    data: Vec<u8>,
    none: Vec<u8>,
    w: Option<Vec<u8>>,
    r: Option<Vec<u8>>,
)
    requires
        answered(a, b, vdisk, write, data, w),
        answered(b, c, vdisk, read, none, r),
        write.kind == CMD_WRITE && read.kind == CMD_READ,
        data@.len() <= MAX_REQUEST,
        read.offset == write.offset && read.length == data@.len(),
        w is Some && error_in(w->Some_0@) == 0,
        pool_sound(b),
        b.reliable(),
    ensures
        r is Some,
        error_in(r->Some_0@) == 0,
        data_in(r->Some_0@) == data@,
{
    law_every_reply_names_its_request(a, b, vdisk, write, data, w);
    law_every_reply_names_its_request(b, c, vdisk, read, none, r);
    let change = change_asked(write, data);
    let made = choose|m: Result<()>| #[trigger]
        change_made(a, b, vdisk, change, untried(), m) && w is Some && w->Some_0@ == outcome_bytes(m, write.cookie);
    if let Err(e) = made {
        law_replies_read_back(errno_of(e), write.cookie, Seq::empty());
    }
    let from = lemma_change_was_attempted(a, b, vdisk, change, untried(), made);
    assert(bytes_written(&from, b, vdisk, write.offset, data@, made));
    let got = choose|got: Result<Vec<u8>>| #[trigger]
        bytes_read(b, c, vdisk, read.offset, read.length as u64, got) && r is Some && r->Some_0@ == match got {
            Ok(bytes) => reply_bytes(0, read.cookie, bytes@),
            Err(e) => reply_bytes(errno_of(e), read.cookie, Seq::empty()),
        };
    law_a_write_makes_its_range_readable(&from, b, c, vdisk, write.offset, data@, made, got);
    law_replies_read_back(0, read.cookie, got->Ok_0@);
}

/// A trim that is answered without an error has given back the blocks that
/// lie whole in its range.
pub proof fn law_a_trim_answered_gives_blocks_back<D: Disk>(
    a: &Pool<D>,
    b: &Pool<D>,
    vdisk: u64,
    request: Request,
    data: Vec<u8>,
    r: Option<Vec<u8>>,
    k: u64,
)
    requires
        b.inv(),
        answered(a, b, vdisk, request, data, r),
        request.kind == CMD_TRIM,
        r is Some && error_in(r->Some_0@) == 0,
        pool_sound(b),
    ensures
        b.vdisk_map().contains_key(vdisk),
        request.offset + request.length <= b.vdisk_map()[vdisk].size_bytes,
        gives_back(b.unit() as int, b.vdisk_map()[vdisk].size_bytes, request.offset, request.length as u64, k) ==> block_here(b, vdisk, k) == Some(
            None::<Seq<u8>>,
        ),
{
    let change = change_asked(request, data);
    let made = choose|m: Result<()>| #[trigger]
        change_made(a, b, vdisk, change, untried(), m) && r is Some && r->Some_0@ == outcome_bytes(m, request.cookie);
    if let Err(e) = made {
        law_replies_read_back(errno_of(e), request.cookie, Seq::empty());
    }
    let from = lemma_change_was_attempted(a, b, vdisk, change, untried(), made);
    assert(bytes_trimmed(&from, b, vdisk, request.offset, request.length as u64, made));
    b.lemma_pool();
    assert(b.byte_size(vdisk) == from.byte_size(vdisk));
    law_a_trim_gives_whole_blocks_back(&from, b, vdisk, request.offset, request.length as u64, made, vdisk, k);
}

/// A request's bytes, as a client writes them.
pub open spec fn request_bytes(flags: u16, request: Request) -> Seq<u8> {
    be_bytes(super::REQUEST_MAGIC as nat, 4) + be_bytes(flags as nat, 2) + be_bytes(request.kind as nat, 2) + be_bytes(request.cookie as nat, 8) + be_bytes(
        request.offset as nat,
        8,
    ) + be_bytes(request.length as nat, 4)
}

/// A request is read as it was written, whatever its flags.
pub proof fn law_requests_read_back(flags: u16, request: Request)
    ensures
        request_bytes(flags, request).len() == 28,
        request_in(request_bytes(flags, request)) == Some(request),
{
    lemma_powers();
    let b = request_bytes(flags, request);
    law_numbers_read_back(super::REQUEST_MAGIC as nat, 4);
    law_numbers_read_back(flags as nat, 2);
    law_numbers_read_back(request.kind as nat, 2);
    law_numbers_read_back(request.cookie as nat, 8);
    law_numbers_read_back(request.offset as nat, 8);
    law_numbers_read_back(request.length as nat, 4);
    assert(b.subrange(0, 4) =~= be_bytes(super::REQUEST_MAGIC as nat, 4));
    assert(b.subrange(6, 8) =~= be_bytes(request.kind as nat, 2));
    assert(b.subrange(8, 16) =~= be_bytes(request.cookie as nat, 8));
    assert(b.subrange(16, 24) =~= be_bytes(request.offset as nat, 8));
    assert(b.subrange(24, 28) =~= be_bytes(request.length as nat, 4));
}

/// An option's head is read as it was written, where its data is not too
/// long to take.
pub proof fn law_options_read_back(option: u32, len: u32)
    ensures
        ({
            let head = be_bytes(super::OPTS_MAGIC as nat, 8) + be_bytes(option as nat, 4) + be_bytes(len as nat, 4);
            &&& head.len() == 16
            &&& len <= MAX_REQUEST ==> option_in(head) == Some(super::OptionHeader { option, len })
            &&& len > MAX_REQUEST ==> option_in(head) is None
        }),
{
    lemma_powers();
    let head = be_bytes(super::OPTS_MAGIC as nat, 8) + be_bytes(option as nat, 4) + be_bytes(len as nat, 4);
    law_numbers_read_back(super::OPTS_MAGIC as nat, 8);
    law_numbers_read_back(option as nat, 4);
    law_numbers_read_back(len as nat, 4);
    assert(head.subrange(0, 8) =~= be_bytes(super::OPTS_MAGIC as nat, 8));
    assert(head.subrange(8, 12) =~= be_bytes(option as nat, 4));
    assert(head.subrange(12, 16) =~= be_bytes(len as nat, 4));
}

/// A client reads an export's size and flags where the wire has them, in
/// either form, and as many bytes as the form has.
pub proof fn law_exports_read_back(size: u64, no_zeroes: bool)
    ensures
        export_bytes(size, no_zeroes).len() == if no_zeroes {
            10nat
        } else {
            134nat
        },
        be_value(export_bytes(size, no_zeroes).subrange(0, 8)) == size,
        be_value(export_bytes(size, no_zeroes).subrange(8, 10)) == super::TRANSMISSION_FLAGS,
        forall|i: int| 10 <= i < export_bytes(size, no_zeroes).len() ==> #[trigger] export_bytes(size, no_zeroes)[i] == 0,
        info_bytes(size).len() == 12,
        be_value(info_bytes(size).subrange(0, 2)) == 0,
        be_value(info_bytes(size).subrange(2, 10)) == size,
        be_value(info_bytes(size).subrange(10, 12)) == super::TRANSMISSION_FLAGS,
{
    lemma_powers();
    let e = export_bytes(size, no_zeroes);
    let t = info_bytes(size);
    law_numbers_read_back(size as nat, 8);
    law_numbers_read_back(super::TRANSMISSION_FLAGS as nat, 2);
    law_numbers_read_back(0, 2);
    assert(e.subrange(0, 8) =~= be_bytes(size as nat, 8));
    assert(e.subrange(8, 10) =~= be_bytes(super::TRANSMISSION_FLAGS as nat, 2));
    assert(t.subrange(0, 2) =~= be_bytes(0, 2));
    assert(t.subrange(2, 10) =~= be_bytes(size as nat, 8));
    assert(t.subrange(10, 12) =~= be_bytes(super::TRANSMISSION_FLAGS as nat, 2));
}

/// A client reads the answer to an option where the wire has it: the option,
/// the kind of answer, and all of its data.
pub proof fn law_option_answers_read_back(option: u32, reply: u32, data: Seq<u8>)
    requires
        data.len() <= u32::MAX,
    ensures
        be_value(option_bytes(option, reply, data).subrange(0, 8)) == super::REPLY_MAGIC,
        be_value(option_bytes(option, reply, data).subrange(8, 12)) == option,
        be_value(option_bytes(option, reply, data).subrange(12, 16)) == reply,
        be_value(option_bytes(option, reply, data).subrange(16, 20)) == data.len(),
        option_bytes(option, reply, data).subrange(20, option_bytes(option, reply, data).len() as int) == data,
{
    lemma_powers();
    let b = option_bytes(option, reply, data);
    law_numbers_read_back(super::REPLY_MAGIC as nat, 8);
    law_numbers_read_back(option as nat, 4);
    law_numbers_read_back(reply as nat, 4);
    law_numbers_read_back(data.len() as nat, 4);
    assert(b.subrange(0, 8) =~= be_bytes(super::REPLY_MAGIC as nat, 8));
    assert(b.subrange(8, 12) =~= be_bytes(option as nat, 4));
    assert(b.subrange(12, 16) =~= be_bytes(reply as nat, 4));
    assert(b.subrange(16, 20) =~= be_bytes(data.len() as nat, 4));
    assert(b.subrange(20, b.len() as int) =~= data);
}

} // verus!
