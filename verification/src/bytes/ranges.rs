//! How reads and changes of byte ranges relate, each by its contract.

use super::{blocks_in, byte_at, bytes_read, bytes_trimmed, bytes_written, discarded, end_whole, first_whole, overwritten, readable_at, Contents};
use crate::error::{FsError, Result};
use vstd::prelude::*;

verus! {

/// A read that succeeds gives as many bytes as were asked for, all within the
/// vdisk; one past its end is refused, and so is one of an unknown vdisk.
pub proof fn law_a_read_gives_what_was_asked<B: Contents>(a: &B, b: &B, vdisk: u64, offset: u64, len: u64, r: Result<Vec<u8>>)
    requires
        bytes_read(a, b, vdisk, offset, len, r),
    ensures
        r is Ok ==> r->Ok_0@.len() == len,
        r is Ok ==> a.byte_size(vdisk) is Some && offset + len <= a.byte_size(vdisk)->Some_0,
        a.byte_size(vdisk) is None ==> r is Err && r->Err_0 == FsError::UnknownVdisk(vdisk),
        a.byte_size(vdisk) matches Some(size) ==> offset + len > size ==> r is Err && r->Err_0 is OutOfRange,
{
}

/// The bytes a read gives are those of the blocks they are in; what was never
/// written is zero.
pub proof fn law_a_read_takes_bytes_from_their_blocks<B: Contents>(a: &B, b: &B, vdisk: u64, offset: u64, len: u64, r: Result<Vec<u8>>, k: u64, i: int)
    requires
        a.ready(),
        a.exact(),
        a.unit_len() > 0,
        bytes_read(a, b, vdisk, offset, len, r),
        r is Ok,
        0 <= i < a.unit_len(),
        offset <= k * a.unit_len() + i < offset + len,
    ensures
        r->Ok_0@[k * a.unit_len() + i - offset] == match a.block_at(vdisk, k)->Some_0 {
            Some(payload) => if i < payload.len() {
                payload[i]
            } else {
                0u8
            },
            None => 0u8,
        },
{
    let unit = a.unit_len() as int;
    let pos = k * unit + i;
    vstd::arithmetic::div_mod::lemma_fundamental_div_mod_converse(pos, unit, k as int, i);
    assert(r->Ok_0@[pos - offset] == byte_at(a, vdisk, offset + (pos - offset)));
}

/// A write that succeeds lies within the vdisk; one past its end is refused,
/// and so is one of an unknown vdisk.
pub proof fn law_a_write_stays_within<B: Contents>(a: &B, b: &B, vdisk: u64, offset: u64, data: Seq<u8>, r: Result<()>)
    requires
        bytes_written(a, b, vdisk, offset, data, r),
    ensures
        r is Ok ==> a.byte_size(vdisk) is Some && offset + data.len() <= a.byte_size(vdisk)->Some_0,
        a.byte_size(vdisk) is None ==> r is Err && r->Err_0 == FsError::UnknownVdisk(vdisk),
        a.byte_size(vdisk) matches Some(size) ==> offset + data.len() > size ==> r is Err && r->Err_0 is OutOfRange,
        b.byte_size(vdisk) == a.byte_size(vdisk),
{
}

/// Read, write, read: where the write lies over the range read, the second
/// read gives the bytes written, and everywhere else what the first gave.
pub proof fn law_a_read_after_a_write<B: Contents>(
    a: &B,
    b: &B,
    c: &B,
    d: &B,
    vdisk: u64,
    offset: u64,
    data: Seq<u8>,
    w: Result<()>,
    from: u64,
    len: u64,
    first: Result<Vec<u8>>,
    second: Result<Vec<u8>>,
    i: int,
)
    requires
        bytes_read(a, b, vdisk, from, len, first),
        bytes_written(b, c, vdisk, offset, data, w),
        bytes_read(c, d, vdisk, from, len, second),
        a.exact() && b.local() && c.sound() && b.unit_len() > 0,
        w is Ok && second is Ok,
        0 <= i < len,
    ensures
        offset <= from + i < offset + data.len() ==> second->Ok_0@[i] == data[from + i - offset],
        first is Ok && !(offset <= from + i < offset + data.len()) && readable_at(a, vdisk, from + i) ==> second->Ok_0@[i] == first->Ok_0@[i],
{
    let done = choose|done: int|
        offset <= done <= offset + data.len() && (w is Ok ==> done == offset + data.len()) && #[trigger] overwritten(b, c, vdisk, offset, data, done);
    assert(second->Ok_0@[i] == byte_at(c, vdisk, from + i));
    if offset <= from + i < offset + data.len() {
        assert(readable_at(c, vdisk, from + i));
    } else if first is Ok && readable_at(a, vdisk, from + i) {
        assert(first->Ok_0@[i] == byte_at(a, vdisk, from + i));
        let k = ((from + i) / a.unit_len() as int) as u64;
        assert(b.block_at(vdisk, k) == a.block_at(vdisk, k));
        assert(readable_at(b, vdisk, from + i));
    }
}

/// What was written can be read.
pub proof fn law_a_write_makes_its_range_readable<B: Contents>(a: &B, b: &B, c: &B, vdisk: u64, offset: u64, data: Seq<u8>, w: Result<()>, r: Result<Vec<u8>>)
    requires
        bytes_written(a, b, vdisk, offset, data, w),
        w is Ok,
        bytes_read(b, c, vdisk, offset, data.len() as u64, r),
        data.len() <= u64::MAX,
        a.exact() && a.local() && b.sound() && b.steady(),
    ensures
        r is Ok,
        r->Ok_0@ == data,
{
    let done = choose|done: int|
        offset <= done <= offset + data.len() && (w is Ok ==> done == offset + data.len()) && #[trigger] overwritten(a, b, vdisk, offset, data, done);
    assert forall|pos: int| offset <= pos < offset + data.len() implies #[trigger] readable_at(b, vdisk, pos) by {}
    assert forall|i: int| 0 <= i < data.len() implies #[trigger] r->Ok_0@[i] == data[i] by {
        assert(r->Ok_0@[i] == byte_at(b, vdisk, offset + i));
        assert(readable_at(b, vdisk, offset + i));
    }
    assert(r->Ok_0@ =~= data);
}

/// A range that a trim gives back, by block: the block lies whole within it,
/// or within it and the end of the vdisk.
pub open spec fn gives_back(unit: int, size: u64, offset: u64, len: u64, k: u64) -> bool {
    offset <= k * unit && k * unit < size && (k * unit + unit <= offset + len || offset + len == size)
}

proof fn lemma_gives_back(unit: int, size: u64, offset: u64, len: u64, k: u64)
    requires
        unit > 0,
        offset + len <= size,
    ensures
        gives_back(unit, size, offset, len, k) <==> first_whole(offset, unit) <= k < end_whole(offset + len, size, unit),
{
    lemma_up(offset, unit, k as int);
    lemma_up(size, unit, k as int);
    let end = offset + len;
    vstd::arithmetic::div_mod::lemma_fundamental_div_mod(end, unit);
    let q = end / unit;
    assert(k * unit + unit <= end <==> k < q) by (nonlinear_arith)
        requires
            unit > 0,
            end == unit * q + end % unit,
            0 <= end % unit < unit,
    ;
}

proof fn lemma_up(x: u64, unit: int, k: int)
    requires
        unit > 0,
    ensures
        x <= k * unit <==> blocks_in(x, unit) <= k,
{
    let v = x as int;
    vstd::arithmetic::div_mod::lemma_fundamental_div_mod(v, unit);
    let q = v / unit;
    let m = v % unit;
    assert(v <= k * unit <==> (q < k || (q == k && m == 0))) by (nonlinear_arith)
        requires
            unit > 0,
            v == unit * q + m,
            0 <= m < unit,
    ;
}

/// A trim that succeeds lies within the vdisk. The blocks that lie whole in
/// its range read as never written; no other block changes, of this vdisk or
/// of another.
pub proof fn law_a_trim_gives_whole_blocks_back<B: Contents>(a: &B, b: &B, vdisk: u64, offset: u64, len: u64, r: Result<()>, v: u64, k: u64)
    requires
        bytes_trimmed(a, b, vdisk, offset, len, r),
        r is Ok,
        b.sound(),
        a.unit_len() > 0,
    ensures
        a.byte_size(vdisk) is Some,
        offset + len <= a.byte_size(vdisk)->Some_0,
        gives_back(a.unit_len() as int, a.byte_size(vdisk)->Some_0, offset, len, k) ==> b.block_at(vdisk, k) == Some(None::<Seq<u8>>),
        (v != vdisk || !gives_back(a.unit_len() as int, a.byte_size(vdisk)->Some_0, offset, len, k)) && a.block_at(v, k) is Some ==> b.block_at(v, k)
            == a.block_at(v, k),
{
    let size = a.byte_size(vdisk)->Some_0;
    let unit = a.unit_len() as int;
    let first = first_whole(offset, unit);
    let bound = end_whole(offset + len, size, unit);
    let done = choose|done: int|
        first <= done && (r is Ok ==> done >= bound) && (done <= bound || done == first) && #[trigger] discarded(a, b, vdisk, first, done);
    lemma_gives_back(unit, size, offset, len, k);
}

/// Trim, then read: a byte of a block given back is zero.
pub proof fn law_a_read_after_a_trim<B: Contents>(
    a: &B,
    b: &B,
    c: &B,
    vdisk: u64,
    offset: u64,
    len: u64,
    w: Result<()>,
    from: u64,
    count: u64,
    r: Result<Vec<u8>>,
    k: u64,
    i: int,
)
    requires
        bytes_trimmed(a, b, vdisk, offset, len, w),
        w is Ok,
        b.sound() && b.exact() && b.ready(),
        a.unit_len() > 0,
        bytes_read(b, c, vdisk, from, count, r),
        r is Ok,
        gives_back(a.unit_len() as int, a.byte_size(vdisk)->Some_0, offset, len, k),
        0 <= i < a.unit_len(),
        from <= k * a.unit_len() + i < from + count,
    ensures
        r->Ok_0@[k * a.unit_len() + i - from] == 0,
{
    law_a_trim_gives_whole_blocks_back(a, b, vdisk, offset, len, w, vdisk, k);
    law_a_read_takes_bytes_from_their_blocks(b, c, vdisk, from, count, r, k, i);
}

/// Refused changes change nothing.
pub proof fn law_a_refused_change_changes_nothing<B: Contents>(a: &B, b: &B, vdisk: u64, offset: u64, data: Seq<u8>, len: u64, r: Result<()>, v: u64, k: u64)
    requires
        bytes_written(a, b, vdisk, offset, data, r) && (a.byte_size(vdisk) is None || offset + data.len() > a.byte_size(vdisk)->Some_0) || bytes_trimmed(
            a,
            b,
            vdisk,
            offset,
            len,
            r,
        ) && (a.byte_size(vdisk) is None || offset + len > a.byte_size(vdisk)->Some_0),
        a.block_at(v, k) is Some,
    ensures
        r is Err,
        b.block_at(v, k) == a.block_at(v, k),
{
}

} // verus!
