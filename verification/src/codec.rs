//! Fixed-width little-endian fields in byte strings.

use vstd::bytes::*;
use vstd::prelude::*;
use vstd::slice::*;

verus! {

/// `b` with `data` written over it from `offset` on.
pub open spec fn splice(b: Seq<u8>, offset: int, data: Seq<u8>) -> Seq<u8> {
    Seq::new(
        b.len(),
        |i: int| if offset <= i < offset + data.len() { data[i - offset] } else { b[i] },
    )
}

/// `n` zero bytes.
pub open spec fn zeros(n: nat) -> Seq<u8> {
    Seq::new(n, |i: int| 0u8)
}

/// `data` padded with zeros up to `len` bytes.
pub open spec fn padded(data: Seq<u8>, len: nat) -> Seq<u8> {
    data + zeros((len - data.len()) as nat)
}

/// `a` sorts before `b`: at the first byte in which they differ, `a`'s is
/// the smaller.
pub open spec fn lex_before(a: Seq<u8>, b: Seq<u8>) -> bool {
    exists|i: int|
        0 <= i < a.len() && i < b.len() && #[trigger] a[i] < b[i] && forall|k: int|
            0 <= k < i ==> a[k] == b[k]
}

pub proof fn lemma_lex_decided(a: Seq<u8>, b: Seq<u8>, i: int)
    requires
        0 <= i < a.len(),
        i < b.len(),
        a[i] != b[i],
        forall|k: int| 0 <= k < i ==> a[k] == b[k],
    ensures
        lex_before(a, b) == (a[i] < b[i]),
{
    if lex_before(a, b) {
        let j = choose|j: int|
            0 <= j < a.len() && j < b.len() && #[trigger] a[j] < b[j] && forall|k: int|
                0 <= k < j ==> a[k] == b[k];
        assert(!(i < j));
        assert(!(j < i));
    }
}

pub proof fn lemma_lex_irreflexive(a: Seq<u8>)
    ensures
        !lex_before(a, a),
{
}

/// Whether two byte strings are equal.
pub fn same_bytes(a: &[u8], b: &[u8]) -> (same: bool)
    ensures
        same == (a@ == b@),
{
    if a.len() != b.len() {
        return false;
    }
    let mut i: usize = 0;
    while i < a.len()
        invariant
            i <= a@.len(),
            a@.len() == b@.len(),
            forall|k: int| 0 <= k < i ==> a@[k] == b@[k],
        decreases a@.len() - i,
    {
        if a[i] != b[i] {
            return false;
        }
        i += 1;
    }
    assert(a@ =~= b@);
    true
}

/// Whether two 16-byte identities are equal.
pub fn same16(a: &[u8; 16], b: &[u8; 16]) -> (same: bool)
    ensures
        same == (*a == *b),
{
    let mut i: usize = 0;
    while i < 16
        invariant
            i <= 16,
            forall|k: int| 0 <= k < i ==> a@[k] == b@[k],
        decreases 16 - i,
    {
        if a[i] != b[i] {
            return false;
        }
        i += 1;
    }
    assert(*a =~= *b);
    true
}

/// Whether two 32-byte digests are equal.
pub fn same32(a: &[u8; 32], b: &[u8; 32]) -> (same: bool)
    ensures
        same == (*a == *b),
{
    let mut i: usize = 0;
    while i < 32
        invariant
            i <= 32,
            forall|k: int| 0 <= k < i ==> a@[k] == b@[k],
        decreases 32 - i,
    {
        if a[i] != b[i] {
            return false;
        }
        i += 1;
    }
    assert(*a =~= *b);
    true
}

/// Append bytes.
pub fn push_bytes(buf: &mut Vec<u8>, data: &[u8])
    ensures
        final(buf)@ == old(buf)@ + data@,
{
    let mut i: usize = 0;
    while i < data.len()
        invariant
            i <= data@.len(),
            buf@ == old(buf)@ + data@.subrange(0, i as int),
        decreases data@.len() - i,
    {
        buf.push(data[i]);
        i += 1;
        assert(buf@ =~= old(buf)@ + data@.subrange(0, i as int));
    }
    assert(data@.subrange(0, i as int) =~= data@);
    assert(buf@ =~= old(buf)@ + data@);
}

/// Append a little-endian `u32`.
pub fn put_u32(buf: &mut Vec<u8>, v: u32)
    ensures
        final(buf)@ == old(buf)@ + spec_u32_to_le_bytes(v),
{
    let bytes = u32_to_le_bytes(v);
    push_bytes(buf, bytes.as_slice());
}

/// Append a little-endian `u64`.
pub fn put_u64(buf: &mut Vec<u8>, v: u64)
    ensures
        final(buf)@ == old(buf)@ + spec_u64_to_le_bytes(v),
{
    let bytes = u64_to_le_bytes(v);
    push_bytes(buf, bytes.as_slice());
}

/// Extend with zeros up to `len` bytes.
pub fn pad_zeros(buf: &mut Vec<u8>, len: u64)
    requires
        old(buf)@.len() <= len,
    ensures
        final(buf)@ == padded(old(buf)@, len as nat),
{
    while (buf.len() as u64) < len
        invariant
            old(buf)@.len() <= buf@.len() <= len,
            buf@ == old(buf)@ + zeros((buf@.len() - old(buf)@.len()) as nat),
        decreases len - buf@.len(),
    {
        buf.push(0u8);
        assert(buf@ =~= old(buf)@ + zeros((buf@.len() - old(buf)@.len()) as nat));
    }
}

/// The little-endian `u32` at `at`.
pub fn get_u32(buf: &[u8], at: usize) -> (v: u32)
    requires
        at + 4 <= buf@.len(),
    ensures
        v == spec_u32_from_le_bytes(buf@.subrange(at as int, at + 4)),
{
    let _len: usize = buf.len();
    u32_from_le_bytes(slice_subrange(buf, at, at + 4))
}

/// The little-endian `u64` at `at`.
pub fn get_u64(buf: &[u8], at: usize) -> (v: u64)
    requires
        at + 8 <= buf@.len(),
    ensures
        v == spec_u64_from_le_bytes(buf@.subrange(at as int, at + 8)),
{
    let _len: usize = buf.len();
    u64_from_le_bytes(slice_subrange(buf, at, at + 8))
}

/// The 16 bytes at `at`.
pub fn get_16(buf: &[u8], at: usize) -> (v: [u8; 16])
    requires
        at + 16 <= buf@.len(),
    ensures
        v@ == buf@.subrange(at as int, at + 16),
{
    let len: usize = buf.len();
    let mut out = [0u8; 16];
    let mut i: usize = 0;
    while i < 16
        invariant
            i <= 16,
            at + 16 <= buf@.len() == len,
            forall|k: int| 0 <= k < i ==> out@[k] == buf@[at + k],
        decreases 16 - i,
    {
        out[i] = buf[at + i];
        i += 1;
    }
    assert(out@ =~= buf@.subrange(at as int, at + 16));
    out
}

/// The 32 bytes at `at`.
pub fn get_32(buf: &[u8], at: usize) -> (v: [u8; 32])
    requires
        at + 32 <= buf@.len(),
    ensures
        v@ == buf@.subrange(at as int, at + 32),
{
    let len: usize = buf.len();
    let mut out = [0u8; 32];
    let mut i: usize = 0;
    while i < 32
        invariant
            i <= 32,
            at + 32 <= buf@.len() == len,
            forall|k: int| 0 <= k < i ==> out@[k] == buf@[at + k],
        decreases 32 - i,
    {
        out[i] = buf[at + i];
        i += 1;
    }
    assert(out@ =~= buf@.subrange(at as int, at + 32));
    out
}

/// Two arrays with the same bytes are the same array.
pub proof fn lemma_array_view_injective<const N: usize>(a: [u8; N], b: [u8; N])
    requires
        a@ == b@,
    ensures
        a == b,
{
    assert forall|i: int| 0 <= i < N implies a[i] == b[i] by {
        assert(a@[i] == b@[i]);
    }
    assert(a =~= b);
}

} // verus!
