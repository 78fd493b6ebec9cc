//! The content address: a BLAKE3-256 of the block's payload.
//!
//! One primitive carries three duties: the hash is the block's address, its
//! checksum (every read verifies it), and the dedupe key. Compare-by-hash at
//! 256 bits is the settled position; there is deliberately no equality
//! fallback that reads both payloads.

use crate::codec::{get_u64, lemma_lex_decided, lemma_lex_irreflexive, lex_before, pad_zeros, same32};
use vstd::bytes::*;
use vstd::prelude::*;

verus! {

/// The BLAKE3-256 digest of a byte string.
pub uninterp spec fn blake3_256(data: Seq<u8>) -> [u8; 32];

/// Calls `blake3::hash`, the unkeyed BLAKE3 hash with 32 bytes of output.
/// The contract claims only that the digest is a function of the bytes
/// hashed.
#[verifier::external_body]
fn blake3_digest(data: &[u8]) -> (digest: [u8; 32])
    ensures
        digest == blake3_256(data@),
{
    *blake3::hash(data).as_bytes()
}

/// A block's content address. 32 bytes, `Copy`, ordered, hashable.
#[derive(Debug, Clone, Copy, PartialEq, Eq, PartialOrd, Ord, Hash)]
pub struct BlockHash(pub [u8; 32]);

/// The address a payload lives under.
pub open spec fn address_of(payload: Seq<u8>) -> BlockHash {
    BlockHash(blake3_256(payload))
}

/// The first 8 bytes of a range's digest.
pub open spec fn header_digest(covered: Seq<u8>) -> Seq<u8> {
    blake3_256(covered)@.subrange(0, 8)
}

impl BlockHash {
    pub fn as_bytes(&self) -> (bytes: &[u8; 32])
        ensures
            *bytes == self.0,
    {
        &self.0
    }

    pub fn from_bytes(bytes: [u8; 32]) -> (hash: BlockHash)
        ensures
            hash == BlockHash(bytes),
    {
        BlockHash(bytes)
    }

    /// Whether two addresses are the same 32 bytes.
    pub fn same(&self, other: &BlockHash) -> (same: bool)
        ensures
            same == (*self == *other),
    {
        let same = same32(&self.0, &other.0);
        same
    }

    /// Whether this address sorts before `other`, byte by byte.
    pub fn before(&self, other: &BlockHash) -> (before: bool)
        ensures
            before == lex_before(self.0@, other.0@),
    {
        let mut i: usize = 0;
        while i < 32
            invariant
                i <= 32,
                forall|k: int| 0 <= k < i ==> self.0@[k] == other.0@[k],
            decreases 32 - i,
        {
            if self.0[i] != other.0[i] {
                proof {
                    lemma_lex_decided(self.0@, other.0@, i as int);
                }
                return self.0[i] < other.0[i];
            }
            i += 1;
        }
        proof {
            assert(self.0@ =~= other.0@);
            lemma_lex_irreflexive(self.0@);
        }
        false
    }
}

/// Hash a payload into its content address.
pub fn hash_block(payload: &[u8]) -> (hash: BlockHash)
    ensures
        hash == address_of(payload@),
{
    BlockHash(blake3_digest(payload))
}

/// The short integrity check used on fixed-size headers: the first 8 bytes
/// of the BLAKE3 of the covered range.
pub fn header_check(covered: &[u8]) -> (check: [u8; 8])
    ensures
        check@ == header_digest(covered@),
{
    let full = blake3_digest(covered);
    let mut out = [0u8; 8];
    let mut i: usize = 0;
    while i < 8
        invariant
            i <= 8,
            full == blake3_256(covered@),
            forall|k: int| 0 <= k < i ==> out@[k] == full@[k],
        decreases 8 - i,
    {
        out[i] = full[i];
        i += 1;
    }
    assert(out@ =~= header_digest(covered@));
    out
}

/// The full-width integrity check used where 32 spare bytes cost nothing.
pub fn full_check(covered: &[u8]) -> (check: [u8; 32])
    ensures
        check == blake3_256(covered@),
{
    blake3_digest(covered)
}

/// The odd multiplier of the address fold.
pub const FOLD_MULTIPLIER: u64 = 0x9E37_79B9_7F4A_7C15;

/// One step of the address fold.
pub open spec fn fold_word(state: u64, word: u64) -> u64 {
    (((state ^ word) as nat * FOLD_MULTIPLIER as nat) % 0x1_0000_0000_0000_0000) as u64
}

/// A run of bytes folded in words of eight, the last one padded with zeros.
pub open spec fn fold_bytes(state: u64, bytes: Seq<u8>) -> u64
    decreases bytes.len(),
{
    if bytes.len() == 0 {
        state
    } else if bytes.len() < 8 {
        fold_word(state, spec_u64_from_le_bytes(bytes + Seq::new((8 - bytes.len()) as nat, |i: int| 0u8)))
    } else {
        fold_bytes(
            fold_word(state, spec_u64_from_le_bytes(bytes.subrange(0, 8))),
            bytes.subrange(8, bytes.len() as int),
        )
    }
}

/// A hasher for tables keyed by [`BlockHash`]. The key is a BLAKE3 output,
/// uniform by construction, so folding its words with one multiply each is
/// a full-strength hash.
#[derive(Debug, Clone, Copy)]
pub struct AddressHasher(pub u64);

impl AddressHasher {
    pub fn finish(&self) -> (value: u64)
        ensures
            value == self.0,
    {
        self.0
    }

    fn absorb(&mut self, word: u64)
        ensures
            final(self).0 == fold_word(old(self).0, word),
    {
        self.0 = (self.0 ^ word).wrapping_mul(FOLD_MULTIPLIER);
    }

    pub fn write(&mut self, bytes: &[u8])
        ensures
            final(self).0 == fold_bytes(old(self).0, bytes@),
    {
        let mut at: usize = 0;
        assert(bytes@.subrange(0, bytes@.len() as int) =~= bytes@);
        while bytes.len() - at >= 8
            invariant
                at <= bytes@.len(),
                fold_bytes(old(self).0, bytes@) == fold_bytes(self.0, bytes@.subrange(at as int, bytes@.len() as int)),
            decreases bytes@.len() - at,
        {
            let ghost rest = bytes@.subrange(at as int, bytes@.len() as int);
            proof {
                assert(rest.subrange(0, 8) =~= bytes@.subrange(at as int, at + 8));
                assert(rest.subrange(8, rest.len() as int) =~= bytes@.subrange(at + 8, bytes@.len() as int));
            }
            let word: u64 = get_u64(bytes, at);
            self.absorb(word);
            at += 8;
        }
        if at < bytes.len() {
            let ghost rest = bytes@.subrange(at as int, bytes@.len() as int);
            let mut word: Vec<u8> = vstd::slice::slice_to_vec(vstd::slice::slice_subrange(bytes, at, bytes.len()));
            pad_zeros(&mut word, 8);
            assert(word@ =~= rest + Seq::new((8 - rest.len()) as nat, |i: int| 0u8));
            let word: u64 = u64_from_le_bytes(word.as_slice());
            self.absorb(word);
        }
    }

    pub fn write_u8(&mut self, byte: u8)
        ensures
            final(self).0 == fold_word(old(self).0, byte as u64),
    {
        self.absorb(byte as u64);
    }

    pub fn write_usize(&mut self, n: usize)
        ensures
            final(self).0 == fold_word(old(self).0, n as u64),
    {
        self.absorb(n as u64);
    }
}

impl Default for AddressHasher {
    fn default() -> (hasher: AddressHasher)
        ensures
            hasher.0 == 0,
    {
        AddressHasher(0)
    }
}

/// Hands out [`AddressHasher`]s in their starting state.
#[derive(Debug, Clone, Copy)]
pub struct AddressBuild;

impl AddressBuild {
    pub fn build_hasher(&self) -> (hasher: AddressHasher)
        ensures
            hasher.0 == 0,
    {
        AddressHasher(0)
    }
}

} // verus!
