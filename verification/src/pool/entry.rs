//! What a WAL entry says: one byte of kind, then the fields, little-endian.

use super::Lease;
use crate::codec::{get_32, get_u64, push_bytes, put_u64};
use crate::format::u64_at;
use crate::hash::BlockHash;
use crate::map::{hash_of_bytes, lemma_hash_of_bytes};
use vstd::bytes::*;
use vstd::prelude::*;

verus! {

/// Nobody: the encoded stand-in for "no node".
pub const NO_NODE: u8 = 0xFF;

#[derive(Debug, Clone, Copy, PartialEq, Eq)]
pub enum WalEntry {
    CreateVdisk { id: u64, size_bytes: u64, tier: u8 },
    MapWrite { vdisk: u64, index: u64, hash: BlockHash },
    TrimBlock { vdisk: u64, index: u64 },
    DeleteVdisk { id: u64 },
    SetLease { vdisk: u64, lease: Lease },
}

/// A node that may be missing, as a byte.
pub open spec fn node_byte(node: Option<u8>) -> u8 {
    match node {
        Some(n) => n,
        None => NO_NODE,
    }
}

/// The node a byte stands for.
pub open spec fn byte_node(b: u8) -> Option<u8> {
    if b == NO_NODE {
        None
    } else {
        Some(b)
    }
}

pub fn encode_node(node: Option<u8>) -> (b: u8)
    ensures
        b == node_byte(node),
{
    match node {
        Some(n) => n,
        None => NO_NODE,
    }
}

pub fn decode_node(b: u8) -> (node: Option<u8>)
    ensures
        node == byte_node(b),
{
    if b == NO_NODE {
        None
    } else {
        Some(b)
    }
}

/// An entry's bytes.
pub open spec fn entry_bytes(e: WalEntry) -> Seq<u8> {
    match e {
        WalEntry::CreateVdisk { id, size_bytes, tier } => seq![1u8] + spec_u64_to_le_bytes(id)
            + spec_u64_to_le_bytes(size_bytes) + seq![tier],
        WalEntry::MapWrite { vdisk, index, hash } => seq![2u8] + spec_u64_to_le_bytes(vdisk)
            + spec_u64_to_le_bytes(index) + hash.0@,
        WalEntry::TrimBlock { vdisk, index } => seq![3u8] + spec_u64_to_le_bytes(vdisk)
            + spec_u64_to_le_bytes(index),
        WalEntry::DeleteVdisk { id } => seq![4u8] + spec_u64_to_le_bytes(id),
        WalEntry::SetLease { vdisk, lease } => seq![5u8] + spec_u64_to_le_bytes(vdisk) + seq![
            lease.holder,
            node_byte(lease.handing_to),
        ] + spec_u64_to_le_bytes(lease.era),
    }
}

/// How many bytes an entry takes.
pub open spec fn entry_len(e: WalEntry) -> nat {
    match e {
        WalEntry::CreateVdisk { .. } => 18,
        WalEntry::MapWrite { .. } => 49,
        WalEntry::TrimBlock { .. } => 17,
        WalEntry::DeleteVdisk { .. } => 9,
        WalEntry::SetLease { .. } => 19,
    }
}

/// Entries of one kind take the same number of bytes.
pub proof fn law_entries_have_their_length(e: WalEntry)
    ensures
        entry_bytes(e).len() == entry_len(e),
{
    lemma_auto_spec_u64_to_from_le_bytes();
}

/// The entry bytes spell, if they spell one.
pub open spec fn entry_of_bytes(b: Seq<u8>) -> Option<WalEntry> {
    if b.len() == 18 && b[0] == 1 {
        Some(WalEntry::CreateVdisk { id: u64_at(b, 1), size_bytes: u64_at(b, 9), tier: b[17] })
    } else if b.len() == 49 && b[0] == 2 {
        Some(
            WalEntry::MapWrite {
                vdisk: u64_at(b, 1),
                index: u64_at(b, 9),
                hash: hash_of_bytes(b.subrange(17, 49)),
            },
        )
    } else if b.len() == 17 && b[0] == 3 {
        Some(WalEntry::TrimBlock { vdisk: u64_at(b, 1), index: u64_at(b, 9) })
    } else if b.len() == 9 && b[0] == 4 {
        Some(WalEntry::DeleteVdisk { id: u64_at(b, 1) })
    } else if b.len() == 19 && b[0] == 5 {
        Some(
            WalEntry::SetLease {
                vdisk: u64_at(b, 1),
                lease: Lease {
                    holder: b[9],
                    handing_to: byte_node(b[10]),
                    era: u64_at(b, 11),
                },
            },
        )
    } else {
        None
    }
}

impl WalEntry {
    pub fn encode(&self) -> (buf: Vec<u8>)
        ensures
            buf@ == entry_bytes(*self),
            buf@.len() <= 49,
    {
        proof {
            lemma_auto_spec_u64_to_from_le_bytes();
        }
        let mut buf: Vec<u8> = Vec::new();
        match *self {
            WalEntry::CreateVdisk { id, size_bytes, tier } => {
                buf.push(1);
                put_u64(&mut buf, id);
                put_u64(&mut buf, size_bytes);
                buf.push(tier);
            },
            WalEntry::MapWrite { vdisk, index, hash } => {
                buf.push(2);
                put_u64(&mut buf, vdisk);
                put_u64(&mut buf, index);
                push_bytes(&mut buf, hash.0.as_slice());
            },
            WalEntry::TrimBlock { vdisk, index } => {
                buf.push(3);
                put_u64(&mut buf, vdisk);
                put_u64(&mut buf, index);
            },
            WalEntry::DeleteVdisk { id } => {
                buf.push(4);
                put_u64(&mut buf, id);
            },
            WalEntry::SetLease { vdisk, lease } => {
                buf.push(5);
                put_u64(&mut buf, vdisk);
                buf.push(lease.holder);
                buf.push(encode_node(lease.handing_to));
                put_u64(&mut buf, lease.era);
            },
        }
        assert(buf@ =~= entry_bytes(*self));
        buf
    }

    pub fn decode(buf: &[u8]) -> (r: Option<WalEntry>)
        ensures
            r == entry_of_bytes(buf@),
    {
        let len: usize = buf.len();
        if len == 18 && buf[0] == 1 {
            Some(
                WalEntry::CreateVdisk {
                    id: get_u64(buf, 1),
                    size_bytes: get_u64(buf, 9),
                    tier: buf[17],
                },
            )
        } else if len == 49 && buf[0] == 2 {
            let hash = BlockHash(get_32(buf, 17));
            proof {
                lemma_hash_of_bytes(hash);
            }
            Some(WalEntry::MapWrite { vdisk: get_u64(buf, 1), index: get_u64(buf, 9), hash })
        } else if len == 17 && buf[0] == 3 {
            Some(WalEntry::TrimBlock { vdisk: get_u64(buf, 1), index: get_u64(buf, 9) })
        } else if len == 9 && buf[0] == 4 {
            Some(WalEntry::DeleteVdisk { id: get_u64(buf, 1) })
        } else if len == 19 && buf[0] == 5 {
            Some(
                WalEntry::SetLease {
                    vdisk: get_u64(buf, 1),
                    lease: Lease {
                        holder: buf[9],
                        handing_to: decode_node(buf[10]),
                        era: get_u64(buf, 11),
                    },
                },
            )
        } else {
            None
        }
    }
}

/// What an entry encodes to decodes to the same entry. A handover to the
/// node whose number stands for "no node" is the one that does not.
pub proof fn law_entry_round_trip(e: WalEntry)
    requires
        e matches WalEntry::SetLease { vdisk, lease } ==> lease.handing_to != Some(NO_NODE),
    ensures
        entry_of_bytes(entry_bytes(e)) == Some(e),
{
    lemma_auto_spec_u64_to_from_le_bytes();
    let b = entry_bytes(e);
    match e {
        WalEntry::CreateVdisk { id, size_bytes, tier } => {
            assert(b.subrange(1, 9) =~= spec_u64_to_le_bytes(id));
            assert(b.subrange(9, 17) =~= spec_u64_to_le_bytes(size_bytes));
        },
        WalEntry::MapWrite { vdisk, index, hash } => {
            assert(b.subrange(1, 9) =~= spec_u64_to_le_bytes(vdisk));
            assert(b.subrange(9, 17) =~= spec_u64_to_le_bytes(index));
            assert(b.subrange(17, 49) =~= hash.0@);
            lemma_hash_of_bytes(hash);
        },
        WalEntry::TrimBlock { vdisk, index } => {
            assert(b.subrange(1, 9) =~= spec_u64_to_le_bytes(vdisk));
            assert(b.subrange(9, 17) =~= spec_u64_to_le_bytes(index));
        },
        WalEntry::DeleteVdisk { id } => {
            assert(b.subrange(1, 9) =~= spec_u64_to_le_bytes(id));
        },
        WalEntry::SetLease { vdisk, lease } => {
            assert(b.subrange(1, 9) =~= spec_u64_to_le_bytes(vdisk));
            assert(b.subrange(11, 19) =~= spec_u64_to_le_bytes(lease.era));
        },
    }
}

} // verus!
