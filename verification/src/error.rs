//! What can go wrong in the engine, as one typed enum.
//!
//! The distinction kept honest here is corrupt versus missing. A block the
//! index does not know is `None` from a lookup: an ordinary answer. A block
//! the index does know whose bytes fail their hash is [`FsError::Corrupt`],
//! never a silent `None`, because the caller must know to repair from a peer
//! rather than conclude the block never existed.

use crate::hash::BlockHash;
use vstd::prelude::*;

verus! {

pub type Result<T> = core::result::Result<T, FsError>;

#[derive(Debug, Clone, Copy, PartialEq, Eq)]
pub enum FsError {
    /// A read or write fell outside the disk.
    OutOfBounds { offset: u64, len: u64, disk_size: u64 },
    /// The disk carries no valid superblock in either slot.
    NotFormatted,
    /// A valid superblock, but a format version this build does not speak.
    UnsupportedVersion(u32),
    /// The requested geometry cannot be laid out on this disk.
    BadGeometry(&'static str),
    /// Stored bytes contradict their own integrity data.
    Corrupt(&'static str),
    /// A put larger than the pool's block size.
    PayloadTooLarge { len: usize, block_size: u32 },
    /// A put of zero bytes: a block that cannot round-trip.
    EmptyPayload,
    /// No free segment can take the next block.
    Full,
    /// The write-ahead ring would lap its live history.
    WalFull,
    /// The vdisk manifest block cannot take another entry.
    ManifestFull,
    /// An operation named a vdisk the pool does not have.
    UnknownVdisk(u64),
    /// A create named a vdisk the pool already has.
    VdiskExists(u64),
    /// A read or write beyond the vdisk's capacity.
    OutOfRange { index: u64, capacity: u64 },
    /// A snapshot create named an id the vdisk already carries.
    SnapshotExists { vdisk: u64, snapshot: u64 },
    /// An operation named a snapshot the vdisk does not carry.
    UnknownSnapshot { vdisk: u64, snapshot: u64 },
    /// A vdisk delete refused because snapshots still pin its history.
    HasSnapshots(u64),
    /// A write on a node that does not hold the vdisk's writer lease.
    NotWriter(u64),
    /// A claim on a lease another node holds under the current era.
    LeaseHeld { vdisk: u64, holder: u8 },
    /// A handover step for a vdisk whose lease is not in that state.
    NoSuchHandover(u64),
    /// Replication cannot acknowledge: the peer is unreachable and no
    /// verdict says it is dead.
    Suspended,
    /// The bricks at hand are not one node's brick set.
    BrickSetMismatch(&'static str),
    /// A put or read named a storage tier no brick here belongs to.
    NoSuchTier(u8),
    /// A vdisk's tier is one the peer being offered it does not have.
    TierNotOnPeer(u8),
    /// A placement request the slice map cannot honour.
    Placement(&'static str),
    /// The block's slice lives on other nodes; fetch it from one of them.
    BlockElsewhere { tier: u8, hash: BlockHash },
    /// Neither home of the slice can be reached.
    SliceUnreachable(u8),
}

} // verus!
