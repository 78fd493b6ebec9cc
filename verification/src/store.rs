//! What the map trees need of a block store.

use crate::brick::Brick;
use crate::brick::write::payload_fault;
use crate::disk::Disk;
use crate::error::{FsError, Result};
use crate::format::Superblock;
use crate::hash::{address_of, BlockHash};
use vstd::prelude::*;

verus! {

/// The all-zeros address: "unmapped" in a map node, and the one address no
/// real block can practically have.
pub open spec fn is_zero(h: BlockHash) -> bool {
    h.0@ == crate::codec::zeros(32)
}

/// Every address handed out reads back as what it was handed out for, and
/// none of them is all zeros. It fails only when two payloads share a
/// digest, when a payload's digest is all zeros, or when a stored block has
/// rotted.
pub open spec fn keeps_promises(
    shelf: Map<BlockHash, Seq<u8>>,
    promised: Set<(BlockHash, Seq<u8>)>,
) -> bool {
    forall|h: BlockHash, p: Seq<u8>| #[trigger]
        promised.contains((h, p)) ==> shelf.contains_key(h) && shelf[h] == p && !is_zero(h)
}

/// `after` holds everything `before` does, unchanged, and changes nothing
/// that was held.
pub open spec fn grew(
    held: Set<BlockHash>,
    before: Map<BlockHash, Seq<u8>>,
    held_after: Set<BlockHash>,
    after: Map<BlockHash, Seq<u8>>,
) -> bool {
    &&& held.subset_of(held_after)
    &&& forall|h: BlockHash| #[trigger] before.contains_key(h) ==> after.contains_key(h) && after[h] == before[h]
    &&& forall|h: BlockHash| #[trigger] after.contains_key(h) && held.contains(h) ==> before.contains_key(h)
}

/// A store of blocks by address, kept per tier.
pub trait BlockRead {
    /// What must hold of a store for its methods to work.
    spec fn ready(&self) -> bool;

    /// The addresses a tier knows.
    spec fn holds(&self, tier: u8) -> Set<BlockHash>;

    /// The blocks a tier can produce.
    spec fn shelf(&self, tier: u8) -> Map<BlockHash, Seq<u8>>;

    /// Whether nothing but the stored bytes themselves can make a read fail.
    spec fn steady(&self) -> bool;

    /// Most payload bytes of one block.
    spec fn unit(&self) -> u32;

    /// A block's payload, verified against its address.
    fn get(&self, tier: u8, hash: &BlockHash) -> (r: Result<Option<Vec<u8>>>)
        requires
            self.ready(),
        ensures
            !self.holds(tier).contains(*hash) ==> r == Ok::<Option<Vec<u8>>, FsError>(None),
            self.holds(tier).contains(*hash) ==> match r {
                Ok(got) => got is Some && self.shelf(tier).contains_key(*hash) && got->Some_0@
                    == self.shelf(tier)[*hash],
                Err(e) => true,
            },
            self.steady() && self.shelf(tier).contains_key(*hash) ==> r is Ok && r->Ok_0 is Some,
            self.steady() && r is Err ==> r->Err_0 is Corrupt,
    ;

    fn contains(&self, tier: u8, hash: &BlockHash) -> (r: bool)
        requires
            self.ready(),
        ensures
            r == self.holds(tier).contains(*hash),
    ;

    fn block_size(&self) -> (r: u32)
        requires
            self.ready(),
        ensures
            r == self.unit(),
    ;
}

/// A store that also takes blocks.
pub trait BlockWrite: BlockRead {
    /// What a put leaves alone.
    type Frame;

    spec fn frame(&self) -> Self::Frame;

    /// The addresses handed out in a tier, with what they were handed out
    /// for.
    spec fn promised(&self, tier: u8) -> Set<(BlockHash, Seq<u8>)>;

    /// Whether everything held would be found again by a reopen.
    spec fn recoverable(&self) -> bool;

    /// The store has bricks of this tier.
    spec fn carries(&self, tier: u8) -> bool;

    /// No brick of this tier has room for a new block of `len` bytes.
    spec fn crammed(&self, tier: u8, len: nat) -> bool;

    /// This store came of `before` with nothing written over that what was
    /// held there rests on.
    spec fn follows(&self, before: &Self) -> bool;

    proof fn lemma_follows_self(&self)
        ensures
            self.follows(self),
    ;

    proof fn lemma_follows_twice(&self, mid: &Self, before: &Self)
        requires
            mid.follows(before),
            self.follows(mid),
        ensures
            self.follows(before),
    ;

    /// Only held addresses are promised, or can be produced.
    proof fn lemma_promised_held(&self, tier: u8)
        requires
            self.ready(),
        ensures
            forall|h: BlockHash| #[trigger] self.shelf(tier).contains_key(h) ==> self.holds(tier).contains(h),
            forall|h: BlockHash, p: Seq<u8>| #[trigger] self.promised(tier).contains((h, p)) ==> self.holds(tier).contains(h),
    ;

    /// Store a payload under its content address.
    fn put(&mut self, tier: u8, payload: &[u8]) -> (r: Result<BlockHash>)
        requires
            old(self).ready(),
        ensures
            final(self).ready(),
            final(self).unit() == old(self).unit(),
            final(self).steady() == old(self).steady(),
            final(self).frame() == old(self).frame(),
            old(self).recoverable() ==> final(self).recoverable(),
            final(self).follows(old(self)),
            forall|t: u8| t != tier ==> final(self).holds(t) == old(self).holds(t) && final(self).shelf(t)
                == old(self).shelf(t) && final(self).promised(t) == old(self).promised(t),
            r is Err ==> final(self).holds(tier) == old(self).holds(tier) && final(self).shelf(tier)
                == old(self).shelf(tier) && final(self).promised(tier) == old(self).promised(tier),
            r matches Ok(h) ==> {
                &&& h == address_of(payload@)
                &&& final(self).holds(tier) == old(self).holds(tier).insert(h)
                &&& final(self).promised(tier) == old(self).promised(tier).insert((h, payload@))
                &&& final(self).shelf(tier) == if old(self).holds(tier).contains(h) {
                    old(self).shelf(tier)
                } else {
                    old(self).shelf(tier).insert(h, payload@)
                }
            },
            forall|t: u8| #[trigger] final(self).carries(t) == old(self).carries(t),
            payload_fault(payload@.len(), old(self).unit()) is None && old(self).steady() && r is Err
                ==> (r == Err::<BlockHash, FsError>(FsError::Full) && final(self).crammed(tier, payload@.len())) || (r == Err::<BlockHash, FsError>(
                FsError::NoSuchTier(tier),
            ) && !old(self).carries(tier)),
    ;
}

/// A single brick answers for its own tier alone.
impl<D: Disk> BlockRead for Brick<D> {
    open spec fn ready(&self) -> bool {
        self.inv()
    }

    open spec fn holds(&self, tier: u8) -> Set<BlockHash> {
        if tier == self.superblock().tier {
            self.held()
        } else {
            Set::empty()
        }
    }

    open spec fn shelf(&self, tier: u8) -> Map<BlockHash, Seq<u8>> {
        if tier == self.superblock().tier {
            self.blocks()
        } else {
            Map::empty()
        }
    }

    open spec fn steady(&self) -> bool {
        self.reliable()
    }

    open spec fn unit(&self) -> u32 {
        self.superblock().block_size
    }

    fn get(&self, tier: u8, hash: &BlockHash) -> (r: Result<Option<Vec<u8>>>) {
        proof {
            self.lemma_model();
        }
        if tier == self.tier() {
            Brick::get(self, hash)
        } else {
            Ok(None)
        }
    }

    fn contains(&self, tier: u8, hash: &BlockHash) -> (r: bool) {
        tier == self.tier() && Brick::contains(self, hash)
    }

    fn block_size(&self) -> (r: u32) {
        Brick::block_size(self)
    }
}


impl<D: Disk> BlockWrite for Brick<D> {
    type Frame = (Superblock, Seq<u8>, bool, nat);

    open spec fn frame(&self) -> (Superblock, Seq<u8>, bool, nat) {
        (self.superblock(), self.aux(), self.reserve_is_open(), self.disk_bytes().len())
    }

    open spec fn promised(&self, tier: u8) -> Set<(BlockHash, Seq<u8>)> {
        if tier == self.superblock().tier {
            self.claims()
        } else {
            Set::empty()
        }
    }

    open spec fn recoverable(&self) -> bool {
        self.intact()
    }

    open spec fn carries(&self, tier: u8) -> bool {
        tier == self.superblock().tier
    }

    open spec fn crammed(&self, tier: u8, len: nat) -> bool {
        tier == self.superblock().tier && !self.fits_open(len) && !self.may_open()
    }

    open spec fn follows(&self, before: &Self) -> bool {
        self.kept_to_room(before)
    }

    proof fn lemma_follows_self(&self) {
    }

    proof fn lemma_follows_twice(&self, mid: &Self, before: &Self) {
        Brick::lemma_kept_twice(before, mid, self);
    }

    proof fn lemma_promised_held(&self, tier: u8) {
        self.lemma_model();
    }

    fn put(&mut self, tier: u8, payload: &[u8]) -> (r: Result<BlockHash>) {
        if tier == self.tier() {
            Brick::put(self, payload)
        } else {
            Err(FsError::NoSuchTier(tier))
        }
    }
}

} // verus!
