//! One node's bricks as one store, by tier.
//!
//! A block's tier is part of its home: the same payload on two tiers is two
//! blocks. Within a tier an address is served by the first brick that holds
//! it, and a new block goes to the brick with the most free segments that
//! can take it. One brick, on tier 0, holds the WAL and the anchor, whose
//! roster names the whole set.

use crate::brick::{best_anchor, formatted, Brick};
use crate::codec::same16;
use crate::disk::Disk;
use crate::error::{FsError, Result};
use crate::format::{Anchor, RosterEntry, Superblock, ROSTER_CAP};
use crate::hash::BlockHash;
use vstd::prelude::*;

pub mod care;
pub mod choice;
pub mod chunk;
pub mod figures;
pub mod layout;
pub mod ops;

verus! {

/// A brick of the tier knows the address.
pub open spec fn serves<D: Disk>(brick: Brick<D>, tier: u8, h: BlockHash) -> bool {
    brick.superblock().tier == tier && brick.held().contains(h)
}

/// No brick has written outside the room it had.
pub open spec fn roomed<D: Disk>(a: Seq<Brick<D>>, b: Seq<Brick<D>>) -> bool {
    &&& a.len() == b.len()
    &&& forall|i: int| 0 <= i < a.len() ==> (#[trigger] b[i]).kept_to_room(&a[i])
}

pub proof fn lemma_roomed_twice<D: Disk>(a: Seq<Brick<D>>, b: Seq<Brick<D>>, c: Seq<Brick<D>>)
    requires
        roomed(a, b),
        roomed(b, c),
    ensures
        roomed(a, c),
{
    assert forall|i: int| 0 <= i < a.len() implies (#[trigger] c[i]).kept_to_room(&a[i]) by {
        assert(b[i].kept_to_room(&a[i]));
        Brick::lemma_kept_twice(&a[i], &b[i], &c[i]);
    }
}

/// The first brick from `i` on that serves an address in a tier.
pub open spec fn route_from<D: Disk>(bricks: Seq<Brick<D>>, tier: u8, h: BlockHash, i: nat) -> Option<int>
    decreases bricks.len() - i,
{
    if i >= bricks.len() {
        None
    } else if serves(bricks[i as int], tier, h) {
        Some(i as int)
    } else {
        route_from(bricks, tier, h, i + 1)
    }
}

/// The brick that serves an address in a tier.
pub open spec fn route<D: Disk>(bricks: Seq<Brick<D>>, tier: u8, h: BlockHash) -> Option<int> {
    route_from(bricks, tier, h, 0)
}

pub proof fn lemma_route<D: Disk>(bricks: Seq<Brick<D>>, tier: u8, h: BlockHash, i: nat)
    ensures
        route_from(bricks, tier, h, i) matches Some(j) ==> i <= j < bricks.len() && serves(bricks[j], tier, h),
        route_from(bricks, tier, h, i) is None ==> forall|j: int| i <= j < bricks.len() ==> !serves(#[trigger] bricks[j], tier, h),
    decreases bricks.len() - i,
{
    if i < bricks.len() {
        lemma_route(bricks, tier, h, i + 1);
    }
}

pub proof fn lemma_route_same<D: Disk>(a: Seq<Brick<D>>, b: Seq<Brick<D>>, tier: u8, h: BlockHash, i: nat)
    requires
        a.len() == b.len(),
        forall|j: int| i <= j < a.len() ==> serves(#[trigger] a[j], tier, h) == serves(b[j], tier, h),
    ensures
        route_from(a, tier, h, i) == route_from(b, tier, h, i),
    decreases a.len() - i,
{
    if i < a.len() {
        lemma_route_same(a, b, tier, h, i + 1);
    }
}

/// The addresses a tier knows.
pub open spec fn tier_held<D: Disk>(bricks: Seq<Brick<D>>, tier: u8) -> Set<BlockHash> {
    Set::new(|h: BlockHash| route(bricks, tier, h) is Some)
}

/// The blocks a tier can produce.
pub open spec fn tier_blocks<D: Disk>(bricks: Seq<Brick<D>>, tier: u8) -> Map<BlockHash, Seq<u8>> {
    Map::new(
        |h: BlockHash|
            route(bricks, tier, h) matches Some(i) && bricks[i].blocks().contains_key(h),
        |h: BlockHash| bricks[route(bricks, tier, h)->Some_0].blocks()[h],
    )
}

/// The addresses handed out in a tier, with what they were handed out for.
pub open spec fn tier_claims<D: Disk>(bricks: Seq<Brick<D>>, tier: u8) -> Set<(BlockHash, Seq<u8>)> {
    Set::new(
        |c: (BlockHash, Seq<u8>)|
            route(bricks, tier, c.0) matches Some(i) && bricks[i].claims().contains(c),
    )
}

/// Bricks in the set's order: by tier, then by uuid.
pub open spec fn brick_before(a: Superblock, b: Superblock) -> bool {
    a.tier < b.tier || (a.tier == b.tier && !crate::codec::lex_before(b.brick_uuid@, a.brick_uuid@))
}

/// This brick as a roster names it.
pub open spec fn entry_of_brick<D: Disk>(brick: Brick<D>) -> RosterEntry {
    RosterEntry { brick_uuid: brick.superblock().brick_uuid, tier: brick.superblock().tier }
}

/// The roster names exactly these bricks, each once.
pub open spec fn roster_matches<D: Disk>(roster: Seq<RosterEntry>, bricks: Seq<Brick<D>>) -> bool {
    &&& roster.len() == bricks.len()
    &&& forall|i: int| 0 <= i < bricks.len() ==> roster.contains(entry_of_brick(#[trigger] bricks[i]))
}

/// `b` holds the same bricks as `a`, in some order.
pub open spec fn same_bricks<D: Disk>(a: Seq<Brick<D>>, b: Seq<Brick<D>>) -> bool {
    &&& a.len() == b.len()
    &&& forall|i: int| 0 <= i < a.len() ==> b.contains(#[trigger] a[i])
    &&& forall|i: int| 0 <= i < b.len() ==> a.contains(#[trigger] b[i])
}

/// Why bricks are not one set, if they are not, before the roster is asked.
pub open spec fn set_fault<D: Disk>(bricks: Seq<Brick<D>>) -> Option<FsError> {
    if bricks.len() == 0 {
        Some(FsError::BrickSetMismatch("a set of no bricks"))
    } else if exists|i: int|
        0 <= i < bricks.len() && (#[trigger] bricks[i]).superblock().pool_uuid != bricks[0].superblock().pool_uuid {
        Some(FsError::BrickSetMismatch("bricks of different pools presented as one set"))
    } else if exists|i: int|
        0 <= i < bricks.len() && (#[trigger] bricks[i]).superblock().block_size != bricks[0].superblock().block_size {
        Some(FsError::BrickSetMismatch("bricks of different block sizes presented as one set"))
    } else if exists|i: int, j: int|
        0 <= i < j < bricks.len() && (#[trigger] bricks[i]).superblock().brick_uuid == (
        #[trigger] bricks[j]).superblock().brick_uuid {
        Some(FsError::BrickSetMismatch("the same brick presented twice"))
    } else if forall|i: int| 0 <= i < bricks.len() ==> !(#[trigger] bricks[i]).superblock().wal_holder {
        Some(
            FsError::BrickSetMismatch("no brick holds the WAL — the node's ring has nowhere to live"),
        )
    } else if exists|i: int, j: int|
        0 <= i < j < bricks.len() && (#[trigger] bricks[i]).superblock().wal_holder && (
        #[trigger] bricks[j]).superblock().wal_holder {
        Some(
            FsError::BrickSetMismatch("two bricks claim the WAL — two rings would be two histories"),
        )
    } else if exists|i: int|
        0 <= i < bricks.len() && (#[trigger] bricks[i]).superblock().wal_holder && bricks[i].superblock().tier != 0 {
        Some(FsError::BrickSetMismatch("the WAL holder must be a tier-0 brick"))
    } else {
        None
    }
}

/// A brick of the tier has room for a new block of `len` bytes.
pub open spec fn roomy<D: Disk>(brick: Brick<D>, tier: u8, len: nat) -> bool {
    brick.superblock().tier == tier && (brick.fits_open(len) || brick.may_open())
}

/// The brick a new block goes to: of those with room, the one with the most
/// free segments, the first among equals.
pub open spec fn chosen<D: Disk>(bricks: Seq<Brick<D>>, tier: u8, len: nat, i: int) -> bool {
    &&& 0 <= i < bricks.len()
    &&& roomy(bricks[i], tier, len)
    &&& forall|j: int|
        0 <= j < bricks.len() && roomy(#[trigger] bricks[j], tier, len) ==> bricks[j].free_list().len() < bricks[i].free_list().len()
            || (bricks[j].free_list().len() == bricks[i].free_list().len() && i <= j)
}

/// What a change of one brick's contents leaves of the others.
pub open spec fn one_changed<D: Disk>(a: Seq<Brick<D>>, b: Seq<Brick<D>>) -> bool {
    &&& a.len() == b.len()
    &&& forall|i: int| 0 <= i < a.len() ==> (#[trigger] b[i]).same_shape(&a[i])
}

pub struct BrickSet<D: Disk> {
    /// Sorted by tier, then uuid.
    bricks: Vec<Brick<D>>,
    /// The brick that carries the WAL.
    holder: usize,
    /// Which bricks may have been written to since they were last flushed. A
    /// brick is presumed to have been until its first flush here.
    dirty: Vec<bool>,
}

impl<D: Disk> BrickSet<D> {
    pub closed spec fn members(&self) -> Seq<Brick<D>> {
        self.bricks@
    }

    pub closed spec fn holder_at(&self) -> int {
        self.holder as int
    }

    /// Whatever is not marked has nothing at risk.
    pub(super) closed spec fn marked(&self) -> bool {
        &&& self.dirty@.len() == self.bricks@.len()
        &&& forall|i: int| 0 <= i < self.bricks@.len() && !self.dirty@[i] ==> (#[trigger] self.bricks@[i]).durable()
    }

    /// The brick may have been written to since it was last flushed.
    pub closed spec fn presumed_written(&self, i: int) -> bool {
        self.dirty@[i]
    }

    /// The bricks are one set, and each is in order.
    pub closed spec fn inv(&self) -> bool {
        &&& self.marked()
        &&& set_fault(self.bricks@) is None
        &&& self.bricks@.len() <= ROSTER_CAP
        &&& self.holder < self.bricks@.len()
        &&& self.bricks@[self.holder as int].superblock().wal_holder
        &&& forall|i: int| 0 <= i < self.bricks@.len() ==> (#[trigger] self.bricks@[i]).inv()
        &&& forall|i: int, j: int|
            0 <= i < j < self.bricks@.len() ==> brick_before(
                (#[trigger] self.bricks@[i]).superblock(),
                (#[trigger] self.bricks@[j]).superblock(),
            )
    }

    /// What a set in order says of its bricks.
    pub proof fn lemma_set(&self)
        requires
            self.inv(),
        ensures
            0 <= self.holder_at() < self.members().len() <= ROSTER_CAP,
            set_fault(self.members()) is None,
            self.members()[self.holder_at()].superblock().wal_holder,
            self.members()[self.holder_at()].superblock().tier == 0,
            forall|i: int| 0 <= i < self.members().len() ==> (#[trigger] self.members()[i]).inv(),
            forall|i: int| 0 <= i < self.members().len() ==> (#[trigger] self.members()[i]).superblock().block_size
                == self.unit_size(),
    {
    }

    /// The bricks of a set stand in order: by tier, then by uuid.
    pub proof fn law_a_set_is_in_order(&self)
        requires
            self.inv(),
        ensures
            forall|i: int, j: int|
                0 <= i < j < self.members().len() ==> brick_before(
                    (#[trigger] self.members()[i]).superblock(),
                    (#[trigger] self.members()[j]).superblock(),
                ),
    {
    }

    /// Most payload bytes of one block.
    pub closed spec fn unit_size(&self) -> u32 {
        self.bricks@[0].superblock().block_size
    }

    /// Every disk fails on nothing but a range out of bounds.
    pub open spec fn reliable(&self) -> bool {
        forall|i: int| 0 <= i < self.members().len() ==> (#[trigger] self.members()[i]).reliable()
    }

    /// A reopen would find at least what is held.
    pub open spec fn intact(&self) -> bool {
        forall|i: int| 0 <= i < self.members().len() ==> (#[trigger] self.members()[i]).intact()
    }

    /// The anchor and WAL areas of the holder.
    pub open spec fn wal_area(&self) -> Seq<u8> {
        self.members()[self.holder_at()].aux()
    }

    /// A byte of those areas whose fate a power loss decides.
    pub open spec fn wal_risks(&self, i: int) -> bool {
        self.members()[self.holder_at()].risks(i)
    }

    /// The superblock of the holder.
    pub open spec fn wal_super(&self) -> Superblock {
        self.members()[self.holder_at()].superblock()
    }

    /// Everything on every brick is on stable storage.
    pub open spec fn durable(&self) -> bool {
        forall|i: int| 0 <= i < self.members().len() ==> (#[trigger] self.members()[i]).durable()
    }

    /// Everything but what the segments hold is as in `before`.
    pub open spec fn same_set(&self, before: &Self) -> bool {
        &&& self.inv()
        &&& self.holder_at() == before.holder_at()
        &&& one_changed(before.members(), self.members())
    }

    /// The same blocks are held and read back as in `before`.
    pub open spec fn same_stock(&self, before: &Self) -> bool {
        &&& self.same_set(before)
        &&& before.intact() ==> self.intact()
        &&& forall|t: u8| #[trigger] tier_held(self.members(), t) == tier_held(before.members(), t)
        &&& forall|t: u8| #[trigger] tier_blocks(self.members(), t) == tier_blocks(before.members(), t)
        &&& forall|t: u8| #[trigger] tier_claims(self.members(), t) == tier_claims(before.members(), t)
    }

    /// Open every disk and put the set together.
    pub fn open(disks: Vec<D>) -> (r: Result<BrickSet<D>>)
        requires
            forall|i: int| 0 <= i < disks@.len() ==> (#[trigger] disks@[i]).valid(),
        ensures
            r matches Ok(set) ==> {
                &&& set.inv()
                &&& set.intact()
                &&& exists|bricks: Seq<Brick<D>>| #[trigger] opened(disks@, bricks) && same_bricks(bricks, set.members())
            },
            (forall|i: int| 0 <= i < disks@.len() ==> mountable(#[trigger] disks@[i])) ==> set_opened(disks@, r),
    {
        let ghost all = disks@;
        let mut left = disks;
        let mut bricks: Vec<Brick<D>> = Vec::new();
        while left.len() > 0
            invariant
                all == disks@,
                bricks@.len() + left@.len() == all.len(),
                left@ == all.subrange(bricks@.len() as int, all.len() as int),
                forall|i: int| 0 <= i < all.len() ==> (#[trigger] all[i]).valid(),
                opened(all.subrange(0, bricks@.len() as int), bricks@),
                forall|i: int| 0 <= i < bricks@.len() ==> (#[trigger] bricks@[i]).inv() && bricks@[i].intact(),
            decreases left@.len(),
        {
            let ghost n = bricks@.len() as int;
            assert(left@[0] == all[n]);
            let disk = left.remove(0);
            let ghost d = disk;
            let opened = Brick::open(disk);
            let brick = match opened {
                Ok(brick) => brick,
                Err(e) => {
                    proof {
                        let refusal: Result<BrickSet<D>> = Err(e);
                        if mountable(all[n]) {
                            assert(crate::brick::open_verdict(all[n].bytes(), Err::<Brick<D>, FsError>(e)));
                            assert(0 <= n < all.len() && disk_refused(all[n], refusal->Err_0));
                            assert(set_opened(all, refusal));
                        }
                    }
                    return Err(e);
                },
            };
            bricks.push(brick);
            proof {
                assert(left@ =~= all.subrange(n + 1, all.len() as int));
            }
        }
        proof {
            assert(all.subrange(0, bricks@.len() as int) =~= all);
            assert(opened(all, bricks@));
        }
        let ghost found = bricks@;
        let r = Self::assemble(bricks);
        proof {
            let sorted = choose|sorted: Seq<Brick<D>>| #[trigger] same_bricks(found, sorted) && assembly(sorted, r);
            assert(assembled_from(all, found, sorted, r));
        }
        r
    }

    /// A set of one brick.
    pub fn single(brick: Brick<D>) -> (r: Result<BrickSet<D>>)
        requires
            brick.inv(),
        ensures
            exists|sorted: Seq<Brick<D>>| #[trigger] same_bricks(seq![brick], sorted) && assembly(sorted, r),
            r matches Ok(set) ==> set.inv() && same_bricks(seq![brick], set.members()),
            brick.intact() ==> (r matches Ok(set) ==> set.intact()),
    {
        let mut bricks: Vec<Brick<D>> = Vec::new();
        bricks.push(brick);
        assert(bricks@ =~= seq![brick]);
        Self::assemble(bricks)
    }

    pub fn from_bricks(bricks: Vec<Brick<D>>) -> (r: Result<BrickSet<D>>)
        requires
            forall|i: int| 0 <= i < bricks@.len() ==> (#[trigger] bricks@[i]).inv(),
        ensures
            exists|sorted: Seq<Brick<D>>| #[trigger] same_bricks(bricks@, sorted) && assembly(sorted, r),
            r matches Ok(set) ==> set.inv() && same_bricks(bricks@, set.members()),
            r matches Ok(set) ==> ((forall|i: int| 0 <= i < bricks@.len() ==> (#[trigger] bricks@[i]).intact()) ==> set.intact()),
    {
        Self::assemble(bricks)
    }

    /// Put bricks together: one pool, one block size, each brick once, one
    /// WAL holder on tier 0, and exactly the bricks its anchor rosters.
    pub fn assemble(bricks: Vec<Brick<D>>) -> (r: Result<BrickSet<D>>)
        requires
            forall|i: int| 0 <= i < bricks@.len() ==> (#[trigger] bricks@[i]).inv(),
        ensures
            exists|sorted: Seq<Brick<D>>| #[trigger] same_bricks(bricks@, sorted) && assembly(sorted, r),
            r matches Ok(set) ==> set.inv() && same_bricks(bricks@, set.members()),
            r matches Ok(set) ==> ((forall|i: int| 0 <= i < bricks@.len() ==> (#[trigger] bricks@[i]).intact()) ==> set.intact()),
    {
        let ghost input = bricks@;
        let sorted = sort_bricks(bricks);
        let n: usize = sorted.len();
        proof {
            assert forall|i: int| 0 <= i < sorted@.len() implies (#[trigger] sorted@[i]).inv() by {
                assert(input.contains(sorted@[i]));
            }
        }
        if n == 0 {
            assert(same_bricks(input, sorted@));
            return Err(FsError::BrickSetMismatch("a set of no bricks"));
        }
        let pool = sorted[0].pool_uuid();
        let block_size: u32 = sorted[0].block_size();
        let mut pools = true;
        let mut sizes = true;
        let mut twice = false;
        let mut holders: usize = 0;
        let mut holder: usize = 0;

        let mut i: usize = 0;
        while i < n
            invariant
                i <= n == sorted@.len(),
                pool == sorted@[0].superblock().pool_uuid,
                block_size == sorted@[0].superblock().block_size,
                pools <==> forall|k: int| 0 <= k < i ==> (#[trigger] sorted@[k]).superblock().pool_uuid == pool,
                sizes <==> forall|k: int| 0 <= k < i ==> (#[trigger] sorted@[k]).superblock().block_size == block_size,
                twice <==> exists|a: int, b: int| 0 <= a < b < i && (#[trigger] sorted@[a]).superblock().brick_uuid == (#[trigger] sorted@[b]).superblock().brick_uuid,
                holders <= i,
                holders == 0 <==> forall|k: int| 0 <= k < i ==> !(#[trigger] sorted@[k]).superblock().wal_holder,
                holders >= 2 <==> exists|a: int, b: int| 0 <= a < b < i && (#[trigger] sorted@[a]).superblock().wal_holder && (#[trigger] sorted@[b]).superblock().wal_holder,
                holders >= 1 ==> holder < i && sorted@[holder as int].superblock().wal_holder,
            decreases n - i,
        {
            if !same16(&sorted[i].pool_uuid(), &pool) {
                pools = false;
            }
            if sorted[i].block_size() != block_size {
                sizes = false;
            }
            let uuid = sorted[i].roster_entry().brick_uuid;
            let mut k: usize = 0;
            let mut seen = false;
            while k < i
                invariant
                    k <= i < sorted@.len(),
                    uuid == sorted@[i as int].superblock().brick_uuid,
                    seen <==> exists|a: int| 0 <= a < k && (#[trigger] sorted@[a]).superblock().brick_uuid == uuid,
                decreases i - k,
            {
                if same16(&sorted[k].roster_entry().brick_uuid, &uuid) {
                    seen = true;
                }
                k += 1;
            }
            proof {
                if twice || seen {
                    if seen {
                        let a = choose|a: int| 0 <= a < i && (#[trigger] sorted@[a]).superblock().brick_uuid == uuid;
                        assert(sorted@[a].superblock().brick_uuid == sorted@[i as int].superblock().brick_uuid);
                    }
                }
            }
            if seen {
                twice = true;
            }
            if sorted[i].wal_holder() {
                proof {
                    if holders >= 1 {
                        assert(sorted@[holder as int].superblock().wal_holder && sorted@[i as int].superblock().wal_holder);
                    }
                }
                holders += 1;
                holder = i;
            }
            i += 1;
        }
        assert(same_bricks(input, sorted@));
        if !pools {
            return Err(FsError::BrickSetMismatch("bricks of different pools presented as one set"));
        }
        if !sizes {
            return Err(FsError::BrickSetMismatch("bricks of different block sizes presented as one set"));
        }
        if twice {
            return Err(FsError::BrickSetMismatch("the same brick presented twice"));
        }
        if holders == 0 {
            return Err(FsError::BrickSetMismatch("no brick holds the WAL — the node's ring has nowhere to live"));
        }
        if holders >= 2 {
            return Err(FsError::BrickSetMismatch("two bricks claim the WAL — two rings would be two histories"));
        }
        if sorted[holder].tier() != 0 {
            return Err(FsError::BrickSetMismatch("the WAL holder must be a tier-0 brick"));
        }
        proof {
            assert forall|k: int| 0 <= k < sorted@.len() && (#[trigger] sorted@[k]).superblock().wal_holder implies k == holder by {
                if k < holder {
                    assert(sorted@[k].superblock().wal_holder && sorted@[holder as int].superblock().wal_holder);
                } else if holder < k {
                    assert(sorted@[holder as int].superblock().wal_holder && sorted@[k].superblock().wal_holder);
                }
            }
            assert(set_fault(sorted@) is None);
        }
        let anchor = match sorted[holder].read_best_anchor() {
            Ok(Some(anchor)) => anchor,
            Ok(None) => {
                return Err(FsError::Corrupt("a formatted holder with no valid anchor"));
            },
            Err(e) => {
                return Err(e);
            },
        };
        let mut matching = anchor.roster.len() == n;
        let mut i: usize = 0;
        while i < n
            invariant
                i <= n == sorted@.len(),
                matching <==> anchor.roster@.len() == n && forall|k: int| 0 <= k < i ==> anchor.roster@.contains(entry_of_brick(#[trigger] sorted@[k])),
            decreases n - i,
        {
            let entry = sorted[i].roster_entry();
            if !rosters(&anchor.roster, &entry) {
                matching = false;
            }
            i += 1;
        }
        if !matching {
            return Err(
                FsError::BrickSetMismatch(
                    "the anchor rosters a different set than the bricks presented",
                ),
            );
        }
        let ghost in_order = sorted@;
        let dirty = vec![true; sorted.len()];
        let set = BrickSet { bricks: sorted, holder, dirty };
        proof {
            assert(set.members() == in_order);
            let h = choose|i: int| 0 <= i < in_order.len() && (#[trigger] in_order[i]).superblock().wal_holder;
            assert(in_order[holder as int].superblock().wal_holder);
            assert(h == holder);
            assert(best_anchor(in_order[h].aux(), Some(anchor)));
            assert(roster_matches(anchor.roster@, in_order));
            assert(assembly(in_order, Ok::<BrickSet<D>, FsError>(set)));
            assert(same_bricks(input, in_order));
            assert forall|i: int| 0 <= i < set.members().len() implies input.contains(#[trigger] set.members()[i]) by {}
        }
        Ok(set)
    }
}

/// What assembling sorted bricks comes to.
pub open spec fn assembly<D: Disk>(sorted: Seq<Brick<D>>, r: Result<BrickSet<D>>) -> bool {
    match set_fault(sorted) {
        Some(e) => r == Err::<BrickSet<D>, FsError>(e),
        None => {
            let holder = choose|i: int| 0 <= i < sorted.len() && (#[trigger] sorted[i]).superblock().wal_holder;
            match r {
                Ok(set) => set.members() == sorted && exists|a: Anchor| #[trigger]
                    best_anchor(sorted[holder].aux(), Some(a)) && roster_matches(a.roster@, sorted),
                Err(e) => sorted[holder].reliable() ==> (best_anchor(sorted[holder].aux(), None) && e == FsError::Corrupt(
                    "a formatted holder with no valid anchor",
                )) || (e == FsError::BrickSetMismatch(
                    "the anchor rosters a different set than the bricks presented",
                ) && exists|a: Anchor| #[trigger]
                    best_anchor(sorted[holder].aux(), Some(a)) && !roster_matches(a.roster@, sorted)),
            }
        },
    }
}

/// Each brick is what an open of its disk finds.
pub open spec fn opened<D: Disk>(disks: Seq<D>, bricks: Seq<Brick<D>>) -> bool {
    &&& disks.len() == bricks.len()
    &&& forall|i: int|
        0 <= i < bricks.len() ==> {
            &&& (#[trigger] bricks[i]).disk_bytes() == disks[i].bytes()
            &&& crate::brick::best_superblock(disks[i].bytes(), bricks[i].superblock())
            &&& forall|h: BlockHash| #[trigger] bricks[i].held().contains(h) <==> crate::brick::record_present(disks[i].bytes(), bricks[i].superblock(), h)
        }
}

/// A disk with room for its superblocks that fails on nothing but a range
/// out of bounds.
pub open spec fn mountable<D: Disk>(disk: D) -> bool {
    disk.faultless() && disk.bytes().len() >= 2 * crate::format::SECTOR_SIZE
}

/// An open of this disk fails with this error.
pub open spec fn disk_refused<D: Disk>(disk: D, e: FsError) -> bool {
    crate::brick::open_verdict(disk.bytes(), Err::<Brick<D>, FsError>(e))
}

/// The bricks the disks hold were put together, or were not one set.
pub open spec fn assembled_from<D: Disk>(disks: Seq<D>, bricks: Seq<Brick<D>>, sorted: Seq<Brick<D>>, r: Result<BrickSet<D>>) -> bool {
    opened(disks, bricks) && same_bricks(bricks, sorted) && assembly(sorted, r)
}

/// What opening disks as a set comes to: an error only from a disk that
/// cannot be opened, or from bricks that are not one set.
pub open spec fn set_opened<D: Disk>(disks: Seq<D>, r: Result<BrickSet<D>>) -> bool {
    ||| r is Err && exists|i: int| 0 <= i < disks.len() && #[trigger] disk_refused(disks[i], r->Err_0)
    ||| exists|bricks: Seq<Brick<D>>, sorted: Seq<Brick<D>>| #[trigger] assembled_from(disks, bricks, sorted, r)
}

fn rosters(roster: &Vec<RosterEntry>, entry: &RosterEntry) -> (r: bool)
    ensures
        r == roster@.contains(*entry),
{
    let mut i: usize = 0;
    while i < roster.len()
        invariant
            i <= roster@.len(),
            forall|k: int| 0 <= k < i ==> #[trigger] roster@[k] != *entry,
        decreases roster@.len() - i,
    {
        if same16(&roster[i].brick_uuid, &entry.brick_uuid) && roster[i].tier == entry.tier {
            assert(roster@[i as int] == *entry);
            return true;
        }
        i += 1;
    }
    false
}

/// Whether the first uuid sorts after the second.
fn uuid_after(a: &[u8; 16], b: &[u8; 16]) -> (r: bool)
    ensures
        r == crate::codec::lex_before(b@, a@),
{
    let mut i: usize = 0;
    while i < 16
        invariant
            i <= 16,
            forall|k: int| 0 <= k < i ==> a@[k] == b@[k],
        decreases 16 - i,
    {
        if a[i] != b[i] {
            proof {
                crate::codec::lemma_lex_decided(b@, a@, i as int);
            }
            return b[i] < a[i];
        }
        i += 1;
    }
    proof {
        assert(a@ =~= b@);
        crate::codec::lemma_lex_irreflexive(a@);
    }
    false
}

proof fn lemma_lex_chain(a: Seq<u8>, b: Seq<u8>, c: Seq<u8>)
    requires
        a.len() == b.len() == c.len(),
        !crate::codec::lex_before(b, a),
        !crate::codec::lex_before(c, b),
    ensures
        !crate::codec::lex_before(c, a),
{
    if crate::codec::lex_before(c, a) {
        let i = choose|i: int|
            0 <= i < c.len() && i < a.len() && #[trigger] c[i] < a[i] && forall|k: int| 0 <= k < i ==> c[k] == a[k];
        lemma_lex_agrees(a, b, c, i, 0);
        if b[i] < a[i] {
            assert(crate::codec::lex_before(b, a));
        } else {
            assert(c[i] < b[i]);
            assert(crate::codec::lex_before(c, b));
        }
    }
}

proof fn lemma_lex_agrees(a: Seq<u8>, b: Seq<u8>, c: Seq<u8>, i: int, from: int)
    requires
        a.len() == b.len() == c.len(),
        0 <= from <= i < a.len(),
        !crate::codec::lex_before(b, a),
        !crate::codec::lex_before(c, b),
        forall|k: int| 0 <= k < i ==> c[k] == a[k],
        forall|k: int| 0 <= k < from ==> b[k] == a[k],
    ensures
        forall|k: int| 0 <= k < i ==> b[k] == a[k],
    decreases i - from,
{
    if from < i {
        if b[from] < a[from] {
            assert(crate::codec::lex_before(b, a));
        } else if c[from] < b[from] {
            assert forall|k: int| 0 <= k < from implies c[k] == b[k] by {
                assert(c[k] == a[k] && b[k] == a[k]);
            }
            assert(crate::codec::lex_before(c, b));
        }
        assert(c[from] == a[from]);
        lemma_lex_agrees(a, b, c, i, from + 1);
    }
}

/// Sort bricks by tier, then uuid.
fn sort_bricks<D: Disk>(bricks: Vec<Brick<D>>) -> (sorted: Vec<Brick<D>>)
    ensures
        same_bricks(bricks@, sorted@),
        forall|i: int, j: int|
            0 <= i < j < sorted@.len() ==> brick_before(
                (#[trigger] sorted@[i]).superblock(),
                (#[trigger] sorted@[j]).superblock(),
            ),
{
    let ghost all = bricks@;
    let mut rest = bricks;
    let mut sorted: Vec<Brick<D>> = Vec::new();
    while rest.len() > 0
        invariant
            sorted@.len() + rest@.len() == all.len(),
            rest@ == all.subrange(sorted@.len() as int, all.len() as int),
            forall|i: int| 0 <= i < sorted@.len() ==> sorted@.contains(#[trigger] all[i]),
            forall|i: int| 0 <= i < sorted@.len() ==> all.contains(#[trigger] sorted@[i]),
            forall|i: int, j: int|
                0 <= i < j < sorted@.len() ==> brick_before(
                    (#[trigger] sorted@[i]).superblock(),
                    (#[trigger] sorted@[j]).superblock(),
                ),
        decreases rest@.len(),
    {
        let ghost n = sorted@.len() as int;
        assert(rest@[0] == all[n]);
        let brick = rest.remove(0);
        let ghost new = brick;
        let tier: u8 = brick.tier();
        let uuid = brick.roster_entry().brick_uuid;
        let mut at: usize = sorted.len();
        let mut moving = true;
        while at > 0 && moving
            invariant
                at <= sorted@.len() == n,
                tier == new.superblock().tier,
                uuid == new.superblock().brick_uuid,
                forall|i: int, j: int|
                    0 <= i < j < sorted@.len() ==> brick_before(
                        (#[trigger] sorted@[i]).superblock(),
                        (#[trigger] sorted@[j]).superblock(),
                    ),
                forall|k: int| at <= k < sorted@.len() ==> brick_before(new.superblock(), (#[trigger] sorted@[k]).superblock()),
                !moving ==> at > 0 && brick_before(sorted@[at - 1].superblock(), new.superblock()),
            decreases at, (if moving { 1int } else { 0int }),
        {
            let t: u8 = sorted[at - 1].tier();
            let u = sorted[at - 1].roster_entry().brick_uuid;
            if t > tier || (t == tier && uuid_after(&u, &uuid)) {
                proof {
                    if t == tier {
                        let i = choose|i: int|
                            0 <= i < uuid@.len() && i < u@.len() && #[trigger] uuid@[i] < u@[i] && forall|k: int| 0 <= k < i ==> uuid@[k] == u@[k];
                        assert(u@[i] != uuid@[i]);
                        assert forall|k: int| 0 <= k < i implies u@[k] == uuid@[k] by {
                            assert(uuid@[k] == u@[k]);
                        }
                        crate::codec::lemma_lex_decided(u@, uuid@, i);
                    }
                }
                at -= 1;
            } else {
                moving = false;
            }
        }
        let ghost before = sorted@;
        sorted.insert(at, brick);
        proof {
            assert(rest@ =~= all.subrange(n + 1, all.len() as int));
            assert(sorted@[at as int] == new);
            assert forall|i: int| 0 <= i < sorted@.len() implies sorted@.contains(#[trigger] all[i]) by {
                if i < n {
                    let k = choose|k: int| 0 <= k < before.len() && before[k] == all[i];
                    let x = if k < at { k } else { k + 1 };
                    assert(sorted@[x] == all[i]);
                } else {
                    assert(sorted@[at as int] == all[i]);
                }
            }
            assert forall|i: int| 0 <= i < sorted@.len() implies all.contains(#[trigger] sorted@[i]) by {
                if i < at {
                    assert(sorted@[i] == before[i]);
                } else if i > at {
                    assert(sorted@[i] == before[i - 1]);
                } else {
                    assert(all[n] == sorted@[i]);
                }
            }
            assert forall|i: int, j: int|
                0 <= i < j < sorted@.len() implies brick_before(
                    (#[trigger] sorted@[i]).superblock(),
                    (#[trigger] sorted@[j]).superblock(),
                ) by {
                let a = if i < at { i } else { i - 1 };
                let b = if j < at { j } else { j - 1 };
                if i != at && j != at {
                    assert(sorted@[i] == before[a] && sorted@[j] == before[b]);
                } else if i == at {
                    assert(sorted@[j] == before[j - 1]);
                } else {
                    assert(sorted@[i] == before[i]);
                    assert(brick_before(before[at - 1].superblock(), new.superblock()));
                    if i < at - 1 {
                        assert(brick_before(before[i].superblock(), before[at - 1].superblock()));
                        let (x, y, z) = (before[i].superblock(), before[at - 1].superblock(), new.superblock());
                        if x.tier == y.tier && y.tier == z.tier {
                            lemma_lex_chain(x.brick_uuid@, y.brick_uuid@, z.brick_uuid@);
                        }
                    }
                }
            }
        }
    }
    proof {
        assert(sorted@.len() == all.len());
    }
    sorted
}

} // verus!
