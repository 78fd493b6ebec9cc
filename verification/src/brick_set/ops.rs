//! Storing into a brick set, reading from it, and keeping it in shape.

use super::{
    brick_before, chosen, lemma_route, lemma_route_same, one_changed, roomed, roomy, route, route_from, serves, set_fault, tier_blocks, tier_claims, tier_held, BrickSet,
};
use crate::brick::write::payload_fault;
use crate::brick::Brick;
use crate::disk::Disk;
use crate::error::{FsError, Result};
use crate::hash::{address_of, hash_block, BlockHash};
use vstd::prelude::*;

verus! {

/// Two bricks hold the same, and their shape is the same.
pub open spec fn alike<D: Disk>(a: Brick<D>, b: Brick<D>) -> bool {
    &&& b.same_shape(&a)
    &&& b.held() == a.held()
    &&& b.blocks() == a.blocks()
    &&& b.claims() == a.claims()
}

/// Two bricks hold the same, whatever else may differ.
pub open spec fn holds_same<D: Disk>(a: Brick<D>, b: Brick<D>) -> bool {
    &&& b.superblock() == a.superblock()
    &&& b.held() == a.held()
    &&& b.blocks() == a.blocks()
    &&& b.claims() == a.claims()
}

pub proof fn lemma_alike<D: Disk>(a: Seq<Brick<D>>, b: Seq<Brick<D>>)
    requires
        a.len() == b.len(),
        forall|i: int| 0 <= i < a.len() ==> alike(a[i], #[trigger] b[i]),
    ensures
        forall|t: u8| #[trigger] tier_held(b, t) == tier_held(a, t),
        forall|t: u8| #[trigger] tier_blocks(b, t) == tier_blocks(a, t),
        forall|t: u8| #[trigger] tier_claims(b, t) == tier_claims(a, t),
{
    assert forall|i: int| 0 <= i < a.len() implies holds_same(a[i], #[trigger] b[i]) by {
        assert(alike(a[i], b[i]));
    }
    lemma_holds_same(a, b);
}

/// Bricks that hold the same make tiers that hold the same.
pub proof fn lemma_holds_same<D: Disk>(a: Seq<Brick<D>>, b: Seq<Brick<D>>)
    requires
        a.len() == b.len(),
        forall|i: int| 0 <= i < a.len() ==> holds_same(a[i], #[trigger] b[i]),
    ensures
        forall|t: u8| #[trigger] tier_held(b, t) == tier_held(a, t),
        forall|t: u8| #[trigger] tier_blocks(b, t) == tier_blocks(a, t),
        forall|t: u8| #[trigger] tier_claims(b, t) == tier_claims(a, t),
{
    assert forall|t: u8, h: BlockHash| #[trigger] route(b, t, h) == route(a, t, h) && (route(a, t, h) matches Some(i) ==> 0 <= i < a.len()) by {
        assert forall|j: int| 0 <= j < b.len() implies serves(#[trigger] b[j], t, h) == serves(a[j], t, h) by {
            assert(holds_same(a[j], b[j]));
        }
        lemma_route_same(b, a, t, h, 0);
        lemma_route(a, t, h, 0);
    }
    assert forall|t: u8| #[trigger] tier_held(b, t) == tier_held(a, t) by {
        assert forall|h: BlockHash| tier_held(b, t).contains(h) == tier_held(a, t).contains(h) by {
            assert(route(b, t, h) == route(a, t, h));
        }
        assert(tier_held(b, t) =~= tier_held(a, t));
    }
    assert forall|t: u8| #[trigger] tier_blocks(b, t) == tier_blocks(a, t) by {
        assert forall|h: BlockHash| tier_blocks(b, t).contains_key(h) == tier_blocks(a, t).contains_key(h) && (tier_blocks(a, t).contains_key(h) ==> tier_blocks(b, t)[h] == tier_blocks(a, t)[h]) by {
            assert(route(b, t, h) == route(a, t, h));
            if let Some(i) = route(a, t, h) {
                assert(holds_same(a[i], b[i]));
            }
        }
        assert(tier_blocks(b, t) =~= tier_blocks(a, t));
    }
    assert forall|t: u8| #[trigger] tier_claims(b, t) == tier_claims(a, t) by {
        assert forall|c: (BlockHash, Seq<u8>)| tier_claims(b, t).contains(c) == tier_claims(a, t).contains(c) by {
            assert(route(b, t, c.0) == route(a, t, c.0));
            if let Some(i) = route(a, t, c.0) {
                assert(holds_same(a[i], b[i]));
            }
        }
        assert(tier_claims(b, t) =~= tier_claims(a, t));
    }
}

/// What one brick taking a promise does to its tier: the address joins what
/// the tier knows, served by that brick.
proof fn lemma_stored<D: Disk>(a: Seq<Brick<D>>, b: Seq<Brick<D>>, at: int, h: BlockHash, p: Seq<u8>)
    requires
        a.len() == b.len(),
        0 <= at < a.len(),
        forall|i: int| 0 <= i < a.len() && i != at ==> alike(a[i], #[trigger] b[i]),
        b[at].same_shape(&a[at]),
        b[at].held() == a[at].held().insert(h),
        b[at].claims() == a[at].claims().insert((h, p)),
        forall|k: BlockHash| k != h ==> (#[trigger] b[at].blocks().contains_key(k) == a[at].blocks().contains_key(k)),
        forall|k: BlockHash| k != h && #[trigger] b[at].blocks().contains_key(k) ==> b[at].blocks()[k] == a[at].blocks()[k],
        route(a, a[at].superblock().tier, h) is None || route(a, a[at].superblock().tier, h) == Some(at),
        forall|q: Seq<u8>| route(a, a[at].superblock().tier, h) is None ==> !#[trigger] a[at].claims().contains((h, q)),
    ensures
        ({
            let t = a[at].superblock().tier;
            &&& tier_held(b, t) == tier_held(a, t).insert(h)
            &&& tier_claims(b, t) == tier_claims(a, t).insert((h, p))
            &&& forall|k: BlockHash| k != h ==> (#[trigger] tier_blocks(b, t).contains_key(k) == tier_blocks(a, t).contains_key(k))
            &&& forall|k: BlockHash| k != h && #[trigger] tier_blocks(b, t).contains_key(k) ==> tier_blocks(b, t)[k] == tier_blocks(a, t)[k]
            &&& tier_blocks(b, t).contains_key(h) == b[at].blocks().contains_key(h)
            &&& tier_blocks(b, t).contains_key(h) ==> tier_blocks(b, t)[h] == b[at].blocks()[h]
            &&& forall|o: u8| o != t ==> #[trigger] tier_held(b, o) == tier_held(a, o)
            &&& forall|o: u8| o != t ==> #[trigger] tier_blocks(b, o) == tier_blocks(a, o)
            &&& forall|o: u8| o != t ==> #[trigger] tier_claims(b, o) == tier_claims(a, o)
        }),
{
    let t = a[at].superblock().tier;
    assert forall|o: u8, k: BlockHash| (o != t || k != h) implies #[trigger] route(b, o, k) == route(a, o, k) && (route(a, o, k) matches Some(i) ==> 0 <= i < a.len() && a[i].superblock().tier == o) by {
        assert forall|j: int| 0 <= j < b.len() implies serves(#[trigger] b[j], o, k) == serves(a[j], o, k) by {
            if j != at {
                assert(alike(a[j], b[j]));
            }
        }
        lemma_route_same(b, a, o, k, 0);
        lemma_route(a, o, k, 0);
    }
    assert(route(b, t, h) == Some(at)) by {
        lemma_route(a, t, h, 0);
        lemma_route(b, t, h, 0);
        assert(serves(b[at], t, h));
        let j = route(b, t, h)->Some_0;
        if route(a, t, h) is None {
            if j != at {
                assert(alike(a[j], b[j]));
                assert(serves(a[j], t, h));
            }
        } else {
            assert forall|x: int| 0 <= x < b.len() implies serves(#[trigger] b[x], t, h) == serves(a[x], t, h) by {
                if x != at {
                    assert(alike(a[x], b[x]));
                }
            }
            lemma_route_same(b, a, t, h, 0);
        }
    }
    assert forall|k: BlockHash| tier_held(b, t).contains(k) == tier_held(a, t).insert(h).contains(k) by {
        if k != h {
            assert(route(b, t, k) == route(a, t, k));
        }
    }
    assert(tier_held(b, t) =~= tier_held(a, t).insert(h));
    assert forall|c: (BlockHash, Seq<u8>)| tier_claims(b, t).contains(c) == tier_claims(a, t).insert((h, p)).contains(c) by {
        if c.0 != h {
            assert(route(b, t, c.0) == route(a, t, c.0));
            if let Some(i) = route(a, t, c.0) {
                if i != at {
                    assert(alike(a[i], b[i]));
                }
            }
        } else {
            assert(c == (h, c.1));
        }
    }
    assert(tier_claims(b, t) =~= tier_claims(a, t).insert((h, p)));
    assert forall|k: BlockHash| k != h implies (#[trigger] tier_blocks(b, t).contains_key(k) == tier_blocks(a, t).contains_key(k)) && (tier_blocks(b, t).contains_key(k) ==> tier_blocks(b, t)[k] == tier_blocks(a, t)[k]) by {
        assert(route(b, t, k) == route(a, t, k));
        if let Some(i) = route(a, t, k) {
            if i != at {
                assert(alike(a[i], b[i]));
            }
        }
    }
    assert forall|o: u8| o != t implies #[trigger] tier_held(b, o) == tier_held(a, o) by {
        assert forall|k: BlockHash| tier_held(b, o).contains(k) == tier_held(a, o).contains(k) by {
            assert(route(b, o, k) == route(a, o, k));
        }
        assert(tier_held(b, o) =~= tier_held(a, o));
    }
    assert forall|o: u8| o != t implies #[trigger] tier_blocks(b, o) == tier_blocks(a, o) by {
        assert forall|k: BlockHash| tier_blocks(b, o).contains_key(k) == tier_blocks(a, o).contains_key(k) && (tier_blocks(a, o).contains_key(k) ==> tier_blocks(b, o)[k] == tier_blocks(a, o)[k]) by {
            assert(route(b, o, k) == route(a, o, k));
            if let Some(i) = route(a, o, k) {
                assert(i != at);
                assert(alike(a[i], b[i]));
            }
        }
        assert(tier_blocks(b, o) =~= tier_blocks(a, o));
    }
    assert forall|o: u8| o != t implies #[trigger] tier_claims(b, o) == tier_claims(a, o) by {
        assert forall|c: (BlockHash, Seq<u8>)| tier_claims(b, o).contains(c) == tier_claims(a, o).contains(c) by {
            assert(route(b, o, c.0) == route(a, o, c.0));
            if let Some(i) = route(a, o, c.0) {
                assert(i != at);
                assert(alike(a[i], b[i]));
            }
        }
        assert(tier_claims(b, o) =~= tier_claims(a, o));
    }
}

/// The tier has a brick.
pub open spec fn tier_exists<D: Disk>(bricks: Seq<Brick<D>>, tier: u8) -> bool {
    exists|i: int| 0 <= i < bricks.len() && (#[trigger] bricks[i]).superblock().tier == tier
}

/// Some brick of the tier has room for a new block.
pub open spec fn tier_room<D: Disk>(bricks: Seq<Brick<D>>, tier: u8, len: nat) -> bool {
    exists|i: int| 0 <= i < bricks.len() && roomy(#[trigger] bricks[i], tier, len)
}

/// A block of `len` bytes was stored on the `i`-th brick; the others, of
/// which some may have refused it, lost no room over it.
pub open spec fn landed_on<D: Disk>(a: Seq<Brick<D>>, b: Seq<Brick<D>>, len: nat, i: int) -> bool {
    &&& 0 <= i < a.len()
    &&& b[i].took_record(&a[i], len)
    &&& forall|j: int| 0 <= j < a.len() && j != i ==> (#[trigger] b[j]).kept_room(&a[j], len)
}

/// No brick was written to, and each has the room it had.
pub open spec fn idle_bricks<D: Disk>(a: Seq<Brick<D>>, b: Seq<Brick<D>>) -> bool {
    forall|i: int| 0 <= i < a.len() ==> (#[trigger] b[i]).same_room(&a[i]) && b[i].same_disk(&a[i])
}

/// Positions of a tier's bricks, most free segments first, the first among
/// equals first.
spec fn by_room<D: Disk>(bricks: Seq<Brick<D>>, tier: u8, order: Seq<usize>) -> bool {
    &&& forall|k: int| 0 <= k < order.len() ==> (#[trigger] order[k]) < bricks.len() && bricks[order[k] as int].superblock().tier == tier
    &&& forall|i: int| 0 <= i < bricks.len() && (#[trigger] bricks[i]).superblock().tier == tier ==> order.contains(i as usize)
    &&& forall|a: int, b: int| 0 <= a < b < order.len() ==> {
        let x = #[trigger] order[a];
        let y = #[trigger] order[b];
        bricks[x as int].free_list().len() > bricks[y as int].free_list().len() || (bricks[x as int].free_list().len()
            == bricks[y as int].free_list().len() && x < y)
    }
}

impl<D: Disk> BrickSet<D> {
    /// What a successful put leaves.
    pub open spec fn stored(&self, before: &Self, tier: u8, h: BlockHash, p: Seq<u8>) -> bool {
        &&& tier_held(self.members(), tier) == tier_held(before.members(), tier).insert(h)
        &&& tier_claims(self.members(), tier) == tier_claims(before.members(), tier).insert((h, p))
        &&& tier_blocks(self.members(), tier) == if tier_held(before.members(), tier).contains(h) {
            tier_blocks(before.members(), tier)
        } else {
            tier_blocks(before.members(), tier).insert(h, p)
        }
    }

    /// Other tiers are as they were.
    pub open spec fn others_alone(&self, before: &Self, tier: u8) -> bool {
        &&& forall|t: u8| t != tier ==> #[trigger] tier_held(self.members(), t) == tier_held(before.members(), t)
        &&& forall|t: u8| t != tier ==> #[trigger] tier_blocks(self.members(), t) == tier_blocks(before.members(), t)
        &&& forall|t: u8| t != tier ==> #[trigger] tier_claims(self.members(), t) == tier_claims(before.members(), t)
    }

    /// The set's bricks after one of them changed and the rest did not.
    pub(super) proof fn lemma_reset(&self, before: &Self)
        requires
            before.inv(),
            self.holder == before.holder,
            self.marked(),
            one_changed(before.bricks@, self.bricks@),
        ensures
            self.inv(),
            self.same_set(before),
            self.reliable() == before.reliable(),
    {
        let a = before.bricks@;
        let b = self.bricks@;
        assert forall|i: int| 0 <= i < b.len() implies (#[trigger] b[i]).inv() && b[i].superblock() == a[i].superblock() && b[i].reliable() == a[i].reliable() by {
            assert(b[i].same_shape(&a[i]));
        }
        assert forall|i: int, j: int| 0 <= i < j < b.len() implies brick_before((#[trigger] b[i]).superblock(), (#[trigger] b[j]).superblock()) && b[i].superblock().brick_uuid != b[j].superblock().brick_uuid && !(b[i].superblock().wal_holder && b[j].superblock().wal_holder) by {
            assert(brick_before(a[i].superblock(), a[j].superblock()));
        }
        assert(b[self.holder as int].superblock().wal_holder);
        assert forall|i: int| 0 <= i < b.len() implies !((#[trigger] b[i]).superblock().pool_uuid != b[0].superblock().pool_uuid) && !(b[i].superblock().block_size != b[0].superblock().block_size) && !(b[i].superblock().wal_holder && b[i].superblock().tier != 0) by {
            assert(a[i].superblock() == b[i].superblock());
        }
        assert(set_fault(b) is None);
        if before.reliable() {
            assert forall|i: int| 0 <= i < self.members().len() implies (#[trigger] self.members()[i]).reliable() by {
                assert(before.members()[i].reliable());
            }
        }
        if self.reliable() {
            assert forall|i: int| 0 <= i < before.members().len() implies (#[trigger] before.members()[i]).reliable() by {
                assert(self.members()[i].reliable());
            }
        }
    }

    pub(super) fn route_of(&self, tier: u8, hash: &BlockHash) -> (r: Option<usize>)
        requires
            self.inv(),
        ensures
            r is Some == route(self.members(), tier, *hash) is Some,
            r matches Some(i) ==> route(self.members(), tier, *hash) == Some(i as int) && i < self.members().len(),
    {
        let mut i: usize = 0;
        while i < self.bricks.len()
            invariant
                self.inv(),
                i <= self.bricks@.len(),
                route(self.bricks@, tier, *hash) == route_from(self.bricks@, tier, *hash, i as nat),
            decreases self.bricks@.len() - i,
        {
            if self.bricks[i].tier() == tier && self.bricks[i].contains(hash) {
                return Some(i);
            }
            i += 1;
        }
        None
    }

    /// Store a payload on a tier, under its content address.
    pub fn put(&mut self, tier: u8, payload: &[u8]) -> (r: Result<BlockHash>)
        requires
            old(self).inv(),
        ensures
            final(self).same_set(old(self)),
            final(self).reliable() == old(self).reliable(),
            final(self).others_alone(old(self), tier),
            roomed(old(self).members(), final(self).members()),
            old(self).intact() ==> final(self).intact(),
            r is Err ==> final(self).same_stock(old(self)),
            r is Err ==> forall|i: int| 0 <= i < old(self).members().len() ==> (#[trigger] final(self).members()[i]).kept_room(&old(self).members()[i], payload@.len()),
            r == Err::<BlockHash, FsError>(FsError::Full) ==> !tier_room(final(self).members(), tier, payload@.len()),
            r is Ok && tier_held(old(self).members(), tier).contains(address_of(payload@)) ==> idle_bricks(old(self).members(), final(self).members()),
            r is Ok && !tier_held(old(self).members(), tier).contains(address_of(payload@)) ==> exists|i: int| #[trigger]
                landed_on(old(self).members(), final(self).members(), payload@.len(), i) && final(self).members()[i].held().contains(address_of(payload@)) && (
                old(self).reliable() ==> chosen(old(self).members(), tier, payload@.len(), i)),
            r matches Ok(h) ==> h == address_of(payload@) && final(self).stored(old(self), tier, h, payload@),
            put_verdict(old(self).members(), old(self).unit_size(), old(self).reliable(), tier, address_of(payload@), payload@.len(), match r { Ok(_) => Ok::<(), FsError>(()), Err(e) => Err(e) }),
    {
        let hash = hash_block(payload);
        match self.put_prehashed(tier, hash, payload) {
            Ok(()) => Ok(hash),
            Err(e) => Err(e),
        }
    }

    /// Store a payload under an address the caller has already computed.
    #[verifier::rlimit(40)]
    pub fn put_prehashed(&mut self, tier: u8, hash: BlockHash, payload: &[u8]) -> (r: Result<()>)
        requires
            old(self).inv(),
        ensures
            final(self).same_set(old(self)),
            final(self).reliable() == old(self).reliable(),
            final(self).others_alone(old(self), tier),
            roomed(old(self).members(), final(self).members()),
            old(self).intact() && hash == address_of(payload@) ==> final(self).intact(),
            r is Err ==> final(self).same_stock(old(self)),
            r is Err ==> forall|i: int| 0 <= i < old(self).members().len() ==> (#[trigger] final(self).members()[i]).kept_room(&old(self).members()[i], payload@.len()),
            r == Err::<(), FsError>(FsError::Full) ==> !tier_room(final(self).members(), tier, payload@.len()),
            r is Ok && tier_held(old(self).members(), tier).contains(hash) ==> idle_bricks(old(self).members(), final(self).members()),
            r is Ok ==> tier_held(final(self).members(), tier) == tier_held(old(self).members(), tier).insert(hash),
            r is Ok && hash == address_of(payload@) ==> final(self).stored(old(self), tier, hash, payload@),
            put_verdict(old(self).members(), old(self).unit_size(), old(self).reliable(), tier, hash, payload@.len(), r),
            r is Ok && !tier_held(old(self).members(), tier).contains(hash) ==> exists|i: int| #[trigger]
                landed_on(old(self).members(), final(self).members(), payload@.len(), i) && final(self).members()[i].held().contains(hash) && (old(
                    self,
                ).reliable() ==> chosen(old(self).members(), tier, payload@.len(), i)),
    {
        let ghost a = self.bricks@;
        let ghost len = payload@.len();
        if payload.len() == 0 {
            proof {
                self.lemma_untouched_stock();
            }
            return Err(FsError::EmptyPayload);
        }
        proof {
            lemma_route(a, tier, hash, 0);
        }
        if let Some(at) = self.route_of(tier, &hash) {
            self.bricks[at].promise(hash, payload);
            proof {
                let b = self.bricks@;
                assert(b =~= a.update(at as int, b[at as int]));
                assert forall|i: int| 0 <= i < a.len() && i != at implies alike(a[i], #[trigger] b[i]) by {
                    assert(b[i] == a[i]);
                }
                assert(one_changed(a, b)) by {
                    assert forall|i: int| 0 <= i < a.len() implies (#[trigger] b[i]).same_shape(&a[i]) by {
                        if i != at {
                            assert(b[i] == a[i]);
                        }
                    }
                }
                assert forall|i: int| 0 <= i < a.len() implies (#[trigger] b[i]).kept_to_room(&a[i]) && b[i].same_room(&a[i]) && b[i].same_disk(&a[i]) by {
                    if i != at {
                        assert(b[i] == a[i]);
                    }
                }
                assert forall|i: int| 0 <= i < b.len() && !self.dirty@[i] implies (#[trigger] b[i]).durable() by {
                    assert(a[i].durable());
                }
                self.lemma_reset(old(self));
                assert(a[at as int].held().insert(hash) =~= a[at as int].held());
                lemma_stored(a, b, at as int, hash, payload@);
                assert(tier_held(a, tier).insert(hash) =~= tier_held(b, tier));
                assert(tier_blocks(b, tier) =~= tier_blocks(a, tier));
                if old(self).intact() {
                    assert forall|i: int| 0 <= i < self.members().len() implies (#[trigger] self.members()[i]).intact() by {
                        assert(old(self).members()[i].intact());
                    }
                }
            }
            return Ok(());
        }
        let order = self.order_by_room(tier);
        if order.len() == 0 {
            proof {
                if tier_exists(a, tier) {
                    let i = choose|i: int| 0 <= i < a.len() && (#[trigger] a[i]).superblock().tier == tier;
                    assert(order@.contains(i as usize));
                }
                self.lemma_untouched_stock();
            }
            return Err(FsError::NoSuchTier(tier));
        }
        proof {
            assert(a[order@[0] as int].superblock().tier == tier);
            assert(tier_exists(a, tier));
        }
        let mut k: usize = 0;
        while k < order.len()
            invariant
                k <= order@.len(),
                old(self).inv(),
                a == old(self).bricks@,
                len == payload@.len() > 0,
                by_room(a, tier, order@),
                order@.len() > 0,
                tier_exists(a, tier),
                self.holder == old(self).holder,
                self.bricks@.len() == a.len(),
                self.marked(),
                self.dirty@ == old(self).dirty@,
                forall|i: int| 0 <= i < a.len() ==> alike(a[i], #[trigger] self.bricks@[i]),
                roomed(a, self.bricks@),
                forall|i: int| 0 <= i < a.len() && a[i].intact() ==> (#[trigger] self.bricks@[i]).intact(),
                forall|x: int| k <= x < order@.len() ==> #[trigger] self.bricks@[order@[x] as int] == a[order@[x] as int],
                forall|x: int| 0 <= x < k ==> !roomy(a[#[trigger] order@[x] as int], tier, len) && !roomy(self.bricks@[order@[x] as int], tier, len),
                forall|i: int| 0 <= i < a.len() ==> (#[trigger] self.bricks@[i]).kept_room(&a[i], len),
                k > 0 ==> payload_fault(len, old(self).unit_size()) is None,
                !tier_held(a, tier).contains(hash),
                forall|i: int| 0 <= i < a.len() ==> !serves(#[trigger] a[i], tier, hash),
            decreases order@.len() - k,
        {
            let at: usize = order[k];
            let ghost mid = self.bricks@;
            proof {
                assert(self.bricks@[order@[k as int] as int] == a[at as int]);
                assert(a[at as int].inv());
                assert(!serves(a[at as int], tier, hash));
                old(self).lemma_set();
                assert(old(self).members()[at as int].superblock().block_size == old(self).unit_size());
            }
            let outcome = self.bricks[at].put_hashed(hash, payload);
            let refused: bool = matches!(outcome, Err(FsError::Full));
            if !refused {
                self.dirty.set(at, true);
            }
            let ghost b = self.bricks@;
            proof {
                assert forall|i: int| 0 <= i < b.len() && !self.dirty@[i] implies (#[trigger] b[i]).durable() by {
                    if i != at {
                        assert(b[i] == mid[i]);
                    } else {
                        assert(mid[i].durable());
                    }
                }
            }
            proof {
                assert(b =~= mid.update(at as int, b[at as int]));
                assert forall|i: int| 0 <= i < a.len() implies (#[trigger] b[i]).kept_to_room(&a[i]) by {
                    if i != at {
                        assert(b[i] == mid[i]);
                    }
                }
                assert forall|i: int| 0 <= i < a.len() && i != at implies alike(a[i], #[trigger] b[i]) by {
                    assert(b[i] == mid[i]);
                }
                assert forall|i: int| 0 <= i < a.len() && i != at && a[i].intact() implies (#[trigger] b[i]).intact() by {
                    assert(b[i] == mid[i]);
                }
                assert(one_changed(a, b)) by {
                    assert forall|i: int| 0 <= i < a.len() implies (#[trigger] b[i]).same_shape(&a[i]) by {
                        if i != at {
                            assert(alike(a[i], b[i]));
                        }
                    }
                }
            }
            match outcome {
                Ok(()) => {
                    proof {
                        self.lemma_reset(old(self));
                        a[at as int].lemma_model();
                        lemma_stored(a, b, at as int, hash, payload@);
                        if hash == address_of(payload@) {
                            assert(tier_blocks(b, tier) =~= tier_blocks(a, tier).insert(hash, payload@));
                        }
                        if old(self).intact() && hash == address_of(payload@) {
                            assert forall|i: int| 0 <= i < self.members().len() implies (#[trigger] self.members()[i]).intact() by {
                                assert(old(self).members()[i].intact());
                            }
                        }
                        if old(self).reliable() {
                            assert(old(self).members()[at as int].reliable());
                            assert(roomy(a[at as int], tier, len));
                            assert(chosen(a, tier, len, at as int)) by {
                                assert forall|j: int| 0 <= j < a.len() && roomy(#[trigger] a[j], tier, len) implies a[j].free_list().len() < a[at as int].free_list().len()
                                    || (a[j].free_list().len() == a[at as int].free_list().len() && at <= j) by {
                                    assert(order@.contains(j as usize));
                                    let x = choose|x: int| 0 <= x < order@.len() && order@[x] == j as usize;
                                    if x < k {
                                        assert(!roomy(a[order@[x] as int], tier, len));
                                    } else if x > k {
                                        let p = order@[k as int];
                                        let q = order@[x];
                                    }
                                }
                            }
                        }
                        assert(self.members()[at as int].held().contains(hash));
                        assert forall|j: int| 0 <= j < a.len() && j != at implies (#[trigger] b[j]).kept_room(&a[j], len) by {
                            assert(b[j] == mid[j]);
                        }
                        assert(mid[at as int] == a[at as int]);
                        assert(landed_on(old(self).members(), self.members(), len, at as int));
                    }
                    return Ok(());
                },
                Err(FsError::Full) => {
                    proof {
                        assert(alike(a[at as int], b[at as int]));
                        assert forall|i: int| 0 <= i < a.len() implies (#[trigger] b[i]).kept_room(&a[i], len) by {
                            if i != at {
                                assert(b[i] == mid[i]);
                            }
                        }
                        assert forall|x: int| 0 <= x < k + 1 implies !roomy(a[#[trigger] order@[x] as int], tier, len) && !roomy(
                            b[order@[x] as int],
                            tier,
                            len,
                        ) by {
                            if x < k {
                                assert(order@[x] != order@[k as int]);
                                assert(b[order@[x] as int] == mid[order@[x] as int]);
                            }
                        }
                        assert(payload_fault(len, old(self).unit_size()) is None);
                        if old(self).reliable() {
                            assert(old(self).members()[at as int].reliable());
                        }
                        assert forall|x: int| k + 1 <= x < order@.len() implies #[trigger] b[order@[x] as int] == a[order@[x] as int] by {
                            let p = order@[k as int];
                            let q = order@[x];
                            assert(p != q);
                            assert(mid[order@[x] as int] == a[order@[x] as int]);
                        }
                    }
                },
                Err(e) => {
                    proof {
                        assert(alike(a[at as int], b[at as int]));
                        assert forall|i: int| 0 <= i < a.len() implies (#[trigger] b[i]).kept_room(&a[i], len) by {
                            if i != at {
                                assert(b[i] == mid[i]);
                            }
                        }
                        self.lemma_reset(old(self));
                        lemma_alike(a, b);
                        if old(self).intact() {
                            assert forall|i: int| 0 <= i < self.members().len() implies (#[trigger] self.members()[i]).intact() by {
                                assert(old(self).members()[i].intact());
                            }
                        }
                        if old(self).reliable() {
                            assert(old(self).members()[at as int].reliable());
                        }
                    }
                    return Err(e);
                },
            }
            k += 1;
        }
        proof {
            let b = self.bricks@;
            assert(one_changed(a, b)) by {
                assert forall|i: int| 0 <= i < a.len() implies (#[trigger] b[i]).same_shape(&a[i]) by {
                    assert(alike(a[i], b[i]));
                }
            }
            self.lemma_reset(old(self));
            lemma_alike(a, b);
            if old(self).intact() {
                assert forall|i: int| 0 <= i < self.members().len() implies (#[trigger] self.members()[i]).intact() by {
                    assert(old(self).members()[i].intact());
                }
            }
            if tier_room(a, tier, len) {
                let i = choose|i: int| 0 <= i < a.len() && roomy(#[trigger] a[i], tier, len);
                assert(order@.contains(i as usize));
                let x = choose|x: int| 0 <= x < order@.len() && order@[x] == i as usize;
                assert(!roomy(a[order@[x] as int], tier, len));
            }
            if tier_room(b, tier, len) {
                let i = choose|i: int| 0 <= i < b.len() && roomy(#[trigger] b[i], tier, len);
                assert(alike(a[i], b[i]));
                assert(order@.contains(i as usize));
                let x = choose|x: int| 0 <= x < order@.len() && order@[x] == i as usize;
                assert(!roomy(b[order@[x] as int], tier, len));
            }
        }
        Err(FsError::Full)
    }

    /// An untouched set holds what it held.
    pub(super) proof fn lemma_untouched_stock(&self)
        requires
            self.inv(),
        ensures
            self.same_stock(self),
            self.others_alone(self, 0),
    {
        assert(one_changed(self.members(), self.members())) by {
            assert forall|i: int| 0 <= i < self.members().len() implies (#[trigger] self.members()[i]).same_shape(&self.members()[i]) by {}
        }
    }

    fn order_by_room(&self, tier: u8) -> (order: Vec<usize>)
        requires
            self.inv(),
        ensures
            by_room(self.bricks@, tier, order@),
    {
        let ghost a = self.bricks@;
        let mut free: Vec<u64> = Vec::new();
        let mut mine: Vec<bool> = Vec::new();
        let mut i: usize = 0;
        while i < self.bricks.len()
            invariant
                self.inv(),
                a == self.bricks@,
                i <= a.len(),
                free@.len() == i,
                mine@.len() == i,
                forall|k: int| 0 <= k < i ==> #[trigger] free@[k] == a[k].free_list().len(),
                forall|k: int| 0 <= k < i ==> #[trigger] mine@[k] == (a[k].superblock().tier == tier),
            decreases a.len() - i,
        {
            assert(a[i as int].inv());
            free.push(self.bricks[i].free_segments());
            mine.push(self.bricks[i].tier() == tier);
            i += 1;
        }
        let order = order_positions(&free, &mine);
        proof {
            assert forall|k: int| 0 <= k < order@.len() implies (#[trigger] order@[k]) < a.len() && a[order@[k] as int].superblock().tier == tier by {
                assert(mine@[order@[k] as int]);
            }
            assert forall|x: int| 0 <= x < a.len() && (#[trigger] a[x]).superblock().tier == tier implies order@.contains(x as usize) by {
                assert(mine@[x]);
            }
            assert forall|x: int, y: int| 0 <= x < y < order@.len() implies {
                let p = #[trigger] order@[x];
                let q = #[trigger] order@[y];
                a[p as int].free_list().len() > a[q as int].free_list().len() || (a[p as int].free_list().len() == a[q as int].free_list().len() && p < q)
            } by {
                assert(free@[order@[x] as int] == a[order@[x] as int].free_list().len());
                assert(free@[order@[y] as int] == a[order@[y] as int].free_list().len());
            }
        }
        order
    }

    /// A block's payload, verified against its address.
    pub fn get(&self, tier: u8, hash: &BlockHash) -> (r: Result<Option<Vec<u8>>>)
        requires
            self.inv(),
        ensures
            !tier_held(self.members(), tier).contains(*hash) ==> r == Ok::<Option<Vec<u8>>, FsError>(None),
            tier_held(self.members(), tier).contains(*hash) ==> match r {
                Ok(got) => got is Some && tier_blocks(self.members(), tier).contains_key(*hash) && got->Some_0@
                    == tier_blocks(self.members(), tier)[*hash],
                Err(e) => self.reliable() ==> e is Corrupt && !tier_blocks(self.members(), tier).contains_key(*hash),
            },
    {
        proof {
            lemma_route(self.bricks@, tier, *hash, 0);
        }
        match self.route_of(tier, hash) {
            Some(at) => {
                proof {
                    assert(self.members()[at as int].inv());
                    self.members()[at as int].lemma_model();
                    if self.reliable() {
                        assert(self.members()[at as int].reliable());
                    }
                }
                self.bricks[at].get(hash)
            },
            None => Ok(None),
        }
    }

    pub fn contains(&self, tier: u8, hash: &BlockHash) -> (r: bool)
        requires
            self.inv(),
        ensures
            r == tier_held(self.members(), tier).contains(*hash),
    {
        self.route_of(tier, hash).is_some()
    }
}

/// The wanted positions, most free first, the first among equals first.
fn order_positions(free: &Vec<u64>, mine: &Vec<bool>) -> (order: Vec<usize>)
    requires
        free@.len() == mine@.len(),
    ensures
        forall|k: int| 0 <= k < order@.len() ==> (#[trigger] order@[k]) < free@.len() && mine@[order@[k] as int],
        forall|x: int| 0 <= x < free@.len() && #[trigger] mine@[x] ==> order@.contains(x as usize),
        forall|x: int, y: int|
            0 <= x < y < order@.len() ==> free@[#[trigger] order@[x] as int] > free@[#[trigger] order@[y] as int] || (
            free@[order@[x] as int] == free@[order@[y] as int] && order@[x] < order@[y]),
{
    let n: usize = free.len();
    let mut order: Vec<usize> = Vec::new();
    let mut i: usize = 0;
    while i < n
        invariant
            n == free@.len() == mine@.len(),
            i <= n,
            forall|k: int| 0 <= k < order@.len() ==> (#[trigger] order@[k]) < i && mine@[order@[k] as int],
            forall|x: int| 0 <= x < i && #[trigger] mine@[x] ==> order@.contains(x as usize),
            forall|x: int, y: int|
                0 <= x < y < order@.len() ==> free@[#[trigger] order@[x] as int] > free@[#[trigger] order@[y] as int] || (
                free@[order@[x] as int] == free@[order@[y] as int] && order@[x] < order@[y]),
        decreases n - i,
    {
        if mine[i] {
            let mut at: usize = order.len();
            while at > 0 && free[order[at - 1]] < free[i]
                invariant
                    i < n == free@.len() == mine@.len(),
                    at <= order@.len(),
                    forall|k: int| 0 <= k < order@.len() ==> (#[trigger] order@[k]) < i && mine@[order@[k] as int],
                    forall|k: int| at <= k < order@.len() ==> free@[#[trigger] order@[k] as int] < free@[i as int],
                decreases at,
            {
                at -= 1;
            }
            let ghost before = order@;
            order.insert(at, i);
            proof {
                assert forall|k: int| 0 <= k < order@.len() implies (#[trigger] order@[k]) < i + 1 && mine@[order@[k] as int] by {
                    if k < at {
                        assert(order@[k] == before[k]);
                    } else if k > at {
                        assert(order@[k] == before[k - 1]);
                    }
                }
                assert forall|x: int| 0 <= x < i + 1 && #[trigger] mine@[x] implies order@.contains(x as usize) by {
                    if x < i {
                        assert(before.contains(x as usize));
                        let k = choose|k: int| 0 <= k < before.len() && before[k] == x as usize;
                        let z = if k < at { k } else { k + 1 };
                        assert(order@[z] == x as usize);
                    } else {
                        assert(order@[at as int] == x as usize);
                    }
                }
                assert forall|x: int, y: int|
                    0 <= x < y < order@.len() implies free@[#[trigger] order@[x] as int] > free@[#[trigger] order@[y] as int] || (
                    free@[order@[x] as int] == free@[order@[y] as int] && order@[x] < order@[y]) by {
                    let u = if x < at { x } else { x - 1 };
                    let v = if y < at { y } else { y - 1 };
                    if x != at && y != at {
                        assert(order@[x] == before[u] && order@[y] == before[v]);
                    } else if x == at {
                        assert(order@[y] == before[y - 1]);
                    } else {
                        assert(order@[x] == before[x]);
                        assert(free@[before[at - 1] as int] >= free@[i as int]);
                        if x < at - 1 {
                            assert(free@[before[x] as int] >= free@[before[at - 1] as int]);
                        }
                    }
                }
            }
        }
        i += 1;
    }
    order
}

/// What putting a block of `len` bytes comes to.
pub open spec fn put_verdict<D: Disk>(
    bricks: Seq<Brick<D>>,
    unit: u32,
    reliable: bool,
    tier: u8,
    hash: BlockHash,
    len: nat,
    r: Result<()>,
) -> bool {
    if len == 0 {
        r == Err::<(), FsError>(FsError::EmptyPayload)
    } else if tier_held(bricks, tier).contains(hash) {
        r is Ok
    } else if !tier_exists(bricks, tier) {
        r == Err::<(), FsError>(FsError::NoSuchTier(tier))
    } else {
        match payload_fault(len, unit) {
            Some(e) => r == Err::<(), FsError>(e),
            None => reliable ==> if tier_room(bricks, tier, len) {
                r is Ok
            } else {
                r == Err::<(), FsError>(FsError::Full)
            },
        }
    }
}

} // verus!
