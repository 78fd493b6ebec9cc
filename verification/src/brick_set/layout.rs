//! Laying a whole set out.

use super::{assembly, entry_of_brick, lemma_route, roster_matches, route, same_bricks, set_fault, tier_held, BrickSet};
use crate::brick::{best_anchor, first_anchor, formatted, geometry_fault, ring_unused, Brick, BrickParams};
use crate::codec::lemma_array_view_injective;
use crate::disk::Disk;
use crate::error::{FsError, Result};
use crate::format::{Anchor, RosterEntry, ROSTER_CAP};
use crate::hash::BlockHash;
use vstd::prelude::*;

verus! {

/// How many of the first `n` specs hold the WAL.
pub open spec fn holder_count<D: Disk>(specs: Seq<(D, BrickParams)>, n: nat) -> nat
    decreases n,
{
    if n == 0 {
        0
    } else {
        holder_count(specs, (n - 1) as nat) + if specs[n - 1].1.wal_holder {
            1nat
        } else {
            0nat
        }
    }
}

/// The roster of the bricks asked for.
pub open spec fn roster_of<D: Disk>(specs: Seq<(D, BrickParams)>) -> Seq<RosterEntry> {
    Seq::new(specs.len(), |i: int| RosterEntry { brick_uuid: specs[i].1.brick_uuid, tier: specs[i].1.tier })
}

/// Some spec asked for the brick, and it is as a format leaves it.
pub open spec fn asked_for<D: Disk>(specs: Seq<(D, BrickParams)>, brick: Brick<D>) -> bool {
    exists|j: int| #[trigger] laid_for(specs, brick, j)
}

/// The brick is what a format of the `j`-th spec leaves.
pub open spec fn laid_for<D: Disk>(specs: Seq<(D, BrickParams)>, brick: Brick<D>, j: int) -> bool {
    0 <= j < specs.len() && brick.is_fresh(specs[j].1, specs[j].0, roster_of(specs))
}

/// Some brick is what a format of the `j`-th spec leaves.
spec fn has_brick<D: Disk>(specs: Seq<(D, BrickParams)>, bricks: Seq<Brick<D>>, j: int) -> bool {
    exists|i: int| 0 <= i < bricks.len() && #[trigger] laid_for(specs, bricks[i], j)
}

/// Why a brick cannot be laid out as asked, if it cannot.
pub open spec fn spec_fault<D: Disk>(spec: (D, BrickParams)) -> Option<FsError> {
    geometry_fault(spec.1, spec.0.bytes().len() as int)
}

/// The first of the first `n` specs, the holder left out, that cannot be
/// laid out, by its error.
pub open spec fn plain_fault<D: Disk>(specs: Seq<(D, BrickParams)>, n: nat) -> Option<FsError>
    decreases n,
{
    if n == 0 {
        None
    } else if plain_fault(specs, (n - 1) as nat) is Some {
        plain_fault(specs, (n - 1) as nat)
    } else if specs[n - 1].1.wal_holder {
        None
    } else {
        spec_fault(specs[n - 1])
    }
}

/// The specs ask for bricks that are not one set.
pub open spec fn specs_fault<D: Disk>(specs: Seq<(D, BrickParams)>) -> Option<FsError> {
    if exists|i: int| 0 <= i < specs.len() && (#[trigger] specs[i]).1.pool_uuid != specs[0].1.pool_uuid {
        Some(FsError::BrickSetMismatch("bricks of different pools presented as one set"))
    } else if exists|i: int| 0 <= i < specs.len() && (#[trigger] specs[i]).1.block_size != specs[0].1.block_size {
        Some(FsError::BrickSetMismatch("bricks of different block sizes presented as one set"))
    } else if exists|i: int, j: int| 0 <= i < j < specs.len() && (#[trigger] specs[i]).1.brick_uuid == (#[trigger] specs[j]).1.brick_uuid {
        Some(FsError::BrickSetMismatch("the same brick presented twice"))
    } else if exists|i: int| 0 <= i < specs.len() && (#[trigger] specs[i]).1.wal_holder && specs[i].1.tier != 0 {
        Some(FsError::BrickSetMismatch("the WAL holder must be a tier-0 brick"))
    } else {
        None
    }
}

/// Why a set with one holder is not laid out, if it is not: a brick that
/// cannot be, more bricks than a roster takes, a holder that cannot be, or
/// bricks that are not one set.
pub open spec fn format_fault<D: Disk>(specs: Seq<(D, BrickParams)>, holder: int) -> Option<FsError> {
    if plain_fault(specs, specs.len()) is Some {
        plain_fault(specs, specs.len())
    } else if specs.len() > ROSTER_CAP {
        Some(FsError::BrickSetMismatch("more bricks than one node's anchor can roster"))
    } else if spec_fault(specs[holder]) is Some {
        spec_fault(specs[holder])
    } else {
        specs_fault(specs)
    }
}

/// The bricks laid out so far, by the specs they were laid out for.
spec fn origins<D: Disk>(specs: Seq<(D, BrickParams)>, bricks: Seq<Brick<D>>, from: Seq<int>) -> bool {
    &&& from.len() == bricks.len()
    &&& from.no_duplicates()
    &&& forall|k: int| 0 <= k < bricks.len() ==> laid_for(specs, #[trigger] bricks[k], from[k])
}

proof fn lemma_one_holder<D: Disk>(specs: Seq<(D, BrickParams)>, n: nat, j: int)
    requires
        n <= specs.len(),
        0 <= j < n,
        specs[j].1.wal_holder,
    ensures
        holder_count(specs, n) >= 1,
        holder_count(specs, n) == 1 ==> forall|i: int| 0 <= i < n && (#[trigger] specs[i]).1.wal_holder ==> i == j,
    decreases n,
{
    if j < n - 1 {
        lemma_one_holder(specs, (n - 1) as nat, j);
    } else {
        assert forall|i: int| 0 <= i < n && (#[trigger] specs[i]).1.wal_holder && i != j implies holder_count(specs, n) > 1 by {
            lemma_one_holder(specs, (n - 1) as nat, i);
        }
    }
}

/// The best anchor of an area has one roster.
pub proof fn lemma_one_roster(area: Seq<u8>, a: Anchor, b: Anchor)
    requires
        best_anchor(area, Some(a)),
        best_anchor(area, Some(b)),
    ensures
        a.roster@ == b.roster@,
{
    assert forall|i: int| 0 <= i < a.roster@.len() implies a.roster@[i] == b.roster@[i] by {
        let (x, y) = (a.roster@[i], b.roster@[i]);
        lemma_array_view_injective(x.brick_uuid, y.brick_uuid);
    }
    assert(a.roster@ =~= b.roster@);
}

/// Rearranged bricks repeat one exactly where the bricks do.
proof fn lemma_rearranged<D: Disk>(a: Seq<Brick<D>>, b: Seq<Brick<D>>)
    requires
        same_bricks(a, b),
    ensures
        a.no_duplicates() <==> b.no_duplicates(),
{
    assert(a.to_set() =~= b.to_set()) by {
        assert forall|x: Brick<D>| a.contains(x) <==> b.contains(x) by {
            if a.contains(x) {
                let i = choose|i: int| 0 <= i < a.len() && a[i] == x;
                assert(b.contains(a[i]));
            }
            if b.contains(x) {
                let i = choose|i: int| 0 <= i < b.len() && b[i] == x;
                assert(a.contains(b[i]));
            }
        }
    }
    if a.no_duplicates() {
        a.unique_seq_to_set();
        b.lemma_no_dup_set_cardinality();
    }
    if b.no_duplicates() {
        b.unique_seq_to_set();
        a.lemma_no_dup_set_cardinality();
    }
}

/// Bricks laid out for every spec are one set exactly where the specs ask
/// for one, however they are arranged.
proof fn lemma_same_fault<D: Disk>(specs: Seq<(D, BrickParams)>, bricks: Seq<Brick<D>>, from: Seq<int>, sorted: Seq<Brick<D>>)
    requires
        specs.len() > 0,
        bricks.len() == specs.len(),
        origins(specs, bricks, from),
        forall|j: int| 0 <= j < specs.len() ==> #[trigger] from.contains(j),
        same_bricks(bricks, sorted),
        holder_count(specs, specs.len()) == 1,
        exists|j: int| 0 <= j < specs.len() && (#[trigger] specs[j]).1.wal_holder,
    ensures
        set_fault(sorted) == specs_fault(specs),
{
    let n = specs.len();
    let h = choose|j: int| 0 <= j < specs.len() && (#[trigger] specs[j]).1.wal_holder;
    lemma_one_holder(specs, n, h);
    lemma_rearranged(bricks, sorted);
    // Every spec has a brick, and every brick a spec.
    assert forall|j: int| 0 <= j < n implies #[trigger] has_brick(specs, sorted, j) by {
        assert(from.contains(j));
        let k = choose|k: int| 0 <= k < from.len() && from[k] == j;
        assert(laid_for(specs, bricks[k], from[k]));
        assert(sorted.contains(bricks[k]));
        let i = choose|i: int| 0 <= i < sorted.len() && sorted[i] == bricks[k];
        assert(laid_for(specs, sorted[i], j));
    }
    assert forall|i: int| 0 <= i < n implies asked_for(specs, #[trigger] sorted[i]) by {
        assert(bricks.contains(sorted[i]));
        let k = choose|k: int| 0 <= k < bricks.len() && bricks[k] == sorted[i];
        assert(laid_for(specs, bricks[k], from[k]));
    }
    assert(asked_for(specs, sorted[0]));
    let first = choose|j: int| #[trigger] laid_for(specs, sorted[0], j);
    assert(laid_for(specs, sorted[0], first));
    assert(has_brick(specs, sorted, 0));
    let zero = choose|i: int| 0 <= i < n && #[trigger] laid_for(specs, sorted[i], 0);
    assert(laid_for(specs, sorted[zero], 0));
    let pools = exists|i: int| 0 <= i < n && (#[trigger] specs[i]).1.pool_uuid != specs[0].1.pool_uuid;
    let pools_there = exists|i: int| 0 <= i < n && (#[trigger] sorted[i]).superblock().pool_uuid != sorted[0].superblock().pool_uuid;
    assert(pools == pools_there) by {
        if pools {
            let i = choose|i: int| 0 <= i < n && (#[trigger] specs[i]).1.pool_uuid != specs[0].1.pool_uuid;
            assert(has_brick(specs, sorted, i));
            let x = choose|x: int| 0 <= x < n && #[trigger] laid_for(specs, sorted[x], i);
            assert(sorted[x].superblock().pool_uuid != sorted[zero].superblock().pool_uuid);
        }
        if pools_there {
            let x = choose|i: int| 0 <= i < n && (#[trigger] sorted[i]).superblock().pool_uuid != sorted[0].superblock().pool_uuid;
            assert(asked_for(specs, sorted[x]));
            let i = choose|j: int| #[trigger] laid_for(specs, sorted[x], j);
            assert(specs[i].1.pool_uuid != specs[first].1.pool_uuid);
        }
    }
    let sizes = exists|i: int| 0 <= i < n && (#[trigger] specs[i]).1.block_size != specs[0].1.block_size;
    let sizes_there = exists|i: int| 0 <= i < n && (#[trigger] sorted[i]).superblock().block_size != sorted[0].superblock().block_size;
    assert(sizes == sizes_there) by {
        if sizes {
            let i = choose|i: int| 0 <= i < n && (#[trigger] specs[i]).1.block_size != specs[0].1.block_size;
            assert(has_brick(specs, sorted, i));
            let x = choose|x: int| 0 <= x < n && #[trigger] laid_for(specs, sorted[x], i);
            assert(sorted[x].superblock().block_size != sorted[zero].superblock().block_size);
        }
        if sizes_there {
            let x = choose|i: int| 0 <= i < n && (#[trigger] sorted[i]).superblock().block_size != sorted[0].superblock().block_size;
            assert(asked_for(specs, sorted[x]));
            let i = choose|j: int| #[trigger] laid_for(specs, sorted[x], j);
            assert(specs[i].1.block_size != specs[first].1.block_size);
        }
    }
    let twice = exists|i: int, j: int| 0 <= i < j < n && (#[trigger] specs[i]).1.brick_uuid == (#[trigger] specs[j]).1.brick_uuid;
    let twice_there = exists|i: int, j: int| 0 <= i < j < n && (#[trigger] sorted[i]).superblock().brick_uuid == (#[trigger] sorted[j]).superblock().brick_uuid;
    assert(twice == twice_there) by {
        if twice {
            let (i, j) = choose|i: int, j: int| 0 <= i < j < n && (#[trigger] specs[i]).1.brick_uuid == (#[trigger] specs[j]).1.brick_uuid;
            let x = choose|x: int| 0 <= x < from.len() && from[x] == i;
            let y = choose|y: int| 0 <= y < from.len() && from[y] == j;
            assert(from.contains(i) && from.contains(j));
            assert(laid_for(specs, bricks[x], from[x]) && laid_for(specs, bricks[y], from[y]));
            if bricks[x] == bricks[y] {
                assert(x != y);
                assert(!bricks.no_duplicates());
                let (p, q) = choose|p: int, q: int| 0 <= p < sorted.len() && 0 <= q < sorted.len() && p != q && sorted[p] == sorted[q];
                if p < q {
                    assert(sorted[p].superblock().brick_uuid == sorted[q].superblock().brick_uuid);
                } else {
                    assert(sorted[q].superblock().brick_uuid == sorted[p].superblock().brick_uuid);
                }
            } else {
                assert(sorted.contains(bricks[x]) && sorted.contains(bricks[y]));
                let p = choose|p: int| 0 <= p < sorted.len() && sorted[p] == bricks[x];
                let q = choose|q: int| 0 <= q < sorted.len() && sorted[q] == bricks[y];
                if p < q {
                    assert(sorted[p].superblock().brick_uuid == sorted[q].superblock().brick_uuid);
                } else {
                    assert(sorted[q].superblock().brick_uuid == sorted[p].superblock().brick_uuid);
                }
            }
        }
        if twice_there {
            let (p, q) = choose|i: int, j: int| 0 <= i < j < n && (#[trigger] sorted[i]).superblock().brick_uuid == (#[trigger] sorted[j]).superblock().brick_uuid;
            assert(bricks.contains(sorted[p]) && bricks.contains(sorted[q]));
            let x = choose|x: int| 0 <= x < bricks.len() && bricks[x] == sorted[p];
            let y = choose|y: int| 0 <= y < bricks.len() && bricks[y] == sorted[q];
            if sorted[p] == sorted[q] {
                assert(!sorted.no_duplicates());
                assert(!bricks.no_duplicates());
                let (x, y) = choose|x: int, y: int| 0 <= x < bricks.len() && 0 <= y < bricks.len() && x != y && bricks[x] == bricks[y];
                assert(laid_for(specs, bricks[x], from[x]) && laid_for(specs, bricks[y], from[y]));
                assert(from[x] != from[y]);
                if from[x] < from[y] {
                    assert(specs[from[x]].1.brick_uuid == specs[from[y]].1.brick_uuid);
                } else {
                    assert(specs[from[y]].1.brick_uuid == specs[from[x]].1.brick_uuid);
                }
            } else {
                assert(x != y);
                assert(laid_for(specs, bricks[x], from[x]) && laid_for(specs, bricks[y], from[y]));
                assert(from[x] != from[y]);
                if from[x] < from[y] {
                    assert(specs[from[x]].1.brick_uuid == specs[from[y]].1.brick_uuid);
                } else {
                    assert(specs[from[y]].1.brick_uuid == specs[from[x]].1.brick_uuid);
                }
            }
        }
    }
    assert(has_brick(specs, sorted, h));
    let hx = choose|x: int| 0 <= x < n && #[trigger] laid_for(specs, sorted[x], h);
    assert(laid_for(specs, sorted[hx], h));
    assert(sorted[hx].superblock().wal_holder);
    if !twice {
        assert forall|i: int, j: int| 0 <= i < j < n && (#[trigger] sorted[i]).superblock().wal_holder implies !(#[trigger] sorted[j]).superblock().wal_holder by {
            if sorted[j].superblock().wal_holder {
                assert(asked_for(specs, sorted[i]) && asked_for(specs, sorted[j]));
                let a = choose|a: int| #[trigger] laid_for(specs, sorted[i], a);
                let b = choose|b: int| #[trigger] laid_for(specs, sorted[j], b);
                assert(a == h && b == h);
                assert(sorted[i].superblock().brick_uuid == sorted[j].superblock().brick_uuid);
            }
        }
    }
    let low = exists|i: int| 0 <= i < n && (#[trigger] specs[i]).1.wal_holder && specs[i].1.tier != 0;
    let low_there = exists|i: int| 0 <= i < n && (#[trigger] sorted[i]).superblock().wal_holder && sorted[i].superblock().tier != 0;
    assert(low == low_there) by {
        if low {
            assert(sorted[hx].superblock().tier != 0);
        }
        if low_there {
            let x = choose|i: int| 0 <= i < n && (#[trigger] sorted[i]).superblock().wal_holder && sorted[i].superblock().tier != 0;
            assert(asked_for(specs, sorted[x]));
            let i = choose|j: int| #[trigger] laid_for(specs, sorted[x], j);
            assert(specs[i].1.wal_holder && specs[i].1.tier != 0);
        }
    }
}

impl<D: Disk> BrickSet<D> {
    /// The set was laid out, and nothing has happened to it: it holds
    /// nothing, and its ring is as its first anchor says.
    pub open spec fn unused(&self) -> bool {
        &&& forall|i: int| 0 <= i < self.members().len() ==> (#[trigger] self.members()[i]).held() == Set::<BlockHash>::empty()
            && self.members()[i].claims() == Set::<(BlockHash, Seq<u8>)>::empty()
        &&& ring_unused(self.wal_area(), self.wal_super().wal_size)
        &&& exists|a: Anchor, roster: Seq<RosterEntry>| #[trigger] first_anchor(a, roster) && best_anchor(self.wal_area(), Some(a))
    }

    /// Lay a whole set out: every brick formatted, the WAL holder last, its
    /// anchor rostering them all.
    pub fn format(specs: Vec<(D, BrickParams)>) -> (r: Result<BrickSet<D>>)
        requires
            forall|i: int| 0 <= i < specs@.len() ==> (#[trigger] specs@[i]).0.valid(),
        ensures
            holder_count(specs@, specs@.len()) != 1 ==> r == Err::<BrickSet<D>, FsError>(
                FsError::BrickSetMismatch("a set is formatted with exactly one WAL holder"),
            ),
            r matches Ok(set) ==> {
                &&& set.inv()
                &&& set.intact()
                &&& set.durable()
                &&& set.unused()
                &&& set.members().len() == specs@.len()
                &&& forall|i: int| 0 <= i < set.members().len() ==> asked_for(specs@, #[trigger] set.members()[i])
                &&& forall|t: u8| #[trigger] tier_held(set.members(), t) == Set::<BlockHash>::empty()
                &&& exists|a: Anchor| #[trigger] first_anchor(a, roster_of(specs@)) && best_anchor(set.wal_area(), Some(a))
            },
            forall|h: int|
                holder_count(specs@, specs@.len()) == 1 && 0 <= h < specs@.len() && (#[trigger] specs@[h]).1.wal_holder && (forall|i: int|
                    0 <= i < specs@.len() ==> (#[trigger] specs@[i]).0.faultless()) ==> match format_fault(specs@, h) {
                    Some(e) => r == Err::<BrickSet<D>, FsError>(e),
                    None => r is Ok,
                },
    {
        let ghost all = specs@;
        let mut roster: Vec<RosterEntry> = Vec::new();
        let mut holders: usize = 0;
        let mut i: usize = 0;
        while i < specs.len()
            invariant
                i <= specs@.len(),
                specs@ == all,
                roster@.len() == i,
                forall|k: int| 0 <= k < i ==> #[trigger] roster@[k] == (RosterEntry { brick_uuid: all[k].1.brick_uuid, tier: all[k].1.tier }),
                holders <= i,
                holders == holder_count(all, i as nat),
            decreases specs@.len() - i,
        {
            let params = specs[i].1;
            roster.push(RosterEntry { brick_uuid: params.brick_uuid, tier: params.tier });
            if params.wal_holder {
                holders += 1;
            }
            i += 1;
        }
        if holders != 1 {
            return Err(FsError::BrickSetMismatch("a set is formatted with exactly one WAL holder"));
        }
        assert(roster@ =~= roster_of(all));
        let ghost calm = forall|i: int| 0 <= i < all.len() ==> (#[trigger] all[i]).0.faultless();
        let mut left = specs;
        let mut bricks: Vec<Brick<D>> = Vec::new();
        let mut holder: Option<(D, BrickParams)> = None;
        let mut done: Ghost<int> = Ghost(0);
        let ghost mut from: Seq<int> = Seq::empty();
        let ghost mut at: int = 0;
        while left.len() > 0
            invariant
                0 <= done@ <= all.len(),
                holder_count(all, all.len()) == 1,
                all == specs@,
                calm == forall|i: int| 0 <= i < all.len() ==> (#[trigger] all[i]).0.faultless(),
                left@ == all.subrange(done@, all.len() as int),
                forall|k: int| 0 <= k < all.len() ==> (#[trigger] all[k]).0.valid(),
                bricks@.len() + holder_count(all, done@ as nat) == done@,
                holder is Some <==> holder_count(all, done@ as nat) > 0,
                holder matches Some(h) ==> 0 <= at < done@ && all[at] == h && h.1.wal_holder,
                origins(all, bricks@, from),
                forall|k: int| 0 <= k < from.len() ==> 0 <= #[trigger] from[k] < done@ && !all[from[k]].1.wal_holder,
                forall|j: int| 0 <= j < done@ && !(#[trigger] all[j]).1.wal_holder ==> from.contains(j),
                calm ==> plain_fault(all, done@ as nat) is None,
            decreases left@.len(),
        {
            assert(left@[0] == all[done@]);
            let (disk, params) = left.remove(0);
            let ghost this = (disk, params);
            assert(all[done@] == this);
            proof {
                assert(left@ =~= all.subrange(done@ + 1, all.len() as int));
            }
            if params.wal_holder {
                holder = Some((disk, params));
                proof {
                    at = done@;
                }
            } else {
                let laid = Brick::format(disk, params);
                let brick = match laid {
                    Ok(brick) => brick,
                    Err(e) => {
                        proof {
                            if calm {
                                assert(all[done@].0.faultless());
                                assert(plain_fault(all, (done@ + 1) as nat) == Some(e));
                                lemma_plain_fault(all, (done@ + 1) as nat, all.len());
                            }
                        }
                        return Err(e);
                    },
                };
                proof {
                    assert(brick.is_fresh(all[done@].1, all[done@].0, roster_of(all)));
                    assert(laid_for(all, brick, done@));
                    if calm {
                        assert(all[done@].0.faultless());
                    }
                    let (old_from, old_bricks) = (from, bricks@);
                    from = from.push(done@);
                    assert(old_bricks.push(brick).len() == from.len());
                    assert forall|j: int| 0 <= j < done@ + 1 && !(#[trigger] all[j]).1.wal_holder implies from.contains(j) by {
                        if j < done@ {
                            let k = choose|k: int| 0 <= k < old_from.len() && old_from[k] == j;
                            assert(old_from.contains(j));
                            assert(from[k] == j);
                        } else {
                            assert(from[old_from.len() as int] == j);
                        }
                    }
                    assert forall|k: int| 0 <= k < old_bricks.len() + 1 implies laid_for(all, #[trigger] old_bricks.push(brick)[k], from[k]) by {
                        if k < old_bricks.len() {
                            assert(laid_for(all, old_bricks[k], old_from[k]));
                        }
                    }
                }
                bricks.push(brick);
            }
            proof {
                let d = done@;
                assert(forall|j: int| 0 <= j < d + 1 && !(#[trigger] all[j]).1.wal_holder ==> from.contains(j));
                done@ = done@ + 1;
            }
        }
        assert(done@ == all.len());
        match holder {
            Some((disk, params)) => {
                let ghost this = (disk, params);
                assert(all[at] == this);
                assert(all[at].0.valid());
                assert(roster@[at] == (RosterEntry { brick_uuid: params.brick_uuid, tier: params.tier }));
                proof {
                    lemma_one_holder(all, all.len(), at);
                }
                let laid = Brick::format_rostered(disk, params, roster);
                let brick = match laid {
                    Ok(brick) => brick,
                    Err(e) => {
                        proof {
                            if calm {
                                assert(all[at].0.faultless());
                                assert(format_fault(all, at) == Some(e));
                            }
                        }
                        return Err(e);
                    },
                };
                proof {
                    assert(laid_for(all, brick, at));
                    let (old_from, old_bricks) = (from, bricks@);
                    from = from.push(at);
                    assert forall|j: int| 0 <= j < all.len() implies #[trigger] from.contains(j) by {
                        if j == at {
                            assert(from[old_from.len() as int] == j);
                        } else {
                            assert(!all[j].1.wal_holder);
                            assert(old_from.contains(j));
                            let k = choose|k: int| 0 <= k < old_from.len() && old_from[k] == j;
                            assert(from[k] == j);
                        }
                    }
                    assert forall|k: int| 0 <= k < old_bricks.len() + 1 implies laid_for(all, #[trigger] old_bricks.push(brick)[k], from[k]) by {
                        if k < old_bricks.len() {
                            assert(laid_for(all, old_bricks[k], old_from[k]));
                        }
                    }
                }
                bricks.push(brick);
            },
            None => {},
        }
        let ghost laid = bricks@;
        proof {
            assert(origins(all, laid, from));
            assert forall|k: int| 0 <= k < bricks@.len() implies (#[trigger] bricks@[k]).inv() && bricks@[k].intact() by {
                assert(laid_for(all, bricks@[k], from[k]));
            }
        }
        let r = Self::assemble(bricks);
        proof {
            let sorted = choose|sorted: Seq<Brick<D>>| #[trigger] same_bricks(laid, sorted) && assembly(sorted, r);
            lemma_laid_set(all, laid, from, at, r);
            lemma_laid_verdict(all, laid, from, at, sorted, r);
        }
        r
    }
}

proof fn lemma_plain_fault<D: Disk>(specs: Seq<(D, BrickParams)>, n: nat, m: nat)
    requires
        n <= m,
        plain_fault(specs, n) is Some,
    ensures
        plain_fault(specs, m) == plain_fault(specs, n),
    decreases m - n,
{
    if n < m {
        lemma_plain_fault(specs, n, (m - 1) as nat);
    }
}

/// What a set of bricks laid out as asked is.
proof fn lemma_laid_set<D: Disk>(specs: Seq<(D, BrickParams)>, bricks: Seq<Brick<D>>, from: Seq<int>, holder: int, r: Result<BrickSet<D>>)
    requires
        bricks.len() == specs.len(),
        origins(specs, bricks, from),
        0 <= holder < specs.len(),
        r matches Ok(set) ==> set.inv() && same_bricks(bricks, set.members()),
    ensures
        r matches Ok(set) ==> {
            &&& set.durable()
            &&& set.unused()
            &&& forall|i: int| 0 <= i < set.members().len() ==> asked_for(specs, #[trigger] set.members()[i])
            &&& forall|t: u8| #[trigger] tier_held(set.members(), t) == Set::<BlockHash>::empty()
            &&& exists|a: Anchor| #[trigger] first_anchor(a, roster_of(specs)) && best_anchor(set.wal_area(), Some(a))
        },
{
    if r is Ok {
        let set = r->Ok_0;
        assert forall|i: int| 0 <= i < set.members().len() implies asked_for(specs, #[trigger] set.members()[i]) && set.members()[i].durable() by {
            assert(bricks.contains(set.members()[i]));
            let k = choose|k: int| 0 <= k < bricks.len() && bricks[k] == set.members()[i];
            assert(laid_for(specs, bricks[k], from[k]));
        }
        assert forall|t: u8| #[trigger] tier_held(set.members(), t) == Set::<BlockHash>::empty() by {
            assert forall|h: BlockHash| !tier_held(set.members(), t).contains(h) by {
                lemma_route(set.members(), t, h, 0);
                if let Some(i) = route(set.members(), t, h) {
                    assert(asked_for(specs, set.members()[i]));
                }
            }
            assert(tier_held(set.members(), t) =~= Set::<BlockHash>::empty());
        }
        set.lemma_set();
        assert(asked_for(specs, set.members()[set.holder_at()]));
    }
}

/// Whether bricks laid out as asked make a set.
proof fn lemma_laid_verdict<D: Disk>(specs: Seq<(D, BrickParams)>, bricks: Seq<Brick<D>>, from: Seq<int>, holder: int, sorted: Seq<Brick<D>>, r: Result<BrickSet<D>>)
    requires
        bricks.len() == specs.len(),
        origins(specs, bricks, from),
        forall|j: int| 0 <= j < specs.len() ==> #[trigger] from.contains(j),
        0 <= holder < specs.len(),
        specs[holder].1.wal_holder,
        holder_count(specs, specs.len()) == 1,
        same_bricks(bricks, sorted),
        assembly(sorted, r),
    ensures
        (forall|i: int| 0 <= i < specs.len() ==> (#[trigger] specs[i]).0.faultless()) ==> match specs_fault(specs) {
            Some(e) => r == Err::<BrickSet<D>, FsError>(e),
            None => r is Ok,
        },
{
    lemma_same_fault(specs, bricks, from, sorted);
    if specs_fault(specs) is None && r is Err && (forall|i: int| 0 <= i < specs.len() ==> (#[trigger] specs[i]).0.faultless()) {
        let h = choose|i: int| 0 <= i < sorted.len() && (#[trigger] sorted[i]).superblock().wal_holder;
        assert(exists|i: int| 0 <= i < sorted.len() && (#[trigger] sorted[i]).superblock().wal_holder);
        assert(bricks.contains(sorted[h]));
        let k = choose|k: int| 0 <= k < bricks.len() && bricks[k] == sorted[h];
        assert(laid_for(specs, bricks[k], from[k]));
        assert(specs[from[k]].0.faultless());
        let a = choose|a: Anchor| #[trigger] first_anchor(a, roster_of(specs)) && best_anchor(sorted[h].aux(), Some(a));
        assert(first_anchor(a, roster_of(specs)) && best_anchor(sorted[h].aux(), Some(a)));
        assert forall|i: int| 0 <= i < sorted.len() implies roster_of(specs).contains(entry_of_brick(#[trigger] sorted[i])) by {
            assert(bricks.contains(sorted[i]));
            let x = choose|x: int| 0 <= x < bricks.len() && bricks[x] == sorted[i];
            assert(laid_for(specs, bricks[x], from[x]));
            assert(roster_of(specs)[from[x]] == entry_of_brick(sorted[i]));
        }
        assert(roster_matches(a.roster@, sorted));
        if let Err(e) = r {
            if !(best_anchor(sorted[h].aux(), None)) {
                let b = choose|b: Anchor| #[trigger] best_anchor(sorted[h].aux(), Some(b)) && !roster_matches(b.roster@, sorted);
                lemma_one_roster(sorted[h].aux(), a, b);
            }
        }
    }
}

} // verus!
