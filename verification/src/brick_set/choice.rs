//! Which brick a block goes to, and which holds the WAL.

use super::chosen;
use super::layout::{format_fault, holder_count, plain_fault, spec_fault};
use crate::brick::{geometry_fault, Brick, BrickParams};
use crate::disk::Disk;
use crate::format::ROSTER_CAP;
use vstd::prelude::*;

verus! {

/// A new block goes to a brick of its tier that can take it, and no brick of
/// the tier that can take it has more free segments. There is one such choice
/// at most.
pub proof fn law_a_block_goes_where_most_is_free<D: Disk>(bricks: Seq<Brick<D>>, tier: u8, len: nat, i: int, j: int)
    requires
        chosen(bricks, tier, len, i),
        0 <= j < bricks.len(),
        bricks[j].superblock().tier == tier,
        bricks[j].fits_open(len) || bricks[j].may_open(),
    ensures
        0 <= i < bricks.len(),
        bricks[i].superblock().tier == tier,
        bricks[i].fits_open(len) || bricks[i].may_open(),
        bricks[j].free_list().len() <= bricks[i].free_list().len(),
        bricks[j].free_list().len() == bricks[i].free_list().len() ==> i <= j,
        chosen(bricks, tier, len, j) ==> i == j,
{
    assert(super::roomy(bricks[j], tier, len));
}

/// Of the first `n` bricks, the `i`-th is to hold the WAL, and no other.
pub open spec fn sole_holder<D: Disk>(specs: Seq<(D, BrickParams)>, n: nat, i: int) -> bool {
    &&& 0 <= i < n
    &&& specs[i].1.wal_holder
    &&& forall|j: int| 0 <= j < n && j != i ==> !(#[trigger] specs[j]).1.wal_holder
}

/// One holder is counted just where one brick is to hold the WAL, and no
/// other.
pub proof fn law_one_holder_is_one<D: Disk>(specs: Seq<(D, BrickParams)>, n: nat)
    requires
        n <= specs.len(),
    ensures
        holder_count(specs, n) == 1 <==> exists|i: int| #[trigger] sole_holder(specs, n, i),
{
    if holder_count(specs, n) == 1 {
        let i = lemma_holder_found(specs, n);
        assert(sole_holder(specs, n, i));
    }
    if exists|i: int| #[trigger] sole_holder(specs, n, i) {
        let i = choose|i: int| #[trigger] sole_holder(specs, n, i);
        lemma_holder_counted(specs, n, i);
    }
}

proof fn lemma_none_held<D: Disk>(specs: Seq<(D, BrickParams)>, n: nat)
    requires
        n <= specs.len(),
    ensures
        holder_count(specs, n) == 0 <==> forall|i: int| 0 <= i < n ==> !(#[trigger] specs[i]).1.wal_holder,
    decreases n,
{
    if n > 0 {
        lemma_none_held(specs, (n - 1) as nat);
    }
}

proof fn lemma_holder_found<D: Disk>(specs: Seq<(D, BrickParams)>, n: nat) -> (i: int)
    requires
        n <= specs.len(),
        holder_count(specs, n) == 1,
    ensures
        sole_holder(specs, n, i),
    decreases n,
{
    if specs[n - 1].1.wal_holder {
        lemma_none_held(specs, (n - 1) as nat);
        n - 1
    } else {
        lemma_holder_found(specs, (n - 1) as nat)
    }
}

proof fn lemma_holder_counted<D: Disk>(specs: Seq<(D, BrickParams)>, n: nat, i: int)
    requires
        n <= specs.len(),
        sole_holder(specs, n, i),
    ensures
        holder_count(specs, n) == 1,
    decreases n,
{
    if i == n - 1 {
        lemma_none_held(specs, (n - 1) as nat);
    } else {
        assert(!specs[n - 1].1.wal_holder);
        lemma_holder_counted(specs, (n - 1) as nat, i);
    }
}

/// Bricks are laid out as a set only where they are of one pool and one block
/// size, no two alike, no more than a roster takes, each with a geometry its
/// disk can have, and with the WAL on the first tier.
pub proof fn law_only_one_set_is_laid_out<D: Disk>(specs: Seq<(D, BrickParams)>, holder: int, i: int, j: int)
    requires
        format_fault(specs, holder) is None,
        sole_holder(specs, specs.len(), holder),
        0 <= i < specs.len(),
        0 <= j < specs.len(),
    ensures
        geometry_fault(specs[i].1, specs[i].0.bytes().len() as int) is None,
        specs[i].1.pool_uuid == specs[j].1.pool_uuid,
        specs[i].1.block_size == specs[j].1.block_size,
        i != j ==> specs[i].1.brick_uuid != specs[j].1.brick_uuid,
        specs[holder].1.tier == 0,
        specs.len() <= ROSTER_CAP,
{
    if i != holder {
        lemma_plain(specs, specs.len(), i);
    }
    if i < j {
        assert(specs[i].1.brick_uuid != specs[j].1.brick_uuid);
    } else if j < i {
        assert(specs[j].1.brick_uuid != specs[i].1.brick_uuid);
    }
}

proof fn lemma_plain<D: Disk>(specs: Seq<(D, BrickParams)>, n: nat, i: int)
    requires
        plain_fault(specs, n) is None,
        0 <= i < n <= specs.len(),
        !specs[i].1.wal_holder,
    ensures
        spec_fault(specs[i]) is None,
    decreases n,
{
    if i < n - 1 {
        lemma_plain(specs, (n - 1) as nat, i);
    }
}

} // verus!
