//! A scrub in bounded slices, so that it can share the engine with the
//! guests.

use super::BrickSet;
use crate::brick::Brick;
use crate::disk::Disk;
use crate::error::{FsError, Result};
use crate::hash::BlockHash;
use crate::table::{ascending, SortKey};
use vstd::prelude::*;

verus! {

/// Where a scrub goes on: in which brick, and past which address.
#[derive(Debug, Clone, Copy, PartialEq, Eq)]
pub struct ScrubCursor {
    pub brick: usize,
    pub after: Option<BlockHash>,
}

/// A brick's addresses, in order.
pub open spec fn in_order<D: Disk>(brick: Brick<D>, keys: Seq<BlockHash>) -> bool {
    &&& ascending(keys)
    &&& forall|h: BlockHash| #[trigger] brick.held().contains(h) <==> keys.contains(h)
}

/// How many addresses come no later than `after`.
pub open spec fn passed(keys: Seq<BlockHash>, after: Option<BlockHash>) -> int
    decreases keys.len(),
{
    if keys.len() == 0 {
        0
    } else if after matches Some(h) && !h.lt(keys[0]) {
        1 + passed(keys.drop_first(), after)
    } else {
        0
    }
}

/// Where a slice of at most `budget` blocks, and at least one, ends.
pub open spec fn slice_end(len: int, from: int, budget: usize) -> int {
    let most = if budget == 0 {
        1int
    } else {
        budget as int
    };
    if from + most < len {
        from + most
    } else {
        len
    }
}

/// Those of the addresses from `from` to `to` that cannot be produced.
pub open spec fn rotten_among<D: Disk>(brick: Brick<D>, keys: Seq<BlockHash>, from: int, to: int) -> Seq<BlockHash>
    decreases to - from,
{
    if to <= from {
        Seq::empty()
    } else {
        let rest = rotten_among(brick, keys, from, to - 1);
        if brick.blocks().contains_key(keys[to - 1]) {
            rest
        } else {
            rest.push(keys[to - 1])
        }
    }
}

/// Where the scrub goes on after a slice of one brick.
pub open spec fn next_cursor(bricks: nat, brick: usize, keys: Seq<BlockHash>, to: int) -> Option<ScrubCursor> {
    if to < keys.len() {
        Some(ScrubCursor { brick, after: Some(keys[to - 1]) })
    } else if brick + 1 < bricks {
        Some(ScrubCursor { brick: (brick + 1) as usize, after: None })
    } else {
        None
    }
}

/// What a slice found in one brick.
pub open spec fn slice_found<D: Disk>(
    bricks: Seq<Brick<D>>,
    at: ScrubCursor,
    budget: usize,
    keys: Seq<BlockHash>,
    verified: u64,
    corrupt: Seq<BlockHash>,
    next: Option<ScrubCursor>,
) -> bool {
    let from = passed(keys, at.after);
    let to = slice_end(keys.len() as int, from, budget);
    let brick = bricks[at.brick as int];
    &&& in_order(brick, keys)
    &&& verified + corrupt.len() == to - from
    &&& brick.reliable() ==> corrupt == rotten_among(brick, keys, from, to)
    &&& next == next_cursor(bricks.len(), at.brick, keys, to)
}

/// Where a scrub begins, or goes on.
pub open spec fn starting_at(cursor: Option<ScrubCursor>) -> ScrubCursor {
    match cursor {
        Some(at) => at,
        None => ScrubCursor { brick: 0, after: None },
    }
}

/// What a slice found. Past the last brick there is nothing.
pub open spec fn chunk_found<D: Disk>(
    bricks: Seq<Brick<D>>,
    cursor: Option<ScrubCursor>,
    budget: usize,
    verified: u64,
    corrupt: Seq<BlockHash>,
    next: Option<ScrubCursor>,
) -> bool {
    if starting_at(cursor).brick >= bricks.len() {
        verified == 0 && corrupt.len() == 0 && next is None
    } else {
        exists|keys: Seq<BlockHash>| #[trigger] slice_found(bricks, starting_at(cursor), budget, keys, verified, corrupt, next)
    }
}

proof fn lemma_passed(keys: Seq<BlockHash>, after: Option<BlockHash>, n: int)
    requires
        0 <= n <= keys.len(),
        forall|i: int| 0 <= i < n ==> after is Some && !after->Some_0.lt(#[trigger] keys[i]),
        n < keys.len() ==> !(after matches Some(h) && !h.lt(keys[n])),
    ensures
        passed(keys, after) == n,
    decreases n,
{
    if n > 0 {
        let rest = keys.drop_first();
        assert(!after->Some_0.lt(keys[0]));
        assert forall|i: int| 0 <= i < n - 1 implies after is Some && !after->Some_0.lt(#[trigger] rest[i]) by {
            assert(rest[i] == keys[i + 1]);
        }
        if n < keys.len() {
            assert(rest[n - 1] == keys[n]);
        }
        lemma_passed(rest, after, n - 1);
    }
}

/// The next slice of a brick begins where the last one ended: none of its
/// blocks is passed over, and none is verified twice.
pub proof fn law_slices_meet(keys: Seq<BlockHash>, to: int)
    requires
        ascending(keys),
        0 < to < keys.len(),
    ensures
        passed(keys, Some(keys[to - 1])) == to,
{
    let h = keys[to - 1];
    assert forall|i: int| 0 <= i < to implies !h.lt(#[trigger] keys[i]) by {
        if h.lt(keys[i]) {
            if i < to - 1 {
                assert(keys[i].lt(keys[to - 1]));
                BlockHash::lemma_asymmetric(keys[i], h);
            } else {
                BlockHash::lemma_asymmetric(h, h);
            }
        }
    }
    assert(keys[to - 1].lt(keys[to]));
    lemma_passed(keys, Some(h), to);
}

/// An address of a brick that a scrub has passed, by where it goes on.
pub open spec fn behind(next: Option<ScrubCursor>, brick: int, h: BlockHash) -> bool {
    match next {
        None => true,
        Some(at) => brick < at.brick || (brick == at.brick && (at.after matches Some(a) && !a.lt(h))),
    }
}

proof fn lemma_passed_by(keys: Seq<BlockHash>, after: Option<BlockHash>, i: int)
    ensures
        0 <= passed(keys, after) <= keys.len(),
        0 <= i < passed(keys, after) ==> (after matches Some(a) && !a.lt(keys[i])),
    decreases keys.len(),
{
    if keys.len() > 0 {
        lemma_passed_by(keys.drop_first(), after, i - 1);
    }
}

proof fn lemma_rotten_among<D: Disk>(brick: Brick<D>, keys: Seq<BlockHash>, from: int, to: int, h: BlockHash)
    ensures
        rotten_among(brick, keys, from, to).contains(h) <==> !brick.blocks().contains_key(h) && exists|j: int| from <= j < to && #[trigger] keys[j] == h,
    decreases to - from,
{
    if from < to {
        let rest = rotten_among(brick, keys, from, to - 1);
        let all = rotten_among(brick, keys, from, to);
        lemma_rotten_among(brick, keys, from, to - 1, h);
        if all.contains(h) {
            let k = choose|k: int| 0 <= k < all.len() && all[k] == h;
            if k < rest.len() {
                assert(rest[k] == h);
                assert(rest.contains(h));
            } else {
                assert(keys[to - 1] == h);
            }
        }
        if !brick.blocks().contains_key(h) && exists|j: int| from <= j < to && #[trigger] keys[j] == h {
            let j = choose|j: int| from <= j < to && #[trigger] keys[j] == h;
            if j < to - 1 {
                let k = choose|k: int| 0 <= k < rest.len() && rest[k] == h;
                assert(all[k] == h);
            } else {
                assert(all.last() == h);
            }
        }
    }
}

/// A slice reports what it passes: an address that was ahead of the scrub and
/// is behind it now, and that its brick holds and cannot produce, is among
/// those reported; and whatever is reported is such an address of the brick
/// the slice was of.
pub proof fn law_a_slice_reports_what_it_passes<D: Disk>(
    bricks: Seq<Brick<D>>,
    cursor: Option<ScrubCursor>,
    budget: usize,
    verified: u64,
    corrupt: Seq<BlockHash>,
    next: Option<ScrubCursor>,
    brick: int,
    h: BlockHash,
)
    requires
        chunk_found(bricks, cursor, budget, verified, corrupt, next),
        starting_at(cursor).brick < bricks.len() <= usize::MAX,
        bricks[starting_at(cursor).brick as int].reliable(),
        0 <= brick < bricks.len(),
    ensures
        bricks[brick].held().contains(h) && !bricks[brick].blocks().contains_key(h) && behind(next, brick, h) && !behind(Some(starting_at(cursor)), brick, h)
            ==> corrupt.contains(h),
        corrupt.contains(h) ==> bricks[starting_at(cursor).brick as int].held().contains(h) && !bricks[starting_at(cursor).brick as int].blocks().contains_key(h)
            && behind(next, starting_at(cursor).brick as int, h) && !behind(Some(starting_at(cursor)), starting_at(cursor).brick as int, h),
{
    let at = starting_at(cursor);
    let keys = choose|keys: Seq<BlockHash>| #[trigger] slice_found(bricks, at, budget, keys, verified, corrupt, next);
    let from = passed(keys, at.after);
    let to = slice_end(keys.len() as int, from, budget);
    let b = bricks[at.brick as int];
    lemma_passed_by(keys, at.after, 0);
    lemma_rotten_among(b, keys, from, to, h);
    if bricks[brick].held().contains(h) && !bricks[brick].blocks().contains_key(h) && behind(next, brick, h) && !behind(Some(at), brick, h) {
        assert(brick == at.brick);
        assert(keys.contains(h));
        let j = choose|j: int| 0 <= j < keys.len() && keys[j] == h;
        lemma_passed_by(keys, at.after, j);
        if to < keys.len() && j >= to {
            assert(keys[to - 1].lt(keys[j]));
        }
        assert(from <= j < to);
        assert(keys[j] == h);
    }
    if corrupt.contains(h) {
        let j = choose|j: int| from <= j < to && #[trigger] keys[j] == h;
        assert(0 <= from <= j < to <= keys.len());
        assert(keys.contains(h)) by {
            assert(keys[j] == h);
        }
        assert(b.held().contains(h));
        if to < keys.len() && keys[to - 1].lt(h) {
            if j < to - 1 {
                assert(keys[j].lt(keys[to - 1]));
                BlockHash::lemma_asymmetric(h, keys[to - 1]);
            } else {
                BlockHash::lemma_asymmetric(h, h);
            }
        }
        assert(behind(next, at.brick as int, h));
        lemma_ahead(keys, at.after, j);
    }
}

proof fn lemma_ahead(keys: Seq<BlockHash>, after: Option<BlockHash>, j: int)
    requires
        ascending(keys),
        passed(keys, after) <= j < keys.len(),
    ensures
        after matches Some(a) ==> a.lt(keys[j]),
    decreases keys.len(),
{
    if let Some(a) = after {
        if a.lt(keys[0]) {
            if j > 0 {
                assert(keys[0].lt(keys[j]));
                BlockHash::lemma_transitive(a, keys[0], keys[j]);
            }
        } else {
            let rest = keys.drop_first();
            assert forall|x: int, y: int| 0 <= x < y < rest.len() implies (#[trigger] rest[x]).lt(#[trigger] rest[y]) by {
                assert(keys[x + 1].lt(keys[y + 1]));
            }
            lemma_passed_by(rest, after, 0);
            assert(j >= 1);
            lemma_ahead(rest, after, j - 1);
            assert(rest[j - 1] == keys[j]);
        }
    }
}

impl<D: Disk> BrickSet<D> {
    /// One bounded slice of a scrub: every record read back and verified
    /// against its address. The caller drives the cursor.
    pub fn scrub_chunk(&self, cursor: Option<ScrubCursor>, budget: usize) -> (r: Result<(u64, Vec<BlockHash>, Option<ScrubCursor>)>)
        requires
            self.inv(),
        ensures
            self.reliable() ==> r is Ok,
            r matches Ok(found) ==> chunk_found(self.members(), cursor, budget, found.0, found.1@, found.2),
    {
        let at: ScrubCursor = match cursor {
            Some(at) => at,
            None => ScrubCursor { brick: 0, after: None },
        };
        let mut corrupt: Vec<BlockHash> = Vec::new();
        if at.brick >= self.bricks.len() {
            return Ok((0, corrupt, None));
        }
        proof {
            self.lemma_set();
        }
        let brick = &self.bricks[at.brick];
        assert(self.members()[at.brick as int] == *brick);
        assert(brick.inv());
        let keys: Vec<BlockHash> = brick.indexed_hashes();
        let len: usize = keys.len();
        let mut from: usize = 0;
        if let Some(h) = at.after {
            while from < len && !h.key_before(&keys[from])
                invariant
                    from <= len == keys@.len(),
                    forall|i: int| 0 <= i < from ==> !h.lt(#[trigger] keys@[i]),
                decreases len - from,
            {
                from += 1;
            }
        }
        proof {
            lemma_passed(keys@, at.after, from as int);
        }
        let most: usize = if budget == 0 {
            1
        } else {
            budget
        };
        let to: usize = if most < len - from {
            from + most
        } else {
            len
        };
        let mut verified: u64 = 0;
        let mut i: usize = from;
        while i < to
            invariant
                from <= i <= to <= len == keys@.len(),
                brick.inv(),
                self.inv(),
                0 <= at.brick < self.members().len(),
                self.members()[at.brick as int] == *brick,
                in_order(*brick, keys@),
                verified <= i - from,
                verified + corrupt@.len() == i - from,
                brick.reliable() ==> corrupt@ == rotten_among(*brick, keys@, from as int, i as int),
            decreases to - i,
        {
            let hash = keys[i];
            assert(keys@.contains(hash));
            assert(brick.held().contains(hash));
            match brick.get(&hash) {
                Ok(_) => {
                    verified += 1;
                },
                Err(FsError::Corrupt(_)) => {
                    corrupt.push(hash);
                },
                Err(e) => {
                    proof {
                        if self.reliable() {
                            assert(self.members()[at.brick as int].reliable());
                        }
                    }
                    return Err(e);
                },
            }
            i += 1;
        }
        let next: Option<ScrubCursor> = if to < len {
            Some(ScrubCursor { brick: at.brick, after: Some(keys[to - 1]) })
        } else if at.brick + 1 < self.bricks.len() {
            Some(ScrubCursor { brick: at.brick + 1, after: None })
        } else {
            None
        };
        assert(at == starting_at(cursor));
        assert(slice_found(self.members(), starting_at(cursor), budget, keys@, verified, corrupt@, next));
        Ok((verified, corrupt, next))
    }
}

} // verus!
