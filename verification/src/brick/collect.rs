//! Collection: dropping what is no longer live, giving empty segments back,
//! and moving what is left of sparse ones together.

use super::write::lemma_insert_entry;
use super::{kept_region, lemma_segments, lemma_segments_apart, readable, seg_base, seg_end, seg_of, Brick, GcStats, Location, OpenSegment};
use crate::disk::Disk;
use crate::error::{FsError, Result};
use crate::format::{record_span, span_of, Superblock, SECTOR_SIZE};
use crate::hash::BlockHash;
use crate::table::{entry_for, has_entry, BlockSet, BlockTable};
use vstd::prelude::*;

verus! {

/// Some entry of the index lies in the segment.
pub open spec fn occupied(sb: Superblock, index: Map<BlockHash, Location>, seg: int) -> bool {
    exists|h: BlockHash| #[trigger] index.contains_key(h) && seg_of(sb, index[h].offset as int) == seg
}

/// The segment is in use and nothing live is in it.
pub open spec fn dead(
    sb: Superblock,
    index: Map<BlockHash, Location>,
    free: Seq<u64>,
    open: Option<OpenSegment>,
    seg: int,
) -> bool {
    &&& !(open is Some && open->Some_0.index == seg)
    &&& !free.contains(seg as u64)
    &&& !occupied(sb, index, seg)
}

/// How many of the first `n` segments are dead.
pub open spec fn dead_count(
    sb: Superblock,
    index: Map<BlockHash, Location>,
    free: Seq<u64>,
    open: Option<OpenSegment>,
    n: nat,
) -> nat
    decreases n,
{
    if n == 0 {
        0
    } else {
        dead_count(sb, index, free, open, (n - 1) as nat) + if dead(sb, index, free, open, n - 1) {
            1nat
        } else {
            0nat
        }
    }
}

/// The free segments a collection aims for.
pub open spec fn free_target(segment_count: u64) -> u64 {
    let half = segment_count / 2;
    let least = (super::reserve_of(segment_count) + 2) as u64;
    if half < least {
        least
    } else {
        half
    }
}

/// The addresses that lie in a segment.
pub open spec fn dwellers(sb: Superblock, index: Map<BlockHash, Location>, seg: int) -> Set<BlockHash> {
    index.dom().filter(|h: BlockHash| seg_of(sb, index[h].offset as int) == seg)
}

/// Adding the span of one more entry.
pub open spec fn adding(index: Map<BlockHash, Location>) -> spec_fn(nat, BlockHash) -> nat {
    |sum: nat, h: BlockHash| (sum + span_of(index[h].length)) as nat
}

/// The span of everything that lies in a segment.
pub open spec fn fill(sb: Superblock, index: Map<BlockHash, Location>, seg: int) -> nat {
    dwellers(sb, index, seg).fold(0nat, adding(index))
}

/// The span of some addresses' records, one after the other.
spec fn span_sum(index: Map<BlockHash, Location>, s: Seq<BlockHash>) -> nat
    decreases s.len(),
{
    if s.len() == 0 {
        0
    } else {
        (span_sum(index, s.drop_last()) + span_of(index[s.last()].length)) as nat
    }
}

/// What a word can hold of it.
spec fn in_word(n: nat) -> u64 {
    if n <= u64::MAX {
        n as u64
    } else {
        u64::MAX
    }
}

proof fn lemma_sum_is_fold(index: Map<BlockHash, Location>, s: Seq<BlockHash>)
    requires
        s.no_duplicates(),
    ensures
        s.to_set().finite(),
        s.to_set().fold(0nat, adding(index)) == span_sum(index, s),
    decreases s.len(),
{
    s.unique_seq_to_set();
    if s.len() == 0 {
        assert(s.to_set() =~= Set::<BlockHash>::empty());
        vstd::set::fold::lemma_fold_empty(0nat, adding(index));
    } else {
        let rest = s.drop_last();
        lemma_sum_is_fold(index, rest);
        assert(s.to_set() =~= rest.to_set().insert(s.last())) by {
            assert forall|h: BlockHash| s.contains(h) implies rest.contains(h) || h == s.last() by {
                let i = choose|i: int| 0 <= i < s.len() && s[i] == h;
                if i < s.len() - 1 {
                    assert(rest[i] == h);
                }
            }
            assert forall|h: BlockHash| rest.contains(h) || h == s.last() implies s.contains(h) by {
                if rest.contains(h) {
                    let i = choose|i: int| 0 <= i < rest.len() && rest[i] == h;
                    assert(s[i] == h);
                } else {
                    assert(s[s.len() - 1] == h);
                }
            }
        }
        assert(!rest.to_set().contains(s.last())) by {
            if rest.contains(s.last()) {
                let i = choose|i: int| 0 <= i < rest.len() && rest[i] == s.last();
                assert(s[i] == s[s.len() - 1]);
            }
        }
        vstd::set::fold::lemma_fold_insert(rest.to_set(), 0nat, adding(index), s.last());
    }
}

/// What comes first adds up to no more than the whole.
proof fn lemma_sum_prefix(index: Map<BlockHash, Location>, s: Seq<BlockHash>, i: int)
    requires
        0 <= i <= s.len(),
    ensures
        span_sum(index, s.subrange(0, i)) <= span_sum(index, s),
    decreases s.len() - i,
{
    if i < s.len() {
        assert(s.subrange(0, i + 1).drop_last() =~= s.subrange(0, i));
        lemma_sum_prefix(index, s, i + 1);
    } else {
        assert(s.subrange(0, i) =~= s);
    }
}

/// The addresses of a listing that lie in a segment, in its order.
spec fn picked(sb: Superblock, s: Seq<(BlockHash, Location)>, seg: int) -> Seq<BlockHash>
    decreases s.len(),
{
    if s.len() == 0 {
        Seq::empty()
    } else if seg_of(sb, s.last().1.offset as int) == seg {
        picked(sb, s.drop_last(), seg).push(s.last().0)
    } else {
        picked(sb, s.drop_last(), seg)
    }
}

proof fn lemma_picked(sb: Superblock, index: Map<BlockHash, Location>, s: Seq<(BlockHash, Location)>, seg: int)
    requires
        forall|k: int| 0 <= k < s.len() ==> index.contains_pair((#[trigger] s[k]).0, s[k].1),
        forall|j: int, k: int| 0 <= j < k < s.len() ==> (#[trigger] s[j]).0 != (#[trigger] s[k]).0,
    ensures
        picked(sb, s, seg).no_duplicates(),
        forall|h: BlockHash| #[trigger] picked(sb, s, seg).contains(h) <==> has_entry(s, h) && seg_of(sb, index[h].offset as int) == seg,
    decreases s.len(),
{
    let all = picked(sb, s, seg);
    if s.len() > 0 {
        let rest = s.drop_last();
        let before = picked(sb, rest, seg);
        assert forall|j: int, k: int| 0 <= j < k < rest.len() implies (#[trigger] rest[j]).0 != (#[trigger] rest[k]).0 by {
            assert(s[j].0 != s[k].0);
        }
        assert forall|k: int| 0 <= k < rest.len() implies index.contains_pair((#[trigger] rest[k]).0, rest[k].1) by {
            assert(index.contains_pair(s[k].0, s[k].1));
        }
        lemma_picked(sb, index, rest, seg);
        assert(s[s.len() - 1] == s.last());
        assert forall|h: BlockHash| has_entry(s, h) <==> has_entry(rest, h) || h == s.last().0 by {
            if has_entry(s, h) {
                let k = choose|k: int| #[trigger] entry_for(s, h, k);
                if k < s.len() - 1 {
                    assert(entry_for(rest, h, k));
                }
            }
            if has_entry(rest, h) {
                let k = choose|k: int| #[trigger] entry_for(rest, h, k);
                assert(entry_for(s, h, k));
            }
            if h == s.last().0 {
                assert(entry_for(s, h, s.len() - 1));
            }
        }
        assert(!has_entry(rest, s.last().0)) by {
            if has_entry(rest, s.last().0) {
                let k = choose|k: int| #[trigger] entry_for(rest, s.last().0, k);
                assert(s[k].0 != s[s.len() - 1].0);
            }
        }
        assert forall|h: BlockHash| #[trigger] all.contains(h) <==> before.contains(h) || (h == s.last().0 && seg_of(sb, s.last().1.offset as int) == seg) by {
            if seg_of(sb, s.last().1.offset as int) == seg {
                if before.contains(h) {
                    let k = choose|k: int| 0 <= k < before.len() && before[k] == h;
                    assert(all[k] == h);
                }
                if h == s.last().0 {
                    assert(all[before.len() as int] == h);
                }
            }
        }
        assert(!before.contains(s.last().0));
    }
}

/// What a listing's picks of a segment add up to is what the segment is
/// filled with.
proof fn lemma_fill(sb: Superblock, index: Map<BlockHash, Location>, members: Seq<BlockHash>, seg: int)
    requires
        members.no_duplicates(),
        forall|h: BlockHash| #[trigger] members.contains(h) <==> index.contains_key(h) && seg_of(sb, index[h].offset as int) == seg,
    ensures
        fill(sb, index, seg) == span_sum(index, members),
{
    lemma_sum_is_fold(index, members);
    assert(members.to_set() =~= dwellers(sb, index, seg));
}

/// The count of a segment is the span of a listing's picks of it.
spec fn tallied(sb: Superblock, index: Map<BlockHash, Location>, s: Seq<(BlockHash, Location)>, spans: Seq<u64>, seg: int) -> bool {
    spans[seg] == in_word(span_sum(index, picked(sb, s, seg)))
}

/// A span count of zero marks exactly the segments no entry lies in.
spec fn marks(sb: Superblock, s: Seq<(BlockHash, Location)>, spans: Seq<u64>, seg: int) -> bool {
    spans[seg] > 0 <==> exists|k: int|
        0 <= k < s.len() && seg_of(sb, (#[trigger] s[k]).1.offset as int) == seg
}

/// `x` comes before the `k`-th.
spec fn later(s: Seq<u64>, x: u64, k: int) -> bool {
    exists|q: int| 0 <= q < k && #[trigger] s[q] == x
}

/// A segment in use, not the open one, that is less than nine tenths full.
pub open spec fn sparse(sb: Superblock, index: Map<BlockHash, Location>, open: Option<OpenSegment>, seg: u64) -> bool {
    &&& seg < sb.segment_count
    &&& !(open is Some && open->Some_0.index == seg)
    &&& occupied(sb, index, seg as int)
    &&& fill(sb, index, seg as int) * 10 < (sb.segment_size - SECTOR_SIZE) * 9
}

/// One segment is emptied before another: the emptier first, the lower
/// number among equals.
pub open spec fn emptier(sb: Superblock, index: Map<BlockHash, Location>, a: u64, b: u64) -> bool {
    fill(sb, index, a as int) < fill(sb, index, b as int) || (fill(sb, index, a as int) == fill(sb, index, b as int) && a < b)
}

/// Which segment is open, if one is.
pub open spec fn opened_at(open: Option<OpenSegment>) -> Option<u64> {
    match open {
        Some(o) => Some(o.index),
        None => None,
    }
}

/// The live span of some segments.
pub open spec fn fills(sb: Superblock, index: Map<BlockHash, Location>, s: Seq<u64>) -> nat
    decreases s.len(),
{
    if s.len() == 0 {
        0
    } else {
        fills(sb, index, s.drop_last()) + fill(sb, index, s.last() as int)
    }
}

/// How many addresses lie in some segments, one of them left out.
pub open spec fn counts(sb: Superblock, index: Map<BlockHash, Location>, but: Option<u64>, s: Seq<u64>) -> nat
    decreases s.len(),
{
    if s.len() == 0 {
        0
    } else {
        counts(sb, index, but, s.drop_last()) + if but == Some(s.last()) {
            0
        } else {
            dwellers(sb, index, s.last() as int).len()
        }
    }
}

/// The count of blocks moved is that of the segments emptied. The one that
/// was open has gained some meanwhile.
spec fn moves_told(sb: Superblock, index: Map<BlockHash, Location>, but: Option<u64>, s: Seq<u64>, moved: u64) -> bool {
    &&& moved >= in_word(counts(sb, index, but, s))
    &&& !(but is Some && s.contains(but->Some_0)) ==> moved == in_word(counts(sb, index, but, s))
}

/// How far a compaction has come: what lay in a segment that was in use, was
/// not open and was not emptied lies there still, and nothing has joined it.
spec fn under_way(
    sb: Superblock,
    kept: Map<BlockHash, Location>,
    given: Seq<u64>,
    first: Option<u64>,
    index: Map<BlockHash, Location>,
    free: Seq<u64>,
    open: Option<OpenSegment>,
    emptied: Seq<u64>,
) -> bool {
    &&& index.dom() == kept.dom()
    &&& forall|x: u64| #[trigger] free.contains(x) ==> given.contains(x) || emptied.contains(x)
    &&& open matches Some(o) ==> first == Some(o.index) || given.contains(o.index) || emptied.contains(o.index)
    &&& forall|h: BlockHash| #[trigger] index.contains_key(h) && index[h] != kept[h] ==> {
        let (was, now) = (seg_of(sb, kept[h].offset as int), seg_of(sb, index[h].offset as int));
        &&& first == Some(was as u64) || emptied.contains(was as u64)
        &&& first == Some(now as u64) || given.contains(now as u64) || emptied.contains(now as u64)
        &&& 0 <= was <= u64::MAX && 0 <= now <= u64::MAX
    }
}

/// A segment that compaction has not come to is as it was.
proof fn lemma_under_way(
    sb: Superblock,
    kept: Map<BlockHash, Location>,
    given: Seq<u64>,
    first: Option<u64>,
    index: Map<BlockHash, Location>,
    free: Seq<u64>,
    open: Option<OpenSegment>,
    emptied: Seq<u64>,
    seg: u64,
)
    requires
        under_way(sb, kept, given, first, index, free, open, emptied),
        first != Some(seg),
        !given.contains(seg),
        !emptied.contains(seg),
    ensures
        !free.contains(seg),
        !(open is Some && open->Some_0.index == seg),
        dwellers(sb, index, seg as int) == dwellers(sb, kept, seg as int),
        forall|h: BlockHash| #[trigger] dwellers(sb, kept, seg as int).contains(h) ==> index[h] == kept[h],
        kept.dom().finite() ==> fill(sb, index, seg as int) == fill(sb, kept, seg as int),
{
    let (x, y) = (dwellers(sb, index, seg as int), dwellers(sb, kept, seg as int));
    assert forall|h: BlockHash| x.contains(h) <==> y.contains(h) by {
        assert(index.contains_key(h) == kept.dom().contains(h));
    }
    assert(x =~= y);
    assert forall|h: BlockHash| #[trigger] y.contains(h) implies index[h] == kept[h] by {
        assert(index.dom().contains(h));
        assert(index.contains_key(h));
    }
    if kept.dom().finite() {
        lemma_fold_same(index, kept, y);
    }
}

/// A sum over entries rests on those entries alone.
proof fn lemma_fold_same(a: Map<BlockHash, Location>, b: Map<BlockHash, Location>, s: Set<BlockHash>)
    requires
        s.finite(),
        forall|h: BlockHash| #[trigger] s.contains(h) ==> a[h] == b[h],
    ensures
        s.fold(0nat, adding(a)) == s.fold(0nat, adding(b)),
    decreases s.len(),
{
    if s.len() == 0 {
        assert(s =~= Set::<BlockHash>::empty());
        vstd::set::fold::lemma_fold_empty(0nat, adding(a));
        vstd::set::fold::lemma_fold_empty(0nat, adding(b));
    } else {
        let h = s.choose();
        let rest = s.remove(h);
        lemma_fold_same(a, b, rest);
        assert(rest.insert(h) =~= s);
        vstd::set::fold::lemma_fold_insert(rest, 0nat, adding(a), h);
        vstd::set::fold::lemma_fold_insert(rest, 0nat, adding(b), h);
    }
}

/// Compaction goes on: a segment was emptied and given back.
proof fn lemma_way_on(
    sb: Superblock,
    kept: Map<BlockHash, Location>,
    given: Seq<u64>,
    first: Option<u64>,
    index: Map<BlockHash, Location>,
    free: Seq<u64>,
    open: Option<OpenSegment>,
    emptied: Seq<u64>,
    seg: u64,
    members: Seq<BlockHash>,
    later_index: Map<BlockHash, Location>,
    later_free: Seq<u64>,
    later_open: Option<OpenSegment>,
)
    requires
        under_way(sb, kept, given, first, index, free, open, emptied),
        forall|h: BlockHash| #[trigger] members.contains(h) <==> index.contains_key(h) && seg_of(sb, index[h].offset as int) == seg,
        later_index.dom() == index.dom(),
        forall|x: u64| #[trigger] later_free.contains(x) ==> free.contains(x) || x == seg,
        later_open matches Some(o) ==> (open is Some && open->Some_0.index == o.index) || free.contains(o.index),
        forall|h: BlockHash| #[trigger] later_index.contains_key(h) && later_index[h] != index[h] ==> {
            let now = seg_of(sb, later_index[h].offset as int);
            &&& members.contains(h)
            &&& (open is Some && open->Some_0.index == now) || (0 <= now <= u64::MAX && free.contains(now as u64))
        },
    ensures
        under_way(sb, kept, given, first, later_index, later_free, later_open, emptied.push(seg)),
{
    let all = emptied.push(seg);
    assert(all[emptied.len() as int] == seg);
    assert forall|x: u64| #[trigger] emptied.contains(x) implies all.contains(x) by {
        let j = choose|j: int| 0 <= j < emptied.len() && emptied[j] == x;
        assert(all[j] == x);
    }
    assert(all.contains(seg));
    assert forall|h: BlockHash| #[trigger] later_index.contains_key(h) && later_index[h] != kept[h] implies ({
        let (was, now) = (seg_of(sb, kept[h].offset as int), seg_of(sb, later_index[h].offset as int));
        &&& first == Some(was as u64) || all.contains(was as u64)
        &&& first == Some(now as u64) || given.contains(now as u64) || all.contains(now as u64)
        &&& 0 <= was <= u64::MAX && 0 <= now <= u64::MAX
    }) by {
        assert(later_index.dom().contains(h));
        assert(index.contains_key(h));
        if later_index[h] != index[h] && index[h] == kept[h] {
            assert(members.contains(h));
        }
    }
}

/// One more segment's blocks are counted.
proof fn lemma_one_more(sb: Superblock, kept: Map<BlockHash, Location>, first: Option<u64>, emptied: Seq<u64>, seg: u64, members: Seq<BlockHash>, was: u64, n: u64)
    requires
        moves_told(sb, kept, first, emptied, was),
        n == members.len(),
        members.no_duplicates(),
        first != Some(seg) ==> members.to_set() == dwellers(sb, kept, seg as int),
    ensures
        moves_told(sb, kept, first, emptied.push(seg), in_word((was + n) as nat)),
{
    let all = emptied.push(seg);
    members.unique_seq_to_set();
    assert(all.drop_last() =~= emptied);
    assert(all[emptied.len() as int] == seg);
    if first is Some && emptied.contains(first->Some_0) {
        let j = choose|j: int| 0 <= j < emptied.len() && emptied[j] == first->Some_0;
        assert(all[j] == first->Some_0);
    }
}

/// Segments ranked by what is in them, every one with something in it once.
spec fn ranked(spans: Seq<u64>, order: Seq<u64>) -> bool {
    &&& forall|k: int| 0 <= k < order.len() ==> (#[trigger] order[k]) < spans.len() && spans[order[k] as int] > 0
    &&& forall|a: int, c: int|
        0 <= a < c < order.len() ==> spans[#[trigger] order[a] as int] < spans[#[trigger] order[c] as int] || (spans[order[a] as int] == spans[order[c] as int]
            && order[a] < order[c])
    &&& forall|x: u64| x < spans.len() && spans[x as int] > 0 ==> #[trigger] order.contains(x)
}

/// Less than nine tenths full.
spec fn lean(sb: Superblock, index: Map<BlockHash, Location>, seg: u64) -> bool {
    fill(sb, index, seg as int) * 10 < (sb.segment_size - SECTOR_SIZE) * 9
}

/// The first `upto` of the candidates were emptied in their order, but for
/// the one that was open.
spec fn in_turn(sb: Superblock, kept: Map<BlockHash, Location>, first: Option<u64>, order: Seq<u64>, upto: int, emptied: Seq<u64>) -> bool {
    &&& forall|k: int| 0 <= k < upto ==> emptied.contains(#[trigger] order[k]) || first == Some(order[k])
    &&& forall|j: int| 0 <= j < emptied.len() ==> later(order, #[trigger] emptied[j], upto)
    &&& forall|a: int, b: int| 0 <= a < b < emptied.len() ==> emptier(sb, kept, #[trigger] emptied[a], #[trigger] emptied[b])
    &&& forall|j: int| 0 <= j < emptied.len() ==> lean(sb, kept, #[trigger] emptied[j]) || first == Some(emptied[j])
}

/// Why compaction stops at a segment: enough is free, enough was moved, or
/// the segment is nearly full.
spec fn stopped(
    sb: Superblock,
    index: Map<BlockHash, Location>,
    free: Seq<u64>,
    open: Option<OpenSegment>,
    kept: Map<BlockHash, Location>,
    first: Option<u64>,
    seg: u64,
    target: u64,
    moved: u64,
    budget: u128,
) -> bool {
    ||| free.len() >= target
    ||| moved >= budget
    ||| first != Some(seg) && !lean(sb, kept, seg)
    ||| first == Some(seg) && !(open is Some && open->Some_0.index == seg) && !lean(sb, index, seg)
}

/// By rank is by emptiness, as long as one of the two is lean.
proof fn lemma_rank(sb: Superblock, kept: Map<BlockHash, Location>, spans: Seq<u64>, a: u64, b: u64)
    requires
        a < spans.len() && b < spans.len(),
        forall|seg: int| 0 <= seg < spans.len() ==> #[trigger] spans[seg] == in_word(fill(sb, kept, seg)),
        lean(sb, kept, a) || lean(sb, kept, b),
        spans[a as int] < spans[b as int] || (spans[a as int] == spans[b as int] && a < b),
    ensures
        emptier(sb, kept, a, b),
{
    assert(spans[a as int] == in_word(fill(sb, kept, a as int)));
    assert(spans[b as int] == in_word(fill(sb, kept, b as int)));
}

/// The next candidate is emptied in its turn.
proof fn lemma_next_in_turn(sb: Superblock, kept: Map<BlockHash, Location>, first: Option<u64>, spans: Seq<u64>, order: Seq<u64>, k: int, emptied: Seq<u64>)
    requires
        in_turn(sb, kept, first, order, k, emptied),
        ranked(spans, order),
        forall|seg: int| 0 <= seg < spans.len() ==> #[trigger] spans[seg] == in_word(fill(sb, kept, seg)),
        0 <= k < order.len(),
    ensures
        !emptied.contains(order[k]),
        lean(sb, kept, order[k]) || first == Some(order[k]) ==> in_turn(sb, kept, first, order, k + 1, emptied.push(order[k])),
        first == Some(order[k]) ==> in_turn(sb, kept, first, order, k + 1, emptied),
{
    let seg = order[k];
    let all = emptied.push(seg);
    assert forall|j: int| 0 <= j < emptied.len() implies #[trigger] emptied[j] != seg && later(order, emptied[j], k + 1) by {
        assert(later(order, emptied[j], k));
        let q = choose|q: int| 0 <= q < k && #[trigger] order[q] == emptied[j];
        assert(order[q] == emptied[j]);
        assert(order[q] != order[k]);
    }
    if lean(sb, kept, seg) || first == Some(seg) {
        assert(all[emptied.len() as int] == seg);
        assert forall|x: u64| #[trigger] emptied.contains(x) implies all.contains(x) by {
            let j = choose|j: int| 0 <= j < emptied.len() && emptied[j] == x;
            assert(all[j] == x);
        }
        assert forall|q: int| 0 <= q < k + 1 implies all.contains(#[trigger] order[q]) || first == Some(order[q]) by {
            if q < k {
                assert(emptied.contains(order[q]) || first == Some(order[q]));
            }
        }
        assert forall|j: int| 0 <= j < all.len() implies later(order, #[trigger] all[j], k + 1) by {
            if j < emptied.len() {
                assert(all[j] == emptied[j]);
            } else {
                assert(order[k] == all[j]);
            }
        }
        assert forall|a: int, b: int| 0 <= a < b < all.len() implies emptier(sb, kept, #[trigger] all[a], #[trigger] all[b]) by {
            assert(all[a] == emptied[a]);
            if b < emptied.len() {
                assert(all[b] == emptied[b]);
            } else {
                assert(later(order, emptied[a], k));
                let q = choose|q: int| 0 <= q < k && #[trigger] order[q] == emptied[a];
                assert(spans[order[q] as int] < spans[order[k] as int] || (spans[order[q] as int] == spans[order[k] as int] && order[q] < order[k]));
                assert(emptied[a] != seg);
                lemma_rank(sb, kept, spans, emptied[a], seg);
            }
        }
    }
}

/// The blocks moved are those that were live in the segments emptied; the
/// segment that was open at the start has gained some by the time its turn
/// comes.
pub open spec fn moves_counted<D: Disk>(before: &Brick<D>, live: Set<BlockHash>, emptied: Seq<u64>, moved: u64) -> bool {
    let told = before.live_counts(live, emptied);
    let capped = if told > u64::MAX { u64::MAX as nat } else { told };
    &&& moved >= capped
    &&& !(before.writing() is Some && emptied.contains(before.writing()->Some_0.index)) ==> moved == capped
}

/// How full a segment is at least once it is closed for want of room.
pub open spec fn packed(sb: Superblock) -> int {
    sb.segment_size - SECTOR_SIZE - span_of(sb.block_size)
}

/// The segments opened so far, each counted as packed, and what the open one
/// holds.
spec fn written_out(sb: Superblock, seq: u64, open: Option<OpenSegment>) -> int {
    seq * packed(sb) + match open {
        Some(o) => o.cursor - seg_base(sb, o.index as int) - SECTOR_SIZE,
        None => packed(sb),
    }
}

impl<D: Disk> Brick<D> {
    /// How much of a segment's room what is live in it takes.
    pub closed spec fn live_fill(&self, live: Set<BlockHash>, seg: u64) -> nat {
        fill(self.sb, self.index@.restrict(live), seg as int)
    }

    /// A segment in use, not the open one, that is less than nine tenths
    /// full of what is live.
    pub closed spec fn worth_emptying(&self, live: Set<BlockHash>, seg: u64) -> bool {
        sparse(self.sb, self.index@.restrict(live), self.open, seg)
    }

    /// One segment is emptied before another.
    pub open spec fn emptied_first(&self, live: Set<BlockHash>, a: u64, b: u64) -> bool {
        self.live_fill(live, a) < self.live_fill(live, b) || (self.live_fill(live, a) == self.live_fill(live, b) && a < b)
    }

    /// How many live blocks lie in some segments, the open one left out.
    pub closed spec fn live_counts(&self, live: Set<BlockHash>, s: Seq<u64>) -> nat {
        counts(self.sb, self.index@.restrict(live), opened_at(self.open), s)
    }

    /// The live span of some segments.
    pub closed spec fn live_fills(&self, live: Set<BlockHash>, s: Seq<u64>) -> nat {
        fills(self.sb, self.index@.restrict(live), s)
    }

    /// A free segment may be opened once the dead ones are given back, and
    /// incarnations last for a collection.
    pub open spec fn may_compact(&self, live: Set<BlockHash>) -> bool {
        &&& self.free_list().len() + self.dead_segments(live) > (if self.reserve_is_open() { 0 } else { self.kept_back() as int })
        &&& self.last_seq() + self.superblock().segment_count < u64::MAX
    }

    /// The segment that `before` had open was closed since, and is nearly
    /// full of what is live.
    pub open spec fn outgrew(&self, before: &Self) -> bool {
        before.writing() matches Some(o) && !(self.writing() is Some && self.writing()->Some_0.index == o.index) && self.live_fill(
            self.held(),
            o.index,
        ) * 10 >= (self.superblock().segment_size - SECTOR_SIZE) * 9
    }

    /// The segments a collection emptied, one after the other, and where it
    /// stopped. A segment that was opened on the way was packed before the
    /// next was. It takes the emptiest that is left, and goes on until enough
    /// segments are free, the round's budget is spent, or nothing that is
    /// worth emptying is left. The segment that was open at the start may
    /// end it too: it is looked at in the place it had then, and by then may
    /// be full.
    pub open spec fn emptied_in_turn(&self, before: &Self, live: Set<BlockHash>, emptied: Seq<u64>) -> bool {
        let sb = before.superblock();
        let room = sb.segment_size - SECTOR_SIZE;
        let opened = opened_at(before.writing());
        let spent = before.live_fills(live, emptied) + if opened is Some && emptied.contains(opened->Some_0) { room } else { 0 };
        &&& (self.last_seq() - before.last_seq()) * packed(sb) <= spent + room
        &&& forall|i: int| 0 <= i < emptied.len() ==> before.worth_emptying(live, #[trigger] emptied[i]) || opened == Some(emptied[i])
        &&& forall|i: int, j: int| 0 <= i < j < emptied.len() ==> before.emptied_first(live, #[trigger] emptied[i], #[trigger] emptied[j])
        &&& forall|seg: u64, j: int|
            0 <= j < emptied.len() && #[trigger] before.worth_emptying(live, seg) && before.emptied_first(live, seg, #[trigger] emptied[j]) ==> emptied.contains(seg)
        &&& {
            ||| self.free_list().len() >= free_target(sb.segment_count)
            ||| spent >= 4 * sb.segment_size
            ||| forall|seg: u64| #[trigger] before.worth_emptying(live, seg) ==> emptied.contains(seg)
            ||| self.outgrew(before) && forall|seg: u64| #[trigger] before.worth_emptying(live, seg) && before.emptied_first(live, seg, opened->Some_0)
                ==> emptied.contains(seg)
        }
    }

    /// What a collection of a brick on a reliable disk gains: every segment
    /// that was dead or emptied is free, but for those opened on the way, and
    /// the emptied ones were taken in turn.
    pub open spec fn compacted_well(&self, before: &Self, live: Set<BlockHash>, stats: GcStats) -> bool {
        &&& before.reliable() ==> self.free_list().len() + (self.last_seq() - before.last_seq()) == before.free_list().len() + before.dead_segments(live)
            + stats.segments_compacted
        &&& before.reliable() && before.intact() && before.may_compact(live) ==> exists|emptied: Seq<u64>|
            stats.segments_compacted == emptied.len() && #[trigger] self.emptied_in_turn(before, live, emptied) && moves_counted(
                before,
                live,
                emptied,
                stats.blocks_moved,
            )
    }

    /// Giving the dead segments back would not leave enough of them free,
    /// one of those free may be opened, and some segment is sparse.
    pub closed spec fn compaction_due(&self, live: Set<BlockHash>) -> bool {
        let free = self.free@.len() + self.dead_segments(live);
        &&& free < free_target(self.sb.segment_count)
        &&& free > (if self.reserve_open { 0 } else { self.reserve as int })
        &&& self.max_seq < u64::MAX
        &&& exists|seg: u64| #[trigger] sparse(self.sb, self.index@.restrict(live), self.open, seg)
    }

    /// What a collection reports, and the room it leaves: no fewer segments
    /// are free than were, and as many more as were dead.
    pub open spec fn swept_figures(&self, before: &Self, live: Set<BlockHash>, stats: GcStats) -> bool {
        let dead = before.dead_segments(live);
        let free = before.free_list().len() + dead;
        &&& stats.blocks_dropped == before.held().len() - self.held().len()
        &&& stats.segments_freed == dead + stats.segments_compacted
        &&& free <= self.free_list().len() <= free + stats.segments_compacted
        &&& free >= free_target(before.superblock().segment_count) ==> stats.segments_compacted == 0 && stats.blocks_moved == 0
    }

    /// How many segments hold nothing of `live` and are neither open nor
    /// free.
    pub closed spec fn dead_segments(&self, live: Set<BlockHash>) -> nat {
        dead_count(
            self.sb,
            self.index@.restrict(live),
            self.free@,
            self.open,
            self.sb.segment_count as nat,
        )
    }

    /// Drop every entry that is not live. Returns how many went.
    fn retain(&mut self, live: &BlockSet) -> (dropped: u64)
        requires
            old(self).inv(),
            live.wf(),
        ensures
            final(self).inv(),
            final(self).disk == old(self).disk,
            final(self).sb == old(self).sb,
            final(self).free == old(self).free,
            final(self).max_seq == old(self).max_seq,
            final(self).open == old(self).open,
            final(self).reserve == old(self).reserve,
            final(self).reserve_open == old(self).reserve_open,
            final(self).index@ == old(self).index@.restrict(live@.dom()),
            final(self).claims@ == old(self).claims@.filter(|c: (BlockHash, Seq<u8>)| live@.dom().contains(c.0)),
            dropped == old(self).index@.dom().len() - final(self).index@.dom().len(),
            final(self).blocks() == old(self).blocks().restrict(live@.dom()),
            old(self).intact() ==> final(self).intact(),
    {
        let total: usize = self.index.len();
        let mut kept: BlockTable<Location> = BlockTable::new();
        let ghost s = self.index.listing();
        let ghost before = self.index@;
        proof {
            self.index.lemma_listing();
        }
        let mut i: usize = 0;
        while i < total
            invariant
                *self == *old(self),
                self.index.wf(),
                live.wf(),
                kept.wf(),
                s == self.index.listing(),
                before == self.index@,
                i <= total == s.len(),
                forall|k: int| 0 <= k < s.len() ==> before.contains_pair((#[trigger] s[k]).0, s[k].1),
                forall|h: BlockHash| #[trigger] kept@.contains_key(h) ==> before.contains_key(h) && kept@[h] == before[h] && live@.contains_key(h),
                forall|k: int| 0 <= k < i && live@.contains_key((#[trigger] s[k]).0) ==> kept@.contains_key(s[k].0),
            decreases total - i,
        {
            let (hash, location) = self.index.entry_at(i);
            if live.contains(&hash) {
                kept.insert(hash, location);
            }
            i += 1;
        }
        proof {
            assert forall|h: BlockHash| kept@.contains_key(h) == before.restrict(live@.dom()).contains_key(h) by {
                if before.contains_key(h) && live@.contains_key(h) {
                    let k = choose|k: int| #[trigger] entry_for(s, h, k);
                    assert(s[k].0 == h);
                }
            }
            assert(kept@ =~= before.restrict(live@.dom()));
            vstd::set_lib::lemma_len_subset(kept@.dom(), before.dom());
        }
        let left: usize = kept.len();
        self.index = kept;
        proof {
            self.claims@ = self.claims@.filter(|c: (BlockHash, Seq<u8>)| live@.dom().contains(c.0));
            assert(self.blocks() =~= old(self).blocks().restrict(live@.dom()));
            assert forall|h: BlockHash| #[trigger] self.index@.contains_key(h) implies old(self).index@.contains_key(h) by {}
            assert forall|h: BlockHash, p: Seq<u8>| #[trigger] self.claims@.contains((h, p)) implies self.index@.contains_key(h) by {
                assert(old(self).claims@.contains((h, p)));
            }
        }
        (total - left) as u64
    }

    /// The span of live records in each segment, zero where there is none.
    fn live_spans(&self) -> (spans: Vec<u64>)
        requires
            self.inv(),
        ensures
            spans@.len() == self.sb.segment_count,
            forall|seg: int| 0 <= seg < spans@.len() ==> (#[trigger] spans@[seg] > 0 <==> occupied(self.sb, self.index@, seg)),
            forall|seg: int| 0 <= seg < spans@.len() ==> #[trigger] spans@[seg] == in_word(fill(self.sb, self.index@, seg)),
    {
        let ghost sb = self.sb;
        let ghost size = self.disk.bytes().len() as int;
        let mut spans: Vec<u64> = Vec::new();
        let mut n: u64 = 0;
        while n < self.sb.segment_count
            invariant
                n <= self.sb.segment_count,
                spans@.len() == n,
                forall|k: int| 0 <= k < n ==> #[trigger] spans@[k] == 0,
            decreases self.sb.segment_count - n,
        {
            spans.push(0);
            n += 1;
        }
        let room: usize = spans.len();
        let total: usize = self.index.len();
        let ghost s = self.index.listing();
        proof {
            self.index.lemma_listing();
        }
        let mut i: usize = 0;
        while i < total
            invariant
                self.inv(),
                room == spans@.len(),
                sb == self.sb,
                s == self.index.listing(),
                i <= total == s.len(),
                spans@.len() == sb.segment_count,
                forall|k: int| 0 <= k < s.len() ==> self.index@.contains_pair((#[trigger] s[k]).0, s[k].1),
                forall|seg: int| 0 <= seg < spans@.len() ==> #[trigger] marks(sb, s.subrange(0, i as int), spans@, seg),
                forall|seg: int| 0 <= seg < spans@.len() ==> #[trigger] tallied(sb, self.index@, s.subrange(0, i as int), spans@, seg),
            decreases total - i,
        {
            let (hash, location) = self.index.entry_at(i);
            proof {
                assert(self.index@.contains_key(hash));
                lemma_segments(sb, self.disk.bytes().len() as int, seg_of(sb, location.offset as int));
                super::lemma_span_positive(location.length);
            }
            let seg: usize = self.segment_of(location.offset) as usize;
            let span: u64 = record_span(location.length);
            let ghost before = spans@;
            spans.set(seg, spans[seg].saturating_add(span));
            proof {
                let shorter = s.subrange(0, i as int);
                let longer = s.subrange(0, i + 1);
                assert(longer.drop_last() =~= shorter);
                assert(longer.last() == s[i as int]);
                assert forall|x: int| 0 <= x < spans@.len() implies #[trigger] tallied(sb, self.index@, longer, spans@, x) by {
                    assert(tallied(sb, self.index@, shorter, before, x));
                    let few = picked(sb, shorter, x);
                    if x == seg {
                        assert(picked(sb, longer, x) == few.push(hash));
                        assert(few.push(hash).drop_last() =~= few);
                    }
                }
                assert forall|x: int| 0 <= x < spans@.len() implies #[trigger] marks(sb, longer, spans@, x) by {
                    assert(marks(sb, shorter, before, x));
                    if x == seg {
                        assert(longer[i as int] == s[i as int]);
                    } else if spans@[x] > 0 {
                        let k = choose|k: int| 0 <= k < shorter.len() && seg_of(sb, (#[trigger] shorter[k]).1.offset as int) == x;
                        assert(longer[k] == shorter[k]);
                    } else {
                        assert forall|k: int| 0 <= k < longer.len() implies seg_of(sb, (#[trigger] longer[k]).1.offset as int) != x by {
                            if k < i {
                                assert(longer[k] == shorter[k]);
                            }
                        }
                    }
                }
            }
            i += 1;
        }
        proof {
            assert(s.subrange(0, i as int) =~= s);
            assert forall|seg: int| 0 <= seg < spans@.len() implies #[trigger] spans@[seg] == in_word(fill(sb, self.index@, seg)) by {
                assert(tallied(sb, self.index@, s, spans@, seg));
                lemma_picked(sb, self.index@, s, seg);
                lemma_fill(sb, self.index@, picked(sb, s, seg), seg);
            }
            assert forall|seg: int| 0 <= seg < spans@.len() implies (#[trigger] spans@[seg] > 0 <==> occupied(sb, self.index@, seg)) by {
                assert(marks(sb, s, spans@, seg));
                if spans@[seg] > 0 {
                    let k = choose|k: int| 0 <= k < s.len() && seg_of(sb, (#[trigger] s[k]).1.offset as int) == seg;
                    assert(self.index@.contains_key(s[k].0));
                }
                if occupied(sb, self.index@, seg) {
                    let h = choose|h: BlockHash| #[trigger] self.index@.contains_key(h) && seg_of(sb, self.index@[h].offset as int) == seg;
                    let k = choose|k: int| #[trigger] entry_for(s, h, k);
                    assert(s[k].0 == h);
                }
            }
        }
        spans
    }

    fn is_free(&self, segment: u64) -> (r: bool)
        ensures
            r == self.free@.contains(segment),
    {
        let mut i: usize = 0;
        while i < self.free.len()
            invariant
                i <= self.free@.len(),
                forall|k: int| 0 <= k < i ==> #[trigger] self.free@[k] != segment,
            decreases self.free@.len() - i,
        {
            if self.free[i] == segment {
                assert(self.free@[i as int] == segment);
                return true;
            }
            i += 1;
        }
        false
    }

    fn is_open(&self, segment: u64) -> (r: bool)
        ensures
            r == (self.open is Some && self.open->Some_0.index == segment),
    {
        match self.open {
            Some(open) => open.index == segment,
            None => false,
        }
    }

    /// What every step of a collection keeps.
    spec fn collected(&self, before: &Self) -> bool {
        &&& self.inv()
        &&& self.sb == before.sb
        &&& self.claims == before.claims
        &&& self.index@.dom() == before.index@.dom()
        &&& self.reserve == before.reserve
        &&& self.reserve_open == before.reserve_open
        &&& self.disk.faultless() == before.disk.faultless()
        &&& self.disk.bytes().len() == before.disk.bytes().len()
        &&& self.aux() == before.aux()
        &&& self.calm(before)
        &&& self.blocks() == before.blocks()
        &&& before.intact() ==> self.intact()
    }

    /// What dropping everything but `live` leaves.
    spec fn kept_of(&self, before: &Self, live: Set<BlockHash>) -> bool {
        &&& self.inv()
        &&& self.sb == before.sb
        &&& self.reserve_open == before.reserve_open
        &&& self.disk == before.disk
        &&& self.held() == before.held().intersect(live)
        &&& self.blocks() == before.blocks().restrict(live)
        &&& self.claims() == before.claims().filter(|c: (BlockHash, Seq<u8>)| live.contains(c.0))
        &&& before.intact() ==> self.intact()
    }

    /// Giving back a segment that nothing held in `base` lies in leaves
    /// `base` guarded.
    proof fn lemma_release_guards(base: &Self, before: &Self, after: &Self, seg: int)
        requires
            base.inv(),
            before.guards(base),
            after.superblock() == before.superblock(),
            after.kept_but(before, seg),
            0 <= seg < base.sb.segment_count,
            !occupied(base.sb, base.index@, seg),
        ensures
            after.guards(base),
    {
        let sb = base.sb;
        let size = base.disk.bytes().len() as int;
        lemma_segments(sb, size, seg);
        base.lemma_rests_inside();
        assert forall|i: int| #[trigger] base.rests(i) implies !after.roams(i) && !after.risks(i) && after.disk_bytes()[i]
            == base.disk_bytes()[i] by {
            assert(!before.roams(i));
            if !(0 <= i < 2 * SECTOR_SIZE) {
                let h = choose|h: BlockHash| #[trigger] base.index@.contains_key(h) && kept_region(
                    sb,
                    base.open,
                    seg_of(sb, base.index@[h].offset as int),
                    i,
                );
                let mine = seg_of(sb, base.index@[h].offset as int);
                lemma_segments(sb, size, mine);
                assert(mine != seg);
                if base.open is Some {
                    lemma_segments(sb, size, base.open->Some_0.index as int);
                }
                if seg < mine {
                    lemma_segments_apart(sb, seg, mine);
                } else {
                    lemma_segments_apart(sb, mine, seg);
                }
            }
        }
    }

    /// Give back every segment that is in use and empty.
    fn release_dead(&mut self, spans: &Vec<u64>) -> (r: Result<u64>)
        requires
            old(self).inv(),
            spans@.len() == old(self).sb.segment_count,
            forall|seg: int| 0 <= seg < spans@.len() ==> (#[trigger] spans@[seg] > 0 <==> occupied(old(self).sb, old(self).index@, seg)),
        ensures
            final(self).collected(old(self)),
            final(self).index == old(self).index,
            final(self).max_seq == old(self).max_seq,
            final(self).open == old(self).open,
            r matches Ok(n) ==> n == dead_count(
                old(self).sb,
                old(self).index@,
                old(self).free@,
                old(self).open,
                old(self).sb.segment_count as nat,
            ) && final(self).free@.len() == old(self).free@.len() + n && n <= old(self).sb.segment_count,
            old(self).at_rest() ==> final(self).guards(old(self)),
            final(self).free@.len() >= old(self).free@.len(),
            old(self).disk.faultless() ==> r is Ok,
    {
        let mut released: u64 = 0;
        let mut segment: u64 = 0;
        let count: u64 = self.sb.segment_count;
        let room: usize = spans.len();
        proof {
            self.lemma_ground_is_no_room();
        }
        while segment < count
            invariant
                old(self).inv(),
                old(self).at_rest() ==> self.guards(old(self)),
                room == spans@.len(),
                segment <= count == old(self).sb.segment_count,
                spans@.len() == count,
                released <= segment,
                forall|seg: int| 0 <= seg < spans@.len() ==> (#[trigger] spans@[seg] > 0 <==> occupied(old(self).sb, old(self).index@, seg)),
                self.collected(old(self)),
                self.index == old(self).index,
                self.max_seq == old(self).max_seq,
                self.open == old(self).open,
                released == dead_count(old(self).sb, old(self).index@, old(self).free@, old(self).open, segment as nat),
                self.free@.len() == old(self).free@.len() + released,
                forall|x: u64| x >= segment ==> (#[trigger] self.free@.contains(x) <==> old(self).free@.contains(x)),
            decreases count - segment,
        {
            let open = self.is_open(segment);
            let free = self.is_free(segment);
            assert(spans@[segment as int] > 0 <==> occupied(old(self).sb, old(self).index@, segment as int));
            if !open && !free && spans[segment as usize] == 0 {
                proof {
                    assert forall|h: BlockHash| #[trigger] self.index@.contains_key(h) implies seg_of(self.sb, self.index@[h].offset as int) != segment by {
                        if seg_of(self.sb, self.index@[h].offset as int) == segment {
                            assert(occupied(self.sb, self.index@, segment as int));
                        }
                    }
                }
                let ghost free_before = self.free@;
                let ghost before = *self;
                let given = self.release_segment(segment);
                proof {
                    if old(self).at_rest() {
                        Self::lemma_release_guards(old(self), &before, self, segment as int);
                    }
                }
                given?;
                released += 1;
                proof {
                    super::write::lemma_push_distinct(free_before, segment);
                }
            }
            segment += 1;
        }
        Ok(released)
    }

    /// The addresses that live in a segment, ascending.
    fn members_of(&self, segment: u64) -> (members: Vec<BlockHash>)
        requires
            self.inv(),
        ensures
            forall|i: int| 0 <= i < members@.len() ==> self.index@.contains_key(#[trigger] members@[i]) && seg_of(
                self.sb,
                self.index@[members@[i]].offset as int,
            ) == segment,
            forall|h: BlockHash| #[trigger] self.index@.contains_key(h) && seg_of(self.sb, self.index@[h].offset as int)
                == segment ==> members@.contains(h),
            members@.no_duplicates(),
    {
        let total: usize = self.index.len();
        let mut members: Vec<BlockHash> = Vec::new();
        let ghost s = self.index.listing();
        proof {
            self.index.lemma_listing();
        }
        let mut i: usize = 0;
        while i < total
            invariant
                self.inv(),
                s == self.index.listing(),
                i <= total == s.len(),
                forall|k: int| 0 <= k < s.len() ==> self.index@.contains_pair((#[trigger] s[k]).0, s[k].1),
                forall|a: int, c: int| 0 <= a < c < s.len() ==> (#[trigger] s[a]).0 != (#[trigger] s[c]).0,
                forall|k: int| 0 <= k < members@.len() ==> self.index@.contains_key(#[trigger] members@[k]) && seg_of(
                    self.sb,
                    self.index@[members@[k]].offset as int,
                ) == segment && came_before(s, i as int, members@[k]),
                members@.no_duplicates(),
                forall|k: int| 0 <= k < i && seg_of(self.sb, (#[trigger] s[k]).1.offset as int) == segment ==> members@.contains(s[k].0),
            decreases total - i,
        {
            let (hash, location) = self.index.entry_at(i);
            proof {
                assert(self.index@.contains_key(hash));
                lemma_segments(self.sb, self.disk.bytes().len() as int, seg_of(self.sb, location.offset as int));
                assert(came_before(s, i + 1, s[i as int].0));
                assert forall|k: int| 0 <= k < members@.len() implies came_before(s, i + 1, #[trigger] members@[k]) && members@[k] != hash by {
                    let j = choose|j: int| 0 <= j < i && (#[trigger] s[j]).0 == members@[k];
                    assert(s[j].0 != s[i as int].0);
                }
            }
            let ghost before = members@;
            if self.segment_of(location.offset) == segment {
                members.push(hash);
                proof {
                    assert(members@[before.len() as int] == hash);
                    assert forall|k: int| 0 <= k < i + 1 && seg_of(self.sb, (#[trigger] s[k]).1.offset as int) == segment implies members@.contains(s[k].0) by {
                        if k < i {
                            let j = choose|j: int| 0 <= j < before.len() && before[j] == s[k].0;
                            assert(members@[j] == s[k].0);
                        }
                    }
                }
            }
            i += 1;
        }
        proof {
            assert forall|h: BlockHash| #[trigger] self.index@.contains_key(h) && seg_of(self.sb, self.index@[h].offset as int)
                == segment implies members@.contains(h) by {
                let k = choose|k: int| #[trigger] entry_for(s, h, k);
                assert(s[k].0 == h);
            }
        }
        members
    }

    /// A record that is taken in is written out once.
    proof fn lemma_written_out(&self, after: &Self, len: nat)
        requires
            self.inv(),
            after.sb == self.sb,
            0 < len <= self.sb.block_size,
            after.took_record(self, len),
        ensures
            written_out(self.sb, after.max_seq, after.open) <= written_out(self.sb, self.max_seq, self.open) + span_of(len as u32),
    {
        let p = packed(self.sb);
        super::lemma_span_monotone(len as u32, self.sb.block_size);
        assert((self.max_seq + 1) * p == self.max_seq * p + p) by (nonlinear_arith);
    }

    /// Some of `members` were moved to the open segment, or to one that was
    /// free, and nothing else was moved.
    spec fn moved_out(&self, before: &Self, members: Seq<BlockHash>) -> bool {
        &&& forall|x: u64| #[trigger] self.free@.contains(x) ==> before.free@.contains(x)
        &&& self.open matches Some(o) ==> (before.open is Some && before.open->Some_0.index == o.index) || before.free@.contains(o.index)
        &&& forall|h: BlockHash| #[trigger] self.index@.contains_key(h) && self.index@[h] != before.index@[h] ==> {
            let seg = seg_of(self.sb, self.index@[h].offset as int);
            &&& members.contains(h)
            &&& (before.open is Some && before.open->Some_0.index == seg) || (0 <= seg <= u64::MAX && before.free@.contains(seg as u64))
        }
    }

    /// Move every record of a segment elsewhere. `Ok(false)` when room ran
    /// out on the way: what was moved stays moved, the rest stays put.
    #[verifier::rlimit(60)]
    fn evacuate(&mut self, segment: u64, members: &Vec<BlockHash>) -> (r: Result<(bool, u64)>)
        requires
            old(self).inv(),
            segment < old(self).sb.segment_count,
            !old(self).free@.contains(segment),
            !(old(self).open is Some && old(self).open->Some_0.index == segment),
            members@.no_duplicates(),
            forall|i: int| 0 <= i < members@.len() ==> old(self).index@.contains_key(#[trigger] members@[i]) && seg_of(
                old(self).sb,
                old(self).index@[members@[i]].offset as int,
            ) == segment,
            forall|h: BlockHash| #[trigger] old(self).index@.contains_key(h) && seg_of(old(self).sb, old(self).index@[h].offset as int)
                == segment ==> members@.contains(h),
        ensures
            final(self).collected(old(self)),
            !final(self).free@.contains(segment),
            !(final(self).open is Some && final(self).open->Some_0.index == segment),
            r matches Ok((true, _)) ==> !occupied(final(self).sb, final(self).index@, segment as int),
            r matches Ok((true, n)) ==> n == members@.len(),
            final(self).kept_to_room(old(self)),
            old(self).disk.faultless() && old(self).intact() ==> r is Ok,
            old(self).disk.faultless() && old(self).intact() && old(self).may_open() && SECTOR_SIZE + span_sum(old(self).index@, members@)
                <= old(self).sb.segment_size ==> r matches Ok((true, _)),
            SECTOR_SIZE + span_sum(old(self).index@, members@) <= old(self).sb.segment_size ==> {
                &&& final(self).free@.len() <= old(self).free@.len() <= final(self).free@.len() + 1
                &&& r matches Ok((false, _)) ==> final(self).free@.len() == old(self).free@.len()
            },
            final(self).moved_out(old(self), members@),
            old(self).disk.faultless() && r is Ok ==> final(self).max_seq + final(self).free@.len() == old(self).max_seq + old(self).free@.len(),
            old(self).disk.faultless() && (r matches Ok((true, _))) ==> written_out(final(self).sb, final(self).max_seq, final(self).open) <= written_out(
                old(self).sb,
                old(self).max_seq,
                old(self).open,
            ) + span_sum(old(self).index@, members@),
    {
        let mut i: usize = 0;
        let mut moved: u64 = 0;
        let ghost total = span_sum(self.index@, members@);
        let ghost easy = self.disk.faultless() && self.intact() && self.may_open() && SECTOR_SIZE + total <= self.sb.segment_size;
        assert(members@.subrange(0, 0) =~= Seq::<BlockHash>::empty());
        assert(members@.subrange(0, members@.len() as int) =~= members@);
        while i < members.len()
            invariant
                i <= members@.len(),
                moved == i,
                members@.no_duplicates(),
                self.collected(old(self)),
                self.kept_to_room(old(self)),
                self.moved_out(old(self), members@),
                old(self).disk.faultless() ==> self.max_seq + self.free@.len() == old(self).max_seq + old(self).free@.len(),
                old(self).disk.faultless() ==> written_out(self.sb, self.max_seq, self.open) <= written_out(self.sb, old(self).max_seq, old(self).open) + span_sum(
                    old(self).index@,
                    members@.subrange(0, i as int),
                ),
                segment < self.sb.segment_count,
                !self.free@.contains(segment),
                !(self.open is Some && self.open->Some_0.index == segment),
                forall|k: int| i <= k < members@.len() ==> self.index@.contains_key(#[trigger] members@[k]) && seg_of(
                    self.sb,
                    self.index@[members@[k]].offset as int,
                ) == segment,
                forall|k: int| i <= k < members@.len() ==> self.index@[#[trigger] members@[k]] == old(self).index@[members@[k]],
                total == span_sum(old(self).index@, members@),
                easy ==> old(self).disk.faultless() && old(self).intact() && SECTOR_SIZE + total <= self.sb.segment_size,
                easy ==> self.may_open() || self.open is Some && self.open->Some_0.cursor + total - span_sum(
                    old(self).index@,
                    members@.subrange(0, i as int),
                ) <= seg_end(self.sb, self.open->Some_0.index as int),
                SECTOR_SIZE + total <= self.sb.segment_size ==> self.free@.len() == old(self).free@.len() || (self.free@.len() + 1
                    == old(self).free@.len() && self.open is Some && self.open->Some_0.cursor + total - span_sum(
                    old(self).index@,
                    members@.subrange(0, i as int),
                ) <= seg_end(self.sb, self.open->Some_0.index as int)),
                easy == (old(self).disk.faultless() && old(self).intact() && old(self).may_open() && SECTOR_SIZE + total <= old(self).sb.segment_size),
                forall|h: BlockHash| #[trigger] self.index@.contains_key(h) && seg_of(self.sb, self.index@[h].offset as int)
                    == segment ==> members@.subrange(i as int, members@.len() as int).contains(h),
            decreases members@.len() - i,
        {
            let hash = members[i];
            assert(self.index@.contains_key(hash));
            proof {
                assert(members@.subrange(0, i + 1).drop_last() =~= members@.subrange(0, i as int));
                lemma_sum_prefix(old(self).index@, members@, i + 1);
                assert(self.index@[members@[i as int]] == old(self).index@[members@[i as int]]);
            }
            let location = match self.index.get(&hash) {
                Some(location) => location,
                None => {
                    return Ok((false, moved));
                },
            };
            proof {
                if self.intact() {
                    assert(readable(self.disk.bytes(), self.sb.block_size, hash, location));
                }
            }
            let payload = self.read_location(&hash, &location)?;
            let ghost mid = *self;
            match self.append_record(hash, payload.as_slice()) {
                Ok(new_location) => {
                    let ghost appended_to = *self;
                    proof {
                        if old(self).disk.faultless() {
                            mid.lemma_written_out(&appended_to, payload@.len());
                        }
                        lemma_insert_entry(
                            self.disk.bytes(),
                            self.sb,
                            self.index@,
                            self.free@,
                            self.open->Some_0,
                            hash,
                            payload@,
                            new_location,
                        );
                    }
                    self.index.insert(hash, new_location);
                    moved = moved.saturating_add(1);
                    proof {
                        assert forall|x: int| #[trigger] appended_to.roams(x) == self.roams(x) by {}
                        assert forall|x: int| x < self.sb.segment_area_start && #[trigger] self.risks(x) implies old(self).risks(x) by {
                            assert(appended_to.risks(x));
                            assert(mid.risks(x));
                        }
                        assert forall|x: int| !#[trigger] old(self).roams(x) implies !self.roams(x) && (self.risks(x) ==> old(self).risks(x)) && (0
                            <= x < self.disk_bytes().len() ==> self.disk_bytes()[x] == old(self).disk_bytes()[x]) by {
                            assert(!mid.roams(x));
                            assert(!appended_to.roams(x));
                        }
                        assert(mid.blocks().contains_key(hash) && mid.blocks()[hash] == payload@);
                        assert(self.blocks() =~= mid.blocks());
                        assert(self.index@.dom() =~= mid.index@.dom());
                        assert(self.free@ == appended_to.free@);
                        assert forall|k: int| i < k < members@.len() implies self.index@.contains_key(#[trigger] members@[k]) && seg_of(
                            self.sb,
                            self.index@[members@[k]].offset as int,
                        ) == segment by {
                            assert(members@[k] != members@[i as int]);
                            assert(mid.index@.contains_key(members@[k]));
                        }
                        let rest = members@.subrange(i as int, members@.len() as int);
                        let next = members@.subrange(i + 1, members@.len() as int);
                        assert forall|h: BlockHash| #[trigger] self.index@.contains_key(h) && seg_of(self.sb, self.index@[h].offset as int)
                            == segment implies next.contains(h) by {
                            assert(h != hash);
                            assert(mid.index@.contains_key(h));
                            assert(rest.contains(h));
                            let k = choose|k: int| 0 <= k < rest.len() && rest[k] == h;
                            assert(k != 0);
                            assert(next[k - 1] == h);
                        }
                    }
                },
                Err(FsError::Full) => {
                    return Ok((false, moved));
                },
                Err(other) => {
                    return Err(other);
                },
            }
            i += 1;
        }
        proof {
            assert(members@.subrange(i as int, members@.len() as int).len() == 0);
            if occupied(self.sb, self.index@, segment as int) {
                let h = choose|h: BlockHash| #[trigger] self.index@.contains_key(h) && seg_of(self.sb, self.index@[h].offset as int) == segment;
                assert(members@.subrange(i as int, members@.len() as int).contains(h));
            }
        }
        Ok((true, moved))
    }

    /// The span of the named records.
    fn span_of_members(&self, members: &Vec<BlockHash>) -> (span: u64)
        requires
            self.inv(),
            forall|k: int| 0 <= k < members@.len() ==> self.index@.contains_key(#[trigger] members@[k]),
        ensures
            span == in_word(span_sum(self.index@, members@)),
    {
        let mut span: u64 = 0;
        let mut i: usize = 0;
        while i < members.len()
            invariant
                self.inv(),
                i <= members@.len(),
                forall|k: int| 0 <= k < members@.len() ==> self.index@.contains_key(#[trigger] members@[k]),
                span == in_word(span_sum(self.index@, members@.subrange(0, i as int))),
            decreases members@.len() - i,
        {
            proof {
                assert(members@.subrange(0, i + 1).drop_last() =~= members@.subrange(0, i as int));
                assert(self.index@.contains_key(members@[i as int]));
            }
            if let Some(location) = self.index.get(&members[i]) {
                span = span.saturating_add(record_span(location.length));
            }
            i += 1;
        }
        assert(members@.subrange(0, i as int) =~= members@);
        span
    }

    /// A compaction that has emptied what came up so far, and can go on.
    #[verifier::opaque]
    spec fn on_course(
        &self,
        kept: Map<BlockHash, Location>,
        given: Seq<u64>,
        seq: u64,
        order: Seq<u64>,
        upto: int,
        emptied: Seq<u64>,
        first: Option<u64>,
        head: int,
        moved: u64,
    ) -> bool {
        let spent = fills(self.sb, kept, emptied) + (if first is Some && emptied.contains(first->Some_0) {
            self.sb.segment_size - SECTOR_SIZE
        } else {
            0
        });
        &&& self.inv()
        &&& self.intact()
        &&& self.disk.faultless()
        &&& emptied.len() <= upto <= order.len() <= self.sb.segment_count
        &&& self.max_seq <= seq + emptied.len()
        &&& seq + self.sb.segment_count < u64::MAX
        &&& self.free@.len() > (if self.reserve_open { 0 } else { self.reserve as int })
        &&& under_way(self.sb, kept, given, first, self.index@, self.free@, self.open, emptied)
        &&& in_turn(self.sb, kept, first, order, upto, emptied)
        &&& moved <= spent
        &&& written_out(self.sb, self.max_seq, self.open) <= head + spent
    }

    /// A compaction comes to its next segment.
    proof fn lemma_course_visit(
        &self,
        rel: &Self,
        kept: Map<BlockHash, Location>,
        spans: Seq<u64>,
        order: Seq<u64>,
        k: int,
        emptied: Seq<u64>,
        first: Option<u64>,
        head: int,
        moved: u64,
    )
        requires
            self.on_course(kept, rel.free@, rel.max_seq, order, k, emptied, first, head, moved),
            rel.inv(),
            rel.sb == self.sb,
            rel.index@ == kept,
            kept.dom().finite(),
            0 <= k < order.len(),
            ranked(spans, order),
            spans.len() == self.sb.segment_count,
            forall|seg: int| 0 <= seg < spans.len() ==> (#[trigger] spans[seg] > 0 <==> occupied(self.sb, kept, seg)),
            forall|seg: int| 0 <= seg < spans.len() ==> #[trigger] spans[seg] == in_word(fill(self.sb, kept, seg)),
        ensures
            !self.free@.contains(order[k]),
            first != Some(order[k]) ==> !(self.open is Some && self.open->Some_0.index == order[k]) && fill(self.sb, self.index@, order[k] as int) == fill(
                self.sb,
                kept,
                order[k] as int,
            ) && dwellers(self.sb, self.index@, order[k] as int) == dwellers(self.sb, kept, order[k] as int),
            first == Some(order[k]) ==> self.on_course(kept, rel.free@, rel.max_seq, order, k + 1, emptied, first, head, moved),
            self.may_open(),
            self.intact(),
            self.disk.faultless(),
    {
        reveal(Brick::on_course);
        let seg = order[k];
        lemma_next_in_turn(self.sb, kept, first, spans, order, k, emptied);
        assert(spans[seg as int] > 0);
        assert(occupied(self.sb, kept, seg as int));
        assert(!rel.free@.contains(seg)) by {
            let h = choose|h: BlockHash| #[trigger] kept.contains_key(h) && seg_of(self.sb, kept[h].offset as int) == seg;
            assert(rel.index@.contains_key(h));
        }
        if first != Some(seg) {
            lemma_under_way(self.sb, kept, rel.free@, first, self.index@, self.free@, self.open, emptied, seg);
        }
    }

    /// A compaction has emptied its next segment and given it back.
    proof fn lemma_course_step(
        before: &Self,
        mid: &Self,
        after: &Self,
        rel: &Self,
        kept: Map<BlockHash, Location>,
        spans: Seq<u64>,
        order: Seq<u64>,
        k: int,
        emptied: Seq<u64>,
        first: Option<u64>,
        head: int,
        members: Seq<BlockHash>,
        span: int,
        was: u64,
        moved: u64,
    )
        requires
            before.on_course(kept, rel.free@, rel.max_seq, order, k, emptied, first, head, was),
            0 <= k < order.len(),
            ranked(spans, order),
            forall|seg: int| 0 <= seg < spans.len() ==> #[trigger] spans[seg] == in_word(fill(before.sb, kept, seg)),
            forall|h: BlockHash| #[trigger] members.contains(h) <==> before.index@.contains_key(h) && seg_of(before.sb, before.index@[h].offset as int) == order[k],
            mid.moved_out(before, members),
            mid.sb == before.sb,
            mid.index@.dom() == before.index@.dom(),
            mid.max_seq + mid.free@.len() == before.max_seq + before.free@.len(),
            before.free@.len() <= mid.free@.len() + 1,
            after.inv(),
            after.intact(),
            after.disk.faultless(),
            after.sb == before.sb,
            after.index == mid.index,
            after.open == mid.open,
            after.max_seq == mid.max_seq,
            after.reserve == before.reserve,
            after.reserve_open == before.reserve_open,
            after.free@ == mid.free@.push(order[k]),
            moved <= was + span,
            written_out(mid.sb, mid.max_seq, mid.open) <= written_out(before.sb, before.max_seq, before.open) + span,
            first != Some(order[k]) ==> lean(before.sb, kept, order[k]) && span == fill(before.sb, kept, order[k] as int),
            span <= before.sb.segment_size - SECTOR_SIZE,
        ensures
            after.on_course(kept, rel.free@, rel.max_seq, order, k + 1, emptied.push(order[k]), first, head, moved),
    {
        reveal(Brick::on_course);
        let seg = order[k];
        let all = emptied.push(seg);
        assert forall|x: u64| #[trigger] after.free@.contains(x) implies before.free@.contains(x) || x == seg by {
            let j = choose|j: int| 0 <= j < after.free@.len() && after.free@[j] == x;
            if j < mid.free@.len() {
                assert(mid.free@[j] == x);
                assert(mid.free@.contains(x));
            }
        }
        lemma_way_on(before.sb, kept, rel.free@, first, before.index@, before.free@, before.open, emptied, seg, members, after.index@, after.free@, after.open);
        lemma_next_in_turn(before.sb, kept, first, spans, order, k, emptied);
        assert(all.drop_last() =~= emptied);
        assert(all[emptied.len() as int] == seg);
        if first is Some && emptied.contains(first->Some_0) {
            let j = choose|j: int| 0 <= j < emptied.len() && emptied[j] == first->Some_0;
            assert(all[j] == first->Some_0);
        }
    }

    /// What a compaction that ran its course amounts to.
    proof fn lemma_emptied_in_turn(
        &self,
        before: &Self,
        live: Set<BlockHash>,
        spans: Seq<u64>,
        order: Seq<u64>,
        upto: int,
        emptied: Seq<u64>,
        moved: u64,
    )
        requires
            self.sb == before.sb,
            spans.len() == self.sb.segment_count,
            ranked(spans, order),
            forall|seg: int| 0 <= seg < spans.len() ==> (#[trigger] spans[seg] > 0 <==> occupied(self.sb, before.index@.restrict(live), seg)),
            forall|seg: int| 0 <= seg < spans.len() ==> #[trigger] spans[seg] == in_word(fill(self.sb, before.index@.restrict(live), seg)),
            0 <= upto <= order.len(),
            in_turn(self.sb, before.index@.restrict(live), opened_at(before.open), order, upto, emptied),
            moved <= fills(self.sb, before.index@.restrict(live), emptied) + (if before.open is Some && emptied.contains(before.open->Some_0.index) {
                self.sb.segment_size - SECTOR_SIZE
            } else {
                0
            }),
            self.inv(),
            before.inv(),
            written_out(self.sb, self.max_seq, self.open) <= written_out(self.sb, before.max_seq, before.open) + fills(self.sb, before.index@.restrict(live), emptied)
                + (if before.open is Some && emptied.contains(before.open->Some_0.index) {
                self.sb.segment_size - SECTOR_SIZE
            } else {
                0
            }),
            upto == order.len() || stopped(
                self.sb,
                self.index@,
                self.free@,
                self.open,
                before.index@.restrict(live),
                opened_at(before.open),
                order[upto],
                free_target(self.sb.segment_count),
                moved,
                (self.sb.segment_size * 4) as u128,
            ),
        ensures
            self.emptied_in_turn(before, live, emptied),
    {
        let sb = self.sb;
        let kept = before.index@.restrict(live);
        let first = opened_at(before.open);
        assert(self.index@.restrict(self.index@.dom()) =~= self.index@);
        let p = packed(sb);
        assert((self.max_seq - before.max_seq) * p == self.max_seq * p - before.max_seq * p) by (nonlinear_arith);
        // Whatever is worth emptying and ranks before the end was emptied.
        assert forall|seg: u64| #[trigger] before.worth_emptying(live, seg) implies order.contains(seg) && lean(sb, kept, seg) && first != Some(seg) by {
            assert(spans[seg as int] > 0);
        }
        assert forall|i: int| 0 <= i < emptied.len() implies before.worth_emptying(live, #[trigger] emptied[i]) || first == Some(emptied[i]) by {
            assert(later(order, emptied[i], upto));
            let q = choose|q: int| 0 <= q < upto && #[trigger] order[q] == emptied[i];
            assert(spans[order[q] as int] > 0);
        }
        assert forall|seg: u64, j: int|
            0 <= j < emptied.len() && #[trigger] before.worth_emptying(live, seg) && before.emptied_first(live, seg, #[trigger] emptied[j]) implies emptied.contains(seg) by {
            assert(later(order, emptied[j], upto));
            let q = choose|q: int| 0 <= q < upto && #[trigger] order[q] == emptied[j];
            let k = choose|k: int| 0 <= k < order.len() && order[k] == seg;
            if k >= q {
                assert(seg != emptied[j]);
                assert(spans[order[q] as int] < spans[order[k] as int] || (spans[order[q] as int] == spans[order[k] as int] && order[q] < order[k]));
                lemma_rank(sb, kept, spans, emptied[j], seg);
            }
            assert(emptied.contains(order[k]) || first == Some(order[k]));
        }
        if upto == order.len() {
            assert forall|seg: u64| #[trigger] before.worth_emptying(live, seg) implies emptied.contains(seg) by {
                let k = choose|k: int| 0 <= k < order.len() && order[k] == seg;
                assert(emptied.contains(order[k]) || first == Some(order[k]));
            }
        } else {
            let last = order[upto];
            if first != Some(last) && !lean(sb, kept, last) {
                assert forall|seg: u64| #[trigger] before.worth_emptying(live, seg) implies emptied.contains(seg) by {
                    let k = choose|k: int| 0 <= k < order.len() && order[k] == seg;
                    if k >= upto {
                        assert(k > upto);
                        assert(spans[order[upto] as int] < spans[order[k] as int] || (spans[order[upto] as int] == spans[order[k] as int] && order[upto]
                            < order[k]));
                        lemma_rank(sb, kept, spans, last, seg);
                    }
                    assert(emptied.contains(order[k]) || first == Some(order[k]));
                }
            } else if first == Some(last) && !lean(sb, self.index@, last) && !(self.open is Some && self.open->Some_0.index == last) {
                assert(self.outgrew(before));
                assert forall|seg: u64| #[trigger] before.worth_emptying(live, seg) && before.emptied_first(live, seg, last) implies emptied.contains(seg) by {
                    let k = choose|k: int| 0 <= k < order.len() && order[k] == seg;
                    if k >= upto {
                        assert(k > upto);
                        assert(spans[order[upto] as int] < spans[order[k] as int] || (spans[order[upto] as int] == spans[order[k] as int] && order[upto]
                            < order[k]));
                        lemma_rank(sb, kept, spans, last, seg);
                    }
                    assert(emptied.contains(order[k]) || first == Some(order[k]));
                }
            }
        }
    }

    /// Keep only what is live. Empty segments are given back; while too few
    /// are free, the sparsest segments are emptied into others first, as far
    /// as one round's move budget goes. Nothing live is lost on any path,
    /// and a block that moved reads back as it did. Where everything was on
    /// stable storage before, a crash loses nothing live either, wherever the
    /// collection got to: a segment is given back only once what moved out of
    /// it is flushed.
    #[verifier::rlimit(60)]
    pub fn retain_and_reclaim(&mut self, live: &BlockSet) -> (r: Result<GcStats>)
        requires
            old(self).inv(),
            live.wf(),
        ensures
            final(self).same_shape(old(self)),
            final(self).held() == old(self).held().intersect(live@.dom()),
            final(self).blocks() == old(self).blocks().restrict(live@.dom()),
            final(self).claims() == old(self).claims().filter(
                |c: (BlockHash, Seq<u8>)| live@.dom().contains(c.0),
            ),
            old(self).intact() ==> final(self).intact(),
            old(self).intact() && old(self).at_rest() ==> final(self).secures(old(self).held().intersect(live@.dom())),
            old(self).reliable() && old(self).intact() ==> r is Ok,
            old(self).reliable() && old(self).intact() && old(self).compaction_due(live@.dom()) ==> (r matches Ok(stats) ==> stats.segments_compacted > 0),
            r matches Ok(stats) ==> final(self).swept_figures(old(self), live@.dom(), stats),
            r matches Ok(stats) ==> final(self).compacted_well(old(self), live@.dom(), stats),
            r is Err ==> final(self).free_list().len() + 1 >= old(self).free_list().len(),
    {
        let dropped: u64 = self.retain(live);
        let ghost kept = *self;
        proof {
            assert(kept.held() =~= old(self).held().intersect(live@.dom()));
            if old(self).at_rest() {
                assert forall|i: int| #[trigger] kept.rests(i) implies !kept.risks(i) by {
                    if !(0 <= i < 2 * SECTOR_SIZE) {
                        let h = choose|h: BlockHash| #[trigger] kept.index@.contains_key(h) && kept_region(
                            kept.sb,
                            kept.open,
                            seg_of(kept.sb, kept.index@[h].offset as int),
                            i,
                        );
                        assert(old(self).index@.contains_key(h));
                    }
                    assert(old(self).rests(i));
                }
            }
        }
        let ghost mut base = *self;
        let ghost secure = old(self).intact() && old(self).at_rest();
        let ghost wanted = old(self).held().intersect(live@.dom());
        let spans = self.live_spans();
        let count: u64 = self.sb.segment_count;
        let given = self.release_dead(&spans);
        proof {
            if secure {
                assert(self.guards(&base));
                assert(self.secures(wanted));
            }
        }
        let released: u64 = given?;
        let ghost rel = *self;
        let ghost due = old(self).reliable() && old(self).intact() && old(self).compaction_due(live@.dom());
        let ghost lean = choose|seg: u64| #[trigger] sparse(self.sb, kept.index@, self.open, seg);
        proof {
            if due {
                assert(sparse(self.sb, kept.index@, self.open, lean));
                assert(spans@[lean as int] > 0);
            }
        }
        let candidates = by_fill(&spans);
        proof {
            if due {
                assert(candidates@.contains(lean));
                let p = choose|p: int| 0 <= p < candidates@.len() && candidates@[p] == lean;
                assert forall|k: int| 0 <= k < candidates@.len() && candidates@[k] != lean implies spans@[#[trigger] candidates@[k] as int] <= spans@[lean as int]
                    || later(candidates@, lean, k) by {
                    if p < k {
                        assert(candidates@[p] == lean);
                    } else {
                        assert(spans@[candidates@[k] as int] <= spans@[candidates@[p] as int]);
                    }
                }
            }
        }
        let usable: u64 = self.sb.segment_size - SECTOR_SIZE;
        let half: u64 = count / 2;
        let target_free: u64 = if half < self.reserve + 2 {
            self.reserve + 2
        } else {
            half
        };
        let move_budget: u128 = self.sb.segment_size as u128 * 4;
        let mut moved_bytes: u64 = 0;
        let mut compacted: u64 = 0;
        let mut moved: u64 = 0;
        let ghost enough = self.free@.len() >= target_free;
        let ghost free_then = self.free@.len();
        proof {
            kept.lemma_model();
            assert(kept.held() == kept.index@.dom());
        }
        let ghost able = old(self).reliable() && old(self).intact() && old(self).may_compact(live@.dom());
        let ghost first = opened_at(old(self).open);
        let ghost head = written_out(rel.sb, rel.max_seq, rel.open);
        let ghost mut emptied: Seq<u64> = Seq::empty();
        proof {
            reveal(Brick::on_course);
        }
        let mut i: usize = 0;
        let mut done = false;
        while i < candidates.len() && !done
            invariant
                first == opened_at(old(self).open),
                head == written_out(self.sb, old(self).max_seq, old(self).open),
                able == (old(self).reliable() && old(self).intact() && old(self).may_compact(live@.dom())),
                old(self).reliable() == self.disk.faultless(),
                old(self).reliable() ==> self.max_seq + self.free@.len() == rel.max_seq + free_then + compacted,
                rel.max_seq == old(self).max_seq,
                rel.inv() && rel.sb == self.sb && rel.index@ == kept.index@ && rel.free@.len() == free_then,
                kept.index@ == old(self).index@.restrict(live@.dom()),
                kept.index@.dom().finite(),
                forall|seg: int| 0 <= seg < spans@.len() ==> (#[trigger] spans@[seg] > 0 <==> occupied(kept.sb, kept.index@, seg)),
                ranked(spans@, candidates@),
                able ==> moves_told(self.sb, kept.index@, first, emptied, moved),
                able ==> compacted == emptied.len() && self.on_course(
                    kept.index@,
                    rel.free@,
                    rel.max_seq,
                    candidates@,
                    if done { i - 1 } else { i as int },
                    emptied,
                    first,
                    head,
                    moved_bytes,
                ),
                able && done ==> i > 0 && stopped(
                    self.sb,
                    self.index@,
                    self.free@,
                    self.open,
                    kept.index@,
                    first,
                    candidates@[i - 1],
                    target_free,
                    moved_bytes,
                    move_budget,
                ),
                i <= candidates@.len() <= count,
                count == self.sb.segment_count,
                self.collected(&kept),
                kept.kept_of(old(self), live@.dom()),
                secure == (old(self).intact() && old(self).at_rest()),
                wanted == old(self).held().intersect(live@.dom()),
                kept.held() == wanted,
                secure ==> self.guards(&base) && base.inv() && base.intact() && base.held() == wanted && base.sb == self.sb,
                compacted <= i,
                released <= count,
                released == old(self).dead_segments(live@.dom()),
                dropped == old(self).held().len() - kept.held().len(),
                free_then == old(self).free@.len() + released,
                usable == self.sb.segment_size - SECTOR_SIZE,
                target_free == free_target(count),
                enough == (free_then >= target_free),
                enough ==> compacted == 0 && moved == 0 && self.free@.len() == free_then && free_then >= target_free,
                free_then <= self.free@.len() <= free_then + compacted,
                self.sb == old(self).sb,
                forall|k: int| 0 <= k < candidates@.len() ==> #[trigger] candidates@[k] < count,
                due ==> {
                    &&& kept.intact()
                    &&& kept.disk.faultless()
                    &&& rel.collected(&kept)
                    &&& rel.index@ == kept.index@
                    &&& rel.may_open()
                    &&& free_then < target_free
                    &&& rel.free@.len() == free_then
                    &&& sparse(self.sb, kept.index@, rel.open, lean)
                    &&& candidates@.contains(lean)
                },
                spans@.len() == count,
                move_budget > 0,
                due ==> forall|k: int| 0 <= k < candidates@.len() && candidates@[k] != lean ==> spans@[#[trigger] candidates@[k] as int] <= spans@[lean as int]
                    || later(candidates@, lean, k),
                forall|seg: int| 0 <= seg < spans@.len() ==> #[trigger] spans@[seg] == in_word(fill(kept.sb, kept.index@, seg)),
                due && compacted == 0 ==> {
                    &&& !done
                    &&& *self == rel
                    &&& moved_bytes == 0
                    &&& forall|k: int| 0 <= k < i ==> #[trigger] candidates@[k] != lean
                },
            decreases candidates@.len() - i,
        {
            let segment: u64 = candidates[i];
            proof {
                if able {
                    self.lemma_course_visit(&rel, kept.index@, spans@, candidates@, i as int, emptied, first, head, moved_bytes);
                }
                if due && compacted == 0 {
                    let p = choose|p: int| 0 <= p < candidates@.len() && candidates@[p] == lean;
                    if segment != lean {
                        assert(p > i);
                        assert(!later(candidates@, lean, i as int)) by {
                            if later(candidates@, lean, i as int) {
                                let q = choose|q: int| 0 <= q < i && #[trigger] candidates@[q] == lean;
                                assert(candidates@[q] != lean);
                            }
                        }
                    }
                    assert(spans@[segment as int] <= spans@[lean as int]);
                    if segment == lean {
                        assert(!rel.free@.contains(lean)) by {
                            let h = choose|h: BlockHash| #[trigger] kept.index@.contains_key(h) && seg_of(self.sb, kept.index@[h].offset as int) == lean;
                            assert(rel.index@.contains_key(h));
                        }
                    }
                }
            }
            i += 1;
            if !self.is_open(segment) && !self.is_free(segment) {
                let members = self.members_of(segment);
                let live_span: u64 = self.span_of_members(&members);
                proof {
                    assert forall|h: BlockHash| #[trigger] members@.contains(h) <==> self.index@.contains_key(h) && seg_of(self.sb, self.index@[h].offset as int) == segment by {
                        if members@.contains(h) {
                            let k = choose|k: int| 0 <= k < members@.len() && members@[k] == h;
                            assert(self.index@.contains_key(members@[k]));
                        }
                    }
                    lemma_fill(self.sb, self.index@, members@, segment as int);
                    assert(fill(self.sb, self.index@, segment as int) == span_sum(self.index@, members@));
                    if due && compacted == 0 {
                        assert(live_span == spans@[segment as int]);
                        assert(live_span <= spans@[lean as int]);
                        assert(spans@[lean as int] == fill(self.sb, kept.index@, lean as int));
                        assert(live_span * 10 < usable * 9);
                    }
                }
                if self.free.len() as u64 >= target_free || moved_bytes as u128 >= move_budget
                    || live_span as u128 * 10 >= usable as u128 * 9 {
                    done = true;
                } else {
                    let ghost before = *self;
                    let tried = self.evacuate(segment, &members);
                    proof {
                        if secure {
                            Self::law_what_is_guarded_stays_guarded(&base, &before, self);
                            assert(self.secures(wanted));
                        }
                    }
                    let (whole, n) = tried?;
                    let ghost was_told = moved;
                    moved = moved.saturating_add(n);
                    if whole {
                        proof {
                            assert forall|h: BlockHash| #[trigger] self.index@.contains_key(h) implies seg_of(self.sb, self.index@[h].offset as int) != segment by {
                                if seg_of(self.sb, self.index@[h].offset as int) == segment {
                                    assert(occupied(self.sb, self.index@, segment as int));
                                }
                            }
                        }
                        let ghost evacuated = *self;
                        let flushed = self.disk.flush();
                        proof {
                            assert forall|x: int| #[trigger] evacuated.roams(x) == self.roams(x) by {}
                            assert forall|x: int| #[trigger] self.risks(x) implies evacuated.risks(x) by {}
                            if secure {
                                Self::law_what_is_guarded_stays_guarded(&base, &evacuated, self);
                                assert(self.secures(wanted));
                            }
                        }
                        flushed?;
                        let ghost settled = *self;
                        let given = self.release_segment(segment);
                        proof {
                            if secure {
                                base = settled;
                                settled.law_a_flush_secures_what_is_held();
                                Self::lemma_release_guards(&base, &settled, self, segment as int);
                                assert(self.secures(wanted));
                            }
                        }
                        given?;
                        let ghost was_moved = moved_bytes;
                        compacted += 1;
                        moved_bytes = moved_bytes.saturating_add(live_span);
                        proof {
                            if able {
                                assert(members@.to_set() =~= dwellers(before.sb, before.index@, segment as int));
                                Self::lemma_course_step(
                                    &before,
                                    &evacuated,
                                    self,
                                    &rel,
                                    kept.index@,
                                    spans@,
                                    candidates@,
                                    i - 1,
                                    emptied,
                                    first,
                                    head,
                                    members@,
                                    live_span as int,
                                    was_moved,
                                    moved_bytes,
                                );
                                lemma_one_more(self.sb, kept.index@, first, emptied, segment, members@, was_told, n);
                                emptied = emptied.push(segment);
                            }
                        }
                    }
                }
            }
        }
        proof {
            if secure {
                assert(self.secures(wanted));
            }
            if due && compacted == 0 {
                let p = choose|p: int| 0 <= p < candidates@.len() && candidates@[p] == lean;
                assert(candidates@[p] != lean);
            }
            lemma_few_segments(self.sb, self.disk.bytes().len() as int);
            if able {
                reveal(Brick::on_course);
                self.lemma_emptied_in_turn(old(self), live@.dom(), spans@, candidates@, if done { i - 1 } else { i as int }, emptied, moved_bytes);
                assert(self.emptied_in_turn(old(self), live@.dom(), emptied));
                assert(moves_counted(old(self), live@.dom(), emptied, moved));
            }
        }
        Ok(
            GcStats {
                blocks_dropped: dropped,
                blocks_moved: moved,
                segments_freed: released + compacted,
                segments_compacted: compacted,
            },
        )
    }
}

/// A disk has far fewer segments than bytes.
proof fn lemma_few_segments(sb: Superblock, size: int)
    requires
        super::sound(sb, size),
    ensures
        sb.segment_count * 2 <= size,
{
    super::lemma_span_positive(sb.block_size);
    assert(sb.segment_count * 2 <= sb.segment_count * sb.segment_size) by (nonlinear_arith)
        requires
            sb.segment_count >= 0,
            sb.segment_size >= 2,
    ;
}

spec fn came_before(s: Seq<(BlockHash, Location)>, i: int, h: BlockHash) -> bool {
    exists|j: int| 0 <= j < i && (#[trigger] s[j]).0 == h
}

/// The segments with something in them, emptiest first, lower numbers first
/// among equals.
fn by_fill(spans: &Vec<u64>) -> (order: Vec<u64>)
    requires
        spans@.len() <= u64::MAX,
    ensures
        order@.len() <= spans@.len(),
        forall|k: int| 0 <= k < order@.len() ==> (#[trigger] order@[k]) < spans@.len() && spans@[order@[k] as int] > 0,
        forall|a: int, c: int|
            0 <= a < c < order@.len() ==> spans@[#[trigger] order@[a] as int] < spans@[#[trigger] order@[c] as int] || (
            spans@[order@[a] as int] == spans@[order@[c] as int] && order@[a] < order@[c]),
        forall|x: u64| x < spans@.len() && spans@[x as int] > 0 ==> #[trigger] order@.contains(x),
{
    let mut order: Vec<u64> = Vec::new();
    let mut i: usize = 0;
    while i < spans.len()
        invariant
            i <= spans@.len() <= u64::MAX,
            order@.len() <= i,
            forall|k: int| 0 <= k < order@.len() ==> (#[trigger] order@[k]) < i && spans@[order@[k] as int] > 0,
            forall|a: int, c: int|
                0 <= a < c < order@.len() ==> spans@[#[trigger] order@[a] as int] < spans@[#[trigger] order@[c] as int] || (
                spans@[order@[a] as int] == spans@[order@[c] as int] && order@[a] < order@[c]),
            forall|x: u64| x < i && spans@[x as int] > 0 ==> #[trigger] order@.contains(x),
        decreases spans@.len() - i,
    {
        if spans[i] > 0 {
            let mut at: usize = order.len();
            while at > 0 && spans[order[at - 1] as usize] > spans[i]
                invariant
                    i < spans@.len() <= u64::MAX,
                    at <= order@.len(),
                    forall|k: int| 0 <= k < order@.len() ==> (#[trigger] order@[k]) < i && spans@[order@[k] as int] > 0,
                    forall|k: int| at <= k < order@.len() ==> spans@[#[trigger] order@[k] as int] > spans@[i as int],
                decreases at,
            {
                at -= 1;
            }
            let ghost before = order@;
            order.insert(at, i as u64);
            proof {
                assert forall|a: int, c: int|
                    0 <= a < c < order@.len() implies spans@[#[trigger] order@[a] as int] < spans@[#[trigger] order@[c] as int] || (
                    spans@[order@[a] as int] == spans@[order@[c] as int] && order@[a] < order@[c]) by {
                    let x = if a < at { a } else { a - 1 };
                    let y = if c < at { c } else { c - 1 };
                    if a != at && c != at {
                        assert(order@[a] == before[x] && order@[c] == before[y]);
                    } else if c == at {
                        assert(order@[a] == before[a]);
                        assert(at > 0 && spans@[before[at - 1] as int] <= spans@[i as int]);
                        if a < at - 1 {
                            assert(spans@[before[a] as int] <= spans@[before[at - 1] as int]);
                        }
                    } else {
                        assert(order@[c] == before[c - 1]);
                    }
                }
                assert forall|x: u64| x < i + 1 && spans@[x as int] > 0 implies #[trigger] order@.contains(x) by {
                    if x == i {
                        assert(order@[at as int] == x);
                    } else {
                        assert(before.contains(x));
                        let k = choose|k: int| 0 <= k < before.len() && before[k] == x;
                        assert(order@[if k < at { k } else { k + 1 }] == x);
                    }
                }
                assert forall|k: int| 0 <= k < order@.len() implies (#[trigger] order@[k]) < i + 1 && spans@[order@[k] as int] > 0 by {
                    if k < at {
                        assert(order@[k] == before[k]);
                    } else if k > at {
                        assert(order@[k] == before[k - 1]);
                    }
                }
            }
        }
        i += 1;
    }
    order
}

} // verus!
