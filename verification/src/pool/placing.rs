//! Whose blocks a pool's are, before and after its slice map changes.

use super::snapshot::{map_adopted, planned, reassign_committed, reassign_prepared, write_homes};
use super::Pool;
use crate::disk::Disk;
use crate::error::Result;
use crate::hash::BlockHash;
use crate::slice::reassign::{first_kept, moves_of, needed_move, pairs_of, reassigned_homes, share_a_home};
use crate::slice::{is_home, lists, Homes, NodeId, SliceMap, SliceMove, SLICES};
use vstd::prelude::*;

verus! {

/// A reassignment that commits puts the pending map in force, and nothing is
/// pending then. Tables are left alone.
pub proof fn law_a_commit_puts_the_pending_map_in_force<D: Disk>(before: &Pool<D>, after: &Pool<D>, r: Result<()>, hash: BlockHash)
    requires
        reassign_committed(before, after, r),
    ensures
        before.pending() is None ==> r is Err && after.seat() == before.seat() && after.pending() is None,
        before.seat() is None ==> r is Err,
        before.pending() is Some && before.seat() is Some ==> {
            &&& after.seat() is Some
            &&& after.seat()->Some_0.0 == before.seat()->Some_0.0
            &&& after.seat()->Some_0.1 == before.pending()->Some_0
            &&& after.pending() is None
            &&& after.serves(hash) <==> is_home(before.pending()->Some_0.home_pair(hash), before.seat()->Some_0.0)
            &&& after.lease_map() == before.lease_map()
            &&& after.snapshot_map() == before.snapshot_map()
            &&& after.vdisk_map().dom() == before.vdisk_map().dom()
            &&& r is Ok ==> after.stock().durable()
        },
{
}

/// A map is adopted by a placed pool and only where it is newer; it is then
/// in force, under the same node.
pub proof fn law_an_adopted_map_is_newer<D: Disk>(before: &Pool<D>, after: &Pool<D>, map: SliceMap, r: Result<()>)
    requires
        map_adopted(before, after, map, r),
    ensures
        r is Ok ==> before.seat() is Some && map.at_version() > before.seat()->Some_0.1.at_version() && after.seat() == Some((before.seat()->Some_0.0, map))
            && after.pending() is None && after.stock().durable(),
        before.seat() is None || map.at_version() <= before.seat()->Some_0.1.at_version() ==> r is Err && after.seat() == before.seat() && after.pending()
            == before.pending(),
        after.lease_map() == before.lease_map(),
        after.snapshot_map() == before.snapshot_map(),
        after.vdisk_map().dom() == before.vdisk_map().dom(),
{
}

/// While a reassignment is pending a write goes to the homes of both maps,
/// each once; otherwise to the two homes of the one.
pub proof fn law_writes_go_to_both_maps_homes(homes: Homes, next: Option<Homes>, n: NodeId)
    requires
        homes@[0] != homes@[1],
        next matches Some(more) ==> more@[0] != more@[1],
    ensures
        write_homes(homes, next).contains(n) <==> is_home(homes, n) || (next matches Some(more) && is_home(more, n)),
        write_homes(homes, next).no_duplicates(),
{
    let base = seq![homes@[0], homes@[1]];
    assert(base[0] == homes@[0] && base[1] == homes@[1]);
    assert(base.contains(homes@[0]) && base.contains(homes@[1]));
    assert(base.contains(n) <==> is_home(homes, n));
    if let Some(more) = next {
        let mid = if base.contains(more@[0]) {
            base
        } else {
            base.push(more@[0])
        };
        let all = write_homes(homes, next);
        assert(mid.contains(n) <==> base.contains(n) || n == more@[0]) by {
            if base.contains(n) {
                let i = choose|i: int| 0 <= i < base.len() && base[i] == n;
                assert(mid[i] == n);
            }
            if n == more@[0] && !base.contains(n) {
                assert(mid[2] == n);
            }
        }
        assert(all.contains(n) <==> mid.contains(n) || n == more@[1]) by {
            if mid.contains(n) {
                let i = choose|i: int| 0 <= i < mid.len() && mid[i] == n;
                assert(all[i] == n);
            }
            if n == more@[1] && !mid.contains(n) {
                assert(all.last() == n);
            }
        }
    }
}

proof fn lemma_moves(table: Seq<Homes>, after: Seq<(NodeId, NodeId)>, members: Seq<NodeId>, n: nat, m: SliceMove)
    requires
        n <= SLICES,
    ensures
        moves_of(table, after, members, n).contains(m) <==> m.slice < n && (after[m.slice as int].0 == m.target || after[m.slice as int].1 == m.target) && !is_home(
            table[m.slice as int],
            m.target,
        ) && first_kept(table[m.slice as int], members) == Some(m.source),
    decreases n,
{
    if n > 0 {
        let s = n - 1;
        let rest = moves_of(table, after, members, s as nat);
        let one = needed_move(table[s], members, s, after[s].0);
        let two = needed_move(table[s], members, s, after[s].1);
        let all = rest + one + two;
        lemma_moves(table, after, members, s as nat, m);
        if all.contains(m) {
            let i = choose|i: int| 0 <= i < all.len() && all[i] == m;
            if i < rest.len() {
                assert(rest[i] == m);
                assert(rest.contains(m));
            } else if i < rest.len() + one.len() {
                assert(one[i - rest.len()] == m);
            } else {
                assert(two[i - rest.len() - one.len()] == m);
            }
        }
        if rest.contains(m) {
            let i = choose|i: int| 0 <= i < rest.len() && rest[i] == m;
            assert(all[i] == m);
        }
        if m.slice == s && !is_home(table[s], m.target) && first_kept(table[s], members) == Some(m.source) {
            let want = SliceMove { slice: s as usize, source: m.source, target: m.target };
            assert(want == m);
            if after[s].0 == m.target {
                assert(one[0] == m);
                assert(all[rest.len() as int] == m);
            }
            if after[s].1 == m.target {
                assert(two[0] == m);
                assert(all[(rest.len() + one.len()) as int] == m);
            }
        }
    }
}

/// A plan moves just what it must: for every slice, each home that the new
/// map adds is the target of a move, from a home of the old map that stays
/// among the members, and there is no other move.
pub proof fn law_a_plan_moves_what_it_must(
    current: SliceMap,
    version: u64,
    members: Seq<NodeId>,
    list: Seq<NodeId>,
    pending: Option<SliceMap>,
    r: Result<Vec<SliceMove>>,
    m: SliceMove,
    s: int,
    n: NodeId,
)
    requires
        planned(current, version, members, pending, r),
        lists(list, members),
        version > current.at_version(),
        list.len() >= 2,
        r is Ok,
        pending is Some && pending->Some_0.covers(),
        0 <= s < SLICES,
    ensures
        r->Ok_0@.contains(m) ==> {
            &&& m.slice < SLICES
            &&& is_home(pending->Some_0.table()[m.slice as int], m.target)
            &&& !is_home(current.table()[m.slice as int], m.target)
            &&& is_home(current.table()[m.slice as int], m.source)
            &&& members.contains(m.source)
        },
        is_home(pending->Some_0.table()[s], n) && !is_home(current.table()[s], n) ==> exists|source: NodeId|
            r->Ok_0@.contains(SliceMove { slice: s as usize, source, target: n }) && #[trigger] is_home(current.table()[s], source),
        share_a_home(current.table()[s], pending->Some_0.table()[s]),
{
    let next = pending->Some_0.table();
    let after = reassigned_homes(current.table(), list);
    assert(pairs_of(next) == after);
    lemma_moves(current.table(), after, list, SLICES as nat, m);
    if r->Ok_0@.contains(m) {
        let k = m.slice as int;
        assert(pairs_of(next)[k] == (next[k]@[0], next[k]@[1]));
        assert(list.contains(m.source));
    }
    if is_home(next[s], n) && !is_home(current.table()[s], n) {
        assert(pairs_of(next)[s] == (next[s]@[0], next[s]@[1]));
        crate::slice::reassign::lemma_no_orphans(current.table(), list, s);
        let source = first_kept(current.table()[s], list)->Some_0;
        let want = SliceMove { slice: s as usize, source, target: n };
        lemma_moves(current.table(), after, list, SLICES as nat, want);
        assert(is_home(current.table()[s], source));
    }
}

/// Opening a reassignment moves nothing yet: the placement, the era, the
/// vdisks, the snapshots and the leases are as they were. One that is opened
/// is pending at the version asked for, which is above that of the map it
/// would replace and no lower than that of one that was pending; one that is
/// refused leaves what was pending.
pub proof fn law_opening_a_reassignment_moves_nothing<D: Disk>(
    before: &Pool<D>,
    after: &Pool<D>,
    version: u64,
    members: Seq<NodeId>,
    r: Result<Vec<SliceMove>>,
)
    requires
        reassign_prepared(before, after, version, members, r),
    ensures
        after.seat() == before.seat() && after.era_now() == before.era_now(),
        after.vdisk_map() == before.vdisk_map() && after.snapshot_map() == before.snapshot_map() && after.lease_map() == before.lease_map(),
        r is Err ==> after.pending() == before.pending(),
        r is Ok ==> {
            &&& before.seat() matches Some(seat) && seat.1.at_version() < version
            &&& after.pending() matches Some(next) && next.at_version() == version
            &&& before.pending() matches Some(earlier) ==> earlier.at_version() <= version
        },
{
}

} // verus!
