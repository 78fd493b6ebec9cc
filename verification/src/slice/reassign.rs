//! Moving to a new member set with as little copying as the balance allows.

use super::{
    is_home, lemma_lists_unique, lists, lists_homes, map_fault, normalize, rising, target_of, Homes, NodeId, Reassignment, SliceMap,
    SliceMove, SLICES,
};
use crate::error::{FsError, Result};
use vstd::prelude::*;

verus! {

/// A seat more for a node.
pub open spec fn seated(seats: Seq<u64>, node: NodeId) -> Seq<u64> {
    seats.update(node as int, (seats[node as int] + 1) as u64)
}

/// Seats held through homes that stay members, in the first `n` slices.
pub open spec fn kept_seats(table: Seq<Homes>, members: Seq<NodeId>, n: nat) -> Seq<u64>
    decreases n,
{
    if n == 0 {
        Seq::new(256, |i: int| 0u64)
    } else {
        let before = kept_seats(table, members, (n - 1) as nat);
        let homes = table[n - 1]@;
        let first = if members.contains(homes[0]) {
            seated(before, homes[0])
        } else {
            before
        };
        if members.contains(homes[1]) {
            seated(first, homes[1])
        } else {
            first
        }
    }
}

/// The member with the fewest seats among the first `n`, but not `other`;
/// the lowest id among equals.
pub open spec fn emptiest(members: Seq<NodeId>, n: nat, seats: Seq<u64>, other: Option<NodeId>) -> Option<NodeId>
    decreases n,
{
    if n == 0 {
        None
    } else {
        let best = emptiest(members, (n - 1) as nat, seats, other);
        let node = members[n - 1];
        if other == Some(node) {
            best
        } else {
            match best {
                Some(b) => if seats[node as int] < seats[b as int] {
                    Some(node)
                } else {
                    best
                },
                None => Some(node),
            }
        }
    }
}

/// The two homes a slice gets before balancing: those that stay, and the
/// emptiest members for the rest. With the seats after.
pub open spec fn filled(homes: Homes, members: Seq<NodeId>, seats: Seq<u64>) -> ((NodeId, NodeId), Seq<u64>) {
    let n = members.len();
    let (a, b) = (homes@[0], homes@[1]);
    if members.contains(a) && members.contains(b) {
        ((a, b), seats)
    } else if members.contains(a) {
        let p = emptiest(members, n, seats, Some(a))->Some_0;
        ((a, p), seated(seats, p))
    } else if members.contains(b) {
        let p = emptiest(members, n, seats, Some(b))->Some_0;
        ((b, p), seated(seats, p))
    } else {
        let p = emptiest(members, n, seats, None)->Some_0;
        let q = emptiest(members, n, seated(seats, p), Some(p))->Some_0;
        ((p, q), seated(seated(seats, p), q))
    }
}

/// The same for the first `n` slices.
pub open spec fn filled_all(table: Seq<Homes>, members: Seq<NodeId>, n: nat) -> (Seq<(NodeId, NodeId)>, Seq<u64>)
    decreases n,
{
    if n == 0 {
        (Seq::empty(), kept_seats(table, members, table.len()))
    } else {
        let before = filled_all(table, members, (n - 1) as nat);
        let one = filled(table[n - 1], members, before.1);
        (before.0.push(one.0), one.1)
    }
}

/// Where a balancing stands: the homes, the seats, and the slices that have
/// already given one home up.
pub struct Plan {
    pub placed: Seq<(NodeId, NodeId)>,
    pub seats: Seq<u64>,
    pub touched: Seq<bool>,
}

/// How many slices each member should hold.
pub open spec fn targets_of(members: Seq<NodeId>) -> Seq<u64> {
    Seq::new(
        256,
        |x: int| if members.contains(x as u8) {
            target_of(members.len(), members.index_of(x as u8)) as u64
        } else {
            0u64
        },
    )
}

/// Some member is a home in both.
pub open spec fn share_a_home(before: Homes, after: Homes) -> bool {
    exists|n: NodeId| #[trigger] is_home(before, n) && is_home(after, n)
}

/// A home may be given up: another that held the slice stays, or this one
/// never did.
pub open spec fn may_give(old: Homes, giver: NodeId, other: NodeId) -> bool {
    is_home(old, other) || !is_home(old, giver)
}

/// The home of a pair that holds more than it should and may be given up:
/// the fuller one, the lower id among equals.
pub open spec fn donor(pair: (NodeId, NodeId), old: Homes, seats: Seq<u64>, targets: Seq<u64>) -> Option<NodeId> {
    let (a, b) = pair;
    let over_a = seats[a as int] > targets[a as int] && may_give(old, a, b);
    let over_b = seats[b as int] > targets[b as int] && may_give(old, b, a);
    if over_a && over_b {
        if seats[a as int] > seats[b as int] || (seats[a as int] == seats[b as int] && a <= b) {
            Some(a)
        } else {
            Some(b)
        }
    } else if over_a {
        Some(a)
    } else if over_b {
        Some(b)
    } else {
        None
    }
}

/// The first slice from `from` on that can hand a seat to `under`, and who
/// gives it up.
pub open spec fn first_swap(plan: Plan, table: Seq<Homes>, targets: Seq<u64>, under: NodeId, from: nat) -> Option<(int, NodeId)>
    decreases SLICES - from,
{
    if from >= SLICES {
        None
    } else {
        let pair = plan.placed[from as int];
        if !plan.touched[from as int] && pair.0 != under && pair.1 != under && donor(pair, table[from as int], plan.seats, targets) is Some {
            Some((from as int, donor(pair, table[from as int], plan.seats, targets)->Some_0))
        } else {
            first_swap(plan, table, targets, under, from + 1)
        }
    }
}

/// One home of one slice changes hands.
pub open spec fn swapped(plan: Plan, under: NodeId, slice: int, giver: NodeId) -> Plan {
    let pair = plan.placed[slice];
    Plan {
        placed: plan.placed.update(
            slice,
            if pair.0 == giver {
                (under, pair.1)
            } else {
                (pair.0, under)
            },
        ),
        seats: seated(plan.seats.update(giver as int, (plan.seats[giver as int] - 1) as u64), under),
        touched: plan.touched.update(slice, true),
    }
}

/// Hand seats to `under` until it has its share or nobody can give.
pub open spec fn settled(plan: Plan, table: Seq<Homes>, targets: Seq<u64>, under: NodeId, steps: nat) -> Plan
    decreases steps,
{
    if steps == 0 || plan.seats[under as int] >= targets[under as int] {
        plan
    } else {
        match first_swap(plan, table, targets, under, 0) {
            Some((slice, giver)) => settled(swapped(plan, under, slice, giver), table, targets, under, (steps - 1) as nat),
            None => plan,
        }
    }
}

/// The same for the first `n` members in turn.
pub open spec fn settled_all(plan: Plan, table: Seq<Homes>, targets: Seq<u64>, members: Seq<NodeId>, n: nat) -> Plan
    decreases n,
{
    if n == 0 {
        plan
    } else {
        settled(settled_all(plan, table, targets, members, (n - 1) as nat), table, targets, members[n - 1], 512)
    }
}

/// The homes a reassignment of `table` to `members` settles on.
pub open spec fn reassigned_homes(table: Seq<Homes>, members: Seq<NodeId>) -> Seq<(NodeId, NodeId)> {
    let start = filled_all(table, members, SLICES as nat);
    settled_all(
        Plan { placed: start.0, seats: start.1, touched: Seq::new(SLICES as nat, |i: int| false) },
        table,
        targets_of(members),
        members,
        members.len(),
    ).placed
}

/// A map's homes as pairs.
pub open spec fn pairs_of(table: Seq<Homes>) -> Seq<(NodeId, NodeId)> {
    Seq::new(table.len(), |i: int| (table[i]@[0], table[i]@[1]))
}

/// The first of a slice's homes that stays a member.
pub open spec fn first_kept(homes: Homes, members: Seq<NodeId>) -> Option<NodeId> {
    if members.contains(homes@[0]) {
        Some(homes@[0])
    } else if members.contains(homes@[1]) {
        Some(homes@[1])
    } else {
        None
    }
}

/// The copy a new home of a slice needs, if a member can serve it.
pub open spec fn needed_move(before: Homes, members: Seq<NodeId>, slice: int, target: NodeId) -> Seq<SliceMove> {
    match first_kept(before, members) {
        Some(source) => if is_home(before, target) {
            Seq::empty()
        } else {
            seq![SliceMove { slice: slice as usize, source, target }]
        },
        None => Seq::empty(),
    }
}

/// The copies the first `n` slices need, in slice order.
pub open spec fn moves_of(table: Seq<Homes>, after: Seq<(NodeId, NodeId)>, members: Seq<NodeId>, n: nat) -> Seq<SliceMove>
    decreases n,
{
    if n == 0 {
        Seq::empty()
    } else {
        let s = n - 1;
        moves_of(table, after, members, s as nat) + needed_move(table[s], members, s, after[s].0) + needed_move(
            table[s],
            members,
            s,
            after[s].1,
        )
    }
}

/// The slices of the first `n` that no member holds any more.
pub open spec fn orphans(table: Seq<Homes>, members: Seq<NodeId>, n: nat) -> Seq<usize>
    decreases n,
{
    if n == 0 {
        Seq::empty()
    } else {
        let before = orphans(table, members, (n - 1) as nat);
        if first_kept(table[n - 1], members) is None {
            before.push((n - 1) as usize)
        } else {
            before
        }
    }
}

proof fn lemma_emptiest(members: Seq<NodeId>, n: nat, seats: Seq<u64>, other: Option<NodeId>)
    requires
        rising(members),
        n <= members.len(),
    ensures
        emptiest(members, n, seats, other) matches Some(p) ==> members.contains(p) && other != Some(p),
        n >= 2 || (n == 1 && other != Some(members[0])) ==> emptiest(members, n, seats, other) is Some,
    decreases n,
{
    if n > 0 {
        lemma_emptiest(members, (n - 1) as nat, seats, other);
        assert(members.contains(members[n - 1]));
        if n >= 2 {
            assert(members[0] < members[n - 1]);
            if n >= 3 {
            }
        }
    }
}

/// What balancing keeps: homes are members, and a slice that had a home
/// among them has one of its own still.
pub open spec fn kept_one(table: Seq<Homes>, plan: Plan, members: Seq<NodeId>) -> bool {
    &&& plan.placed.len() == SLICES
    &&& plan.touched.len() == SLICES
    &&& plan.seats.len() == 256
    &&& forall|s: int|
        0 <= s < SLICES ==> {
            &&& members.contains((#[trigger] plan.placed[s]).0)
            &&& members.contains(plan.placed[s].1)
            &&& first_kept(table[s], members) is Some ==> is_home(table[s], plan.placed[s].0) || is_home(table[s], plan.placed[s].1)
        }
}

proof fn lemma_first_swap(plan: Plan, table: Seq<Homes>, targets: Seq<u64>, under: NodeId, from: nat)
    ensures
        first_swap(plan, table, targets, under, from) matches Some((s, d)) ==> {
            &&& from <= s < SLICES
            &&& !plan.touched[s]
            &&& (plan.placed[s].0 == d && may_give(table[s], d, plan.placed[s].1)) || (plan.placed[s].1 == d && may_give(table[s], d, plan.placed[s].0))
            &&& d != under
            &&& plan.seats[d as int] > targets[d as int]
        },
    decreases SLICES - from,
{
    if from < SLICES {
        lemma_first_swap(plan, table, targets, under, from + 1);
    }
}

proof fn lemma_settled_keeps(plan: Plan, table: Seq<Homes>, targets: Seq<u64>, members: Seq<NodeId>, under: NodeId, steps: nat)
    requires
        kept_one(table, plan, members),
        members.contains(under),
    ensures
        kept_one(table, settled(plan, table, targets, under, steps), members),
    decreases steps,
{
    if steps > 0 && plan.seats[under as int] < targets[under as int] {
        lemma_first_swap(plan, table, targets, under, 0);
        if let Some((slice, giver)) = first_swap(plan, table, targets, under, 0) {
            let next = swapped(plan, under, slice, giver);
            let pair = plan.placed[slice];
            assert(members.contains(pair.0));
            assert forall|s: int| 0 <= s < SLICES implies {
                &&& members.contains((#[trigger] next.placed[s]).0)
                &&& members.contains(next.placed[s].1)
                &&& first_kept(table[s], members) is Some ==> is_home(table[s], next.placed[s].0) || is_home(table[s], next.placed[s].1)
            } by {
                assert(members.contains(plan.placed[s].0));
            }
            lemma_settled_keeps(next, table, targets, members, under, (steps - 1) as nat);
        }
    }
}

proof fn lemma_settled_all_keeps(plan: Plan, table: Seq<Homes>, targets: Seq<u64>, members: Seq<NodeId>, n: nat)
    requires
        kept_one(table, plan, members),
        n <= members.len(),
    ensures
        kept_one(table, settled_all(plan, table, targets, members, n), members),
    decreases n,
{
    if n > 0 {
        lemma_settled_all_keeps(plan, table, targets, members, (n - 1) as nat);
        assert(members.contains(members[n - 1]));
        lemma_settled_keeps(settled_all(plan, table, targets, members, (n - 1) as nat), table, targets, members, members[n - 1], 512);
    }
}

proof fn lemma_filled_all(table: Seq<Homes>, members: Seq<NodeId>, n: nat)
    requires
        table.len() == SLICES,
        rising(members),
        members.len() >= 2,
        n <= SLICES,
    ensures
        filled_all(table, members, n).0.len() == n,
        filled_all(table, members, n).1.len() == 256,
        forall|s: int|
            0 <= s < n ==> {
                let pair = #[trigger] filled_all(table, members, n).0[s];
                &&& members.contains(pair.0) && members.contains(pair.1)
                &&& members.contains(table[s]@[0]) ==> pair.0 == table[s]@[0]
                &&& members.contains(table[s]@[1]) && !members.contains(table[s]@[0]) ==> pair.0 == table[s]@[1]
                &&& members.contains(table[s]@[0]) && members.contains(table[s]@[1]) ==> pair.1 == table[s]@[1]
            },
    decreases n,
{
    lemma_kept_seats_len(table, members, table.len());
    if n > 0 {
        lemma_filled_all(table, members, (n - 1) as nat);
        let before = filled_all(table, members, (n - 1) as nat);
        let homes = table[n - 1]@;
        lemma_emptiest(members, members.len(), before.1, Some(homes[0]));
        lemma_emptiest(members, members.len(), before.1, Some(homes[1]));
        lemma_emptiest(members, members.len(), before.1, None);
        let p = emptiest(members, members.len(), before.1, None)->Some_0;
        lemma_emptiest(members, members.len(), seated(before.1, p), Some(p));
        let all = filled_all(table, members, n).0;
        assert forall|s: int| 0 <= s < n implies {
            let pair = #[trigger] all[s];
            &&& members.contains(pair.0) && members.contains(pair.1)
            &&& members.contains(table[s]@[0]) ==> pair.0 == table[s]@[0]
            &&& members.contains(table[s]@[1]) && !members.contains(table[s]@[0]) ==> pair.0 == table[s]@[1]
            &&& members.contains(table[s]@[0]) && members.contains(table[s]@[1]) ==> pair.1 == table[s]@[1]
        } by {
            if s < n - 1 {
                assert(all[s] == before.0[s]);
            }
        }
    }
}

proof fn lemma_kept_seats_len(table: Seq<Homes>, members: Seq<NodeId>, n: nat)
    ensures
        kept_seats(table, members, n).len() == 256,
    decreases n,
{
    if n > 0 {
        lemma_kept_seats_len(table, members, (n - 1) as nat);
    }
}

proof fn lemma_start_keeps(table: Seq<Homes>, members: Seq<NodeId>, touched: Seq<bool>)
    requires
        table.len() == SLICES,
        rising(members),
        members.len() >= 2,
        touched.len() == SLICES,
    ensures
        ({
            let start = filled_all(table, members, SLICES as nat);
            kept_one(table, Plan { placed: start.0, seats: start.1, touched }, members)
        }),
{
    lemma_filled_all(table, members, SLICES as nat);
    let start = filled_all(table, members, SLICES as nat);
    let plan = Plan { placed: start.0, seats: start.1, touched };
    assert forall|s: int| 0 <= s < SLICES implies {
        &&& members.contains((#[trigger] plan.placed[s]).0)
        &&& members.contains(plan.placed[s].1)
        &&& first_kept(table[s], members) is Some ==> is_home(table[s], plan.placed[s].0) || is_home(table[s], plan.placed[s].1)
    } by {
        let pair = start.0[s];
    }
}

/// No slice loses both homes in one step: a reassignment places every slice
/// on members, and one that is not orphaned keeps a home that already holds
/// its blocks, a source for the copy and a reader for anyone asking
/// meanwhile.
pub proof fn law_reassignment_never_takes_both_homes(table: Seq<Homes>, members: Seq<NodeId>, slice: int)
    requires
        table.len() == SLICES,
        rising(members),
        members.len() >= 2,
        0 <= slice < SLICES,
    ensures
        ({
            let after = reassigned_homes(table, members)[slice];
            &&& members.contains(after.0) && members.contains(after.1)
            &&& orphans(table, members, SLICES as nat).contains(slice as usize) || is_home(table[slice], after.0) || is_home(table[slice], after.1)
        }),
{
    let start = filled_all(table, members, SLICES as nat);
    let touched = Seq::new(SLICES as nat, |i: int| false);
    let plan = Plan { placed: start.0, seats: start.1, touched };
    lemma_start_keeps(table, members, touched);
    lemma_settled_all_keeps(plan, table, targets_of(members), members, members.len());
    let done = settled_all(plan, table, targets_of(members), members, members.len());
    assert(members.contains(done.placed[slice].0));
    lemma_orphans(table, members, SLICES as nat, slice);
}

proof fn lemma_orphans(table: Seq<Homes>, members: Seq<NodeId>, n: nat, slice: int)
    requires
        n <= SLICES,
        0 <= slice < n,
    ensures
        orphans(table, members, n).contains(slice as usize) <==> first_kept(table[slice], members) is None,
    decreases n,
{
    let before = orphans(table, members, (n - 1) as nat);
    let all = orphans(table, members, n);
    if slice < n - 1 {
        lemma_orphans(table, members, (n - 1) as nat, slice);
        if all.contains(slice as usize) {
            let k = choose|k: int| 0 <= k < all.len() && all[k] == slice as usize;
            assert(before[k] == slice as usize);
        }
        if before.contains(slice as usize) {
            let k = choose|k: int| 0 <= k < before.len() && before[k] == slice as usize;
            assert(all[k] == slice as usize);
        }
    } else {
        lemma_orphans_below(table, members, (n - 1) as nat);
        if first_kept(table[slice], members) is None {
            assert(all[before.len() as int] == slice as usize);
        }
    }
}

/// Where no slice is orphaned, each has a home that stays.
pub proof fn lemma_no_orphans(table: Seq<Homes>, members: Seq<NodeId>, slice: int)
    requires
        orphans(table, members, SLICES as nat).len() == 0,
        0 <= slice < SLICES,
    ensures
        first_kept(table[slice], members) is Some,
{
    lemma_orphans(table, members, SLICES as nat, slice);
}

proof fn lemma_orphans_below(table: Seq<Homes>, members: Seq<NodeId>, n: nat)
    requires
        n <= SLICES,
    ensures
        forall|k: int| 0 <= k < orphans(table, members, n).len() ==> #[trigger] orphans(table, members, n)[k] < n,
    decreases n,
{
    if n > 0 {
        lemma_orphans_below(table, members, (n - 1) as nat);
        let (before, all) = (orphans(table, members, (n - 1) as nat), orphans(table, members, n));
        assert forall|k: int| 0 <= k < all.len() implies #[trigger] all[k] < n by {
            if k < before.len() {
                assert(all[k] == before[k]);
            }
        }
    }
}

/// Every copy a reassignment asks for is served by a member that held the
/// slice and still is one, to a home that did not hold it.
pub proof fn law_moves_have_real_sources(
    table: Seq<Homes>,
    after: Seq<(NodeId, NodeId)>,
    members: Seq<NodeId>,
    n: nat,
    i: int,
)
    requires
        n <= table.len() <= SLICES,
        n <= after.len(),
        0 <= i < moves_of(table, after, members, n).len(),
    ensures
        ({
            let m = moves_of(table, after, members, n)[i];
            &&& m.slice < n
            &&& is_home(table[m.slice as int], m.source)
            &&& members.contains(m.source)
            &&& !is_home(table[m.slice as int], m.target)
            &&& after[m.slice as int].0 == m.target || after[m.slice as int].1 == m.target
        }),
    decreases n,
{
    let s = n - 1;
    let before = moves_of(table, after, members, s as nat);
    if i < before.len() {
        law_moves_have_real_sources(table, after, members, s as nat, i);
    } else {
        let first = needed_move(table[s], members, s, after[s].0);
        if i < before.len() + first.len() {
            assert(moves_of(table, after, members, n)[i] == first[i - before.len()]);
        } else {
            let second = needed_move(table[s], members, s, after[s].1);
            assert(moves_of(table, after, members, n)[i] == second[i - before.len() - first.len()]);
        }
    }
}

fn has(members: &Vec<NodeId>, node: NodeId) -> (r: bool)
    ensures
        r == members@.contains(node),
{
    let mut i: usize = 0;
    while i < members.len()
        invariant
            i <= members@.len(),
            forall|k: int| 0 <= k < i ==> #[trigger] members@[k] != node,
        decreases members@.len() - i,
    {
        if members[i] == node {
            assert(members@[i as int] == node);
            return true;
        }
        i += 1;
    }
    false
}

fn pick_emptiest(members: &Vec<NodeId>, seats: &Vec<u64>, other: Option<NodeId>) -> (r: Option<NodeId>)
    requires
        seats@.len() == 256,
    ensures
        r == emptiest(members@, members@.len(), seats@, other),
{
    let mut best: Option<NodeId> = None;
    let mut i: usize = 0;
    while i < members.len()
        invariant
            i <= members@.len(),
            seats@.len() == 256,
            best == emptiest(members@, i as nat, seats@, other),
        decreases members@.len() - i,
    {
        let node: NodeId = members[i];
        let skip = match other {
            Some(o) => o == node,
            None => false,
        };
        if !skip {
            best = match best {
                Some(b) => if seats[node as usize] < seats[b as usize] {
                    Some(node)
                } else {
                    Some(b)
                },
                None => Some(node),
            };
        }
        i += 1;
    }
    best
}

/// No count of seats has run away.
spec fn bounded(seats: Seq<u64>, most: int) -> bool {
    seats.len() == 256 && forall|i: int| 0 <= i < 256 ==> #[trigger] seats[i] <= most
}

fn seat(seats: &mut Vec<u64>, node: NodeId, most: Ghost<int>)
    requires
        bounded(old(seats)@, most@),
        most@ < 10_000,
    ensures
        final(seats)@ == seated(old(seats)@, node),
        bounded(final(seats)@, most@ + 1),
{
    let at: usize = node as usize;
    let now: u64 = seats[at];
    seats.set(at, now + 1);
}

impl SliceMap {
    /// Move to a new member set with as little copying as the balance
    /// allows: add a member, remove one, or replace one, all the same call.
    pub fn reassigned(&self, version: u64, members: &Vec<NodeId>) -> (r: Result<Reassignment>)
        requires
            self.covers(),
        ensures
            version <= self.at_version() ==> r == Err::<Reassignment, FsError>(
                FsError::Placement(
                    "a reassignment must carry a higher version than the map it replaces",
                ),
            ),
            forall|list: Seq<NodeId>| #[trigger]
                lists(list, members@) && version > self.at_version() ==> {
                    &&& list.len() < 2 ==> r == Err::<Reassignment, FsError>(
                        FsError::Placement("a pool needs at least two members"),
                    )
                    &&& list.len() >= 2 ==> match r {
                        Ok(re) => {
                            &&& pairs_of(re.map.table()) == reassigned_homes(self.table(), list)
                            &&& re.moves@ == moves_of(self.table(), reassigned_homes(self.table(), list), list, SLICES as nat)
                            &&& re.orphaned@ == orphans(self.table(), list, SLICES as nat)
                            &&& forall|s: int|
                                0 <= s < SLICES && !re.orphaned@.contains(s as usize) ==> share_a_home(self.table()[s], #[trigger] re.map.table()[s])
                        },
                        Err(e) => exists|slices: Seq<Homes>, named: Seq<NodeId>| #[trigger] pairs_of(slices) == reassigned_homes(self.table(), list)
                            && #[trigger] lists_homes(named, slices) && map_fault(slices, named) == Some(e),
                    }
                },
            r matches Ok(re) ==> re.map.at_version() == version && re.map.covers() && re.map.sound(),
    {
        if version <= self.version {
            return Err(
                FsError::Placement(
                    "a reassignment must carry a higher version than the map it replaces",
                ),
            );
        }
        let list = normalize(members)?;
        proof {
            assert forall|other: Seq<NodeId>| #[trigger] lists(other, members@) implies other == list@ by {
                lemma_lists_unique(other, list@);
            }
        }
        let ghost table = self.slices@;
        let ghost m = list@;
        let mut seats: Vec<u64> = vec![0u64; 256];
        let mut orphaned: Vec<usize> = Vec::new();
        let mut s: usize = 0;
        assert(seats@ =~= kept_seats(table, m, 0));
        while s < SLICES
            invariant
                s <= SLICES,
                table == self.slices@,
                table.len() == SLICES,
                m == list@,
                seats@ == kept_seats(table, m, s as nat),
                bounded(seats@, 2 * s),
                orphaned@ == orphans(table, m, s as nat),
            decreases SLICES - s,
        {
            let homes = self.slices[s];
            let a = has(&list, homes[0]);
            let b = has(&list, homes[1]);
            if a {
                seat(&mut seats, homes[0], Ghost(2 * s as int));
            }
            if b {
                seat(&mut seats, homes[1], Ghost(2 * s + 1));
            }
            if !a && !b {
                orphaned.push(s);
            }
            s += 1;
        }
        let mut placed: Vec<(NodeId, NodeId)> = Vec::new();
        let mut s: usize = 0;
        assert(placed@ =~= filled_all(table, m, 0).0);
        while s < SLICES
            invariant
                s <= SLICES,
                table == self.slices@,
                table.len() == SLICES,
                m == list@,
                rising(m),
                m.len() >= 2,
                placed@ == filled_all(table, m, s as nat).0,
                seats@ == filled_all(table, m, s as nat).1,
                bounded(seats@, 512 + 2 * s),
            decreases SLICES - s,
        {
            let homes = self.slices[s];
            let a = has(&list, homes[0]);
            let b = has(&list, homes[1]);
            let ghost most = 512 + 2 * s as int;
            if a && b {
                placed.push((homes[0], homes[1]));
            } else if a || b {
                let stays: NodeId = if a {
                    homes[0]
                } else {
                    homes[1]
                };
                proof {
                    lemma_emptiest(m, m.len(), seats@, Some(stays));
                }
                match pick_emptiest(&list, &seats, Some(stays)) {
                    Some(p) => {
                        seat(&mut seats, p, Ghost(most));
                        placed.push((stays, p));
                    },
                    None => {
                        return Err(FsError::Placement("a slice needs two distinct members"));
                    },
                }
            } else {
                proof {
                    lemma_emptiest(m, m.len(), seats@, None);
                }
                match pick_emptiest(&list, &seats, None) {
                    Some(p) => {
                        seat(&mut seats, p, Ghost(most));
                        proof {
                            lemma_emptiest(m, m.len(), seats@, Some(p));
                        }
                        match pick_emptiest(&list, &seats, Some(p)) {
                            Some(q) => {
                                seat(&mut seats, q, Ghost(most + 1));
                                placed.push((p, q));
                            },
                            None => {
                                return Err(FsError::Placement("a slice needs two distinct members"));
                            },
                        }
                    },
                    None => {
                        return Err(FsError::Placement("a slice needs two distinct members"));
                    },
                }
            }
            s += 1;
        }
        let ghost targets_spec = targets_of(m);
        let targets = seat_targets(&list);
        let mut touched: Vec<bool> = vec![false; SLICES];
        let ghost start = Plan { placed: placed@, seats: seats@, touched: touched@ };
        proof {
            lemma_filled_all(table, m, SLICES as nat);
            assert(touched@ =~= Seq::new(SLICES as nat, |i: int| false));
            lemma_start_keeps(table, m, touched@);
        }
        let mut i: usize = 0;
        while i < list.len()
            invariant
                i <= list@.len(),
                m == list@,
                targets@ == targets_of(m),
                targets@.len() == 256,
                forall|x: int| 0 <= x < 256 ==> #[trigger] targets@[x] <= 512,
                placed@.len() == SLICES,
                touched@.len() == SLICES,
                bounded(seats@, 2000),
                (Plan { placed: placed@, seats: seats@, touched: touched@ }) == settled_all(start, table, targets@, m, i as nat),
                table == self.slices@,
                table.len() == SLICES,
            decreases list@.len() - i,
        {
            let under: NodeId = list[i];
            balance(&mut placed, &mut seats, &mut touched, &self.slices, &targets, under);
            i += 1;
        }
        proof {
            lemma_settled_all_keeps(start, table, targets@, m, m.len());
        }
        let ghost settled_homes = placed@;
        assert(settled_homes == reassigned_homes(table, m));
        let mut slices: Vec<Homes> = Vec::new();
        let mut moves: Vec<SliceMove> = Vec::new();
        let mut s: usize = 0;
        while s < SLICES
            invariant
                s <= SLICES,
                table == self.slices@,
                table.len() == SLICES,
                m == list@,
                settled_homes == placed@,
                placed@.len() == SLICES,
                slices@.len() == s,
                forall|k: int| 0 <= k < s ==> ((#[trigger] slices@[k])@[0], slices@[k]@[1]) == placed@[k],
                moves@ == moves_of(table, placed@, m, s as nat),
            decreases SLICES - s,
        {
            let (x, y) = placed[s];
            let pair: Homes = [x, y];
            assert(pair@[0] == x && pair@[1] == y);
            slices.push(pair);
            let before = self.slices[s];
            let source: Option<NodeId> = if has(&list, before[0]) {
                Some(before[0])
            } else if has(&list, before[1]) {
                Some(before[1])
            } else {
                None
            };
            let ghost so_far = moves@;
            if let Some(source) = source {
                if !super::home_here(&before, x) {
                    moves.push(SliceMove { slice: s, source, target: x });
                }
                if !super::home_here(&before, y) {
                    moves.push(SliceMove { slice: s, source, target: y });
                }
            }
            proof {
                assert(moves@ =~= so_far + needed_move(table[s as int], m, s as int, x) + needed_move(table[s as int], m, s as int, y));
            }
            s += 1;
        }
        let map = SliceMap { version, slices };
        proof {
            assert(pairs_of(map.table()) =~= settled_homes);
        }
        let named = map.members();
        match map.validate() {
            Ok(()) => {},
            Err(e) => {
                assert(lists_homes(named@, map.table()));
                return Err(e);
            },
        }
        proof {
            assert forall|x: int| 0 <= x < SLICES && !orphaned@.contains(x as usize) implies share_a_home(self.table()[x], #[trigger] map.table()[x]) by {
                law_reassignment_never_takes_both_homes(table, m, x);
                let (a, b) = pairs_of(map.table())[x];
                assert(is_home(map.table()[x], a) && is_home(map.table()[x], b));
            }
        }
        Ok(Reassignment { map, moves, orphaned })
    }
}

/// How many slices each member should hold, by id.
fn seat_targets(members: &Vec<NodeId>) -> (targets: Vec<u64>)
    requires
        rising(members@),
        2 <= members@.len() <= 256,
    ensures
        targets@ == targets_of(members@),
        forall|x: int| 0 <= x < 256 ==> #[trigger] targets@[x] <= 512,
{
    let n: usize = members.len();
    let base: usize = 512 / n;
    let extra: usize = 512 % n;
    assert(base <= 256) by (nonlinear_arith)
        requires base == 512int / (n as int), n >= 2;
    let mut targets: Vec<u64> = vec![0u64; 256];
    let mut i: usize = 0;
    while i < n
        invariant
            i <= n == members@.len(),
            rising(members@),
            base == 512int / (n as int),
            extra == 512int % (n as int),
            base <= 256,
            targets@.len() == 256,
            forall|k: int| 0 <= k < i ==> targets@[#[trigger] members@[k] as int] == target_of(n as nat, k),
            forall|x: int| 0 <= x < 256 && (forall|k: int| 0 <= k < i ==> members@[k] != x) ==> #[trigger] targets@[x] == 0,
            forall|x: int| 0 <= x < 256 ==> #[trigger] targets@[x] <= 512,
        decreases n - i,
    {
        let share: usize = base + if i < extra { 1usize } else { 0usize };
        targets.set(members[i] as usize, share as u64);
        i += 1;
    }
    proof {
        let m = members@;
        assert forall|x: int| 0 <= x < 256 implies targets@[x] == targets_of(m)[x] by {
            if m.contains(x as u8) {
                let k = m.index_of(x as u8);
                assert(m[k] == x as u8);
                assert(targets@[m[k] as int] == target_of(n as nat, k));
                assert(target_of(n as nat, k) <= 257);
            } else {
                assert forall|k: int| 0 <= k < n implies m[k] != x by {
                    if m[k] == x {
                        assert(m.contains(x as u8));
                    }
                }
            }
        }
        assert(targets@ =~= targets_of(m));
    }
    targets
}

/// Hand seats to `under` until it has its share or nobody can give.
fn balance(placed: &mut Vec<(NodeId, NodeId)>, seats: &mut Vec<u64>, touched: &mut Vec<bool>, homes: &Vec<Homes>, targets: &Vec<u64>, under: NodeId)
    requires
        old(placed)@.len() == SLICES,
        old(touched)@.len() == SLICES,
        homes@.len() == SLICES,
        bounded(old(seats)@, 2000),
        targets@.len() == 256,
        forall|x: int| 0 <= x < 256 ==> #[trigger] targets@[x] <= 512,
    ensures
        final(placed)@.len() == SLICES,
        final(touched)@.len() == SLICES,
        bounded(final(seats)@, 2000),
        (Plan { placed: final(placed)@, seats: final(seats)@, touched: final(touched)@ }) == settled(
            Plan { placed: old(placed)@, seats: old(seats)@, touched: old(touched)@ },
            homes@,
            targets@,
            under,
            512,
        ),
{
    let mut steps: Ghost<nat> = Ghost(512);
    let mut stuck = false;
    let ghost goal = settled(
        Plan { placed: placed@, seats: seats@, touched: touched@ },
        homes@,
        targets@,
        under,
        512,
    );
    while !stuck && seats[under as usize] < targets[under as usize]
        invariant
            placed@.len() == SLICES,
            homes@.len() == SLICES,
            touched@.len() == SLICES,
            bounded(seats@, 2000),
            targets@.len() == 256,
            forall|x: int| 0 <= x < 256 ==> #[trigger] targets@[x] <= 512,
            steps@ + seats@[under as int] >= 512,
            goal == settled(Plan { placed: placed@, seats: seats@, touched: touched@ }, homes@, targets@, under, steps@),
            stuck ==> goal == (Plan { placed: placed@, seats: seats@, touched: touched@ }),
        decreases 512 - seats@[under as int], (if stuck { 0int } else { 1int }),
    {
        let ghost plan = Plan { placed: placed@, seats: seats@, touched: touched@ };
        let mut slice: usize = 0;
        let mut found: Option<NodeId> = None;
        while slice < SLICES && found.is_none()
            invariant
                slice <= SLICES,
                placed@.len() == SLICES,
                homes@.len() == SLICES,
                touched@.len() == SLICES,
                bounded(seats@, 2000),
                targets@.len() == 256,
                plan == (Plan { placed: placed@, seats: seats@, touched: touched@ }),
                found is None ==> first_swap(plan, homes@, targets@, under, 0) == first_swap(plan, homes@, targets@, under, slice as nat),
                found matches Some(d) ==> slice < SLICES && first_swap(plan, homes@, targets@, under, 0) == Some((slice as int, d)),
            decreases SLICES - slice, (if found is None { 1int } else { 0int }),
        {
            let (a, b) = placed[slice];
            let mut giver: Option<NodeId> = None;
            if !touched[slice] && a != under && b != under {
                // A home that alone still holds the slice's blocks stays.
                let kept_a = super::home_here(&homes[slice], a);
                let kept_b = super::home_here(&homes[slice], b);
                let over_a = seats[a as usize] > targets[a as usize] && (kept_b || !kept_a);
                let over_b = seats[b as usize] > targets[b as usize] && (kept_a || !kept_b);
                if over_a && over_b {
                    if seats[a as usize] > seats[b as usize] || (seats[a as usize] == seats[b as usize] && a <= b) {
                        giver = Some(a);
                    } else {
                        giver = Some(b);
                    }
                } else if over_a {
                    giver = Some(a);
                } else if over_b {
                    giver = Some(b);
                }
            }
            match giver {
                Some(d) => {
                    found = Some(d);
                },
                None => {
                    slice = slice + 1;
                },
            }
        }
        match found {
            None => {
                stuck = true;
            },
            Some(d) => {
                proof {
                    lemma_first_swap(plan, homes@, targets@, under, 0);
                }
                let (a, b) = placed[slice];
                if a == d {
                    placed.set(slice, (under, b));
                } else {
                    placed.set(slice, (a, under));
                }
                let left: u64 = seats[d as usize];
                seats.set(d as usize, left - 1);
                let now: u64 = seats[under as usize];
                seats.set(under as usize, now + 1);
                touched.set(slice, true);
                proof {
                    let next = Plan { placed: placed@, seats: seats@, touched: touched@ };
                    assert(next.placed =~= swapped(plan, under, slice as int, d).placed);
                    assert(next.seats =~= swapped(plan, under, slice as int, d).seats);
                    assert(next.touched =~= swapped(plan, under, slice as int, d).touched);
                    steps@ = (steps@ - 1) as nat;
                }
            },
        }
    }
}

} // verus!
