//! Reassignment: growing, shrinking and re-protecting are one call for the
//! arithmetic and one machine for the moves.

use super::pull::{burden, fanout, keys_of, kid_keys, kids_of, lemma_burden, lemma_child_count, lemma_weight, weight, PullKey};
use super::wire::{offer_pins, roots_of, Effect, EffectView, MessageView, PeerMessage, SYNC_BATCH};
use super::{NodeView, ReplNode};
use crate::disk::Disk;
use crate::error::{FsError, Result};
use crate::hash::BlockHash;
use crate::map::child_list;
use crate::pool::checkpoint::checkpointed;
use crate::pool::snapshot::map_committed;
use crate::pool::sync::{offered_whole, SnapshotOffer, VdiskOffer};
use crate::pool::Pool;
use crate::slice::reassign::share_a_home;
use crate::slice::{is_home, NodeId, SliceMove};
use crate::table::{SortKey, SortedMap, TierHash};
use vstd::prelude::*;

verus! {

/// The children of a node the store can produce.
pub open spec fn kid_list<D: Disk>(pool: &Pool<D>, hash: BlockHash) -> Seq<BlockHash> {
    child_list(pool.shelf(0)[hash], pool.shelf(0)[hash].len() / 32)
}

/// `x` of kind `j` stands in the tree below `h` of kind `k`, or is it.
pub open spec fn under<D: Disk>(pool: &Pool<D>, h: BlockHash, k: nat, x: BlockHash, j: nat) -> bool
    decreases k,
{
    (k == j && h == x) || (k > j && exists|c: BlockHash| #[trigger] kid_list(pool, h).contains(c) && under(pool, c, (k - 1) as nat, x, j))
}

/// Every node of a tree can be read.
pub open spec fn readable<D: Disk>(pool: &Pool<D>, h: BlockHash, k: nat) -> bool
    decreases k,
{
    k > 0 ==> pool.shelf(0).contains_key(h) && pool.holds(0).contains(h) && forall|c: BlockHash| #[trigger]
        kid_list(pool, h).contains(c) ==> readable(pool, c, (k - 1) as nat)
}

/// A data block stands in a root's tree, on that root's tier.
pub open spec fn feeds<D: Disk>(pool: &Pool<D>, root: (BlockHash, u32, u8), tier: u8, d: BlockHash) -> bool {
    root.2 == tier && under(pool, root.0, root.1 as nat, d, 0)
}

/// A data block that moves to this member: homed here under the map the pool
/// is moving to, and not under the committed one.
pub open spec fn incoming<D: Disk>(pool: &Pool<D>, hash: BlockHash) -> bool {
    match (pool.seat(), pool.pending()) {
        (Some((node, map)), Some(next)) => is_home(next.home_pair(hash), node) && !is_home(map.home_pair(hash), node),
        _ => false,
    }
}

/// Whom to ask for it: a home that stays one, the first of the committed
/// pair where neither does.
pub open spec fn source_of<D: Disk>(pool: &Pool<D>, hash: BlockHash) -> NodeId {
    let homes = pool.seat()->Some_0.1.home_pair(hash);
    let next = pool.pending()->Some_0.home_pair(hash);
    if !is_home(next, homes@[0]) && is_home(next, homes@[1]) {
        homes@[1]
    } else {
        homes@[0]
    }
}

/// While one home of a slice stays, as every prepared move has it, the block
/// is asked for of a member that holds it and stays a home.
pub proof fn law_moves_come_from_a_home_that_stays<D: Disk>(pool: &Pool<D>, hash: BlockHash)
    requires
        pool.seat() is Some,
        pool.pending() is Some,
        share_a_home(pool.seat()->Some_0.1.home_pair(hash), pool.pending()->Some_0.home_pair(hash)),
    ensures
        is_home(pool.seat()->Some_0.1.home_pair(hash), source_of(pool, hash)),
        is_home(pool.pending()->Some_0.home_pair(hash), source_of(pool, hash)),
{
}

/// A move this member owes itself.
pub open spec fn move_owed<D: Disk>(pool: &Pool<D>, want: (u8, BlockHash, NodeId)) -> bool {
    incoming(pool, want.1) && !pool.holds(want.0).contains(want.1) && want.2 == source_of(pool, want.1)
}

/// Some root's tree holds this data block.
pub open spec fn fed<D: Disk>(pool: &Pool<D>, roots: Seq<(BlockHash, u32, u8)>, tier: u8, d: BlockHash) -> bool {
    exists|k: int| 0 <= k < roots.len() && #[trigger] feeds(pool, roots[k], tier, d)
}

/// The list has an entry for this block.
pub open spec fn wants_block(wants: Seq<(u8, BlockHash, NodeId)>, tier: u8, d: BlockHash) -> bool {
    exists|i: int| 0 <= i < wants.len() && (#[trigger] wants[i]).0 == tier && wants[i].1 == d
}

/// Exactly the moves owed for the trees below these roots, each once.
pub open spec fn all_wants<D: Disk>(pool: &Pool<D>, roots: Seq<(BlockHash, u32, u8)>, wants: Seq<(u8, BlockHash, NodeId)>) -> bool {
    &&& forall|i: int| 0 <= i < wants.len() ==> move_owed(pool, #[trigger] wants[i]) && fed(pool, roots, wants[i].0, wants[i].1)
    &&& forall|tier: u8, d: BlockHash| #[trigger]
        fed(pool, roots, tier, d) && incoming(pool, d) && !pool.holds(tier).contains(d) ==> wants_block(wants, tier, d)
    &&& forall|i: int, j: int| 0 <= i < j < wants.len() ==> (#[trigger] wants[i]).0 != (#[trigger] wants[j]).0 || wants[i].1 != wants[j].1
}

/// A look through trees: what is left to look at, what was looked at, and
/// the moves found owed so far.
pub struct Survey {
    pub pending: Seq<PullKey>,
    pub seen: Set<PullKey>,
    pub wants: Seq<(u8, BlockHash, NodeId)>,
}

/// The next thing, the last one listed, is looked at: a node's children are
/// listed in order, a data block that is owed is added to the moves.
pub open spec fn survey_step<D: Disk>(pool: &Pool<D>, s: Survey) -> Survey {
    let e = s.pending.last();
    let rest = s.pending.drop_last();
    let seen = s.seen.insert(e);
    if s.seen.contains(e) {
        Survey { pending: rest, seen, ..s }
    } else if e.kind > 0 {
        Survey { pending: rest + kid_keys(pool, e), seen, ..s }
    } else if incoming(pool, e.hash) && !pool.holds(e.tier).contains(e.hash) {
        Survey { pending: rest, seen, wants: s.wants.push((e.tier, e.hash, source_of(pool, e.hash))) }
    } else {
        Survey { pending: rest, seen, ..s }
    }
}

/// The look after `n` steps, from these roots.
pub open spec fn survey_at<D: Disk>(pool: &Pool<D>, roots: Seq<(BlockHash, u32, u8)>, n: nat) -> Survey
    decreases n,
{
    if n == 0 {
        Survey { pending: keys_of(roots), seen: Set::empty(), wants: Seq::empty() }
    } else {
        survey_step(pool, survey_at(pool, roots, (n - 1) as nat))
    }
}

/// The moves are listed in the order in which the look comes by them.
pub open spec fn in_walk_order<D: Disk>(pool: &Pool<D>, roots: Seq<(BlockHash, u32, u8)>, wants: Seq<(u8, BlockHash, NodeId)>) -> bool {
    exists|n: nat| (#[trigger] survey_at(pool, roots, n)).pending.len() == 0 && survey_at(pool, roots, n).wants == wants
}

/// What looking through the trees comes to. It cannot fail while every node
/// can be read.
pub open spec fn surveyed<D: Disk>(pool: &Pool<D>, roots: Seq<(BlockHash, u32, u8)>, r: Result<Vec<(u8, BlockHash, NodeId)>>) -> bool {
    &&& r matches Ok(wants) ==> all_wants(pool, roots, wants@) && in_walk_order(pool, roots, wants@)
    &&& pool.reliable() && (forall|i: int| 0 <= i < roots.len() ==> readable(pool, (#[trigger] roots[i]).0, roots[i].1 as nat)) ==> r is Ok
}

/// The offer a survey went by.
pub open spec fn survey_of<D: Disk>(pool: &Pool<D>, vdisks: Seq<VdiskOffer>, snapshots: Seq<SnapshotOffer>, r: Result<Vec<(u8, BlockHash, NodeId)>>) -> bool {
    offered_whole(pool, vdisks, snapshots) && surveyed(pool, roots_of(vdisks, snapshots, pool.unit()), r)
}

/// What listing the moves owed comes to: a checkpoint first, so that the
/// trees are settled, and then the survey.
pub open spec fn wants_found<D: Disk>(before: &Pool<D>, after: &Pool<D>, r: Result<Vec<(u8, BlockHash, NodeId)>>) -> bool {
    if before.pending() is None {
        r == Err::<Vec<(u8, BlockHash, NodeId)>, FsError>(FsError::Placement("no reassignment is pending")) && *after == *before
    } else if before.seat() is None {
        r is Err && *after == *before
    } else {
        exists|c: Result<()>| #[trigger] checkpointed(before, after, c) && match c {
            Err(e) => r == Err::<Vec<(u8, BlockHash, NodeId)>, FsError>(e),
            Ok(_) => exists|vdisks: Seq<VdiskOffer>, snapshots: Seq<SnapshotOffer>| #[trigger] survey_of(after, vdisks, snapshots, r),
        }
    }
}

proof fn lemma_under_step<D: Disk>(pool: &Pool<D>, h: BlockHash, k: nat, x: BlockHash, j: nat, c: BlockHash)
    requires
        under(pool, h, k, x, j),
        j > 0,
        kid_list(pool, x).contains(c),
    ensures
        under(pool, h, k, c, (j - 1) as nat),
    decreases k,
{
    if k == j {
        assert(under(pool, c, (k - 1) as nat, c, (j - 1) as nat));
    } else {
        let b = choose|b: BlockHash| #[trigger] kid_list(pool, h).contains(b) && under(pool, b, (k - 1) as nat, x, j);
        lemma_under_step(pool, b, (k - 1) as nat, x, j, c);
    }
}

/// Everything seen has its children seen.
spec fn closed_down<D: Disk>(pool: &Pool<D>, seen: Set<PullKey>) -> bool {
    forall|e: PullKey, c: BlockHash| #[trigger] seen.contains(e) && e.kind > 0 && #[trigger] kid_list(pool, e.hash).contains(c) ==> seen.contains(
        PullKey { tier: e.tier, kind: (e.kind - 1) as u32, hash: c },
    )
}

proof fn lemma_seen_below<D: Disk>(pool: &Pool<D>, seen: Set<PullKey>, e: PullKey, d: BlockHash)
    requires
        closed_down(pool, seen),
        seen.contains(e),
        under(pool, e.hash, e.kind as nat, d, 0),
    ensures
        seen.contains(PullKey { tier: e.tier, kind: 0, hash: d }),
    decreases e.kind,
{
    if e.kind > 0 {
        let c = choose|c: BlockHash| #[trigger] kid_list(pool, e.hash).contains(c) && under(pool, c, (e.kind - 1) as nat, d, 0);
        lemma_seen_below(pool, seen, PullKey { tier: e.tier, kind: (e.kind - 1) as u32, hash: c }, d);
    }
}

/// Below one of the roots.
spec fn rooted<D: Disk>(pool: &Pool<D>, roots: Seq<(BlockHash, u32, u8)>, e: PullKey) -> bool {
    exists|k: int| 0 <= k < roots.len() && (#[trigger] roots[k]).2 == e.tier && under(pool, roots[k].0, roots[k].1 as nat, e.hash, e.kind as nat)
}

/// Seen, or still to be.
spec fn noted(seen: Set<PullKey>, pending: Seq<PullKey>, e: PullKey) -> bool {
    seen.contains(e) || pending.contains(e)
}

/// Everything seen has its children noted.
spec fn descends<D: Disk>(pool: &Pool<D>, seen: Set<PullKey>, pending: Seq<PullKey>) -> bool {
    forall|e: PullKey, c: BlockHash| #[trigger] seen.contains(e) && e.kind > 0 && #[trigger] kid_list(pool, e.hash).contains(c) ==> noted(
        seen,
        pending,
        PullKey { tier: e.tier, kind: (e.kind - 1) as u32, hash: c },
    )
}

/// Every data block seen has been decided.
spec fn decided<D: Disk>(pool: &Pool<D>, seen: Set<PullKey>, wants: Seq<(u8, BlockHash, NodeId)>) -> bool {
    forall|e: PullKey| #[trigger] seen.contains(e) && e.kind == 0 && incoming(pool, e.hash) && !pool.holds(e.tier).contains(e.hash) ==> wants_block(
        wants,
        e.tier,
        e.hash,
    )
}

/// Every want is of a data block seen, and owed.
spec fn justified<D: Disk>(pool: &Pool<D>, roots: Seq<(BlockHash, u32, u8)>, seen: Set<PullKey>, wants: Seq<(u8, BlockHash, NodeId)>) -> bool {
    &&& forall|i: int| 0 <= i < wants.len() ==> move_owed(pool, #[trigger] wants[i]) && fed(pool, roots, wants[i].0, wants[i].1) && seen.contains(
        PullKey { tier: wants[i].0, kind: 0, hash: wants[i].1 },
    )
    &&& forall|i: int, j: int| 0 <= i < j < wants.len() ==> (#[trigger] wants[i]).0 != (#[trigger] wants[j]).0 || wants[i].1 != wants[j].1
}

/// Walks the trees below `roots` and lists every data block that moves to
/// this member and is not here yet.
#[verifier::rlimit(60)]
fn survey<D: Disk>(pool: &Pool<D>, roots: &Vec<(BlockHash, u32, u8)>) -> (r: Result<Vec<(u8, BlockHash, NodeId)>>)
    requires
        pool.inv(),
        pool.seat() is Some,
        pool.pending() is Some,
    ensures
        surveyed(pool, roots@, r),
{
    let mut wants: Vec<(u8, BlockHash, NodeId)> = Vec::new();
    let mut seen: SortedMap<PullKey, ()> = SortedMap::new();
    let mut pending: Vec<PullKey> = Vec::new();
    let mut i: usize = 0;
    while i < roots.len()
        invariant
            i <= roots@.len(),
            pending@.len() == i,
            forall|j: int| 0 <= j < i ==> #[trigger] pending@[j] == (PullKey { tier: roots@[j].2, kind: roots@[j].1, hash: roots@[j].0 }),
        decreases roots@.len() - i,
    {
        let root = roots[i];
        pending.push(PullKey { tier: root.2, kind: root.1, hash: root.0 });
        i += 1;
    }
    let ghost mut steps: nat = 0;
    proof {
        assert(pending@ =~= keys_of(roots@));
        assert(seen@.dom() =~= Set::<PullKey>::empty());
        assert(wants@ =~= Seq::<(u8, BlockHash, NodeId)>::empty());
    }
    let ghost fine = pool.reliable() && forall|i: int| 0 <= i < roots@.len() ==> readable(pool, (#[trigger] roots@[i]).0, roots@[i].1 as nat);
    proof {
        pool.lemma_pool();
        assert forall|e: PullKey| #[trigger] noted(seen@.dom(), pending@, e) implies rooted(pool, roots@, e) && (fine ==> readable(pool, e.hash, e.kind as nat)) by {
            let j = choose|j: int| 0 <= j < pending@.len() && pending@[j] == e;
            assert(roots@[j].2 == e.tier);
        }
        assert forall|k: int| 0 <= k < roots@.len() implies #[trigger] noted(seen@.dom(), pending@, root_key(roots@[k])) by {
            assert(pending@[k] == root_key(roots@[k]));
        }
    }
    while pending.len() > 0
        invariant
            pool.inv(),
            pool.seat() is Some,
            pool.pending() is Some,
            pool.seat()->Some_0.1.covers(),
            pool.pending()->Some_0.covers(),
            seen.wf(),
            fine == (pool.reliable() && forall|i: int| 0 <= i < roots@.len() ==> readable(pool, (#[trigger] roots@[i]).0, roots@[i].1 as nat)),
            forall|k: int| 0 <= k < roots@.len() ==> #[trigger] noted(seen@.dom(), pending@, root_key(roots@[k])),
            forall|e: PullKey| #[trigger] noted(seen@.dom(), pending@, e) ==> rooted(pool, roots@, e) && (fine ==> readable(pool, e.hash, e.kind as nat)),
            descends(pool, seen@.dom(), pending@),
            decided(pool, seen@.dom(), wants@),
            justified(pool, roots@, seen@.dom(), wants@),
            survey_at(pool, roots@, steps) == (Survey { pending: pending@, seen: seen@.dom(), wants: wants@ }),
        decreases burden(pending@),
    {
        let ghost seen0 = seen@.dom();
        let ghost pending0 = pending@;
        let ghost wants0 = wants@;
        let e = match pending.pop() {
            Some(e) => e,
            None => {
                return Ok(wants);
            },
        };
        proof {
            assert(pending0.drop_last() =~= pending@);
            assert(pending0.last() == e);
            lemma_weight(e.kind as nat);
            lemma_burden(pending@);
            assert(noted(seen0, pending0, e));
        }
        let repeated: bool = seen.contains(&e);
        seen.insert(e, ());
        let ghost popped = pending@;
        proof {
            steps = steps + 1;
            assert(seen@.dom() =~= seen0.insert(e));
            assert forall|k: PullKey| #[trigger] noted(seen@.dom(), pending@, k) <==> noted(seen0, pending0, k) by {
                if pending0.contains(k) && k != e {
                    let j = choose|j: int| 0 <= j < pending0.len() && pending0[j] == k;
                    assert(pending@[j] == k);
                }
                if pending@.contains(k) {
                    let j = choose|j: int| 0 <= j < pending@.len() && pending@[j] == k;
                    assert(pending0[j] == k);
                }
            }
        }
        if repeated {
            proof {
                assert(seen@.dom() =~= seen0);
                assert forall|k: int| 0 <= k < roots@.len() implies #[trigger] noted(seen@.dom(), pending@, root_key(roots@[k])) by {
                    assert(noted(seen0, pending0, root_key(roots@[k])));
                }
            }
            continue;
        }
        if e.kind > 0 {
            let payload = match pool.block_payload(0, &e.hash) {
                Ok(Some(payload)) => payload,
                Ok(None) => {
                    return Err(FsError::Corrupt("a map node vanished mid-walk"));
                },
                Err(err) => {
                    return Err(err);
                },
            };
            let kids = crate::map::children(&payload);
            let len: usize = payload.len();
            proof {
                assert(len / 32 < fanout());
                lemma_child_count(payload@, payload@.len() / 32);
            }
            assert(kids@ == kid_list(pool, e.hash));
            assert(kid_keys(pool, e).take(0) =~= Seq::<PullKey>::empty());
            assert(popped + Seq::<PullKey>::empty() =~= popped);
            let mut n: usize = 0;
            while n < kids.len()
                invariant
                    kids@ == kids_of(pool, e),
                    pending@ == popped + kid_keys(pool, e).take(n as int),
                    e.kind > 0,
                    n <= kids@.len(),
                    forall|k: PullKey| #[trigger] popped.contains(k) ==> pending@.contains(k),
                    forall|k: PullKey| #[trigger] pending@.contains(k) ==> popped.contains(k) || (k.tier == e.tier && k.kind == e.kind - 1 && kids@.contains(k.hash)),
                    forall|j: int| 0 <= j < n ==> pending@.contains(PullKey { tier: e.tier, kind: (e.kind - 1) as u32, hash: #[trigger] kids@[j] }),
                    burden(pending@) == burden(popped) + n * weight((e.kind - 1) as nat),
                decreases kids@.len() - n,
            {
                let ghost was = pending@;
                let kid = PullKey { tier: e.tier, kind: e.kind - 1, hash: kids[n] };
                pending.push(kid);
                proof {
                    assert(was.push(kid).drop_last() =~= was);
                    assert(pending@ =~= popped + kid_keys(pool, e).take(n + 1));
                    assert((n + 1) * weight((e.kind - 1) as nat) == n * weight((e.kind - 1) as nat) + weight((e.kind - 1) as nat)) by (nonlinear_arith);
                    assert(pending@[was.len() as int] == kid);
                    assert(kids@.contains(kids@[n as int]));
                    assert forall|k: PullKey| #[trigger] was.contains(k) implies pending@.contains(k) by {
                        let j = choose|j: int| 0 <= j < was.len() && was[j] == k;
                        assert(pending@[j] == k);
                    }
                    assert forall|k: PullKey| #[trigger] pending@.contains(k) implies popped.contains(k) || (k.tier == e.tier && k.kind == e.kind - 1
                        && kids@.contains(k.hash)) by {
                        let j = choose|j: int| 0 <= j < pending@.len() && pending@[j] == k;
                        if j < was.len() {
                            assert(was[j] == k);
                            assert(was.contains(k));
                        }
                    }
                }
                n += 1;
            }
            proof {
                assert(kid_keys(pool, e).take(n as int) =~= kid_keys(pool, e));
                let w = weight((e.kind - 1) as nat);
                lemma_weight((e.kind - 1) as nat);
                assert(kids@.len() * w <= (fanout() - 1) * w) by (nonlinear_arith)
                    requires kids@.len() <= fanout() - 1, w >= 0;
                assert((fanout() - 1) * w < fanout() * w) by (nonlinear_arith)
                    requires w >= 1;
                let now = seen@.dom();
                assert forall|k: PullKey| #[trigger] noted(seen0, pending0, k) implies noted(now, pending@, k) by {
                    assert(noted(now, popped, k));
                }
                assert forall|k: PullKey| #[trigger] noted(now, pending@, k) implies rooted(pool, roots@, k) && (fine ==> readable(pool, k.hash, k.kind as nat)) by {
                    if now.contains(k) || popped.contains(k) {
                        assert(noted(now, popped, k));
                        assert(noted(seen0, pending0, k));
                    } else {
                        let r = choose|r: int| 0 <= r < roots@.len() && (#[trigger] roots@[r]).2 == e.tier && under(pool, roots@[r].0, roots@[r].1 as nat, e.hash, e.kind as nat);
                        lemma_under_step(pool, roots@[r].0, roots@[r].1 as nat, e.hash, e.kind as nat, k.hash);
                        assert(roots@[r].2 == k.tier);
                    }
                }
                assert forall|x: PullKey, c: BlockHash| #[trigger] now.contains(x) && x.kind > 0 && #[trigger] kid_list(pool, x.hash).contains(c) implies noted(
                    now,
                    pending@,
                    PullKey { tier: x.tier, kind: (x.kind - 1) as u32, hash: c },
                ) by {
                    let kid = PullKey { tier: x.tier, kind: (x.kind - 1) as u32, hash: c };
                    if x == e {
                        let j = choose|j: int| 0 <= j < kids@.len() && kids@[j] == c;
                        assert(pending@.contains(PullKey { tier: e.tier, kind: (e.kind - 1) as u32, hash: kids@[j] }));
                    } else {
                        assert(seen0.contains(x));
                        assert(noted(seen0, pending0, kid));
                    }
                }
                assert forall|k: int| 0 <= k < roots@.len() implies #[trigger] noted(now, pending@, root_key(roots@[k])) by {
                    assert(noted(seen0, pending0, root_key(roots@[k])));
                }
            }
            continue;
        }
        let (node, committed) = match pool.placement() {
            Some((node, map)) => (node, map.homes_of(&e.hash)),
            None => {
                return Err(FsError::Placement("an unplaced pool has nothing to reassign"));
            },
        };
        let next = match pool.pending_map() {
            Some(map) => map.homes_of(&e.hash),
            None => {
                return Err(FsError::Placement("no reassignment is pending"));
            },
        };
        let here: bool = next[0] == node || next[1] == node;
        let was_here: bool = committed[0] == node || committed[1] == node;
        if here && !was_here && !pool.has_block(e.tier, &e.hash) {
            let first_stays: bool = next[0] == committed[0] || next[1] == committed[0];
            let second_stays: bool = next[0] == committed[1] || next[1] == committed[1];
            let source: NodeId = if !first_stays && second_stays {
                committed[1]
            } else {
                committed[0]
            };
            wants.push((e.tier, e.hash, source));
            proof {
                let want = (e.tier, e.hash, source);
                assert(wants@[wants0.len() as int] == want);
                assert(move_owed(pool, want));
                assert(fed(pool, roots@, e.tier, e.hash)) by {
                    let r = choose|r: int| 0 <= r < roots@.len() && (#[trigger] roots@[r]).2 == e.tier && under(pool, roots@[r].0, roots@[r].1 as nat, e.hash, e.kind as nat);
                    assert(feeds(pool, roots@[r], e.tier, e.hash));
                }
                assert forall|a: int, b: int| 0 <= a < b < wants@.len() implies (#[trigger] wants@[a]).0 != (#[trigger] wants@[b]).0 || wants@[a].1 != wants@[b].1 by {
                    if b == wants0.len() {
                        assert(wants0[a] == wants@[a]);
                        assert(seen0.contains(PullKey { tier: wants0[a].0, kind: 0, hash: wants0[a].1 }));
                    } else {
                        assert(wants0[a] == wants@[a] && wants0[b] == wants@[b]);
                    }
                }
                assert(wants_block(wants@, e.tier, e.hash));
            }
        }
        proof {
            let now = seen@.dom();
            assert forall|x: PullKey| #[trigger] now.contains(x) && x.kind == 0 && incoming(pool, x.hash) && !pool.holds(x.tier).contains(x.hash) implies wants_block(
                wants@,
                x.tier,
                x.hash,
            ) by {
                if x != e {
                    assert(seen0.contains(x));
                    assert(wants_block(wants0, x.tier, x.hash));
                    let j = choose|j: int| 0 <= j < wants0.len() && (#[trigger] wants0[j]).0 == x.tier && wants0[j].1 == x.hash;
                    assert(wants@[j] == wants0[j]);
                }
            }
            assert forall|j: int| 0 <= j < wants@.len() implies move_owed(pool, #[trigger] wants@[j]) && fed(pool, roots@, wants@[j].0, wants@[j].1) && now.contains(
                PullKey { tier: wants@[j].0, kind: 0, hash: wants@[j].1 },
            ) by {
                if j < wants0.len() {
                    assert(wants@[j] == wants0[j]);
                }
            }
            assert forall|k: int| 0 <= k < roots@.len() implies #[trigger] noted(now, pending@, root_key(roots@[k])) by {
                assert(noted(seen0, pending0, root_key(roots@[k])));
            }
            assert forall|x: PullKey, c: BlockHash| #[trigger] now.contains(x) && x.kind > 0 && #[trigger] kid_list(pool, x.hash).contains(c) implies noted(
                now,
                pending@,
                PullKey { tier: x.tier, kind: (x.kind - 1) as u32, hash: c },
            ) by {
                assert(seen0.contains(x));
                assert(noted(seen0, pending0, PullKey { tier: x.tier, kind: (x.kind - 1) as u32, hash: c }));
            }
        }
    }
    proof {
        assert(survey_at(pool, roots@, steps).pending.len() == 0);
        let all = seen@.dom();
        assert forall|e: PullKey, c: BlockHash| #[trigger] all.contains(e) && e.kind > 0 && #[trigger] kid_list(pool, e.hash).contains(c) implies all.contains(
            PullKey { tier: e.tier, kind: (e.kind - 1) as u32, hash: c },
        ) by {
            assert(noted(all, pending@, PullKey { tier: e.tier, kind: (e.kind - 1) as u32, hash: c }));
        }
        assert(closed_down(pool, all));
        assert forall|tier: u8, d: BlockHash| #[trigger]
            fed(pool, roots@, tier, d) && incoming(pool, d) && !pool.holds(tier).contains(d) implies wants_block(wants@, tier, d) by {
            let k = choose|k: int| 0 <= k < roots@.len() && #[trigger] feeds(pool, roots@[k], tier, d);
            assert(noted(all, pending@, root_key(roots@[k])));
            lemma_seen_below(pool, all, root_key(roots@[k]), d);
            assert(all.contains(PullKey { tier, kind: 0, hash: d }));
        }
    }
    Ok(wants)
}

spec fn root_key(root: (BlockHash, u32, u8)) -> PullKey {
    PullKey { tier: root.2, kind: root.1, hash: root.0 }
}

/// What one step has asked for so far: the moves under way, and the batch of
/// each source.
pub struct StepView {
    pub moving: Map<TierHash, NodeId>,
    pub batches: Map<NodeId, Seq<(u8, BlockHash)>>,
}

/// The batch of a source so far.
pub open spec fn batch_of(batches: Map<NodeId, Seq<(u8, BlockHash)>>, source: NodeId) -> Seq<(u8, BlockHash)> {
    if batches.contains_key(source) {
        batches[source]
    } else {
        Seq::empty()
    }
}

/// The first `n` moves looked at: one not under way whose source streams is
/// asked for, while that source's batch has room.
pub open spec fn stepped(v: NodeView, wants: Seq<(u8, BlockHash, NodeId)>, n: nat) -> StepView
    decreases n,
{
    if n == 0 {
        StepView { moving: v.moving, batches: Map::empty() }
    } else {
        let rest = stepped(v, wants, (n - 1) as nat);
        let (tier, hash, source) = wants[n - 1];
        let batch = batch_of(rest.batches, source);
        if !rest.moving.contains_key(TierHash { tier, hash }) && v.knows(source) && v.of(source).streams() && batch.len() < SYNC_BATCH {
            StepView {
                moving: rest.moving.insert(TierHash { tier, hash }, source),
                batches: rest.batches.insert(source, batch.push((tier, hash))),
            }
        } else {
            rest
        }
    }
}

/// The questions for the batches of the first `n` node ids.
pub open spec fn batch_reads(batches: Map<NodeId, Seq<(u8, BlockHash)>>, n: nat) -> Seq<EffectView>
    decreases n,
{
    if n == 0 {
        Seq::empty()
    } else {
        let rest = batch_reads(batches, (n - 1) as nat);
        let id = (n - 1) as u8;
        if batches.contains_key(id) {
            rest.push(EffectView::Send(id, MessageView::Read(batches[id])))
        } else {
            rest
        }
    }
}

/// What committing a reassignment comes to: nothing may be owed.
pub open spec fn commit_settled<D: Disk>(before: &ReplNode<D>, after: &ReplNode<D>, r: Result<()>) -> bool {
    &&& after@ == before@
    &&& exists|mid: Pool<D>, wants: Result<Vec<(u8, BlockHash, NodeId)>>| #[trigger]
        wants_found(&before.engine(), &mid, wants) && match wants {
            Err(e) => r == Err::<(), FsError>(e) && after.engine() == mid,
            Ok(list) => if list@.len() > 0 {
                r == Err::<(), FsError>(FsError::Placement("moves are still owed; a commit now would license dropping their sources"))
                    && after.engine() == mid
            } else {
                mid.seat() is Some && mid.pending() is Some && map_committed(&mid, &after.engine(), mid.seat()->Some_0.0, mid.pending()->Some_0, r)
            },
        }
}

impl NodeView {
    /// After the next moves have been asked for.
    pub open spec fn moves_asked(self, wants: Seq<(u8, BlockHash, NodeId)>) -> NodeView {
        let step = stepped(self, wants, wants.len());
        NodeView { moving: step.moving, queue: self.queue + batch_reads(step.batches, 256), ..self }
    }
}

impl<D: Disk> ReplNode<D> {
    /// Open a reassignment toward `members` at `version`. From here until
    /// the commit, writes land on the union of old and new homes.
    pub fn prepare_reassign(&mut self, version: u64, members: &Vec<NodeId>) -> (r: Result<()>)
        requires
            old(self).inv(),
        ensures
            final(self).inv(),
            final(self)@ == old(self)@,
            exists|moves: Result<Vec<SliceMove>>| #[trigger]
                crate::pool::snapshot::reassign_prepared(&old(self).engine(), &final(self).engine(), version, members@, moves) && match moves {
                    Ok(_) => r is Ok,
                    Err(e) => r == Err::<(), FsError>(e),
                },
    {
        let moves = self.pool.prepare_reassign(version, members);
        assert(crate::pool::snapshot::reassign_prepared(&old(self).engine(), &self.engine(), version, members@, moves));
        match moves {
            Ok(_) => Ok(()),
            Err(e) => Err(e),
        }
    }

    /// The version a pending reassignment is moving to, if one is open.
    pub fn reassign_pending(&self) -> (r: Option<u64>)
        requires
            self.inv(),
        ensures
            r == match self.engine().pending() {
                Some(map) => Some(map.at_version()),
                None => None,
            },
    {
        match self.pool.pending_map() {
            Some(map) => Some(map.version()),
            None => None,
        }
    }

    /// Every data block the pending map homes here that the store lacks,
    /// with the home to ask: tier, address, source.
    fn reassign_wants(&mut self) -> (r: Result<Vec<(u8, BlockHash, NodeId)>>)
        requires
            old(self).inv(),
        ensures
            final(self).inv(),
            final(self)@ == old(self)@,
            wants_found(&old(self).engine(), &final(self).engine(), r),
            r is Ok ==> final(self).engine().pending() == old(self).engine().pending(),
    {
        if self.pool.pending_map().is_none() {
            return Err(FsError::Placement("no reassignment is pending"));
        }
        if self.pool.placement().is_none() {
            return Err(FsError::Placement("an unplaced pool has nothing to reassign"));
        }
        let c = self.pool.checkpoint();
        assert(checkpointed(&old(self).engine(), &self.engine(), c));
        if let Err(e) = c {
            return Err(e);
        }
        proof {
            self.pool.lemma_pool();
        }
        let (_, vdisks, snapshots) = self.pool.sync_manifest();
        let roots = offer_pins(&vdisks, &snapshots, self.pool.block_size());
        let r = survey(&self.pool, &roots);
        assert(survey_of(&self.engine(), vdisks@, snapshots@, r));
        r
    }

    /// Drive this member's incoming moves: find every data block the pending
    /// map homes here that the bricks do not hold, and ask a kept home for a
    /// batch of them. Returns how many blocks are still owed.
    #[verifier::rlimit(40)]
    pub fn step_reassign(&mut self) -> (r: Result<usize>)
        requires
            old(self).inv(),
        ensures
            final(self).inv(),
            exists|wants: Result<Vec<(u8, BlockHash, NodeId)>>| #[trigger]
                wants_found(&old(self).engine(), &final(self).engine(), wants) && match wants {
                    Ok(list) => r == Ok::<usize, FsError>(list@.len() as usize) && list@.len() <= usize::MAX && final(self)@ == old(self)@.moves_asked(list@),
                    Err(e) => r == Err::<usize, FsError>(e) && final(self)@ == old(self)@,
                },
    {
        let found = self.reassign_wants();
        let ghost pool = self.pool;
        let ghost told = found;
        assert(wants_found(&old(self).engine(), &pool, told));
        assert(self.engine() == pool);
        let wants = match found {
            Ok(wants) => wants,
            Err(e) => {
                return Err(e);
            },
        };
        let ghost v = self@;
        let owed: usize = wants.len();
        let mut batches: SortedMap<u8, Vec<(u8, BlockHash)>> = SortedMap::new();
        let mut i: usize = 0;
        assert(batches_view(batches@) =~= Map::empty());
        while i < wants.len()
            invariant
                self.inv(),
                self.pool == pool,
                batches.wf(),
                i <= wants@.len(),
                self@ == (NodeView { moving: stepped(v, wants@, i as nat).moving, ..v }),
                batches_view(batches@) == stepped(v, wants@, i as nat).batches,
            decreases wants@.len() - i,
        {
            let (tier, hash, source) = wants[i];
            let key = TierHash { tier, hash };
            let ghost was = batches@;
            if !self.reassign_inflight.contains(&key) && self.streams_to(source) {
                let mut batch: Vec<(u8, BlockHash)> = match batches.take(&source) {
                    Some(batch) => batch,
                    None => Vec::new(),
                };
                assert(batch@ == batch_of(batches_view(was), source));
                let roomy: bool = batch.len() < SYNC_BATCH;
                if roomy {
                    batch.push((tier, hash));
                    self.reassign_inflight.insert(key, source);
                }
                let empty: bool = batch.len() == 0;
                if !empty {
                    let ghost b = batch@;
                    batches.insert(source, batch);
                    proof {
                        assert(batches_view(batches@) =~= batches_view(was).insert(source, b));
                        if !roomy {
                            assert(batches_view(was).insert(source, b) =~= batches_view(was));
                        }
                    }
                }
            }
            i += 1;
        }
        let ghost all = batches_view(batches@);
        let ghost mid = self@;
        let mut n: usize = 0;
        assert(mid.queue + batch_reads(all, 0) =~= mid.queue);
        while n < 256
            invariant
                self.inv(),
                self.pool == pool,
                batches.wf(),
                n <= 256,
                self@ == (NodeView { queue: mid.queue + batch_reads(all, n as nat), ..mid }),
                forall|id: u8| id >= n ==> #[trigger] batches@.contains_key(id) == all.contains_key(id),
                forall|id: u8| id >= n && #[trigger] batches@.contains_key(id) ==> batches@[id]@ == all[id],
            decreases 256 - n,
        {
            let id: u8 = n as u8;
            if let Some(batch) = batches.take(&id) {
                let ghost b = batch@;
                self.emit(Effect::Send(id, PeerMessage::Read(batch)));
                assert(self@.queue =~= mid.queue + batch_reads(all, (n + 1) as nat));
            }
            n += 1;
        }
        proof {
            assert(self.engine() == pool);
            assert(wants_found(&old(self).engine(), &self.engine(), told));
        }
        Ok(owed)
    }

    /// Commit the reassignment: refused while this member still owes itself
    /// blocks. The caller confirms every member reports zero before
    /// committing any, because the commit is what licenses each collector to
    /// drop the displaced copies.
    pub fn commit_reassign(&mut self) -> (r: Result<()>)
        requires
            old(self).inv(),
        ensures
            final(self).inv(),
            commit_settled(old(self), final(self), r),
    {
        let found = self.reassign_wants();
        let ghost mid = self.pool;
        let ghost told = found;
        assert(wants_found(&old(self).engine(), &mid, told));
        assert(self.engine() == mid);
        match found {
            Err(e) => Err(e),
            Ok(wants) => {
                if wants.len() > 0 {
                    return Err(FsError::Placement("moves are still owed; a commit now would license dropping their sources"));
                }
                let r = self.pool.commit_reassign();
                proof {
                    assert(wants@ == told->Ok_0@);
                    assert(mid.seat() is Some && mid.pending() is Some);
                    assert(map_committed(&mid, &self.engine(), mid.seat()->Some_0.0, mid.pending()->Some_0, r));
                    assert(wants_found(&old(self).engine(), &mid, told));
                }
                r
            },
        }
    }
}

/// Once no move is owed, every data block that moves to this member is here:
/// a commit drops no source that is still needed.
pub proof fn law_nothing_owed_means_everything_landed<D: Disk>(pool: &Pool<D>, roots: Seq<(BlockHash, u32, u8)>, tier: u8, d: BlockHash)
    requires
        all_wants(pool, roots, Seq::empty()),
        fed(pool, roots, tier, d),
        incoming(pool, d),
    ensures
        pool.holds(tier).contains(d),
{
}

/// A move is never asked for twice while it is under way.
pub proof fn law_moves_under_way_are_kept(v: NodeView, wants: Seq<(u8, BlockHash, NodeId)>, n: nat, k: TierHash)
    requires
        n <= wants.len(),
        v.moving.contains_key(k),
    ensures
        stepped(v, wants, n).moving.contains_key(k),
        stepped(v, wants, n).moving[k] == v.moving[k],
    decreases n,
{
    if n > 0 {
        law_moves_under_way_are_kept(v, wants, (n - 1) as nat, k);
    }
}

/// Batches as the contracts see them.
pub open spec fn batches_view(m: Map<u8, Vec<(u8, BlockHash)>>) -> Map<NodeId, Seq<(u8, BlockHash)>> {
    Map::new(|k: u8| m.contains_key(k), |k: u8| m[k]@)
}

} // verus!
