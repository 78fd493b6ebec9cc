//! Placement: which members hold a block, and what moves when that changes.
//!
//! A block's home is derived from its content address and nothing else:
//! hash, then slice, then an ordered pair of members. There are 256 slices
//! per tier, and a slice is one byte of the hash. Each slice names two
//! members: the first is the read preference and the resync source, the
//! second is the mirror.

use crate::error::{FsError, Result};
use crate::hash::BlockHash;
use vstd::prelude::*;

pub mod reassign;
pub mod ring;

verus! {

/// A cluster member.
pub type NodeId = u8;

/// Slices per tier. One byte of the hash.
pub const SLICES: usize = 256;

/// The two members holding a slice: read preference first, mirror second.
pub type Homes = [NodeId; 2];

/// Which slice a block belongs to: the whole of placement's input.
pub fn slice_of(hash: &BlockHash) -> (slice: usize)
    ensures
        slice == hash.0@[0],
        slice < SLICES,
{
    hash.0[0] as usize
}

/// Whether a node is one of two homes.
pub open spec fn is_home(homes: Homes, node: NodeId) -> bool {
    homes@[0] == node || homes@[1] == node
}

fn home_here(homes: &Homes, node: NodeId) -> (r: bool)
    ensures
        r == is_home(*homes, node),
{
    homes[0] == node || homes[1] == node
}

/// How many of the first `n` slices a node is a home of.
pub open spec fn seat_count(slices: Seq<Homes>, node: NodeId, n: nat) -> nat
    decreases n,
{
    if n == 0 {
        0
    } else {
        seat_count(slices, node, (n - 1) as nat) + if is_home(slices[n - 1], node) {
            1nat
        } else {
            0nat
        }
    }
}

/// Some slice names the node.
pub open spec fn mentioned(slices: Seq<Homes>, node: NodeId) -> bool {
    exists|i: int| 0 <= i < slices.len() && is_home(#[trigger] slices[i], node)
}

/// Strictly ascending.
pub open spec fn rising(s: Seq<NodeId>) -> bool {
    forall|i: int, j: int| 0 <= i < j < s.len() ==> #[trigger] s[i] < #[trigger] s[j]
}

/// `s` is what `given` names, in order, each once.
pub open spec fn lists(s: Seq<NodeId>, given: Seq<NodeId>) -> bool {
    &&& rising(s)
    &&& forall|x: NodeId| #[trigger] s.contains(x) <==> given.contains(x)
}

/// `s` is what a map mentions, in order, each once.
pub open spec fn lists_homes(s: Seq<NodeId>, slices: Seq<Homes>) -> bool {
    &&& rising(s)
    &&& forall|x: NodeId| #[trigger] s.contains(x) <==> mentioned(slices, x)
}

proof fn lemma_lists_unique(a: Seq<NodeId>, b: Seq<NodeId>)
    requires
        rising(a),
        rising(b),
        forall|x: NodeId| #![trigger a.contains(x)] #![trigger b.contains(x)] a.contains(x) <==> b.contains(x),
    ensures
        a == b,
    decreases a.len(),
{
    if a.len() == 0 {
        if b.len() > 0 {
            assert(b.contains(b[0]));
        }
        assert(a =~= b);
    } else if b.len() == 0 {
        assert(a.contains(a[0]));
    } else {
        assert(a.contains(a.last()) && b.contains(b.last()));
        let i = choose|i: int| 0 <= i < b.len() && b[i] == a.last();
        let j = choose|j: int| 0 <= j < a.len() && a[j] == b.last();
        assert(a.last() == b.last());
        let (x, y) = (a.drop_last(), b.drop_last());
        assert forall|v: NodeId| #![trigger x.contains(v)] #![trigger y.contains(v)] x.contains(v) <==> y.contains(v) by {
            if x.contains(v) {
                let k = choose|k: int| 0 <= k < x.len() && x[k] == v;
                assert(a[k] == v && a[k] < a[a.len() - 1]);
                assert(a.contains(v));
                let l = choose|l: int| 0 <= l < b.len() && b[l] == v;
                assert(y[l] == v);
            }
            if y.contains(v) {
                let k = choose|k: int| 0 <= k < y.len() && y[k] == v;
                assert(b[k] == v && b[k] < b[b.len() - 1]);
                assert(b.contains(v));
                let l = choose|l: int| 0 <= l < a.len() && a[l] == v;
                assert(x[l] == v);
            }
        }
        lemma_lists_unique(x, y);
        assert(a =~= x.push(a.last()));
        assert(b =~= y.push(b.last()));
    }
}

/// How many slices the `i`-th of `n` members should hold: all seats split
/// as evenly as integers allow, the remainder going to the lowest ids.
pub open spec fn target_of(n: nat, i: int) -> nat {
    (512nat / n + if i < 512nat % n {
        1nat
    } else {
        0nat
    }) as nat
}

/// Seats are even to within one.
pub open spec fn balanced(slices: Seq<Homes>, members: Seq<NodeId>) -> bool {
    forall|i: int|
        0 <= i < members.len() ==> {
            let seats = seat_count(slices, #[trigger] members[i], slices.len()) as int;
            let target = target_of(members.len(), i) as int;
            -1 <= seats - target <= 1
        }
}

/// Why a map is refused, if it is: it must cover every slice with two
/// distinct homes, name at least two members, and spread slices evenly.
pub open spec fn map_fault(slices: Seq<Homes>, members: Seq<NodeId>) -> Option<FsError> {
    if slices.len() != SLICES {
        Some(FsError::Placement("a map must cover every slice"))
    } else if exists|i: int| 0 <= i < slices.len() && (#[trigger] slices[i])@[0] == slices[i]@[1] {
        Some(FsError::Placement("a slice's two homes must be different members"))
    } else if members.len() < 2 {
        Some(FsError::Placement("a pool needs at least two members"))
    } else if !balanced(slices, members) {
        Some(FsError::Placement("a map must spread slices evenly"))
    } else {
        None
    }
}

/// One copy a reassignment requires: `slice`'s blocks must reach `target`,
/// and `source` is a member that still holds them.
#[derive(Debug, Clone, Copy, PartialEq, Eq)]
pub struct SliceMove {
    pub slice: usize,
    pub source: NodeId,
    pub target: NodeId,
}

/// What a reassignment decided: the new map, the copies it implies, and any
/// slice whose data is simply gone.
#[derive(Debug, Clone, PartialEq, Eq)]
pub struct Reassignment {
    pub map: SliceMap,
    /// Copies to perform, in slice order.
    pub moves: Vec<SliceMove>,
    /// Slices that lost both homes at once. The new map assigns them so the
    /// pool stays well-formed, but no member holds their blocks and no move
    /// can be planned.
    pub orphaned: Vec<usize>,
}

/// Where every slice lives.
#[derive(Debug, Clone, PartialEq, Eq)]
pub struct SliceMap {
    version: u64,
    slices: Vec<Homes>,
}

/// The member set as a table of flags.
fn flags_to_members(flags: &Vec<bool>) -> (members: Vec<NodeId>)
    requires
        flags@.len() == 256,
    ensures
        rising(members@),
        forall|x: NodeId| #[trigger] members@.contains(x) <==> flags@[x as int],
{
    let mut members: Vec<NodeId> = Vec::new();
    let mut i: usize = 0;
    while i < 256
        invariant
            flags@.len() == 256,
            i <= 256,
            rising(members@),
            forall|k: int| 0 <= k < members@.len() ==> #[trigger] members@[k] < i,
            forall|x: NodeId| #[trigger] members@.contains(x) <==> x < i && flags@[x as int],
        decreases 256 - i,
    {
        if flags[i] {
            let ghost before = members@;
            members.push(i as u8);
            proof {
                assert forall|x: NodeId| #[trigger] members@.contains(x) <==> x < i + 1 && flags@[x as int] by {
                    if members@.contains(x) {
                        let k = choose|k: int| 0 <= k < members@.len() && members@[k] == x;
                        if k < before.len() {
                            assert(before.contains(x));
                        }
                    }
                    if x < i + 1 && flags@[x as int] {
                        if x < i {
                            assert(before.contains(x));
                            let k = choose|k: int| 0 <= k < before.len() && before[k] == x;
                            assert(members@[k] == x);
                        } else {
                            assert(members@[before.len() as int] == x);
                        }
                    }
                }
            }
        }
        i += 1;
    }
    members
}

/// The members in order, each once.
fn normalize(members: &Vec<NodeId>) -> (r: Result<Vec<NodeId>>)
    ensures
        match r {
            Ok(list) => lists(list@, members@) && list@.len() >= 2 && list@.len() <= 256,
            Err(e) => e == FsError::Placement("a pool needs at least two members") && (forall|list: Seq<NodeId>| #[trigger]
                lists(list, members@) ==> list.len() < 2),
        },
{
    let mut flags: Vec<bool> = vec![false; 256];
    let mut i: usize = 0;
    while i < members.len()
        invariant
            i <= members@.len(),
            flags@.len() == 256,
            forall|x: NodeId| #[trigger] flags@[x as int] <==> exists|k: int| 0 <= k < i && #[trigger] members@[k] == x,
        decreases members@.len() - i,
    {
        let m: usize = members[i] as usize;
        let ghost before = flags@;
        flags.set(m, true);
        proof {
            assert forall|x: NodeId| #[trigger] flags@[x as int] <==> exists|k: int| 0 <= k < i + 1 && #[trigger] members@[k] == x by {
                if x == members@[i as int] {
                    assert(members@[i as int] == x);
                } else if before[x as int] {
                    let k = choose|k: int| 0 <= k < i && #[trigger] members@[k] == x;
                    assert(members@[k] == x);
                }
            }
        }
        i += 1;
    }
    let list = flags_to_members(&flags);
    proof {
        assert forall|x: NodeId| #[trigger] list@.contains(x) <==> members@.contains(x) by {
            assert(list@.contains(x) <==> flags@[x as int]);
        }
        lemma_rising_len(list@);
        assert forall|other: Seq<NodeId>| #[trigger] lists(other, members@) implies other == list@ by {
            lemma_lists_unique(other, list@);
        }
    }
    if list.len() < 2 {
        return Err(FsError::Placement("a pool needs at least two members"));
    }
    Ok(list)
}

proof fn lemma_rising_len(s: Seq<NodeId>)
    requires
        rising(s),
    ensures
        s.len() <= 256,
{
    if s.len() > 256 {
        lemma_rising_floor(s, 256);
    }
}

proof fn lemma_rising_floor(s: Seq<NodeId>, i: int)
    requires
        rising(s),
        0 <= i < s.len(),
    ensures
        s[i] >= i,
    decreases i,
{
    if i > 0 {
        lemma_rising_floor(s, i - 1);
        assert(s[i - 1] < s[i]);
    }
}

/// A ring pair: a member and the next one round.
pub open spec fn ring_pair(members: Seq<NodeId>, i: int) -> (NodeId, NodeId) {
    (members[i], members[(i + 1) % members.len() as int])
}

/// Each slice gets the ring pairs in turn.
pub open spec fn is_ring(slices: Seq<Homes>, members: Seq<NodeId>) -> bool {
    &&& slices.len() == SLICES
    &&& forall|s: int|
        0 <= s < SLICES ==> ((#[trigger] slices[s])@[0], slices[s]@[1]) == ring_pair(
            members,
            s % members.len() as int,
        )
}

impl SliceMap {
    pub closed spec fn at_version(&self) -> u64 {
        self.version
    }

    /// The homes of every slice.
    pub closed spec fn table(&self) -> Seq<Homes> {
        self.slices@
    }

    /// The map covers every slice.
    pub open spec fn covers(&self) -> bool {
        self.table().len() == SLICES
    }

    /// A balanced map for `members`, from nothing. Members are sorted, so
    /// the same set always yields the same map on every node.
    pub fn for_members(version: u64, members: &Vec<NodeId>) -> (r: Result<SliceMap>)
        ensures
            forall|list: Seq<NodeId>| #[trigger]
                lists(list, members@) ==> {
                    &&& list.len() < 2 ==> r == Err::<SliceMap, FsError>(
                        FsError::Placement("a pool needs at least two members"),
                    )
                    &&& list.len() >= 2 ==> r is Ok && is_ring(r->Ok_0.table(), list)
                },
            r matches Ok(map) ==> map.at_version() == version && map.covers() && map.sound(),
    {
        let list = normalize(members)?;
        proof {
            assert forall|other: Seq<NodeId>| #[trigger] lists(other, members@) implies other == list@ by {
                lemma_lists_unique(other, list@);
            }
        }
        let n: usize = list.len();
        let mut slices: Vec<Homes> = Vec::new();
        let mut s: usize = 0;
        while s < SLICES
            invariant
                s <= SLICES,
                n == list@.len() >= 2,
                slices@.len() == s,
                forall|k: int|
                    0 <= k < s ==> ((#[trigger] slices@[k])@[0], slices@[k]@[1]) == ring_pair(list@, k % (n as int)),
            decreases SLICES - s,
        {
            let i: usize = s % n;
            let pair: Homes = [list[i], list[(i + 1) % n]];
            assert(pair@[0] == list@[i as int] && pair@[1] == list@[((i + 1) % n as int) as int]);
            slices.push(pair);
            s += 1;
        }
        let map = SliceMap { version, slices };
        proof {
            assert(is_ring(map.table(), list@));
            map.lemma_ring_members(list@);
            ring::law_a_ring_is_always_valid(map.table(), list@);
        }
        match map.validate() {
            Ok(()) => {},
            Err(e) => {
                return Err(e);
            },
        }
        Ok(map)
    }

    /// A ring's members are those it was dealt to.
    proof fn lemma_ring_members(&self, list: Seq<NodeId>)
        requires
            is_ring(self.table(), list),
            rising(list),
            2 <= list.len() <= 256,
        ensures
            lists_homes(list, self.table()),
    {
        let n = list.len() as int;
        assert forall|x: NodeId| mentioned(self.table(), x) <==> list.contains(x) by {
            if mentioned(self.table(), x) {
                let s = choose|s: int| 0 <= s < self.table().len() && is_home(#[trigger] self.table()[s], x);
                let pair = ring_pair(list, s % n);
                assert(0 <= s % n < n && 0 <= (s % n + 1) % n < n);
                if pair.0 == x {
                    assert(list[s % n] == x);
                } else {
                    assert(list[(s % n + 1) % n] == x);
                }
            }
            if list.contains(x) {
                let i = choose|i: int| 0 <= i < list.len() && list[i] == x;
                assert(i % n == i) by {
                    vstd::arithmetic::div_mod::lemma_small_mod(i as nat, n as nat);
                }
                assert(is_home(self.table()[i], x));
            }
        }
    }

    pub fn version(&self) -> (r: u64)
        ensures
            r == self.at_version(),
    {
        self.version
    }

    /// The homes of one slice.
    pub fn homes(&self, slice: usize) -> (r: Homes)
        requires
            slice < self.table().len(),
        ensures
            r == self.table()[slice as int],
    {
        self.slices[slice]
    }

    /// Where a block lives, by content address.
    pub fn homes_of(&self, hash: &BlockHash) -> (r: Homes)
        requires
            self.covers(),
        ensures
            r == self.home_pair(*hash),
    {
        self.slices[slice_of(hash)]
    }

    /// The homes of a block's slice.
    pub open spec fn home_pair(&self, hash: BlockHash) -> Homes {
        self.table()[hash.0@[0] as int]
    }

    /// Whether `node` stores this block.
    pub fn holds(&self, node: NodeId, hash: &BlockHash) -> (r: bool)
        requires
            self.covers(),
        ensures
            r == is_home(self.home_pair(*hash), node),
    {
        home_here(&self.homes_of(hash), node)
    }

    /// Which member to read a block from: this node if it is a home,
    /// otherwise the slice's read-preference home.
    pub fn read_from(&self, node: NodeId, hash: &BlockHash) -> (r: NodeId)
        requires
            self.covers(),
        ensures
            r == if is_home(self.home_pair(*hash), node) {
                node
            } else {
                self.home_pair(*hash)@[0]
            },
            is_home(self.home_pair(*hash), r),
    {
        let homes = self.homes_of(hash);
        if home_here(&homes, node) {
            node
        } else {
            homes[0]
        }
    }

    /// Every member the map mentions, sorted.
    pub fn members(&self) -> (members: Vec<NodeId>)
        ensures
            lists_homes(members@, self.table()),
    {
        let mut flags: Vec<bool> = vec![false; 256];
        let mut i: usize = 0;
        while i < self.slices.len()
            invariant
                i <= self.slices@.len(),
                flags@.len() == 256,
                forall|x: NodeId| #[trigger] flags@[x as int] <==> mentioned(self.slices@.subrange(0, i as int), x),
            decreases self.slices@.len() - i,
        {
            let homes = self.slices[i];
            let ghost before = flags@;
            flags.set(homes[0] as usize, true);
            flags.set(homes[1] as usize, true);
            proof {
                let shorter = self.slices@.subrange(0, i as int);
                let longer = self.slices@.subrange(0, i + 1);
                assert forall|x: NodeId| #[trigger] flags@[x as int] <==> mentioned(longer, x) by {
                    assert(before[x as int] <==> mentioned(shorter, x));
                    if mentioned(shorter, x) {
                        let k = choose|k: int| 0 <= k < shorter.len() && is_home(#[trigger] shorter[k], x);
                        assert(is_home(longer[k], x));
                    }
                    assert(longer[i as int] == homes);
                    if mentioned(longer, x) && !mentioned(shorter, x) {
                        let k = choose|k: int| 0 <= k < longer.len() && is_home(#[trigger] longer[k], x);
                        if k < i {
                            assert(is_home(shorter[k], x));
                        }
                    }
                }
            }
            i += 1;
        }
        assert(self.slices@.subrange(0, i as int) =~= self.slices@);
        let members = flags_to_members(&flags);
        proof {
            assert forall|x: NodeId| #[trigger] members@.contains(x) <==> mentioned(self.table(), x) by {
                assert(members@.contains(x) <==> flags@[x as int]);
            }
        }
        members
    }

    /// How many slices a member holds: its share of the pool's bytes.
    pub fn seats(&self, node: NodeId) -> (n: usize)
        ensures
            n == seat_count(self.table(), node, self.table().len()),
    {
        let mut n: usize = 0;
        let mut i: usize = 0;
        while i < self.slices.len()
            invariant
                i <= self.slices@.len(),
                n <= i,
                n == seat_count(self.slices@, node, i as nat),
            decreases self.slices@.len() - i,
        {
            if home_here(&self.slices[i], node) {
                n += 1;
            }
            i += 1;
        }
        n
    }

    /// Two distinct homes per slice, at least two members, and seats even
    /// to within one.
    pub open spec fn sound(&self) -> bool {
        forall|members: Seq<NodeId>| #[trigger]
            lists_homes(members, self.table()) ==> map_fault(self.table(), members) is None
    }

    /// Every rule a map must satisfy, checked rather than assumed.
    pub fn validate(&self) -> (r: Result<()>)
        ensures
            forall|members: Seq<NodeId>| #[trigger]
                lists_homes(members, self.table()) ==> match map_fault(self.table(), members) {
                    Some(e) => r == Err::<(), FsError>(e),
                    None => r is Ok,
                },
            r is Ok ==> self.sound() && self.covers(),
    {
        let members = self.members();
        proof {
            assert forall|other: Seq<NodeId>| #[trigger] lists_homes(other, self.table()) implies other == members@ by {
                lemma_lists_unique(other, members@);
            }
            assert(lists_homes(members@, self.table()));
            lemma_rising_len(members@);
        }
        if self.slices.len() != SLICES {
            return Err(FsError::Placement("a map must cover every slice"));
        }
        let mut i: usize = 0;
        while i < SLICES
            invariant
                i <= SLICES,
                self.slices@.len() == SLICES,
                forall|k: int| 0 <= k < i ==> (#[trigger] self.slices@[k])@[0] != self.slices@[k]@[1],
            decreases SLICES - i,
        {
            if self.slices[i][0] == self.slices[i][1] {
                assert(self.slices@[i as int]@[0] == self.slices@[i as int]@[1]);
                return Err(FsError::Placement("a slice's two homes must be different members"));
            }
            i += 1;
        }
        if members.len() < 2 {
            return Err(FsError::Placement("a pool needs at least two members"));
        }
        let n: usize = members.len();
        let base: usize = 512 / n;
        let extra: usize = 512 % n;
        assert(base <= 256) by (nonlinear_arith)
            requires
                base == 512int / (n as int),
                n >= 2,
        ;
        let mut i: usize = 0;
        while i < n
            invariant
                i <= n == members@.len(),
                2 <= n <= 256,
                self.slices@.len() == SLICES,
                base == 512int / (n as int),
                extra == 512int % (n as int),
                base <= 256,
                members@.len() >= 2,
                forall|k: int| 0 <= k < SLICES ==> (#[trigger] self.slices@[k])@[0] != self.slices@[k]@[1],
                forall|other: Seq<NodeId>| #[trigger] lists_homes(other, self.slices@) ==> other == members@,
                forall|k: int|
                    0 <= k < i ==> {
                        let seats = seat_count(self.slices@, #[trigger] members@[k], self.slices@.len()) as int;
                        -1 <= seats - target_of(n as nat, k) <= 1
                    },
            decreases n - i,
        {
            let target: usize = base + if i < extra { 1usize } else { 0usize };
            let seats: usize = self.seats(members[i]);
            assert(target == target_of(n as nat, i as int));
            if seats > target + 1 || seats + 1 < target {
                proof {
                    let m = members@[i as int];
                    assert(seats == seat_count(self.slices@, m, self.slices@.len()));
                }
                return Err(FsError::Placement("a map must spread slices evenly"));
            }
            i += 1;
        }
        Ok(())
    }

    /// The homes of every slice, for encoding.
    pub fn to_pairs(&self) -> (pairs: Vec<Homes>)
        ensures
            pairs@ == self.table(),
    {
        let mut pairs: Vec<Homes> = Vec::new();
        let mut i: usize = 0;
        while i < self.slices.len()
            invariant
                i <= self.slices@.len(),
                pairs@ == self.slices@.subrange(0, i as int),
            decreases self.slices@.len() - i,
        {
            pairs.push(self.slices[i]);
            i += 1;
            assert(pairs@ =~= self.slices@.subrange(0, i as int));
        }
        assert(pairs@ =~= self.slices@);
        pairs
    }

    /// A map from its encoded parts, held to the same rules as any other.
    pub fn from_pairs(version: u64, pairs: Vec<Homes>) -> (r: Result<SliceMap>)
        ensures
            pairs_read(version, pairs@, r),
    {
        let map = SliceMap { version, slices: pairs };
        match map.validate() {
            Ok(()) => Ok(map),
            Err(e) => Err(e),
        }
    }

    /// What a run of home pairs mentions, sorted.
    pub fn named_in(pairs: &Vec<Homes>) -> (members: Vec<NodeId>)
        ensures
            lists_homes(members@, pairs@),
    {
        let mut copy: Vec<Homes> = Vec::new();
        let mut i: usize = 0;
        while i < pairs.len()
            invariant
                i <= pairs@.len(),
                copy@ == pairs@.subrange(0, i as int),
            decreases pairs@.len() - i,
        {
            copy.push(pairs[i]);
            i += 1;
            assert(copy@ =~= pairs@.subrange(0, i as int));
        }
        assert(copy@ =~= pairs@);
        SliceMap { version: 0, slices: copy }.members()
    }

    /// A copy of the map.
    pub fn copied(&self) -> (map: SliceMap)
        ensures
            map.at_version() == self.at_version(),
            map.table() == self.table(),
    {
        SliceMap { version: self.version, slices: self.to_pairs() }
    }
}

/// What reading a map back from its pairs comes to.
pub open spec fn pairs_read(version: u64, pairs: Seq<Homes>, r: Result<SliceMap>) -> bool {
    &&& forall|members: Seq<NodeId>| #[trigger]
        lists_homes(members, pairs) ==> match map_fault(pairs, members) {
            Some(e) => r == Err::<SliceMap, FsError>(e),
            None => r is Ok,
        }
    &&& r matches Ok(map) ==> map.at_version() == version && map.table() == pairs && map.sound() && map.covers()
}

} // verus!
