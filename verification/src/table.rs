//! Maps kept sorted by their keys: block addresses, ids, pairs of them.

use crate::codec::{lemma_array_view_injective, lex_before, lemma_lex_decided};
use crate::hash::BlockHash;
use vstd::prelude::*;

verus! {

/// The entry for `h` stands at `i`.
pub open spec fn entry_for<K, V>(s: Seq<(K, V)>, h: K, i: int) -> bool {
    0 <= i < s.len() && s[i].0 == h
}

/// Some entry is for `h`.
pub open spec fn has_entry<K, V>(s: Seq<(K, V)>, h: K) -> bool {
    exists|i: int| #[trigger] entry_for(s, h, i)
}

/// The map a sequence of entries spells out.
pub open spec fn entries_map<K, V>(s: Seq<(K, V)>) -> Map<K, V> {
    Map::new(
        |h: K| has_entry(s, h),
        |h: K| s[choose|i: int| #[trigger] entry_for(s, h, i)].1,
    )
}

/// A key with a strict total order.
pub trait SortKey: Copy {
    /// `self` sorts before `other`.
    spec fn lt(self, other: Self) -> bool;

    proof fn lemma_transitive(a: Self, b: Self, c: Self)
        requires
            a.lt(b),
            b.lt(c),
        ensures
            a.lt(c),
    ;

    proof fn lemma_asymmetric(a: Self, b: Self)
        requires
            a.lt(b),
        ensures
            !b.lt(a),
            a != b,
    ;

    proof fn lemma_total(a: Self, b: Self)
        requires
            a != b,
        ensures
            a.lt(b) || b.lt(a),
    ;

    fn key_before(&self, other: &Self) -> (r: bool)
        ensures
            r == (*self).lt(*other),
    ;

    fn key_same(&self, other: &Self) -> (r: bool)
        ensures
            r == (*self == *other),
    ;
}

impl SortKey for u64 {
    open spec fn lt(self, other: u64) -> bool {
        self < other
    }

    proof fn lemma_transitive(a: u64, b: u64, c: u64) {
    }

    proof fn lemma_asymmetric(a: u64, b: u64) {
    }

    proof fn lemma_total(a: u64, b: u64) {
    }

    fn key_before(&self, other: &u64) -> (r: bool) {
        *self < *other
    }

    fn key_same(&self, other: &u64) -> (r: bool) {
        *self == *other
    }
}

impl SortKey for u8 {
    open spec fn lt(self, other: u8) -> bool {
        self < other
    }

    proof fn lemma_transitive(a: u8, b: u8, c: u8) {
    }

    proof fn lemma_asymmetric(a: u8, b: u8) {
    }

    proof fn lemma_total(a: u8, b: u8) {
    }

    fn key_before(&self, other: &u8) -> (r: bool) {
        *self < *other
    }

    fn key_same(&self, other: &u8) -> (r: bool) {
        *self == *other
    }
}

/// Which snapshot of which vdisk.
#[derive(Debug, Clone, Copy, PartialEq, Eq)]
pub struct SnapshotId {
    pub vdisk: u64,
    pub snapshot: u64,
}

impl SortKey for SnapshotId {
    open spec fn lt(self, other: SnapshotId) -> bool {
        self.vdisk < other.vdisk || (self.vdisk == other.vdisk && self.snapshot < other.snapshot)
    }

    proof fn lemma_transitive(a: SnapshotId, b: SnapshotId, c: SnapshotId) {
    }

    proof fn lemma_asymmetric(a: SnapshotId, b: SnapshotId) {
    }

    proof fn lemma_total(a: SnapshotId, b: SnapshotId) {
    }

    fn key_before(&self, other: &SnapshotId) -> (r: bool) {
        self.vdisk < other.vdisk || (self.vdisk == other.vdisk && self.snapshot < other.snapshot)
    }

    fn key_same(&self, other: &SnapshotId) -> (r: bool) {
        self.vdisk == other.vdisk && self.snapshot == other.snapshot
    }
}

/// Which block of which vdisk.
#[derive(Debug, Clone, Copy, PartialEq, Eq)]
pub struct BlockRef {
    pub vdisk: u64,
    pub index: u64,
}

impl SortKey for BlockRef {
    open spec fn lt(self, other: BlockRef) -> bool {
        self.vdisk < other.vdisk || (self.vdisk == other.vdisk && self.index < other.index)
    }

    proof fn lemma_transitive(a: BlockRef, b: BlockRef, c: BlockRef) {
    }

    proof fn lemma_asymmetric(a: BlockRef, b: BlockRef) {
    }

    proof fn lemma_total(a: BlockRef, b: BlockRef) {
    }

    fn key_before(&self, other: &BlockRef) -> (r: bool) {
        self.vdisk < other.vdisk || (self.vdisk == other.vdisk && self.index < other.index)
    }

    fn key_same(&self, other: &BlockRef) -> (r: bool) {
        self.vdisk == other.vdisk && self.index == other.index
    }
}

impl SortKey for BlockHash {
    open spec fn lt(self, other: BlockHash) -> bool {
        precedes(self, other)
    }

    proof fn lemma_transitive(a: BlockHash, b: BlockHash, c: BlockHash) {
        lemma_precedes_transitive(a, b, c);
    }

    proof fn lemma_asymmetric(a: BlockHash, b: BlockHash) {
        lemma_precedes_asymmetric(a, b);
    }

    proof fn lemma_total(a: BlockHash, b: BlockHash) {
        lemma_trichotomy(a, b);
    }

    fn key_before(&self, other: &BlockHash) -> (r: bool) {
        self.before(other)
    }

    fn key_same(&self, other: &BlockHash) -> (r: bool) {
        self.same(other)
    }
}

/// A block address in a tier.
#[derive(Debug, Clone, Copy, PartialEq, Eq)]
pub struct TierHash {
    pub tier: u8,
    pub hash: BlockHash,
}

impl SortKey for TierHash {
    open spec fn lt(self, other: TierHash) -> bool {
        self.tier < other.tier || (self.tier == other.tier && precedes(self.hash, other.hash))
    }

    proof fn lemma_transitive(a: TierHash, b: TierHash, c: TierHash) {
        if a.tier == b.tier && b.tier == c.tier {
            lemma_precedes_transitive(a.hash, b.hash, c.hash);
        }
    }

    proof fn lemma_asymmetric(a: TierHash, b: TierHash) {
        if a.tier == b.tier {
            lemma_precedes_asymmetric(a.hash, b.hash);
        }
    }

    proof fn lemma_total(a: TierHash, b: TierHash) {
        if a.tier == b.tier {
            lemma_trichotomy(a.hash, b.hash);
        }
    }

    fn key_before(&self, other: &TierHash) -> (r: bool) {
        self.tier < other.tier || (self.tier == other.tier && self.hash.before(&other.hash))
    }

    fn key_same(&self, other: &TierHash) -> (r: bool) {
        self.tier == other.tier && self.hash.same(&other.hash)
    }
}

/// `a` sorts before `b`.
pub open spec fn precedes(a: BlockHash, b: BlockHash) -> bool {
    lex_before(a.0@, b.0@)
}

/// Strictly ascending.
pub open spec fn ascending<K: SortKey>(s: Seq<K>) -> bool {
    forall|i: int, j: int| 0 <= i < j < s.len() ==> (#[trigger] s[i]).lt(#[trigger] s[j])
}

/// Strictly ascending by key.
pub open spec fn sorted_entries<K: SortKey, V>(s: Seq<(K, V)>) -> bool {
    forall|i: int, j: int|
        0 <= i < j < s.len() ==> (#[trigger] s[i]).0.lt((#[trigger] s[j]).0)
}

proof fn lemma_precedes_transitive(a: BlockHash, b: BlockHash, c: BlockHash)
    requires
        precedes(a, b),
        precedes(b, c),
    ensures
        precedes(a, c),
{
    let (x, y, z) = (a.0@, b.0@, c.0@);
    let i = choose|i: int|
        0 <= i < x.len() && i < y.len() && #[trigger] x[i] < y[i] && forall|k: int|
            0 <= k < i ==> x[k] == y[k];
    let j = choose|j: int|
        0 <= j < y.len() && j < z.len() && #[trigger] y[j] < z[j] && forall|k: int|
            0 <= k < j ==> y[k] == z[k];
    let m = if i < j {
        i
    } else {
        j
    };
    assert(x[m] < z[m]);
    assert forall|k: int| 0 <= k < m implies x[k] == z[k] by {
        assert(x[k] == y[k] && y[k] == z[k]);
    }
}

proof fn lemma_precedes_asymmetric(a: BlockHash, b: BlockHash)
    requires
        precedes(a, b),
    ensures
        !precedes(b, a),
        a != b,
{
    let (x, y) = (a.0@, b.0@);
    let i = choose|i: int|
        0 <= i < x.len() && i < y.len() && #[trigger] x[i] < y[i] && forall|k: int|
            0 <= k < i ==> x[k] == y[k];
    assert forall|k: int| 0 <= k < i implies y[k] == x[k] by {
        assert(x[k] == y[k]);
    }
    lemma_lex_decided(y, x, i);
}

pub proof fn lemma_entry_unique<K: SortKey, V>(s: Seq<(K, V)>, i: int, j: int)
    requires
        sorted_entries(s),
        0 <= i < s.len(),
        0 <= j < s.len(),
        s[i].0 == s[j].0,
    ensures
        i == j,
{
    if i < j {
        K::lemma_asymmetric(s[i].0, s[j].0);
    } else if j < i {
        K::lemma_asymmetric(s[j].0, s[i].0);
    }
}

pub proof fn lemma_entry_value<K: SortKey, V>(s: Seq<(K, V)>, i: int)
    requires
        sorted_entries(s),
        0 <= i < s.len(),
    ensures
        entries_map(s).contains_pair(s[i].0, s[i].1),
{
    let h = s[i].0;
    assert(entry_for(s, h, i));
    let j = choose|j: int| #[trigger] entry_for(s, h, j);
    lemma_entry_unique(s, i, j);
}

/// A map from `K` to `V`.
#[derive(Debug)]
pub struct SortedMap<K, V> {
    entries: Vec<(K, V)>,
}

impl<K: SortKey, V> SortedMap<K, V> {
    pub closed spec fn view(&self) -> Map<K, V> {
        entries_map(self.entries@)
    }

    /// The entries are in key order, each key once.
    pub closed spec fn wf(&self) -> bool {
        sorted_entries(self.entries@)
    }

    /// The entries in key order.
    pub closed spec fn listing(&self) -> Seq<(K, V)> {
        self.entries@
    }

    pub fn new() -> (t: SortedMap<K, V>)
        ensures
            t.wf(),
            t@ == Map::<K, V>::empty(),
            t@.dom().finite(),
    {
        let t = SortedMap { entries: Vec::new() };
        assert(t@ =~= Map::<K, V>::empty());
        t
    }

    /// Where `h` stands, or where it would.
    fn find(&self, h: &K) -> (r: (bool, usize))
        requires
            self.wf(),
        ensures
            r.1 <= self.entries@.len(),
            r.0 ==> r.1 < self.entries@.len() && self.entries@[r.1 as int].0 == *h,
            !r.0 ==> (forall|i: int|
                0 <= i < r.1 ==> (#[trigger] self.entries@[i]).0.lt(*h)) && (forall|i: int|
                r.1 <= i < self.entries@.len() ==> (*h).lt((#[trigger] self.entries@[i]).0)),
            r.0 == self@.contains_key(*h),
    {
        let mut low: usize = 0;
        let mut high: usize = self.entries.len();
        while low < high
            invariant
                self.wf(),
                low <= high <= self.entries@.len(),
                forall|i: int| 0 <= i < low ==> (#[trigger] self.entries@[i]).0.lt(*h),
                forall|i: int|
                    high <= i < self.entries@.len() ==> (*h).lt((#[trigger] self.entries@[i]).0),
            decreases high - low,
        {
            let mid: usize = low + (high - low) / 2;
            let here = self.entries[mid].0;
            if here.key_same(h) {
                assert(entry_for(self.entries@, *h, mid as int));
                return (true, mid);
            }
            if here.key_before(h) {
                assert forall|i: int| 0 <= i < mid + 1 implies (#[trigger] self.entries@[i]).0.lt(*h) by {
                    if i < mid {
                        K::lemma_transitive(self.entries@[i].0, here, *h);
                    }
                }
                low = mid + 1;
            } else {
                proof {
                    K::lemma_total(here, *h);
                    assert forall|i: int| mid <= i < self.entries@.len() implies (*h).lt((#[trigger] self.entries@[i]).0) by {
                        if i > mid {
                            K::lemma_transitive(*h, here, self.entries@[i].0);
                        }
                    }
                }
                high = mid;
            }
        }
        proof {
            if self@.contains_key(*h) {
                let i = choose|i: int| #[trigger] entry_for(self.entries@, *h, i);
                if i < low {
                    K::lemma_asymmetric(self.entries@[i].0, *h);
                } else {
                    K::lemma_asymmetric(*h, self.entries@[i].0);
                }
            }
        }
        (false, low)
    }

    /// The value under a key.
    pub fn get_ref(&self, h: &K) -> (r: Option<&V>)
        requires
            self.wf(),
        ensures
            match r {
                Some(v) => self@.contains_key(*h) && *v == self@[*h],
                None => !self@.contains_key(*h),
            },
    {
        let (found, at) = self.find(h);
        if found {
            proof {
                lemma_entry_value(self.entries@, at as int);
            }
            Some(&self.entries[at].1)
        } else {
            None
        }
    }

    /// Take a key out, with its value.
    pub fn take(&mut self, h: &K) -> (r: Option<V>)
        requires
            old(self).wf(),
        ensures
            final(self).wf(),
            final(self)@ == old(self)@.remove(*h),
            match r {
                Some(v) => old(self)@.contains_key(*h) && v == old(self)@[*h],
                None => !old(self)@.contains_key(*h),
            },
    {
        let (found, at) = self.find(h);
        let ghost before = self.entries@;
        if found {
            let (_, v) = self.entries.remove(at);
            proof {
                lemma_entry_value(before, at as int);
                lemma_remove_entry(before, at as int);
            }
            Some(v)
        } else {
            assert(self@ =~= old(self)@.remove(*h));
            None
        }
    }

    /// The `i`-th key.
    pub fn key_at(&self, i: usize) -> (k: K)
        requires
            self.wf(),
            i < self.listing().len(),
        ensures
            k == self.listing()[i as int].0,
            self@.contains_key(k),
            self@[k] == self.listing()[i as int].1,
    {
        proof {
            lemma_entry_value(self.entries@, i as int);
        }
        self.entries[i].0
    }

    /// The `i`-th value.
    pub fn value_at(&self, i: usize) -> (v: &V)
        requires
            self.wf(),
            i < self.listing().len(),
        ensures
            *v == self.listing()[i as int].1,
            self@.contains_key(self.listing()[i as int].0),
            self@[self.listing()[i as int].0] == *v,
    {
        proof {
            lemma_entry_value(self.entries@, i as int);
        }
        &self.entries[i].1
    }

    pub fn contains(&self, h: &K) -> (r: bool)
        requires
            self.wf(),
        ensures
            r == self@.contains_key(*h),
    {
        self.find(h).0
    }

    pub fn insert(&mut self, h: K, v: V)
        requires
            old(self).wf(),
        ensures
            final(self).wf(),
            final(self)@ == old(self)@.insert(h, v),
    {
        let (found, at) = self.find(&h);
        let ghost before = self.entries@;
        if found {
            self.entries.set(at, (h, v));
        } else {
            self.entries.insert(at, (h, v));
            assert forall|i: int, j: int| 0 <= i < j < self.entries@.len() implies (#[trigger] self.entries@[i]).0.lt((#[trigger] self.entries@[j]).0) by {
                if i < at && j == at {
                    assert(self.entries@[i] == before[i]);
                } else if i == at {
                    assert(self.entries@[j] == before[j - 1]);
                } else {
                    let a = if i < at { i } else { i - 1 };
                    let b = if j < at { j } else { j - 1 };
                    assert(self.entries@[i] == before[a]);
                    assert(self.entries@[j] == before[b]);
                }
            }
        }
        proof {
            let after = self.entries@;
            assert(after[at as int] == (h, v));
            assert forall|k: K| has_entry(after, k) == (k == h || has_entry(before, k)) by {
                if has_entry(after, k) && k != h {
                    let i = choose|i: int| #[trigger] entry_for(after, k, i);
                    let a = if found || i < at { i } else { i - 1 };
                    assert(entry_for(before, k, a));
                }
                if has_entry(before, k) {
                    let i = choose|i: int| #[trigger] entry_for(before, k, i);
                    let a = if found || i < at { i } else { i + 1 };
                    assert(entry_for(after, k, a));
                }
                if k == h {
                    assert(entry_for(after, k, at as int));
                }
            }
            assert forall|k: K| has_entry(after, k) implies entries_map(after)[k]
                == old(self)@.insert(h, v)[k] by {
                let i = choose|i: int| #[trigger] entry_for(after, k, i);
                lemma_entry_value(after, i);
                if k == h {
                    lemma_entry_unique(after, i, at as int);
                } else {
                    let a = if found || i < at { i } else { i - 1 };
                    assert(i != at);
                    assert(before[a] == after[i]);
                    lemma_entry_value(before, a);
                }
            }
            assert(entries_map(after) =~= old(self)@.insert(h, v));
        }
    }

    pub fn remove(&mut self, h: &K) -> (removed: bool)
        requires
            old(self).wf(),
        ensures
            final(self).wf(),
            final(self)@ == old(self)@.remove(*h),
            removed == old(self)@.contains_key(*h),
    {
        match self.take(h) {
            Some(_) => true,
            None => false,
        }
    }

    pub fn len(&self) -> (n: usize)
        requires
            self.wf(),
        ensures
            n == self@.dom().len(),
            n == self.listing().len(),
            self@.dom().finite(),
    {
        proof {
            self.lemma_listing();
        }
        self.entries.len()
    }

    /// The listing names every key of the map once, in order.
    pub proof fn lemma_listing(&self)
        requires
            self.wf(),
        ensures
            self@.dom().finite(),
            self.listing().len() == self@.dom().len(),
            forall|h: K| #[trigger] self@.contains_key(h) <==> has_entry(self.listing(), h),
            forall|i: int|
                0 <= i < self.listing().len() ==> self@.contains_pair(
                    (#[trigger] self.listing()[i]).0,
                    self.listing()[i].1,
                ),
            forall|i: int, j: int|
                0 <= i < j < self.listing().len() ==> (#[trigger] self.listing()[i]).0.lt((#[trigger] self.listing()[j]).0) && self.listing()[i].0 != self.listing()[j].0,
    {
        let s = self.entries@;
        assert forall|i: int| 0 <= i < s.len() implies self@.contains_pair(
            (#[trigger] s[i]).0,
            s[i].1,
        ) by {
            lemma_entry_value(s, i);
        }
        assert forall|i: int, j: int| 0 <= i < j < s.len() implies (#[trigger] s[i]).0.lt((#[trigger] s[j]).0) && s[i].0 != s[j].0 by {
            K::lemma_asymmetric(s[i].0, s[j].0);
        }
        let names = s.map_values(|e: (K, V)| e.0);
        assert(names.no_duplicates()) by {
            assert forall|i: int, j: int| 0 <= i < names.len() && 0 <= j < names.len() && i
                != j implies names[i] != names[j] by {
                if names[i] == names[j] {
                    lemma_entry_unique(s, i, j);
                }
            }
        }
        names.unique_seq_to_set();
        assert forall|h: K| names.to_set().contains(h) == self@.dom().contains(h) by {
            if names.to_set().contains(h) {
                let i = choose|i: int| 0 <= i < names.len() && names[i] == h;
                assert(entry_for(s, h, i));
            }
            if self@.dom().contains(h) {
                let i = choose|i: int| #[trigger] entry_for(s, h, i);
                assert(names[i] == h);
            }
        }
        assert(names.to_set() =~= self@.dom());
    }

    /// The listing spells the map out.
    pub proof fn lemma_view(&self)
        ensures
            self@ == entries_map(self.listing()),
            self.wf() ==> sorted_entries(self.listing()),
    {
    }

    /// Every key of the map, ascending.
    pub fn keys(&self) -> (keys: Vec<K>)
        requires
            self.wf(),
        ensures
            keys@.len() == self@.dom().len(),
            keys@.no_duplicates(),
            ascending(keys@),
            forall|h: K| #[trigger] self@.contains_key(h) <==> keys@.contains(h),
    {
        let mut keys: Vec<K> = Vec::new();
        let mut i: usize = 0;
        while i < self.entries.len()
            invariant
                i <= self.entries@.len(),
                keys@.len() == i,
                forall|k: int| 0 <= k < i ==> #[trigger] keys@[k] == self.entries@[k].0,
            decreases self.entries@.len() - i,
        {
            keys.push(self.entries[i].0);
            i += 1;
        }
        proof {
            self.lemma_listing();
            let s = self.entries@;
            assert forall|h: K| #[trigger] self@.contains_key(h) == keys@.contains(h) by {
                if self@.contains_key(h) {
                    let k = choose|k: int| #[trigger] entry_for(s, h, k);
                    assert(keys@[k] == h);
                }
                if keys@.contains(h) {
                    let k = choose|k: int| 0 <= k < keys@.len() && keys@[k] == h;
                    assert(entry_for(s, h, k));
                }
            }
            assert forall|a: int, b: int| 0 <= a < keys@.len() && 0 <= b < keys@.len() && a
                != b implies keys@[a] != keys@[b] by {
                if keys@[a] == keys@[b] {
                    lemma_entry_unique(s, a, b);
                }
            }
        }
        keys
    }
}

impl<K: SortKey, V: Copy> SortedMap<K, V> {
    pub fn get(&self, h: &K) -> (r: Option<V>)
        requires
            self.wf(),
        ensures
            r == (if self@.contains_key(*h) {
                Some(self@[*h])
            } else {
                None
            }),
    {
        match self.get_ref(h) {
            Some(v) => Some(*v),
            None => None,
        }
    }

    /// The `i`-th entry in key order.
    pub fn entry_at(&self, i: usize) -> (e: (K, V))
        requires
            self.wf(),
            i < self.listing().len(),
        ensures
            e == self.listing()[i as int],
            self@.contains_pair(e.0, e.1),
    {
        proof {
            lemma_entry_value(self.entries@, i as int);
        }
        self.entries[i]
    }
}

/// Taking one entry out of a sorted run.
proof fn lemma_remove_entry<K: SortKey, V>(before: Seq<(K, V)>, at: int)
    requires
        sorted_entries(before),
        0 <= at < before.len(),
    ensures
        sorted_entries(before.remove(at)),
        entries_map(before.remove(at)) == entries_map(before).remove(before[at].0),
{
    let after = before.remove(at);
    let h = before[at].0;
    assert forall|i: int, j: int| 0 <= i < j < after.len() implies (#[trigger] after[i]).0.lt((#[trigger] after[j]).0) by {
        let a = if i < at { i } else { i + 1 };
        let b = if j < at { j } else { j + 1 };
        assert(after[i] == before[a] && after[j] == before[b]);
    }
    assert forall|k: K| has_entry(after, k) == (k != h && has_entry(before, k)) by {
        if has_entry(after, k) {
            let i = choose|i: int| #[trigger] entry_for(after, k, i);
            let a = if i < at { i } else { i + 1 };
            assert(entry_for(before, k, a));
            if k == h {
                lemma_entry_unique(before, a, at);
            }
        }
        if has_entry(before, k) && k != h {
            let i = choose|i: int| #[trigger] entry_for(before, k, i);
            let a = if i < at { i } else { i - 1 };
            assert(entry_for(after, k, a));
        }
    }
    assert forall|k: K| has_entry(after, k) implies entries_map(after)[k] == entries_map(before)[k] by {
        let i = choose|i: int| #[trigger] entry_for(after, k, i);
        lemma_entry_value(after, i);
        let a = if i < at { i } else { i + 1 };
        lemma_entry_value(before, a);
    }
    assert(entries_map(after) =~= entries_map(before).remove(h));
}

/// Of two distinct addresses one sorts before the other.
proof fn lemma_trichotomy(a: BlockHash, b: BlockHash)
    requires
        a != b,
    ensures
        precedes(a, b) || precedes(b, a),
{
    if a.0@ == b.0@ {
        lemma_array_view_injective(a.0, b.0);
    }
    lemma_first_difference(a.0@, b.0@, 0);
}

proof fn lemma_first_difference(x: Seq<u8>, y: Seq<u8>, from: int)
    requires
        x.len() == y.len(),
        0 <= from <= x.len(),
        x != y,
        forall|k: int| 0 <= k < from ==> x[k] == y[k],
    ensures
        lex_before(x, y) || lex_before(y, x),
    decreases x.len() - from,
{
    if from == x.len() {
        assert(x =~= y);
    } else if x[from] == y[from] {
        lemma_first_difference(x, y, from + 1);
    } else {
        lemma_lex_decided(x, y, from);
        assert forall|k: int| 0 <= k < from implies y[k] == x[k] by {
            assert(x[k] == y[k]);
        }
        lemma_lex_decided(y, x, from);
    }
}

/// A map keyed by block address.
pub type BlockTable<V> = SortedMap<BlockHash, V>;

/// A set of block addresses.
pub type BlockSet = SortedMap<BlockHash, ()>;

} // verus!
